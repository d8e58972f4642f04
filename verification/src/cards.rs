//! Card hands: five cards and a bid per line, ranked by hand type with
//! jacks as jokers, then by the card ranks in hand order.

use vstd::prelude::*;
use crate::text;

verus! {

#[derive(Copy, Clone, Eq, PartialEq, Debug)]
pub enum Rank {
    Jack,
    Two,
    Three,
    Four,
    Five,
    Six,
    Seven,
    Eight,
    Nine,
    Ten,
    Queen,
    King,
    Ace,
}

/// The strength of a rank; the jack is the weakest card.
pub open spec fn rv(r: Rank) -> int {
    match r {
        Rank::Jack => 2,
        Rank::Two => 3,
        Rank::Three => 4,
        Rank::Four => 5,
        Rank::Five => 6,
        Rank::Six => 7,
        Rank::Seven => 8,
        Rank::Eight => 9,
        Rank::Nine => 10,
        Rank::Ten => 11,
        Rank::Queen => 12,
        Rank::King => 13,
        Rank::Ace => 14,
    }
}

/// The rank of a given strength; out-of-range values fall to the ace.
pub open spec fn rank_of_val(v: int) -> Rank {
    if v == 2 {
        Rank::Jack
    } else if v == 3 {
        Rank::Two
    } else if v == 4 {
        Rank::Three
    } else if v == 5 {
        Rank::Four
    } else if v == 6 {
        Rank::Five
    } else if v == 7 {
        Rank::Six
    } else if v == 8 {
        Rank::Seven
    } else if v == 9 {
        Rank::Eight
    } else if v == 10 {
        Rank::Nine
    } else if v == 11 {
        Rank::Ten
    } else if v == 12 {
        Rank::Queen
    } else if v == 13 {
        Rank::King
    } else {
        Rank::Ace
    }
}

#[derive(Copy, Clone, Eq, PartialEq, Debug)]
pub struct Card {
    pub rank: Rank,
}

impl Card {
    fn value(&self) -> (v: u8)
        ensures
            v as int == rv(self.rank),
    {
        match self.rank {
            Rank::Jack => 2,
            Rank::Two => 3,
            Rank::Three => 4,
            Rank::Four => 5,
            Rank::Five => 6,
            Rank::Six => 7,
            Rank::Seven => 8,
            Rank::Eight => 9,
            Rank::Nine => 10,
            Rank::Ten => 11,
            Rank::Queen => 12,
            Rank::King => 13,
            Rank::Ace => 14,
        }
    }

    /// The one-character spelling of the card.
    pub open spec fn spec_symbol(r: Rank) -> char {
        match r {
            Rank::Jack => 'J',
            Rank::Two => '2',
            Rank::Three => '3',
            Rank::Four => '4',
            Rank::Five => '5',
            Rank::Six => '6',
            Rank::Seven => '7',
            Rank::Eight => '8',
            Rank::Nine => '9',
            Rank::Ten => 'T',
            Rank::Queen => 'Q',
            Rank::King => 'K',
            Rank::Ace => 'A',
        }
    }

    pub fn symbol(&self) -> (s: String)
        ensures
            s@ =~= seq![Self::spec_symbol(self.rank)],
    {
        let mut out = String::new();
        match self.rank {
            Rank::Jack => {
                proof {
                    reveal_strlit("J");
                }
                out.append("J");
            },
            Rank::Two => {
                proof {
                    reveal_strlit("2");
                }
                out.append("2");
            },
            Rank::Three => {
                proof {
                    reveal_strlit("3");
                }
                out.append("3");
            },
            Rank::Four => {
                proof {
                    reveal_strlit("4");
                }
                out.append("4");
            },
            Rank::Five => {
                proof {
                    reveal_strlit("5");
                }
                out.append("5");
            },
            Rank::Six => {
                proof {
                    reveal_strlit("6");
                }
                out.append("6");
            },
            Rank::Seven => {
                proof {
                    reveal_strlit("7");
                }
                out.append("7");
            },
            Rank::Eight => {
                proof {
                    reveal_strlit("8");
                }
                out.append("8");
            },
            Rank::Nine => {
                proof {
                    reveal_strlit("9");
                }
                out.append("9");
            },
            Rank::Ten => {
                proof {
                    reveal_strlit("T");
                }
                out.append("T");
            },
            Rank::Queen => {
                proof {
                    reveal_strlit("Q");
                }
                out.append("Q");
            },
            Rank::King => {
                proof {
                    reveal_strlit("K");
                }
                out.append("K");
            },
            Rank::Ace => {
                proof {
                    reveal_strlit("A");
                }
                out.append("A");
            },
        }
        out
    }
}

#[derive(Debug, Eq, PartialEq, Clone, Copy)]
pub enum HandType {
    HighCard(Rank),
    OnePair(Rank),
    TwoPair(Rank, Rank),
    ThreeOfAKind(Rank),
    FullHouse(Rank, Rank),
    FourOfAKind(Rank),
    FiveOfAKind(Rank),
}

impl HandType {
    /// The type with its ranks normalised away, for comparing kinds.
    pub fn hand(&self) -> (r: HandType)
        ensures
            r == spec_kind(*self),
    {
        match self {
            HandType::FiveOfAKind(_) => HandType::FiveOfAKind(Rank::Ace),
            HandType::FourOfAKind(_) => HandType::FourOfAKind(Rank::Ace),
            HandType::FullHouse(_, _) => HandType::FullHouse(Rank::Ace, Rank::Ace),
            HandType::ThreeOfAKind(_) => HandType::ThreeOfAKind(Rank::Ace),
            HandType::TwoPair(_, _) => HandType::TwoPair(Rank::Ace, Rank::Ace),
            HandType::OnePair(_) => HandType::OnePair(Rank::Ace),
            HandType::HighCard(_) => HandType::HighCard(Rank::Ace),
        }
    }
}

pub open spec fn spec_kind(t: HandType) -> HandType {
    match t {
        HandType::FiveOfAKind(_) => HandType::FiveOfAKind(Rank::Ace),
        HandType::FourOfAKind(_) => HandType::FourOfAKind(Rank::Ace),
        HandType::FullHouse(_, _) => HandType::FullHouse(Rank::Ace, Rank::Ace),
        HandType::ThreeOfAKind(_) => HandType::ThreeOfAKind(Rank::Ace),
        HandType::TwoPair(_, _) => HandType::TwoPair(Rank::Ace, Rank::Ace),
        HandType::OnePair(_) => HandType::OnePair(Rank::Ace),
        HandType::HighCard(_) => HandType::HighCard(Rank::Ace),
    }
}

/// The ordering index of a hand type.
pub open spec fn type_val(t: HandType) -> int {
    match t {
        HandType::HighCard(_) => 0,
        HandType::OnePair(_) => 1,
        HandType::TwoPair(_, _) => 2,
        HandType::ThreeOfAKind(_) => 3,
        HandType::FullHouse(_, _) => 4,
        HandType::FourOfAKind(_) => 5,
        HandType::FiveOfAKind(_) => 6,
    }
}

#[derive(Debug, Eq, PartialEq, Clone, Copy)]
pub struct Hand {
    pub cards: [Card; 5],
    pub bid: u32,
}

/// How many of the five cards have strength `v`.
pub open spec fn cnt(cs: Seq<Card>, v: int) -> int
    decreases cs.len(),
{
    if cs.len() == 0 {
        0
    } else {
        cnt(cs.drop_last(), v) + if rv(cs.last().rank) == v {
            1int
        } else {
            0int
        }
    }
}

/// How many strengths below `v` occur exactly `c` times.
pub open spec fn num_cnt(cs: Seq<Card>, c: int, v: int) -> int
    decreases v,
{
    if v <= 2 {
        0
    } else {
        num_cnt(cs, c, v - 1) + if cnt(cs, v - 1) == c {
            1int
        } else {
            0int
        }
    }
}

/// The highest strength below `v` occurring exactly `c` times, or zero.
pub open spec fn hi_cnt(cs: Seq<Card>, c: int, v: int) -> int
    decreases v,
{
    if v <= 2 {
        0
    } else if cnt(cs, v - 1) == c {
        v - 1
    } else {
        hi_cnt(cs, c, v - 1)
    }
}

/// The lowest strength below `v` occurring exactly `c` times, or zero.
pub open spec fn lo_cnt(cs: Seq<Card>, c: int, v: int) -> int
    decreases v,
{
    if v <= 2 {
        0
    } else if lo_cnt(cs, c, v - 1) != 0 {
        lo_cnt(cs, c, v - 1)
    } else if cnt(cs, v - 1) == c {
        v - 1
    } else {
        0
    }
}

/// The hand type before jokers are applied.
pub open spec fn base_type(cs: Seq<Card>) -> HandType {
    if num_cnt(cs, 5, 15) >= 1 {
        HandType::FiveOfAKind(rank_of_val(hi_cnt(cs, 5, 15)))
    } else if num_cnt(cs, 4, 15) >= 1 {
        HandType::FourOfAKind(rank_of_val(hi_cnt(cs, 4, 15)))
    } else if num_cnt(cs, 3, 15) >= 1 {
        if num_cnt(cs, 2, 15) >= 1 {
            HandType::FullHouse(
                rank_of_val(hi_cnt(cs, 3, 15)),
                rank_of_val(hi_cnt(cs, 2, 15)),
            )
        } else {
            HandType::ThreeOfAKind(rank_of_val(hi_cnt(cs, 3, 15)))
        }
    } else if num_cnt(cs, 2, 15) >= 2 {
        HandType::TwoPair(rank_of_val(hi_cnt(cs, 2, 15)), rank_of_val(lo_cnt(cs, 2, 15)))
    } else if num_cnt(cs, 2, 15) >= 1 {
        HandType::OnePair(rank_of_val(hi_cnt(cs, 2, 15)))
    } else {
        HandType::HighCard(rank_of_val(hi_cnt(cs, 1, 15)))
    }
}

/// The first card stronger than a two, or the two itself: the stand-in
/// rank a joker promotes to.
pub open spec fn spec_highest_card(cs: Seq<Card>) -> Rank
    decreases cs.len(),
{
    if cs.len() == 0 {
        Rank::Two
    } else if cs[0].rank != Rank::Jack && rv(cs[0].rank) > 3 {
        cs[0].rank
    } else {
        spec_highest_card(cs.drop_first())
    }
}

/// The hand type with jacks playing as jokers.
pub open spec fn spec_hand_type(cs: Seq<Card>) -> HandType {
    let base = base_type(cs);
    let jokers = cnt(cs, 2);
    let high = spec_highest_card(cs);
    if jokers == 0 {
        base
    } else {
        match base {
            HandType::FiveOfAKind(rank) => HandType::FiveOfAKind(rank),
            HandType::FourOfAKind(rank) => if rank == Rank::Jack {
                HandType::FiveOfAKind(high)
            } else {
                HandType::FiveOfAKind(rank)
            },
            HandType::FullHouse(big, small) => if big == Rank::Jack {
                HandType::FiveOfAKind(small)
            } else if small == Rank::Jack {
                HandType::FiveOfAKind(big)
            } else if jokers >= 2 {
                HandType::FiveOfAKind(big)
            } else {
                HandType::FourOfAKind(big)
            },
            HandType::ThreeOfAKind(rank) => HandType::FourOfAKind(rank),
            HandType::TwoPair(big, small) => if big == Rank::Jack {
                HandType::FourOfAKind(small)
            } else if small == Rank::Jack {
                HandType::FourOfAKind(big)
            } else {
                HandType::FullHouse(big, small)
            },
            HandType::OnePair(rank) => if rank == Rank::Jack {
                HandType::ThreeOfAKind(high)
            } else {
                HandType::ThreeOfAKind(rank)
            },
            HandType::HighCard(rank) => if rank == Rank::Jack {
                HandType::OnePair(high)
            } else {
                HandType::OnePair(rank)
            },
        }
    }
}

fn rank_of(v: u8) -> (r: Rank)
    ensures
        r == rank_of_val(v as int),
{
    if v == 2 {
        Rank::Jack
    } else if v == 3 {
        Rank::Two
    } else if v == 4 {
        Rank::Three
    } else if v == 5 {
        Rank::Four
    } else if v == 6 {
        Rank::Five
    } else if v == 7 {
        Rank::Six
    } else if v == 8 {
        Rank::Seven
    } else if v == 9 {
        Rank::Eight
    } else if v == 10 {
        Rank::Nine
    } else if v == 11 {
        Rank::Ten
    } else if v == 12 {
        Rank::Queen
    } else if v == 13 {
        Rank::King
    } else {
        Rank::Ace
    }
}

impl Hand {
    fn count_of(&self, v: u8) -> (r: u8)
        ensures
            r as int == cnt(self.cards@, v as int),
            r <= 5,
    {
        let ghost cs = self.cards@;
        let mut r: u8 = 0;
        let mut i: usize = 0;
        while i < 5
            invariant
                0 <= i <= 5,
                cs.len() == 5,
                cs == self.cards@,
                r as int == cnt(cs.take(i as int), v as int),
                r <= i,
            decreases 5 - i,
        {
            proof {
                assert(cs.take(i as int + 1).drop_last() =~= cs.take(i as int));
                assert(cs.take(i as int + 1).last() == cs[i as int]);
            }
            if self.cards[i].value() == v {
                r = r + 1;
            }
            i += 1;
        }
        proof {
            assert(cs.take(5int) =~= cs);
        }
        r
    }

    fn num_with(&self, c: u8) -> (r: u8)
        ensures
            r as int == num_cnt(self.cards@, c as int, 15),
    {
        let ghost cs = self.cards@;
        let mut r: u8 = 0;
        let mut v: u8 = 2;
        while v < 15
            invariant
                2 <= v <= 15,
                cs == self.cards@,
                r as int == num_cnt(cs, c as int, v as int),
                r as int <= v as int - 2,
            decreases 15 - v,
        {
            if self.count_of(v) == c {
                r = r + 1;
            }
            v = v + 1;
        }
        r
    }

    fn hi_with(&self, c: u8) -> (r: u8)
        ensures
            r as int == hi_cnt(self.cards@, c as int, 15),
    {
        let ghost cs = self.cards@;
        let mut v: u8 = 14;
        loop
            invariant
                2 <= v <= 14,
                cs == self.cards@,
                hi_cnt(cs, c as int, 15) == hi_cnt(cs, c as int, v as int + 1),
            ensures
                hi_cnt(cs, c as int, 15) == if cnt(cs, v as int) == c as int {
                    v as int
                } else {
                    0int
                },
                cnt(cs, v as int) == c as int || v == 2,
            decreases v,
        {
            if self.count_of(v) == c {
                break;
            }
            if v == 2 {
                proof {
                    assert(hi_cnt(cs, c as int, 2int) == 0);
                }
                break;
            }
            v = v - 1;
        }
        if self.count_of(v) == c {
            v
        } else {
            0
        }
    }

    fn lo_with(&self, c: u8) -> (r: u8)
        ensures
            r as int == lo_cnt(self.cards@, c as int, 15),
    {
        let ghost cs = self.cards@;
        let mut v: u8 = 2;
        while v < 15
            invariant
                2 <= v <= 15,
                cs == self.cards@,
                lo_cnt(cs, c as int, v as int) == 0,
            decreases 15 - v,
        {
            if self.count_of(v) == c {
                proof {
                    lemma_lo_cnt_found(cs, c as int, v as int, 15);
                }
                return v;
            }
            v = v + 1;
        }
        0
    }

    fn highest_card(&self) -> (r: Rank)
        ensures
            r == spec_highest_card(self.cards@),
    {
        let ghost cs = self.cards@;
        proof {
            assert(cs.skip(0) =~= cs);
        }
        let mut i: usize = 0;
        while i < 5
            invariant
                0 <= i <= 5,
                cs.len() == 5,
                cs == self.cards@,
                spec_highest_card(cs) == spec_highest_card(cs.skip(i as int)),
            decreases 5 - i,
        {
            proof {
                assert(cs.skip(i as int)[0] == cs[i as int]);
                assert(cs.skip(i as int).drop_first() =~= cs.skip(i as int + 1));
            }
            let card = self.cards[i];
            if card.value() > 3 {
                proof {
                    assert(cs[i as int].rank != Rank::Jack);
                }
                return card.rank;
            }
            i += 1;
        }
        proof {
            assert(cs.skip(5int).len() == 0);
        }
        Rank::Two
    }

    /// The hand's type, jacks playing as jokers.
    pub fn hand_type(&self) -> (t: HandType)
        ensures
            t == spec_hand_type(self.cards@),
    {
        let base: HandType = if self.num_with(5) >= 1 {
            HandType::FiveOfAKind(rank_of(self.hi_with(5)))
        } else if self.num_with(4) >= 1 {
            HandType::FourOfAKind(rank_of(self.hi_with(4)))
        } else if self.num_with(3) >= 1 {
            if self.num_with(2) >= 1 {
                HandType::FullHouse(rank_of(self.hi_with(3)), rank_of(self.hi_with(2)))
            } else {
                HandType::ThreeOfAKind(rank_of(self.hi_with(3)))
            }
        } else if self.num_with(2) >= 2 {
            HandType::TwoPair(rank_of(self.hi_with(2)), rank_of(self.lo_with(2)))
        } else if self.num_with(2) >= 1 {
            HandType::OnePair(rank_of(self.hi_with(2)))
        } else {
            HandType::HighCard(rank_of(self.hi_with(1)))
        };
        proof {
            assert(base == base_type(self.cards@));
        }
        let joker_count = self.count_of(2);
        if joker_count == 0 {
            return base;
        }
        let highest_card = self.highest_card();
        match base {
            HandType::FiveOfAKind(rank) => HandType::FiveOfAKind(rank),
            HandType::FourOfAKind(rank) => {
                if matches!(rank, Rank::Jack) {
                    HandType::FiveOfAKind(highest_card)
                } else {
                    HandType::FiveOfAKind(rank)
                }
            },
            HandType::FullHouse(big_rank, small_rank) => {
                if matches!(big_rank, Rank::Jack) {
                    HandType::FiveOfAKind(small_rank)
                } else if matches!(small_rank, Rank::Jack) {
                    HandType::FiveOfAKind(big_rank)
                } else if joker_count >= 2 {
                    HandType::FiveOfAKind(big_rank)
                } else {
                    HandType::FourOfAKind(big_rank)
                }
            },
            HandType::ThreeOfAKind(rank) => HandType::FourOfAKind(rank),
            HandType::TwoPair(big_rank, small_rank) => {
                if matches!(big_rank, Rank::Jack) {
                    HandType::FourOfAKind(small_rank)
                } else if matches!(small_rank, Rank::Jack) {
                    HandType::FourOfAKind(big_rank)
                } else {
                    HandType::FullHouse(big_rank, small_rank)
                }
            },
            HandType::OnePair(rank) => {
                if matches!(rank, Rank::Jack) {
                    HandType::ThreeOfAKind(highest_card)
                } else {
                    HandType::ThreeOfAKind(rank)
                }
            },
            HandType::HighCard(rank) => {
                if matches!(rank, Rank::Jack) {
                    HandType::OnePair(highest_card)
                } else {
                    HandType::OnePair(rank)
                }
            },
        }
    }

    /// Reads `ABCDE bid`: five card characters, anything, then the bid.
    pub fn try_from(value: &str) -> (r: Result<Hand, &'static str>)
        ensures
            r is Ok <==> cards_ok(value@) && bid_ok(value@),
            r matches Ok(h) ==> {
                &&& forall|k: int| 0 <= k < 5 ==> (#[trigger] h.cards@[k]).rank == char_rank(
                    value@[k],
                )
                &&& h.bid as int == text::digits_val(value@.skip(6))
            },
            r matches Err(e) ==> if !cards_ok(value@) {
                e@ == "Invalid card"@
            } else {
                e@ == "Invalid bid"@
            },
    {
        let cs = text::chars_of(value);
        Hand::try_from_chars(&cs)
    }

    /// The hand reader on an already split line.
    #[verifier::loop_isolation(false)]
    pub fn try_from_chars(chars_in: &Vec<char>) -> (r: Result<Hand, &'static str>)
        ensures
            r is Ok <==> cards_ok(chars_in@) && bid_ok(chars_in@),
            r matches Ok(h) ==> {
                &&& forall|k: int| 0 <= k < 5 ==> (#[trigger] h.cards@[k]).rank == char_rank(
                    chars_in@[k],
                )
                &&& h.bid as int == text::digits_val(chars_in@.skip(6))
            },
            r matches Err(e) ==> if !cards_ok(chars_in@) {
                e@ == "Invalid card"@
            } else {
                e@ == "Invalid bid"@
            },
    {
        broadcast use vstd::array::group_array_axioms;

        let ghost value = chars_in@;
        let cs = chars_in;
        if cs.len() < 5 {
            return Err("Invalid card");
        }
        let mut cards: [Card; 5] = [Card { rank: Rank::Ace };5];
        let mut i: usize = 0;
        while i < 5
            invariant
                0 <= i <= 5,
                cs@ == value,
                cs@.len() >= 5,
                forall|k: int| 0 <= k < i ==> char_rank_ok(#[trigger] value[k]),
                forall|k: int| 0 <= k < i ==> (#[trigger] cards@[k]).rank == char_rank(value[k]),
            decreases 5 - i,
        {
            let c = cs[i];
            let rank = if c == 'A' {
                Rank::Ace
            } else if c == 'K' {
                Rank::King
            } else if c == 'Q' {
                Rank::Queen
            } else if c == 'T' {
                Rank::Ten
            } else if c == '9' {
                Rank::Nine
            } else if c == '8' {
                Rank::Eight
            } else if c == '7' {
                Rank::Seven
            } else if c == '6' {
                Rank::Six
            } else if c == '5' {
                Rank::Five
            } else if c == '4' {
                Rank::Four
            } else if c == '3' {
                Rank::Three
            } else if c == '2' {
                Rank::Two
            } else if c == 'J' {
                Rank::Jack
            } else {
                return Err("Invalid card");
            };
            cards[i] = Card { rank };
            i += 1;
        }
        if cs.len() < 6 {
            return Err("Invalid bid");
        }
        let mut bid_text: Vec<char> = Vec::new();
        let mut j: usize = 6;
        while j < cs.len()
            invariant
                6 <= j <= cs@.len(),
                bid_text@ =~= value.subrange(6, j as int),
            decreases cs@.len() - j,
        {
            bid_text.push(cs[j]);
            j += 1;
        }
        proof {
            assert(bid_text@ =~= value.skip(6));
        }
        let bid: u32 = match text::parse_u64(&bid_text) {
            Some(v) => {
                if v <= u32::MAX as u64 {
                    v as u32
                } else {
                    return Err("Invalid bid");
                }
            },
            None => {
                proof {
                    if bid_text@.len() > 0 && text::all_digits(bid_text@) {
                        text::lemma_digits_val_nonneg(bid_text@);
                    }
                }
                return Err("Invalid bid");
            },
        };
        Ok(Hand { cards, bid })
    }
}

proof fn lemma_lo_cnt_found(cs: Seq<Card>, c: int, v: int, hi: int)
    requires
        2 <= v < hi,
        lo_cnt(cs, c, v) == 0,
        cnt(cs, v) == c,
    ensures
        lo_cnt(cs, c, hi) == v,
    decreases hi,
{
    if hi - 1 > v {
        lemma_lo_cnt_found(cs, c, v, hi - 1);
    }
}

/// A valid card character.
pub open spec fn char_rank_ok(c: char) -> bool {
    ||| c == 'A'
    ||| c == 'K'
    ||| c == 'Q'
    ||| c == 'T'
    ||| c == '9'
    ||| c == '8'
    ||| c == '7'
    ||| c == '6'
    ||| c == '5'
    ||| c == '4'
    ||| c == '3'
    ||| c == '2'
    ||| c == 'J'
}

pub open spec fn char_rank(c: char) -> Rank {
    if c == 'A' {
        Rank::Ace
    } else if c == 'K' {
        Rank::King
    } else if c == 'Q' {
        Rank::Queen
    } else if c == 'T' {
        Rank::Ten
    } else if c == '9' {
        Rank::Nine
    } else if c == '8' {
        Rank::Eight
    } else if c == '7' {
        Rank::Seven
    } else if c == '6' {
        Rank::Six
    } else if c == '5' {
        Rank::Five
    } else if c == '4' {
        Rank::Four
    } else if c == '3' {
        Rank::Three
    } else if c == '2' {
        Rank::Two
    } else {
        Rank::Jack
    }
}

pub open spec fn cards_ok(s: Seq<char>) -> bool {
    s.len() >= 5 && forall|k: int| 0 <= k < 5 ==> char_rank_ok(#[trigger] s[k])
}

pub open spec fn bid_ok(s: Seq<char>) -> bool {
    let b = s.skip(6);
    &&& s.len() >= 6
    &&& b.len() > 0
    &&& text::all_digits(b)
    &&& text::digits_val(b) <= u32::MAX
}

/// Lexicographic comparison of the cards from position `i` on.
pub open spec fn lex_le(a: Seq<Card>, b: Seq<Card>, i: int) -> bool
    decreases 5 - i,
{
    if i >= 5 {
        true
    } else if rv(a[i].rank) < rv(b[i].rank) {
        true
    } else if rv(a[i].rank) > rv(b[i].rank) {
        false
    } else {
        lex_le(a, b, i + 1)
    }
}

/// The hand order: weaker type first, ties broken by the cards in hand
/// order.
pub open spec fn spec_le(a: Hand, b: Hand) -> bool {
    let ta = type_val(spec_hand_type(a.cards@));
    let tb = type_val(spec_hand_type(b.cards@));
    if ta < tb {
        true
    } else if ta > tb {
        false
    } else {
        lex_le(a.cards@, b.cards@, 0)
    }
}

pub proof fn lemma_lex_total(a: Seq<Card>, b: Seq<Card>, i: int)
    ensures
        lex_le(a, b, i) || lex_le(b, a, i),
    decreases 5 - i,
{
    if i < 5 && rv(a[i].rank) == rv(b[i].rank) {
        lemma_lex_total(a, b, i + 1);
    }
}

pub proof fn lemma_lex_trans(a: Seq<Card>, b: Seq<Card>, c: Seq<Card>, i: int)
    requires
        lex_le(a, b, i),
        lex_le(b, c, i),
    ensures
        lex_le(a, c, i),
    decreases 5 - i,
{
    if i < 5 && rv(a[i].rank) == rv(b[i].rank) && rv(b[i].rank) == rv(c[i].rank) {
        lemma_lex_trans(a, b, c, i + 1);
    }
}

/// The hand order is total.
pub proof fn lemma_le_total(a: Hand, b: Hand)
    ensures
        spec_le(a, b) || spec_le(b, a),
{
    lemma_lex_total(a.cards@, b.cards@, 0);
}

/// The hand order is transitive.
pub proof fn lemma_le_trans(a: Hand, b: Hand, c: Hand)
    requires
        spec_le(a, b),
        spec_le(b, c),
    ensures
        spec_le(a, c),
{
    if type_val(spec_hand_type(a.cards@)) == type_val(spec_hand_type(b.cards@)) && type_val(
        spec_hand_type(b.cards@),
    ) == type_val(spec_hand_type(c.cards@)) {
        lemma_lex_trans(a.cards@, b.cards@, c.cards@, 0);
    }
}

/// Whether `a` sorts at or before `b`.
#[verifier::loop_isolation(false)]
fn hand_le(a: &Hand, b: &Hand) -> (r: bool)
    ensures
        r == spec_le(*a, *b),
{
    let ta = a.hand_type();
    let tb = b.hand_type();
    let va = type_index(&ta);
    let vb = type_index(&tb);
    if va < vb {
        return true;
    }
    if va > vb {
        return false;
    }
    let mut i: usize = 0;
    while i < 5
        invariant
            0 <= i <= 5,
            lex_le(a.cards@, b.cards@, 0) == lex_le(a.cards@, b.cards@, i as int),
        decreases 5 - i,
    {
        let x = a.cards[i].value();
        let y = b.cards[i].value();
        if x < y {
            return true;
        }
        if x > y {
            return false;
        }
        i += 1;
    }
    true
}

fn type_index(t: &HandType) -> (r: u8)
    ensures
        r as int == type_val(*t),
{
    match t {
        HandType::HighCard(_) => 0,
        HandType::OnePair(_) => 1,
        HandType::TwoPair(_, _) => 2,
        HandType::ThreeOfAKind(_) => 3,
        HandType::FullHouse(_, _) => 4,
        HandType::FourOfAKind(_) => 5,
        HandType::FiveOfAKind(_) => 6,
    }
}

pub open spec fn sorted_hands(v: Seq<Hand>) -> bool {
    forall|i: int, j: int| 0 <= i < j < v.len() ==> spec_le(#[trigger] v[i], #[trigger] v[j])
}

/// What each line of the input parses to, when every line is well
/// formed.
pub open spec fn hand_matches(h: Hand, s: Seq<char>) -> bool {
    &&& forall|k: int| 0 <= k < 5 ==> (#[trigger] h.cards@[k]).rank == char_rank(s[k])
    &&& h.bid as int == text::digits_val(s.skip(6))
}

/// Parses every line into a hand and sorts the hands, weakest first.
/// The result holds exactly the parsed hands, rearranged.
#[verifier::loop_isolation(false)]
pub fn parse_hands(input: &str) -> (r: Result<Vec<Hand>, &'static str>)
    ensures
        r is Ok <==> (forall|k: int|
            0 <= k < text::spec_lines(input@).len() ==> cards_ok(
                #[trigger] text::spec_lines(input@)[k],
            ) && bid_ok(text::spec_lines(input@)[k])),
        r matches Ok(v) ==> {
            &&& sorted_hands(v@)
            &&& exists|raw: Seq<Hand>|
                #![trigger raw.to_multiset()]
                {
                    &&& raw.len() == text::spec_lines(input@).len()
                    &&& (forall|k: int|
                        0 <= k < raw.len() ==> hand_matches(
                            #[trigger] raw[k],
                            text::spec_lines(input@)[k],
                        ))
                    &&& v@.to_multiset() == raw.to_multiset()
                }
        },
{
    broadcast use vstd::seq_lib::group_to_multiset_ensures;

    let cs = text::chars_of(input);
    let lines = text::lines_of(&cs);
    let ghost ls = text::spec_lines(input@);
    let mut hands: Vec<Hand> = Vec::new();
    let mut k: usize = 0;
    while k < lines.len()
        invariant
            0 <= k <= ls.len(),
            lines.deep_view() == ls,
            lines@.len() == ls.len(),
            hands@.len() == k,
            forall|t: int| 0 <= t < k ==> cards_ok(#[trigger] ls[t]) && bid_ok(ls[t]),
            forall|t: int| 0 <= t < k ==> hand_matches(#[trigger] hands@[t], ls[t]),
        decreases ls.len() - k,
    {
        proof {
            assert(lines[k as int]@ == ls[k as int]);
        }
        match Hand::try_from_chars(&lines[k]) {
            Ok(hand) => {
                hands.push(hand);
            },
            Err(e) => {
                proof {
                    assert(!(cards_ok(ls[k as int]) && bid_ok(ls[k as int])));
                }
                return Err(e);
            },
        }
        k += 1;
    }
    let ghost raw = hands@;
    let sorted = sort_hands(hands);
    proof {
        assert(raw.len() == ls.len());
    }
    Ok(sorted)
}

/// Selection sort on the hand order: repeatedly moves the earliest
/// minimal hand over, so equal hands keep their relative order.
#[verifier::loop_isolation(false)]
fn sort_hands(hands: Vec<Hand>) -> (r: Vec<Hand>)
    ensures
        sorted_hands(r@),
        r@.to_multiset() == hands@.to_multiset(),
{
    broadcast use vstd::seq_lib::group_to_multiset_ensures;

    let mut src = hands;
    let mut out: Vec<Hand> = Vec::new();
    let ghost orig = src@;
    while src.len() > 0
        invariant
            sorted_hands(out@),
            forall|i: int, j: int|
                0 <= i < out@.len() && 0 <= j < src@.len() ==> spec_le(
                    #[trigger] out@[i],
                    #[trigger] src@[j],
                ),
            out@.to_multiset().add(src@.to_multiset()) == orig.to_multiset(),
        decreases src.len(),
    {
        let mut m: usize = 0;
        let mut i: usize = 1;
        proof {
            lemma_le_total(src@[0], src@[0]);
        }
        while i < src.len()
            invariant
                0 <= m < i <= src@.len() || (m == 0 && i <= 1),
                m < src@.len(),
                forall|j: int| 0 <= j < i ==> spec_le(src@[m as int], #[trigger] src@[j]),
            decreases src@.len() - i,
        {
            let smaller = hand_le(&src[i], &src[m]);
            let also_ge = hand_le(&src[m], &src[i]);
            if smaller && !also_ge {
                proof {
                    assert forall|j: int| 0 <= j < i + 1 implies spec_le(
                        src@[i as int],
                        #[trigger] src@[j],
                    ) by {
                        if j < i {
                            lemma_le_trans(src@[i as int], src@[m as int], src@[j]);
                        } else {
                            lemma_le_total(src@[i as int], src@[i as int]);
                        }
                    }
                }
                m = i;
            } else {
                proof {
                    lemma_le_total(src@[m as int], src@[i as int]);
                }
            }
            i += 1;
        }
        let ghost pre = src@;
        let x = src.remove(m);
        let ghost preout = out@;
        out.push(x);
        proof {
            assert(pre.remove(m as int).to_multiset() =~= pre.to_multiset().remove(
                pre[m as int],
            ));
            assert(preout.push(x).to_multiset() =~= preout.to_multiset().insert(x));
            assert(out@.to_multiset().add(src@.to_multiset()) =~= orig.to_multiset());
            assert forall|i2: int, j2: int|
                0 <= i2 < j2 < out@.len() implies spec_le(
                #[trigger] out@[i2],
                #[trigger] out@[j2],
            ) by {
                if j2 < out@.len() - 1 {
                    assert(spec_le(preout[i2], preout[j2]));
                } else {
                    assert(out@[j2] == pre[m as int]);
                    assert(spec_le(preout[i2], pre[m as int]));
                }
            }
            assert forall|i2: int, j2: int|
                0 <= i2 < out@.len() && 0 <= j2 < src@.len() implies spec_le(
                #[trigger] out@[i2],
                #[trigger] src@[j2],
            ) by {
                let oj = if j2 < m as int {
                    j2
                } else {
                    j2 + 1
                };
                assert(src@[j2] == pre[oj]);
                if i2 < preout.len() {
                    assert(spec_le(preout[i2], pre[oj]));
                } else {
                    assert(out@[i2] == pre[m as int]);
                    assert(spec_le(pre[m as int], pre[oj]));
                }
            }
        }
    }
    out
}

} // verus!
