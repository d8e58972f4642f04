//! Scratchcards: each card has winning numbers and scratched numbers;
//! matches double the prize and hand out copies of the following cards.

use vstd::prelude::*;
use crate::text;
use std::collections::HashMap;

verus! {

pub const WINNING_SIZE: usize = 10;

pub const SCRATCH_SIZE: usize = 25;

#[derive(Debug, PartialEq, Eq, Clone, Copy)]
pub struct Card {
    pub id: usize,
    pub winning_numbers: [usize; 10],
    pub scratch_numbers: [usize; 25],
}

#[derive(Debug, Clone, Copy)]
pub struct CopiedCard {
    pub copies: usize,
    pub card: Option<Card>,
}

/// How many distinct scratched values also occur among the winning
/// numbers.
pub open spec fn count_matches(sc: Seq<usize>, win: Seq<usize>) -> int
    decreases sc.len(),
{
    if sc.len() == 0 {
        0
    } else {
        count_matches(sc.drop_last(), win) + if win.contains(sc.last()) && !sc.drop_last().contains(
            sc.last(),
        ) {
            1int
        } else {
            0int
        }
    }
}

pub proof fn lemma_count_matches_le(sc: Seq<usize>, win: Seq<usize>)
    ensures
        0 <= count_matches(sc, win) <= sc.len(),
    decreases sc.len(),
{
    if sc.len() > 0 {
        lemma_count_matches_le(sc.drop_last(), win);
    }
}

/// Two raised to `k`.
pub open spec fn pow2(k: int) -> int
    decreases k,
{
    if k <= 0 {
        1
    } else {
        2 * pow2(k - 1)
    }
}

fn contains_value(v: &[usize], x: usize) -> (r: bool)
    ensures
        r == v@.contains(x),
{
    let mut i: usize = 0;
    while i < v.len()
        invariant
            0 <= i <= v@.len(),
            forall|j: int| 0 <= j < i ==> v@[j] != x,
        decreases v@.len() - i,
    {
        if v[i] == x {
            return true;
        }
        i += 1;
    }
    proof {
        if v@.contains(x) {
            let w = choose|w: int| 0 <= w < v@.len() && v@[w] == x;
            assert(false);
        }
    }
    false
}

fn prefix_contains(v: &[usize], upto: usize, x: usize) -> (r: bool)
    requires
        upto <= v@.len(),
    ensures
        r == v@.take(upto as int).contains(x),
{
    let mut i: usize = 0;
    while i < upto
        invariant
            0 <= i <= upto <= v@.len(),
            forall|j: int| 0 <= j < i ==> v@[j] != x,
        decreases upto - i,
    {
        if v[i] == x {
            proof {
                assert(v@.take(upto as int)[i as int] == x);
            }
            return true;
        }
        i += 1;
    }
    proof {
        if v@.take(upto as int).contains(x) {
            let w = choose|w: int|
                0 <= w < v@.take(upto as int).len() && v@.take(upto as int)[w] == x;
            assert(v@[w] == x);
            assert(false);
        }
    }
    false
}

/// A card line: after `Card` and the id come at least the ten winning
/// numbers, and the line ends with the twenty-five scratched numbers.
pub open spec fn card_line_ok(s: Seq<char>) -> bool {
    let fs = text::spec_fields(s);
    let idt = fs[1].drop_last();
    &&& fs.len() >= 27
    &&& fs[1].len() > 1
    &&& text::all_digits(idt)
    &&& text::digits_val(idt) <= usize::MAX
    &&& forall|k: int|
        0 <= k < 10 ==> {
            let f = #[trigger] fs[k + 2];
            f.len() > 0 && text::all_digits(f) && text::digits_val(f) <= usize::MAX
        }
    &&& forall|k: int|
        0 <= k < 25 ==> {
            let f = #[trigger] fs[fs.len() - 25 + k];
            f.len() > 0 && text::all_digits(f) && text::digits_val(f) <= usize::MAX
        }
}

impl Card {
    /// Reads `Card <id>: w1 .. w10 | s1 .. s25`: the ten fields after
    /// the id are the winning numbers and the last twenty-five fields
    /// are the scratched ones.
    #[verifier::loop_isolation(false)]
    pub fn try_from(line: &str) -> (r: Result<Card, String>)
        ensures
            r is Ok <==> card_line_ok(line@),
            r matches Ok(c) ==> {
                let fs = text::spec_fields(line@);
                &&& c.id as int == text::digits_val(fs[1].drop_last())
                &&& forall|k: int|
                    0 <= k < 10 ==> #[trigger] c.winning_numbers@[k] as int == text::digits_val(
                        fs[k + 2],
                    )
                &&& forall|k: int|
                    0 <= k < 25 ==> #[trigger] c.scratch_numbers@[k] as int == text::digits_val(
                        fs[fs.len() - 25 + k],
                    )
            },
    {
        broadcast use vstd::array::group_array_axioms;

        let cs = text::chars_of(line);
        let fields = text::fields_of(&cs);
        let ghost fs = text::spec_fields(line@);
        if fields.len() < 27 {
            return Err(String::new());
        }
        proof {
            assert(fields[1int]@ == fs[1]);
        }
        if fields[1].len() < 2 {
            return Err(String::new());
        }
        let idf = &fields[1];
        let mut idt: Vec<char> = Vec::new();
        let mut t: usize = 0;
        while t < idf.len() - 1
            invariant
                0 <= t <= idf@.len() - 1,
                idt@ =~= idf@.take(t as int),
            decreases idf@.len() - 1 - t,
        {
            idt.push(idf[t]);
            t += 1;
        }
        proof {
            assert(idt@ =~= fs[1].drop_last());
        }
        let id: usize = match text::parse_u64(&idt) {
            Some(v) if v <= usize::MAX as u64 => v as usize,
            _ => {
                proof {
                    if idt@.len() > 0 && text::all_digits(idt@) {
                        text::lemma_digits_val_nonneg(idt@);
                    }
                }
                return Err(String::new());
            },
        };
        let mut winning_numbers: [usize; 10] = [0; 10];
        let mut k: usize = 0;
        while k < 10
            invariant
                0 <= k <= 10,
                fields.deep_view() == fs,
                fields.len() == fs.len(),
                fs.len() >= 27,
                forall|u: int|
                    0 <= u < k ==> {
                        let f = #[trigger] fs[u + 2];
                        f.len() > 0 && text::all_digits(f) && text::digits_val(f) <= usize::MAX
                    },
                forall|u: int|
                    0 <= u < k ==> #[trigger] winning_numbers@[u] as int == text::digits_val(
                        fs[u + 2],
                    ),
            decreases 10 - k,
        {
            proof {
                assert(fields[k as int + 2]@ == fs[k as int + 2]);
            }
            match text::parse_u64(&fields[k + 2]) {
                Some(v) if v <= usize::MAX as u64 => {
                    winning_numbers[k] = v as usize;
                },
                _ => {
                    proof {
                        if fs[k as int + 2].len() > 0 && text::all_digits(fs[k as int + 2]) {
                            text::lemma_digits_val_nonneg(fs[k as int + 2]);
                        }
                    }
                    return Err(String::new());
                },
            }
            k += 1;
        }
        let base = fields.len() - 25;
        let mut scratch_numbers: [usize; 25] = [0; 25];
        let mut k2: usize = 0;
        while k2 < 25
            invariant
                0 <= k2 <= 25,
                fields.deep_view() == fs,
                fields.len() == fs.len(),
                fs.len() >= 27,
                base == fields.len() - 25,
                forall|u: int|
                    0 <= u < k2 ==> {
                        let f = #[trigger] fs[fs.len() - 25 + u];
                        f.len() > 0 && text::all_digits(f) && text::digits_val(f) <= usize::MAX
                    },
                forall|u: int|
                    0 <= u < k2 ==> #[trigger] scratch_numbers@[u] as int == text::digits_val(
                        fs[fs.len() - 25 + u],
                    ),
            decreases 25 - k2,
        {
            proof {
                assert(fields[base + k2 as int]@ == fs[fs.len() - 25 + k2 as int]);
            }
            match text::parse_u64(&fields[base + k2]) {
                Some(v) if v <= usize::MAX as u64 => {
                    scratch_numbers[k2] = v as usize;
                },
                _ => {
                    proof {
                        if fs[fs.len() - 25 + k2 as int].len() > 0 && text::all_digits(
                            fs[fs.len() - 25 + k2 as int],
                        ) {
                            text::lemma_digits_val_nonneg(fs[fs.len() - 25 + k2 as int]);
                        }
                    }
                    return Err(String::new());
                },
            }
            k2 += 1;
        }
        Ok(Card { id, winning_numbers, scratch_numbers })
    }

    /// Number of distinct scratched values among the winning numbers.
    #[verifier::loop_isolation(false)]
    pub fn number_of_winning_cards(&self) -> (r: usize)
        ensures
            r as int == count_matches(self.scratch_numbers@, self.winning_numbers@),
            r <= 25,
    {
        let ghost sc = self.scratch_numbers@;
        let mut count: usize = 0;
        let mut i: usize = 0;
        while i < 25
            invariant
                0 <= i <= 25,
                sc.len() == 25,
                count as int == count_matches(sc.take(i as int), self.winning_numbers@),
                count <= i,
            decreases 25 - i,
        {
            proof {
                assert(sc.take(i as int + 1).drop_last() =~= sc.take(i as int));
                assert(sc.take(i as int + 1).last() == sc[i as int]);
            }
            let x = self.scratch_numbers[i];
            let in_win = contains_value(&self.winning_numbers, x);
            let seen = prefix_contains(&self.scratch_numbers, i, x);
            if in_win && !seen {
                count = count + 1;
            }
            i += 1;
        }
        proof {
            assert(sc.take(25int) =~= sc);
            lemma_count_matches_le(sc, self.winning_numbers@);
        }
        count
    }

    /// The card's prize: nothing without a match, then doubling from
    /// one point per extra match.
    pub fn calculate_winnings(&self) -> (r: usize)
        ensures
            ({
                let n = count_matches(self.scratch_numbers@, self.winning_numbers@);
                r as int == if n == 0 {
                    0
                } else {
                    pow2(n - 1)
                }
            }),
    {
        let n = self.number_of_winning_cards();
        if n == 0 {
            return 0;
        }
        let mut w: usize = 1;
        let mut k: usize = 0;
        while k < n - 1
            invariant
                0 <= k <= n - 1,
                n <= 25,
                w as int == pow2(k as int),
                w <= 0x100_0000,
            decreases n - k,
        {
            proof {
                lemma_pow2_bound(k as int + 1);
            }
            w = w * 2;
            k += 1;
        }
        w
    }
}

proof fn lemma_pow2_bound(k: int)
    requires
        0 <= k <= 24,
    ensures
        pow2(k) <= 0x100_0000,
{
    lemma_pow2_mono(k, 24);
    assert(pow2(24) == 0x100_0000) by {
        reveal_with_fuel(pow2, 25);
    }
}

proof fn lemma_pow2_mono(a: int, b: int)
    requires
        0 <= a <= b,
    ensures
        pow2(a) <= pow2(b),
        pow2(a) >= 1,
    decreases b - a,
{
    if a < b {
        lemma_pow2_mono(a + 1, b);
    } else {
        lemma_pow2_pos(a);
    }
}

proof fn lemma_pow2_pos(a: int)
    ensures
        pow2(a) >= 1,
    decreases a,
{
    if a > 0 {
        lemma_pow2_pos(a - 1);
    }
}

/// One update of the stack with `mult` copies of card `i`.
pub open spec fn spec_give(m: Map<usize, CopiedCard>, i: usize, mult: usize) -> Map<
    usize,
    CopiedCard,
> {
    if m.dom().contains(i) {
        m.insert(i, CopiedCard { copies: (m[i].copies + mult) as usize, card: m[i].card })
    } else {
        m.insert(i, CopiedCard { copies: mult, card: None })
    }
}

/// Copies handed to the `k` cards after `start - 1`.
pub open spec fn spec_receive(m: Map<usize, CopiedCard>, start: int, mult: usize, k: int) -> Map<
    usize,
    CopiedCard,
>
    decreases k,
{
    if k <= 0 {
        m
    } else {
        spec_receive(spec_give(m, start as usize, mult), start + 1, mult, k - 1)
    }
}

/// No copy counter leaves the machine range while copies are handed out.
pub open spec fn receive_ok(m: Map<usize, CopiedCard>, start: int, mult: usize, k: int) -> bool
    decreases k,
{
    if k <= 0 {
        true
    } else {
        &&& (m.dom().contains(start as usize) ==> m[start as usize].copies + mult <= usize::MAX)
        &&& receive_ok(spec_give(m, start as usize, mult), start + 1, mult, k - 1)
    }
}

/// What adding a card does: the card takes one more copy and its slot,
/// then its matches hand its copy count to the following cards.
pub open spec fn spec_store(m: Map<usize, CopiedCard>, card: Card) -> Map<usize, CopiedCard> {
    if m.dom().contains(card.id) {
        m.insert(
            card.id,
            CopiedCard { copies: (m[card.id].copies + 1) as usize, card: Some(card) },
        )
    } else {
        m.insert(card.id, CopiedCard { copies: 1, card: Some(card) })
    }
}

pub struct CardStack {
    pub cards: HashMap<usize, CopiedCard>,
    pub ids: Vec<usize>,
}

/// Sum of the copies of the real (non-placeholder) cards among `ids`.
pub open spec fn spec_copies_sum(m: Map<usize, CopiedCard>, ids: Seq<usize>) -> int
    decreases ids.len(),
{
    if ids.len() == 0 {
        0
    } else {
        spec_copies_sum(m, ids.drop_last()) + if m.dom().contains(ids.last()) && m[ids.last()].card
            is Some {
            m[ids.last()].copies as int
        } else {
            0
        }
    }
}

impl CardStack {
    /// The id list names exactly the keys of the map, once each.
    pub open spec fn wf(self) -> bool {
        &&& forall|k: int| 0 <= k < self.ids@.len() ==> self.cards@.dom().contains(#[trigger] self.ids@[k])
        &&& forall|x: usize| self.cards@.dom().contains(x) ==> self.ids@.contains(x)
        &&& forall|k: int, t: int|
            0 <= k < t < self.ids@.len() ==> #[trigger] self.ids@[k] != #[trigger] self.ids@[t]
    }

    pub fn new() -> (r: CardStack)
        ensures
            r.wf(),
            r.cards@ == Map::<usize, CopiedCard>::empty(),
            r.ids@ == Seq::<usize>::empty(),
    {
        broadcast use vstd::std_specs::hash::group_hash_axioms;

        let r = CardStack { cards: HashMap::new(), ids: Vec::new() };
        proof {
            assert(r.cards@ =~= Map::<usize, CopiedCard>::empty());
        }
        r
    }

    /// Hands `multiplier` copies to the `new_cards` cards after `id`.
    #[verifier::loop_isolation(false)]
    pub fn recieve_copies(&mut self, id: usize, multiplier: usize, new_cards: usize)
        requires
            old(self).wf(),
            id + new_cards + 1 <= usize::MAX,
            receive_ok(old(self).cards@, id as int + 1, multiplier, new_cards as int),
        ensures
            final(self).wf(),
            final(self).cards@ == spec_receive(
                old(self).cards@,
                id as int + 1,
                multiplier,
                new_cards as int,
            ),
    {
        broadcast use vstd::std_specs::hash::group_hash_axioms;

        let ghost m0 = self.cards@;
        let mut i: usize = id + 1;
        while i < id + new_cards + 1
            invariant
                id + 1 <= i <= id + new_cards + 1,
                self.wf(),
                receive_ok(self.cards@, i as int, multiplier, id + new_cards + 1 - i),
                spec_receive(m0, id as int + 1, multiplier, new_cards as int) == spec_receive(
                    self.cards@,
                    i as int,
                    multiplier,
                    id + new_cards + 1 - i,
                ),
            decreases id + new_cards + 1 - i,
        {
            let ghost before = self.cards@;
            let ghost oldids = self.ids@;
            if self.cards.contains_key(&i) {
                let cur = *self.cards.get(&i).unwrap();
                let updated = CopiedCard { copies: cur.copies + multiplier, card: cur.card };
                self.cards.insert(i, updated);
                proof {
                    assert(self.cards@ =~= spec_give(before, i, multiplier));
                    assert(self.cards@.dom() =~= before.dom());
                }
            } else {
                self.cards.insert(i, CopiedCard { copies: multiplier, card: None });
                self.ids.push(i);
                proof {
                    assert(self.cards@ =~= spec_give(before, i, multiplier));
                    assert(self.ids@ == oldids.push(i));
                    assert forall|x: usize| self.cards@.dom().contains(x) implies #[trigger] self.ids@.contains(x) by {
                        if before.dom().contains(x) {
                            assert(oldids.contains(x));
                            let w = choose|w: int| 0 <= w < oldids.len() && oldids[w] == x;
                            assert(self.ids@[w] == x);
                        } else {
                            assert(x == i);
                            assert(self.ids@[oldids.len() as int] == i);
                        }
                    }
                    assert(forall|k: int|
                        0 <= k < oldids.len() ==> #[trigger] self.ids@[k] == oldids[k]);
                    assert(!oldids.contains(i));
                }
            }
            i += 1;
        }
        proof {
            assert(spec_receive(self.cards@, i as int, multiplier, 0) == self.cards@);
        }
    }

    /// Adds a real card: its slot gains a copy and the card itself, and
    /// its matches hand that copy count onward.
    #[verifier::loop_isolation(false)]
    pub fn add_card(&mut self, card: Card)
        requires
            old(self).wf(),
            old(self).cards@.dom().contains(card.id) ==> {
                &&& old(self).cards@[card.id].card is None
                &&& old(self).cards@[card.id].copies + 1 <= usize::MAX
            },
            card.id + count_matches(card.scratch_numbers@, card.winning_numbers@) + 1
                <= usize::MAX,
            receive_ok(
                spec_store(old(self).cards@, card),
                card.id as int + 1,
                spec_store(old(self).cards@, card)[card.id].copies,
                count_matches(card.scratch_numbers@, card.winning_numbers@),
            ),
        ensures
            final(self).wf(),
            final(self).cards@ == spec_receive(
                spec_store(old(self).cards@, card),
                card.id as int + 1,
                spec_store(old(self).cards@, card)[card.id].copies,
                count_matches(card.scratch_numbers@, card.winning_numbers@),
            ),
    {
        broadcast use vstd::std_specs::hash::group_hash_axioms;

        let id = card.id;
        let number_of_winning_cards = card.number_of_winning_cards();
        let ghost before = self.cards@;
        let ghost oldids = self.ids@;
        if self.cards.contains_key(&id) {
            let cur = *self.cards.get(&id).unwrap();
            let updated = CopiedCard { copies: cur.copies + 1, card: Some(card) };
            self.cards.insert(id, updated);
            proof {
                assert(self.cards@ =~= spec_store(before, card));
                assert(self.cards@.dom() =~= before.dom());
            }
        } else {
            self.cards.insert(id, CopiedCard { copies: 1, card: Some(card) });
            self.ids.push(id);
            proof {
                assert(self.cards@ =~= spec_store(before, card));
                assert(self.ids@ == oldids.push(id));
                assert forall|x: usize| self.cards@.dom().contains(x) implies #[trigger] self.ids@.contains(x) by {
                    if before.dom().contains(x) {
                        assert(oldids.contains(x));
                        let w = choose|w: int| 0 <= w < oldids.len() && oldids[w] == x;
                        assert(self.ids@[w] == x);
                    } else {
                        assert(x == id);
                        assert(self.ids@[oldids.len() as int] == id);
                    }
                }
                assert(forall|k: int|
                    0 <= k < oldids.len() ==> #[trigger] self.ids@[k] == oldids[k]);
                assert(!oldids.contains(id));
            }
        }
        let multiplier = self.cards.get(&id).unwrap().copies;
        self.recieve_copies(id, multiplier, number_of_winning_cards);
    }

    /// Total number of cards held: original cards and their copies,
    /// placeholders not counted.
    #[verifier::loop_isolation(false)]
    pub fn count_copies(&self) -> (r: usize)
        requires
            self.wf(),
            forall|k: int|
                0 <= k <= self.ids@.len() ==> 0 <= spec_copies_sum(
                    self.cards@,
                    #[trigger] self.ids@.take(k),
                ) <= usize::MAX,
        ensures
            r as int == spec_copies_sum(self.cards@, self.ids@),
    {
        broadcast use vstd::std_specs::hash::group_hash_axioms;

        let mut sum: usize = 0;
        let mut k: usize = 0;
        while k < self.ids.len()
            invariant
                0 <= k <= self.ids@.len(),
                sum as int == spec_copies_sum(self.cards@, self.ids@.take(k as int)),
            decreases self.ids@.len() - k,
        {
            proof {
                assert(self.ids@.take(k as int + 1).drop_last() =~= self.ids@.take(k as int));
                assert(self.ids@.take(k as int + 1).last() == self.ids@[k as int]);
                assert((k as int) + 1 <= self.ids@.len());
            }
            let id = self.ids[k];
            let entry = *self.cards.get(&id).unwrap();
            if entry.card.is_some() {
                sum = sum + entry.copies;
            }
            k += 1;
        }
        proof {
            assert(self.ids@.take(self.ids@.len() as int) =~= self.ids@);
        }
        sum
    }
}

} // verus!
