//! Cube games: each line lists hands of coloured cube counts; a game is
//! summarised by the largest count shown of each colour.

use vstd::prelude::*;
use crate::text;

verus! {

#[derive(Debug, PartialEq, Eq, Clone)]
pub struct Game {
    pub id: usize,
    pub max_blue: usize,
    pub max_red: usize,
    pub max_green: usize,
}

/// Index of the first occurrence of `c`, or the length when absent.
pub open spec fn char_pos(s: Seq<char>, c: char) -> int
    decreases s.len(),
{
    if s.len() == 0 {
        0
    } else if s[0] == c {
        0
    } else {
        1 + char_pos(s.drop_first(), c)
    }
}

pub proof fn lemma_char_pos(s: Seq<char>, c: char, i: int)
    requires
        0 <= i <= s.len(),
        forall|j: int| 0 <= j < i ==> #[trigger] s[j] != c,
        i < s.len() ==> s[i] == c,
    ensures
        char_pos(s, c) == i,
    decreases i,
{
    if s.len() == 0 {
    } else if i == 0 {
    } else {
        assert(forall|j: int| 0 <= j < i - 1 ==> #[trigger] s.drop_first()[j] == s[j + 1]);
        lemma_char_pos(s.drop_first(), c, i - 1);
    }
}

/// The running colour maxima: blue, red, green.
pub open spec fn upd_entry(m: (int, int, int), entry: Seq<char>) -> (int, int, int) {
    let ps = text::spec_split(text::spec_trim(entry), ' ');
    let v = text::digits_val(ps[0]);
    let name = text::spec_trim(ps[1]);
    if name == "blue"@ {
        (if v > m.0 {
            v
        } else {
            m.0
        }, m.1, m.2)
    } else if name == "red"@ {
        (m.0, if v > m.1 {
            v
        } else {
            m.1
        }, m.2)
    } else {
        (m.0, m.1, if v > m.2 {
            v
        } else {
            m.2
        })
    }
}

pub open spec fn fold_entries(m: (int, int, int), cs: Seq<Seq<char>>) -> (int, int, int)
    decreases cs.len(),
{
    if cs.len() == 0 {
        m
    } else {
        upd_entry(fold_entries(m, cs.drop_last()), cs.last())
    }
}

pub open spec fn fold_hands(m: (int, int, int), hs: Seq<Seq<char>>) -> (int, int, int)
    decreases hs.len(),
{
    if hs.len() == 0 {
        m
    } else {
        fold_entries(fold_hands(m, hs.drop_last()), text::spec_split(hs.last(), ','))
    }
}

/// Where the id text starts: at the first space, or the front.
pub open spec fn spec_id_start(s: Seq<char>) -> int {
    if char_pos(s, ' ') == s.len() {
        0
    } else {
        char_pos(s, ' ')
    }
}

pub open spec fn spec_id_text(s: Seq<char>) -> Seq<char> {
    text::spec_trim(s.subrange(spec_id_start(s), char_pos(s, ':')))
}

pub open spec fn spec_hands(s: Seq<char>) -> Seq<Seq<char>> {
    text::spec_split(text::spec_trim(s.skip(char_pos(s, ':') + 1)), ';')
}

pub open spec fn valid_entry(entry: Seq<char>) -> bool {
    let ps = text::spec_split(text::spec_trim(entry), ' ');
    let name = text::spec_trim(ps[1]);
    &&& ps.len() >= 2
    &&& ps[0].len() > 0
    &&& text::all_digits(ps[0])
    &&& text::digits_val(ps[0]) <= usize::MAX
    &&& (name == "blue"@ || name == "red"@ || name == "green"@)
}

/// A line the game reader accepts: an id between the first space and a
/// colon, then hands of `count colour` entries.
pub open spec fn game_line_ok(s: Seq<char>) -> bool {
    &&& char_pos(s, ':') < s.len()
    &&& spec_id_start(s) <= char_pos(s, ':')
    &&& spec_id_text(s).len() > 0
    &&& text::all_digits(spec_id_text(s))
    &&& text::digits_val(spec_id_text(s)) <= usize::MAX
    &&& forall|h: int, e: int|
        0 <= h < spec_hands(s).len() && 0 <= e < text::spec_split(
            #[trigger] spec_hands(s)[h],
            ',',
        ).len() ==> valid_entry(#[trigger] text::spec_split(spec_hands(s)[h], ',')[e])
}

pub open spec fn spec_game_of(s: Seq<char>) -> (int, int, int) {
    fold_hands((0, 0, 0), spec_hands(s))
}

fn find_char(s: &Vec<char>, c: char) -> (r: usize)
    ensures
        r as int == char_pos(s@, c),
        r <= s.len(),
        r < s.len() ==> s@[r as int] == c,
{
    let mut i: usize = 0;
    while i < s.len()
        invariant
            0 <= i <= s.len(),
            forall|j: int| 0 <= j < i ==> #[trigger] s@[j] != c,
        decreases s.len() - i,
    {
        if s[i] == c {
            proof {
                lemma_char_pos(s@, c, i as int);
            }
            return i;
        }
        i += 1;
    }
    proof {
        lemma_char_pos(s@, c, s@.len() as int);
    }
    s.len()
}

impl Game {
    pub fn new(id: usize, max_blue: usize, max_red: usize, max_green: usize) -> (g: Game)
        ensures
            g.id == id,
            g.max_blue == max_blue,
            g.max_red == max_red,
            g.max_green == max_green,
    {
        Game { id, max_blue, max_red, max_green }
    }

    /// Reads one game line into its id and colour maxima.
    #[verifier::loop_isolation(false)]
    pub fn from_line(line: &str) -> (g: Game)
        requires
            game_line_ok(line@),
        ensures
            g.id == text::digits_val(spec_id_text(line@)),
            g.max_blue == spec_game_of(line@).0,
            g.max_red == spec_game_of(line@).1,
            g.max_green == spec_game_of(line@).2,
    {
        let cs = text::chars_of(line);
        let before_id = find_char(&cs, ' ');
        let before_id: usize = if before_id == cs.len() {
            0
        } else {
            before_id
        };
        let after_id = find_char(&cs, ':');
        let mut id_part: Vec<char> = Vec::new();
        let mut i: usize = before_id;
        while i < after_id
            invariant
                before_id <= i <= after_id <= cs.len(),
                id_part@ =~= cs@.subrange(before_id as int, i as int),
            decreases after_id - i,
        {
            id_part.push(cs[i]);
            i += 1;
        }
        let id_text = text::trim(&id_part);
        proof {
            assert(id_part@ =~= cs@.subrange(spec_id_start(line@), char_pos(line@, ':')));
            assert(id_text@ == spec_id_text(line@));
        }
        let id: usize = match text::parse_u64(&id_text) {
            Some(v) => {
                proof {
                    assert(v <= usize::MAX as u64);
                }
                v as usize
            },
            None => {
                proof {
                    assert(false);
                }
                0
            },
        };
        let mut section: Vec<char> = Vec::new();
        let mut j: usize = after_id + 1;
        while j < cs.len()
            invariant
                after_id + 1 <= j <= cs.len(),
                section@ =~= cs@.subrange(after_id as int + 1, j as int),
            decreases cs.len() - j,
        {
            section.push(cs[j]);
            j += 1;
        }
        let section = text::trim(&section);
        proof {
            assert(cs@.subrange(after_id as int + 1, cs@.len() as int) =~= cs@.skip(
                after_id as int + 1,
            ));
            assert(section@ == text::spec_trim(line@.skip(char_pos(line@, ':') + 1)));
        }
        let hands = text::split_on(&section, ';');
        let ghost hspec = spec_hands(line@);
        proof {
            assert(hands.deep_view() == hspec);
        }
        let mut max_blue: usize = 0;
        let mut max_red: usize = 0;
        let mut max_green: usize = 0;
        let mut h: usize = 0;
        while h < hands.len()
            invariant
                0 <= h <= hands.len(),
                (max_blue as int, max_red as int, max_green as int) == fold_hands(
                    (0, 0, 0),
                    hspec.take(h as int),
                ),
            decreases hands.len() - h,
        {
            proof {
                assert(hands[h as int]@ == hspec[h as int]);
                assert(hspec.take(h as int + 1).drop_last() =~= hspec.take(h as int));
                assert(hspec.take(h as int + 1).last() == hspec[h as int]);
            }
            let colours = text::split_on(&hands[h], ',');
            let ghost cspec = text::spec_split(hspec[h as int], ',');
            let ghost base = (max_blue as int, max_red as int, max_green as int);
            let mut e: usize = 0;
            while e < colours.len()
                invariant
                    0 <= e <= colours.len(),
                    colours.deep_view() == cspec,
                    colours.len() == cspec.len(),
                    (max_blue as int, max_red as int, max_green as int) == fold_entries(
                        base,
                        cspec.take(e as int),
                    ),
                decreases colours.len() - e,
            {
                proof {
                    assert(colours[e as int]@ == cspec[e as int]);
                    assert(cspec.take(e as int + 1).drop_last() =~= cspec.take(e as int));
                    assert(cspec.take(e as int + 1).last() == cspec[e as int]);
                    assert(valid_entry(cspec[e as int]));
                }
                let entry = text::trim(&colours[e]);
                let parts = text::split_on(&entry, ' ');
                proof {
                    assert(parts.deep_view() == text::spec_split(
                        text::spec_trim(cspec[e as int]),
                        ' ',
                    ));
                    assert(parts[0int]@ == text::spec_split(
                        text::spec_trim(cspec[e as int]),
                        ' ',
                    )[0]);
                    assert(parts[1int]@ == text::spec_split(
                        text::spec_trim(cspec[e as int]),
                        ' ',
                    )[1]);
                }
                let count: usize = match text::parse_u64(&parts[0]) {
                    Some(v) => {
                        proof {
                            assert(v <= usize::MAX as u64);
                        }
                        v as usize
                    },
                    None => {
                        proof {
                            assert(false);
                        }
                        0
                    },
                };
                let name = text::trim(&parts[1]);
                let is_blue = text::eq_chars(&name, &text::chars_of("blue"));
                let is_red = text::eq_chars(&name, &text::chars_of("red"));
                if is_blue {
                    if count > max_blue {
                        max_blue = count;
                    }
                } else if is_red {
                    if count > max_red {
                        max_red = count;
                    }
                } else {
                    if count > max_green {
                        max_green = count;
                    }
                }
                e += 1;
            }
            proof {
                assert(cspec.take(cspec.len() as int) =~= cspec);
            }
            h += 1;
        }
        proof {
            assert(hspec.take(hspec.len() as int) =~= hspec);
        }
        Game { id, max_blue, max_red, max_green }
    }

    /// The game needs no more cubes of a colour than the bag offers.
    pub open spec fn spec_fits(self, name: Seq<char>, count: int) -> bool {
        if name == "blue"@ {
            self.max_blue <= count
        } else if name == "red"@ {
            self.max_red <= count
        } else {
            self.max_green <= count
        }
    }

    /// Whether this game is possible with the offered cube counts.
    pub fn check_colours(&self, colours: &Vec<(&str, usize)>) -> (r: bool)
        ensures
            r == forall|k: int|
                0 <= k < colours@.len() ==> self.spec_fits(
                    (#[trigger] colours@[k]).0@,
                    colours@[k].1 as int,
                ),
    {
        let mut k: usize = 0;
        while k < colours.len()
            invariant
                0 <= k <= colours.len(),
                forall|t: int|
                    0 <= t < k ==> self.spec_fits(
                        (#[trigger] colours@[t]).0@,
                        colours@[t].1 as int,
                    ),
            decreases colours.len() - k,
        {
            let (colour, count) = colours[k];
            let is_blue = text::str_is(colour, "blue");
            let is_red = text::str_is(colour, "red");
            if is_blue {
                if self.max_blue > count {
                    proof {
                        assert(!self.spec_fits(colours@[k as int].0@, colours@[k as int].1 as int));
                    }
                    return false;
                }
            } else if is_red {
                if self.max_red > count {
                    return false;
                }
            } else {
                if self.max_green > count {
                    return false;
                }
            }
            k += 1;
        }
        true
    }

    pub open spec fn spec_power(self) -> int {
        self.max_blue * self.max_red * self.max_green
    }

    pub fn get_game_power(&self) -> (r: usize)
        requires
            self.max_blue * self.max_red <= usize::MAX,
            self.spec_power() <= usize::MAX,
        ensures
            r as int == self.spec_power(),
    {
        proof {
            assert(self.max_blue * self.max_red >= 0) by (nonlinear_arith)
                requires
                    self.max_blue >= 0,
                    self.max_red >= 0,
            ;
            assert(self.max_blue * self.max_red * self.max_green >= 0) by (nonlinear_arith)
                requires
                    self.max_blue * self.max_red >= 0,
                    self.max_green >= 0,
            ;
        }
        self.max_blue * self.max_red * self.max_green
    }
}

#[derive(Debug)]
pub struct Games {
    pub games: Vec<Game>,
}

/// Sum of the ids of the games a bag admits.
pub open spec fn spec_ids_sum(gs: Seq<Game>, pairs: Seq<(Seq<char>, int)>) -> int
    decreases gs.len(),
{
    if gs.len() == 0 {
        0
    } else {
        spec_ids_sum(gs.drop_last(), pairs) + if forall|k: int|
            0 <= k < pairs.len() ==> gs.last().spec_fits((#[trigger] pairs[k]).0, pairs[k].1) {
            gs.last().id as int
        } else {
            0
        }
    }
}

/// Sum of the games' cube powers.
pub open spec fn spec_total_power(gs: Seq<Game>) -> int
    decreases gs.len(),
{
    if gs.len() == 0 {
        0
    } else {
        spec_total_power(gs.drop_last()) + gs.last().spec_power()
    }
}

pub open spec fn pairs_view(colours: Seq<(&str, usize)>) -> Seq<(Seq<char>, int)> {
    Seq::new(colours.len(), |k: int| (colours[k].0@, colours[k].1 as int))
}

impl Games {
    pub fn new() -> (r: Games)
        ensures
            r.games@ == Seq::<Game>::empty(),
    {
        Games { games: Vec::new() }
    }

    pub fn add_game(&mut self, game: Game)
        ensures
            final(self).games@ == old(self).games@.push(game),
    {
        self.games.push(game);
    }

    /// Sum of the ids of the games possible with the offered counts.
    #[verifier::loop_isolation(false)]
    pub fn check_colours(&self, colours: &Vec<(&str, usize)>) -> (r: usize)
        requires
            forall|k: int|
                0 <= k <= self.games@.len() ==> 0 <= spec_ids_sum(
                    #[trigger] self.games@.take(k),
                    pairs_view(colours@),
                ) <= usize::MAX,
        ensures
            r as int == spec_ids_sum(self.games@, pairs_view(colours@)),
    {
        let mut sum: usize = 0;
        let mut k: usize = 0;
        while k < self.games.len()
            invariant
                0 <= k <= self.games.len(),
                sum as int == spec_ids_sum(self.games@.take(k as int), pairs_view(colours@)),
            decreases self.games.len() - k,
        {
            proof {
                assert(self.games@.take(k as int + 1).drop_last() =~= self.games@.take(
                    k as int,
                ));
                assert(self.games@.take(k as int + 1).last() == self.games@[k as int]);
            }
            let ok = self.games[k].check_colours(colours);
            proof {
                let pv = pairs_view(colours@);
                assert(forall|t: int|
                    0 <= t < colours@.len() ==> (#[trigger] pv[t]) == (
                        colours@[t].0@,
                        colours@[t].1 as int,
                    ));
                if ok {
                    assert(forall|t: int|
                        0 <= t < pv.len() ==> self.games@[k as int].spec_fits(
                            (#[trigger] pv[t]).0,
                            pv[t].1,
                        ));
                } else {
                    let w = choose|t: int|
                        0 <= t < colours@.len() && !self.games@[k as int].spec_fits(
                            (#[trigger] colours@[t]).0@,
                            colours@[t].1 as int,
                        );
                    assert(!self.games@[k as int].spec_fits(pv[w].0, pv[w].1));
                }
                assert((k as int) + 1 <= self.games@.len());
            }
            if ok {
                sum = sum + self.games[k].id;
            }
            k += 1;
        }
        proof {
            assert(self.games@.take(self.games@.len() as int) =~= self.games@);
        }
        sum
    }

    /// Sum of the power of every game.
    #[verifier::loop_isolation(false)]
    pub fn get_total_power(&self) -> (r: usize)
        requires
            forall|k: int|
                0 <= k < self.games@.len() ==> (#[trigger] self.games@[k]).spec_power()
                    <= usize::MAX && self.games@[k].max_blue * self.games@[k].max_red
                    <= usize::MAX,
            forall|k: int|
                0 <= k <= self.games@.len() ==> 0 <= spec_total_power(
                    #[trigger] self.games@.take(k),
                ) <= usize::MAX,
        ensures
            r as int == spec_total_power(self.games@),
    {
        let mut sum: usize = 0;
        let mut k: usize = 0;
        while k < self.games.len()
            invariant
                0 <= k <= self.games.len(),
                sum as int == spec_total_power(self.games@.take(k as int)),
            decreases self.games.len() - k,
        {
            proof {
                assert(self.games@.take(k as int + 1).drop_last() =~= self.games@.take(
                    k as int,
                ));
                assert(self.games@.take(k as int + 1).last() == self.games@[k as int]);
                assert((k as int) + 1 <= self.games@.len());
            }
            let p = self.games[k].get_game_power();
            sum = sum + p;
            k += 1;
        }
        proof {
            assert(self.games@.take(self.games@.len() as int) =~= self.games@);
        }
        sum
    }
}

} // verus!
