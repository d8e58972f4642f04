//! Galaxy observations: `#` cells on a grid, with empty rows and
//! columns stretched by an expansion amount, and Manhattan distances
//! summed over every pair of galaxies.

use vstd::prelude::*;
use crate::text;

verus! {

#[derive(Debug, Clone)]
pub struct Observation {
    pub galaxies: Vec<(u64, u64)>,
}

pub open spec fn pairs_int(g: Seq<(u64, u64)>) -> Seq<(int, int)> {
    Seq::new(g.len(), |k: int| (g[k].0 as int, g[k].1 as int))
}

/// The galaxies of one line, left to right.
pub open spec fn row_gals(line: Seq<char>, y: int) -> Seq<(int, int)>
    decreases line.len(),
{
    if line.len() == 0 {
        Seq::empty()
    } else {
        row_gals(line.drop_last(), y) + (if line.last() == '#' {
            seq![(line.len() - 1, y)]
        } else {
            Seq::<(int, int)>::empty()
        })
    }
}

/// The galaxies of a grid, in line order.
pub open spec fn galaxies_of(lines: Seq<Seq<char>>) -> Seq<(int, int)>
    decreases lines.len(),
{
    if lines.len() == 0 {
        Seq::empty()
    } else {
        galaxies_of(lines.drop_last()) + row_gals(lines.last(), lines.len() - 1)
    }
}

impl Observation {
    pub fn new() -> (o: Observation)
        ensures
            o.galaxies@ == Seq::<(u64, u64)>::empty(),
    {
        Observation { galaxies: Vec::new() }
    }

    pub fn add_galaxy(&mut self, galaxy: (u64, u64))
        ensures
            final(self).galaxies@ == old(self).galaxies@.push(galaxy),
    {
        self.galaxies.push(galaxy);
    }

    /// Reads the galaxy coordinates out of the grid.
    #[verifier::loop_isolation(false)]
    pub fn parse_map(input: &str) -> (o: Observation)
        ensures
            pairs_int(o.galaxies@) == galaxies_of(text::spec_lines(input@)),
    {
        let cs = text::chars_of(input);
        let lines = text::lines_of(&cs);
        let ghost ls = text::spec_lines(input@);
        let mut observation = Observation::new();
        let mut y: usize = 0;
        while y < lines.len()
            invariant
                0 <= y <= ls.len(),
                lines.deep_view() == ls,
                lines@.len() == ls.len(),
                pairs_int(observation.galaxies@) =~~= galaxies_of(ls.take(y as int)),
            decreases ls.len() - y,
        {
            proof {
                assert(ls.take(y as int + 1).drop_last() =~= ls.take(y as int));
                assert(ls.take(y as int + 1).last() == ls[y as int]);
                assert(lines[y as int]@ == ls[y as int]);
            }
            let row = &lines[y];
            let mut x: usize = 0;
            while x < row.len()
                invariant
                    0 <= x <= row@.len(),
                    row@ == ls[y as int],
                    y < ls.len(),
                    pairs_int(observation.galaxies@) =~~= galaxies_of(ls.take(y as int))
                        + row_gals(ls[y as int].take(x as int), y as int),
                decreases row@.len() - x,
            {
                proof {
                    assert(ls[y as int].take(x as int + 1).drop_last() =~= ls[y as int].take(
                        x as int,
                    ));
                    assert(ls[y as int].take(x as int + 1).last() == ls[y as int][x as int]);
                }
                if row[x] == '#' {
                    let ghost old_g = observation.galaxies@;
                    observation.add_galaxy((x as u64, y as u64));
                    proof {
                        assert(pairs_int(observation.galaxies@) =~~= pairs_int(old_g).push(
                            (x as int, y as int),
                        ));
                    }
                }
                x += 1;
            }
            proof {
                assert(ls[y as int].take(ls[y as int].len() as int) =~= ls[y as int]);
            }
            y += 1;
        }
        proof {
            assert(ls.take(ls.len() as int) =~= ls);
        }
        observation
    }

    /// The largest x coordinate.
    pub open spec fn spec_max_x(g: Seq<(int, int)>) -> int
        decreases g.len(),
    {
        if g.len() == 0 {
            0
        } else {
            let prev = Self::spec_max_x(g.drop_last());
            if g.last().0 > prev {
                g.last().0
            } else {
                prev
            }
        }
    }

    pub open spec fn spec_max_y(g: Seq<(int, int)>) -> int
        decreases g.len(),
    {
        if g.len() == 0 {
            0
        } else {
            let prev = Self::spec_max_y(g.drop_last());
            if g.last().1 > prev {
                g.last().1
            } else {
                prev
            }
        }
    }

    pub open spec fn col_occupied(g: Seq<(int, int)>, c: int) -> bool {
        exists|k: int| 0 <= k < g.len() && (#[trigger] g[k]).0 == c
    }

    pub open spec fn row_occupied(g: Seq<(int, int)>, r: int) -> bool {
        exists|k: int| 0 <= k < g.len() && (#[trigger] g[k]).1 == r
    }

    /// Empty columns left of `upto`.
    pub open spec fn cec(g: Seq<(int, int)>, upto: int) -> int
        decreases upto,
    {
        if upto <= 0 {
            0
        } else {
            Self::cec(g, upto - 1) + if Self::col_occupied(g, upto - 1) {
                0int
            } else {
                1int
            }
        }
    }

    /// Empty rows above `upto`.
    pub open spec fn rec_(g: Seq<(int, int)>, upto: int) -> int
        decreases upto,
    {
        if upto <= 0 {
            0
        } else {
            Self::rec_(g, upto - 1) + if Self::row_occupied(g, upto - 1) {
                0int
            } else {
                1int
            }
        }
    }

    pub open spec fn shift_x(g: Seq<(int, int)>, amount: int, x: int) -> int {
        x + amount * Self::cec(g, x)
    }

    pub open spec fn shift_y(g: Seq<(int, int)>, amount: int, y: int) -> int {
        y + amount * Self::rec_(g, y)
    }

    /// One expanded row of the scan, galaxies at columns below `upto_x`.
    pub open spec fn expand_row(g: Seq<(int, int)>, amount: int, y: int, upto_x: int) -> Seq<
        (int, int),
    >
        decreases upto_x,
    {
        if upto_x <= 0 {
            Seq::empty()
        } else {
            Self::expand_row(g, amount, y, upto_x - 1) + (if g.contains((upto_x - 1, y)) {
                seq![(Self::shift_x(g, amount, upto_x - 1), Self::shift_y(g, amount, y))]
            } else {
                Seq::<(int, int)>::empty()
            })
        }
    }

    /// The expanded scan over the rows below `upto_y`.
    pub open spec fn expand_all(g: Seq<(int, int)>, amount: int, max_x: int, upto_y: int) -> Seq<
        (int, int),
    >
        decreases upto_y,
    {
        if upto_y <= 0 {
            Seq::empty()
        } else {
            Self::expand_all(g, amount, max_x, upto_y - 1) + Self::expand_row(
                g,
                amount,
                upto_y - 1,
                max_x,
            )
        }
    }

    fn has_col(&self, c: u64) -> (b: bool)
        ensures
            b == Self::col_occupied(pairs_int(self.galaxies@), c as int),
    {
        let mut k: usize = 0;
        while k < self.galaxies.len()
            invariant
                0 <= k <= self.galaxies@.len(),
                forall|t: int|
                    0 <= t < k ==> (#[trigger] pairs_int(self.galaxies@)[t]).0 != c as int,
            decreases self.galaxies@.len() - k,
        {
            if self.galaxies[k].0 == c {
                proof {
                    assert(pairs_int(self.galaxies@)[k as int].0 == c as int);
                }
                return true;
            }
            k += 1;
        }
        false
    }

    fn has_row(&self, r: u64) -> (b: bool)
        ensures
            b == Self::row_occupied(pairs_int(self.galaxies@), r as int),
    {
        let mut k: usize = 0;
        while k < self.galaxies.len()
            invariant
                0 <= k <= self.galaxies@.len(),
                forall|t: int|
                    0 <= t < k ==> (#[trigger] pairs_int(self.galaxies@)[t]).1 != r as int,
            decreases self.galaxies@.len() - k,
        {
            if self.galaxies[k].1 == r {
                proof {
                    assert(pairs_int(self.galaxies@)[k as int].1 == r as int);
                }
                return true;
            }
            k += 1;
        }
        false
    }

    fn has_galaxy(&self, x: u64, y: u64) -> (b: bool)
        ensures
            b == pairs_int(self.galaxies@).contains((x as int, y as int)),
    {
        let mut k: usize = 0;
        while k < self.galaxies.len()
            invariant
                0 <= k <= self.galaxies@.len(),
                forall|t: int|
                    0 <= t < k ==> (#[trigger] pairs_int(self.galaxies@)[t]) != (
                        x as int,
                        y as int,
                    ),
            decreases self.galaxies@.len() - k,
        {
            if self.galaxies[k].0 == x && self.galaxies[k].1 == y {
                proof {
                    assert(pairs_int(self.galaxies@)[k as int] == (x as int, y as int));
                }
                return true;
            }
            k += 1;
        }
        proof {
            if pairs_int(self.galaxies@).contains((x as int, y as int)) {
                let w = choose|w: int|
                    0 <= w < pairs_int(self.galaxies@).len() && pairs_int(self.galaxies@)[w] == (
                        x as int,
                        y as int,
                    );
                assert(false);
            }
        }
        false
    }

    fn max_coords(&self) -> (r: (u64, u64))
        requires
            self.galaxies@.len() > 0,
        ensures
            r.0 as int == Self::spec_max_x(pairs_int(self.galaxies@)),
            r.1 as int == Self::spec_max_y(pairs_int(self.galaxies@)),
    {
        let ghost g = pairs_int(self.galaxies@);
        let mut mx: u64 = 0;
        let mut my: u64 = 0;
        let mut k: usize = 0;
        while k < self.galaxies.len()
            invariant
                0 <= k <= self.galaxies@.len(),
                g == pairs_int(self.galaxies@),
                mx as int == Self::spec_max_x(g.take(k as int)),
                my as int == Self::spec_max_y(g.take(k as int)),
            decreases self.galaxies@.len() - k,
        {
            proof {
                assert(g.take(k as int + 1).drop_last() =~= g.take(k as int));
                assert(g.take(k as int + 1).last() == g[k as int]);
            }
            if self.galaxies[k].0 > mx {
                mx = self.galaxies[k].0;
            }
            if self.galaxies[k].1 > my {
                my = self.galaxies[k].1;
            }
            k += 1;
        }
        proof {
            assert(g.take(g.len() as int) =~= g);
        }
        (mx, my)
    }

    /// Stretches every empty row and column by `amount` extra cells:
    /// each galaxy moves by `amount` for every empty line before it,
    /// and the list is rebuilt in row-major scan order.
    #[verifier::loop_isolation(false)]
    pub fn perform_expansion(&mut self, amount: u64)
        requires
            old(self).galaxies@.len() > 0,
            (Self::spec_max_x(pairs_int(old(self).galaxies@)) + 1) * (1 + amount)
                <= u64::MAX,
            (Self::spec_max_y(pairs_int(old(self).galaxies@)) + 1) * (1 + amount)
                <= u64::MAX,
        ensures
            pairs_int(final(self).galaxies@) == Self::expand_all(
                pairs_int(old(self).galaxies@),
                amount as int,
                Self::spec_max_x(pairs_int(old(self).galaxies@)) + 1,
                Self::spec_max_y(pairs_int(old(self).galaxies@)) + 1,
            ),
    {
        let ghost g = pairs_int(self.galaxies@);
        let (mx, my) = self.max_coords();
        proof {
            lemma_max_nonneg(g);
            assert((Self::spec_max_x(g) + 1) <= (Self::spec_max_x(g) + 1) * (1 + amount))
                by (nonlinear_arith)
                requires
                    amount >= 0,
                    Self::spec_max_x(g) + 1 >= 1,
            ;
            assert((Self::spec_max_y(g) + 1) <= (Self::spec_max_y(g) + 1) * (1 + amount))
                by (nonlinear_arith)
                requires
                    amount >= 0,
                    Self::spec_max_y(g) + 1 >= 1,
            ;
        }
        let max_x = mx + 1;
        let max_y = my + 1;
        proof {
            lemma_cec_bound(g, max_x as int);
            lemma_rec_bound(g, max_y as int);
        }
        let mut new_galaxies: Vec<(u64, u64)> = Vec::new();
        let mut new_y: u64 = 0;
        let mut y: u64 = 0;
        while y < max_y
            invariant
                0 <= y <= max_y,
                g == pairs_int(self.galaxies@),
                new_y as int == Self::shift_y(g, amount as int, y as int),
                pairs_int(new_galaxies@) =~~= Self::expand_all(
                    g,
                    amount as int,
                    max_x as int,
                    y as int,
                ),
            decreases max_y - y,
        {
            proof {
                lemma_cec_mono(g, y as int + 1, max_y as int);
                lemma_rec_mono(g, y as int + 1, max_y as int);
                assert(Self::rec_(g, y as int) <= Self::rec_(g, y as int + 1));
                lemma_rec_bound(g, max_y as int);
                lemma_shift_bound_y(g, amount as int, y as int, max_y as int);
            }
            if !self.has_row(y) {
                new_y = new_y + amount;
            }
            proof {
                assert(amount as int * (Self::rec_(g, y as int) + 1) == amount as int
                    * Self::rec_(g, y as int) + amount as int) by (nonlinear_arith);
                assert(Self::rec_(g, y as int + 1) == Self::rec_(g, y as int) + (
                if Self::row_occupied(g, y as int) {
                    0int
                } else {
                    1int
                }));
            }
            let mut new_x: u64 = 0;
            let mut x: u64 = 0;
            while x < max_x
                invariant
                    0 <= x <= max_x,
                    g == pairs_int(self.galaxies@),
                    new_x as int == Self::shift_x(g, amount as int, x as int),
                    new_y as int == Self::shift_y(g, amount as int, y as int) + (
                    if Self::row_occupied(g, y as int) {
                        0int
                    } else {
                        amount as int
                    }),
                    pairs_int(new_galaxies@) =~~= Self::expand_all(
                        g,
                        amount as int,
                        max_x as int,
                        y as int,
                    ) + Self::expand_row(g, amount as int, y as int, x as int),
                decreases max_x - x,
            {
                proof {
                    lemma_cec_mono(g, x as int + 1, max_x as int);
                    lemma_cec_bound(g, max_x as int);
                    lemma_shift_bound_x(g, amount as int, x as int, max_x as int);
                }
                if !self.has_col(x) {
                    new_x = new_x + amount;
                }
                proof {
                    assert(amount as int * (Self::cec(g, x as int) + 1) == amount as int
                        * Self::cec(g, x as int) + amount as int) by (nonlinear_arith);
                    assert(Self::cec(g, x as int + 1) == Self::cec(g, x as int) + (
                    if Self::col_occupied(g, x as int) {
                        0int
                    } else {
                        1int
                    }));
                }
                if self.has_galaxy(x, y) {
                    proof {
                        assert(Self::col_occupied(g, x as int)) by {
                            let w = choose|w: int| 0 <= w < g.len() && g[w] == (x as int, y as int);
                            assert(g[w].0 == x as int);
                        }
                        assert(Self::row_occupied(g, y as int)) by {
                            let w = choose|w: int| 0 <= w < g.len() && g[w] == (x as int, y as int);
                            assert(g[w].1 == y as int);
                        }
                    }
                    let ghost old_n = pairs_int(new_galaxies@);
                    new_galaxies.push((new_x, new_y));
                    proof {
                        assert(pairs_int(new_galaxies@) =~~= old_n.push(
                            (new_x as int, new_y as int),
                        ));
                    }
                }
                new_x = new_x + 1;
                x += 1;
            }
            new_y = new_y + 1;
            y += 1;
        }
        self.galaxies = new_galaxies;
    }

    /// Manhattan distance between two coordinates.
    pub open spec fn spec_distance(a: (int, int), b: (int, int)) -> int {
        (if a.0 >= b.0 {
            a.0 - b.0
        } else {
            b.0 - a.0
        }) + (if a.1 >= b.1 {
            a.1 - b.1
        } else {
            b.1 - a.1
        })
    }

    pub fn calculate_distance(&self, galaxy1: (u64, u64), galaxy2: (u64, u64)) -> (r: u64)
        requires
            galaxy1.0 <= i64::MAX,
            galaxy1.1 <= i64::MAX,
            galaxy2.0 <= i64::MAX,
            galaxy2.1 <= i64::MAX,
        ensures
            r as int == Self::spec_distance(
                (galaxy1.0 as int, galaxy1.1 as int),
                (galaxy2.0 as int, galaxy2.1 as int),
            ),
    {
        let dx = if galaxy1.0 >= galaxy2.0 {
            galaxy1.0 - galaxy2.0
        } else {
            galaxy2.0 - galaxy1.0
        };
        let dy = if galaxy1.1 >= galaxy2.1 {
            galaxy1.1 - galaxy2.1
        } else {
            galaxy2.1 - galaxy1.1
        };
        dx + dy
    }

    /// Distances from every earlier galaxy to `p`.
    pub open spec fn sum_to(g: Seq<(int, int)>, p: (int, int)) -> int
        decreases g.len(),
    {
        if g.len() == 0 {
            0
        } else {
            Self::sum_to(g.drop_last(), p) + Self::spec_distance(g.last(), p)
        }
    }

    /// Sum of the distances over every unordered pair.
    pub open spec fn spec_pair_sum(g: Seq<(int, int)>) -> int
        decreases g.len(),
    {
        if g.len() == 0 {
            0
        } else {
            Self::spec_pair_sum(g.drop_last()) + Self::sum_to(g.drop_last(), g.last())
        }
    }

    /// Sums the Manhattan distances over every galaxy pair.
    #[verifier::loop_isolation(false)]
    pub fn distance_combinations(&self) -> (r: u64)
        requires
            forall|k: int|
                0 <= k < self.galaxies@.len() ==> (#[trigger] self.galaxies@[k]).0 <= i64::MAX
                    && self.galaxies@[k].1 <= i64::MAX,
            Self::spec_pair_sum(pairs_int(self.galaxies@)) <= u64::MAX,
        ensures
            r as int == Self::spec_pair_sum(pairs_int(self.galaxies@)),
    {
        let ghost g = pairs_int(self.galaxies@);
        let mut combinations: u64 = 0;
        let mut i: usize = 0;
        while i < self.galaxies.len()
            invariant
                0 <= i <= g.len(),
                g == pairs_int(self.galaxies@),
                combinations as int == Self::spec_pair_sum(g.take(i as int)),
            decreases g.len() - i,
        {
            proof {
                assert(g.take(i as int + 1).drop_last() =~= g.take(i as int));
                assert(g.take(i as int + 1).last() == g[i as int]);
                lemma_pair_sum_prefix(g, i as int + 1);
            }
            let gi = self.galaxies[i];
            let mut j: usize = 0;
            while j < i
                invariant
                    0 <= j <= i < g.len(),
                    g == pairs_int(self.galaxies@),
                    gi == self.galaxies@[i as int],
                    combinations as int == Self::spec_pair_sum(g.take(i as int)) + Self::sum_to(
                        g.take(j as int),
                        g[i as int],
                    ),
                decreases i - j,
            {
                proof {
                    assert(g.take(j as int + 1).drop_last() =~= g.take(j as int));
                    assert(g.take(j as int + 1).last() == g[j as int]);
                    lemma_sum_to_mono(g, j as int + 1, i as int, g[i as int]);
                    lemma_pair_sum_prefix(g, i as int + 1);
                    lemma_pair_sum_mono(g, i as int + 1);
                    lemma_pair_sum_nonneg(g.take(i as int));
                    lemma_sum_to_nonneg(g.take(j as int), g[i as int]);
                }
                let d = self.calculate_distance(self.galaxies[j], gi);
                combinations = combinations + d;
                j += 1;
            }
            proof {
                assert(g.take(i as int).take(i as int) =~= g.take(i as int));
            }
            i += 1;
        }
        proof {
            assert(g.take(g.len() as int) =~= g);
        }
        combinations
    }

    /// Draws the grid: `#` on each galaxy, `.` elsewhere, one line per
    /// row.
    #[verifier::loop_isolation(false)]
    pub fn print_observation(&self) -> (out: String)
        requires
            self.galaxies@.len() > 0,
            Self::spec_max_x(pairs_int(self.galaxies@)) < u64::MAX,
            Self::spec_max_y(pairs_int(self.galaxies@)) < u64::MAX,
        ensures
            out@ == spec_render(
                pairs_int(self.galaxies@),
                Self::spec_max_x(pairs_int(self.galaxies@)) + 1,
                Self::spec_max_y(pairs_int(self.galaxies@)) + 1,
            ),
    {
        let ghost g = pairs_int(self.galaxies@);
        let (mx, my) = self.max_coords();
        proof {
            lemma_max_nonneg(g);
        }
        let max_x = mx + 1;
        let max_y = my + 1;
        let mut out = String::new();
        let mut y: u64 = 0;
        while y < max_y
            invariant
                0 <= y <= max_y,
                g == pairs_int(self.galaxies@),
                out@ =~= spec_render(g, max_x as int, y as int),
            decreases max_y - y,
        {
            let mut x: u64 = 0;
            while x < max_x
                invariant
                    0 <= x <= max_x,
                    g == pairs_int(self.galaxies@),
                    out@ =~= spec_render(g, max_x as int, y as int) + spec_render_row(
                        g,
                        y as int,
                        x as int,
                    ),
                decreases max_x - x,
            {
                if self.has_galaxy(x, y) {
                    text::push_render_char(&mut out, '#');
                } else {
                    text::push_render_char(&mut out, '.');
                }
                x += 1;
            }
            text::push_render_char(&mut out, '\n');
            y += 1;
        }
        out
    }
}

pub open spec fn spec_render_row(g: Seq<(int, int)>, y: int, upto_x: int) -> Seq<char>
    decreases upto_x,
{
    if upto_x <= 0 {
        Seq::empty()
    } else {
        spec_render_row(g, y, upto_x - 1).push(
            if g.contains((upto_x - 1, y)) {
                '#'
            } else {
                '.'
            },
        )
    }
}

pub open spec fn spec_render(g: Seq<(int, int)>, max_x: int, upto_y: int) -> Seq<char>
    decreases upto_y,
{
    if upto_y <= 0 {
        Seq::empty()
    } else {
        spec_render(g, max_x, upto_y - 1) + spec_render_row(g, upto_y - 1, max_x).push('\n')
    }
}

proof fn lemma_max_nonneg(g: Seq<(int, int)>)
    ensures
        Observation::spec_max_x(g) >= 0,
        Observation::spec_max_y(g) >= 0,
    decreases g.len(),
{
    if g.len() > 0 {
        lemma_max_nonneg(g.drop_last());
    }
}

proof fn lemma_cec_bound(g: Seq<(int, int)>, upto: int)
    ensures
        0 <= Observation::cec(g, upto) <= (if upto >= 0 {
            upto
        } else {
            0
        }),
    decreases upto,
{
    if upto > 0 {
        lemma_cec_bound(g, upto - 1);
    }
}

proof fn lemma_rec_bound(g: Seq<(int, int)>, upto: int)
    ensures
        0 <= Observation::rec_(g, upto) <= (if upto >= 0 {
            upto
        } else {
            0
        }),
    decreases upto,
{
    if upto > 0 {
        lemma_rec_bound(g, upto - 1);
    }
}

proof fn lemma_cec_mono(g: Seq<(int, int)>, a: int, b: int)
    requires
        a <= b,
    ensures
        Observation::cec(g, a) <= Observation::cec(g, b),
    decreases b - a,
{
    if a < b {
        lemma_cec_mono(g, a, b - 1);
    }
}

proof fn lemma_rec_mono(g: Seq<(int, int)>, a: int, b: int)
    requires
        a <= b,
    ensures
        Observation::rec_(g, a) <= Observation::rec_(g, b),
    decreases b - a,
{
    if a < b {
        lemma_rec_mono(g, a, b - 1);
    }
}

proof fn lemma_shift_bound_x(g: Seq<(int, int)>, amount: int, x: int, max_x: int)
    requires
        0 <= x < max_x,
        amount >= 0,
        max_x * (1 + amount) <= u64::MAX,
    ensures
        Observation::shift_x(g, amount, x) + amount + 1 <= u64::MAX,
        Observation::shift_x(g, amount, x) >= 0,
{
    lemma_cec_bound(g, x);
    lemma_cec_mono(g, x, max_x - 1);
    lemma_cec_bound(g, max_x - 1);
    assert(amount * Observation::cec(g, x) <= amount * (max_x - 1)) by (nonlinear_arith)
        requires
            amount >= 0,
            Observation::cec(g, x) <= max_x - 1,
    ;
    assert(amount * Observation::cec(g, x) >= 0) by (nonlinear_arith)
        requires
            amount >= 0,
            Observation::cec(g, x) >= 0,
    ;
    assert(x + amount * (max_x - 1) + amount + 1 <= max_x * (1 + amount)) by (nonlinear_arith)
        requires
            0 <= x < max_x,
            amount >= 0,
    ;
}

proof fn lemma_shift_bound_y(g: Seq<(int, int)>, amount: int, y: int, max_y: int)
    requires
        0 <= y < max_y,
        amount >= 0,
        max_y * (1 + amount) <= u64::MAX,
    ensures
        Observation::shift_y(g, amount, y) + amount + 1 <= u64::MAX,
        Observation::shift_y(g, amount, y) >= 0,
{
    lemma_rec_bound(g, y);
    lemma_rec_mono(g, y, max_y - 1);
    lemma_rec_bound(g, max_y - 1);
    assert(amount * Observation::rec_(g, y) <= amount * (max_y - 1)) by (nonlinear_arith)
        requires
            amount >= 0,
            Observation::rec_(g, y) <= max_y - 1,
    ;
    assert(amount * Observation::rec_(g, y) >= 0) by (nonlinear_arith)
        requires
            amount >= 0,
            Observation::rec_(g, y) >= 0,
    ;
    assert(y + amount * (max_y - 1) + amount + 1 <= max_y * (1 + amount)) by (nonlinear_arith)
        requires
            0 <= y < max_y,
            amount >= 0,
    ;
}

proof fn lemma_sum_to_nonneg(g: Seq<(int, int)>, p: (int, int))
    ensures
        Observation::sum_to(g, p) >= 0,
    decreases g.len(),
{
    if g.len() > 0 {
        lemma_sum_to_nonneg(g.drop_last(), p);
    }
}

proof fn lemma_pair_sum_nonneg(g: Seq<(int, int)>)
    ensures
        Observation::spec_pair_sum(g) >= 0,
    decreases g.len(),
{
    if g.len() > 0 {
        lemma_pair_sum_nonneg(g.drop_last());
        lemma_sum_to_nonneg(g.drop_last(), g.last());
    }
}

proof fn lemma_sum_to_mono(g: Seq<(int, int)>, a: int, b: int, p: (int, int))
    requires
        0 <= a <= b <= g.len(),
    ensures
        Observation::sum_to(g.take(a), p) <= Observation::sum_to(g.take(b), p),
    decreases b - a,
{
    if a < b {
        lemma_sum_to_mono(g, a + 1, b, p);
        assert(g.take(a + 1).drop_last() =~= g.take(a));
    }
}

proof fn lemma_pair_sum_prefix(g: Seq<(int, int)>, k: int)
    requires
        0 < k <= g.len(),
    ensures
        Observation::spec_pair_sum(g.take(k)) == Observation::spec_pair_sum(g.take(k - 1))
            + Observation::sum_to(g.take(k - 1), g[k - 1]),
{
    assert(g.take(k).drop_last() =~= g.take(k - 1));
    assert(g.take(k).last() == g[k - 1]);
}

proof fn lemma_pair_sum_mono(g: Seq<(int, int)>, k: int)
    requires
        0 <= k <= g.len(),
    ensures
        Observation::spec_pair_sum(g.take(k)) <= Observation::spec_pair_sum(g),
    decreases g.len() - k,
{
    if k < g.len() {
        lemma_pair_sum_mono(g, k + 1);
        lemma_pair_sum_prefix(g, k + 1);
        lemma_sum_to_nonneg(g.take(k), g[k]);
    } else {
        assert(g.take(k) =~= g);
    }
}

} // verus!
