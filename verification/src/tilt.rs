//! A platform of rolling `O` stones and fixed `#` cubes: tilting rolls
//! every stone as far as it goes, a spin cycle tilts north, west,
//! south, east in turn, and long spin runs are cut short once a state
//! repeats.

use vstd::prelude::*;
use crate::mirrors::{spec_columns, Pattern};
use crate::text;

verus! {

pub struct Platform {
    pub rows: Vec<Vec<char>>,
    pub columns: Vec<Vec<char>>,
}

/// `n` copies of one character.
pub open spec fn reps(c: char, n: int) -> Seq<char>
    decreases n,
{
    if n <= 0 {
        Seq::empty()
    } else {
        reps(c, n - 1).push(c)
    }
}

/// The first cube at or after `from`, or the length.
pub open spec fn hash_pos(s: Seq<char>, from: int) -> int
    decreases s.len() - from,
{
    if from < 0 || from >= s.len() {
        s.len() as int
    } else if s[from] == '#' {
        from
    } else {
        hash_pos(s, from + 1)
    }
}

pub open spec fn count_os(s: Seq<char>, from: int, to: int) -> int
    decreases to - from,
{
    if from >= to {
        0
    } else {
        count_os(s, from, to - 1) + if s[to - 1] == 'O' {
            1int
        } else {
            0int
        }
    }
}

/// The line from `from` on after every stone rolled toward `from`:
/// cubes stay, and each stretch between cubes packs its stones first.
pub open spec fn slide_from(s: Seq<char>, from: int) -> Seq<char>
    decreases s.len() - from,
    via slide_from_decreases
{
    if from < 0 || from >= s.len() {
        Seq::empty()
    } else if s[from] == '#' {
        seq!['#'] + slide_from(s, from + 1)
    } else {
        let e = hash_pos(s, from);
        let o = count_os(s, from, e);
        reps('O', o) + reps('.', e - from - o) + slide_from(s, e)
    }
}

pub proof fn lemma_hash_pos_range(s: Seq<char>, from: int)
    requires
        0 <= from <= s.len(),
    ensures
        from <= hash_pos(s, from) <= s.len(),
        hash_pos(s, from) < s.len() ==> s[hash_pos(s, from)] == '#',
        forall|j: int| from <= j < hash_pos(s, from) ==> #[trigger] s[j] != '#',
    decreases s.len() - from,
{
    if from < s.len() && s[from] != '#' {
        lemma_hash_pos_range(s, from + 1);
    }
}

#[via_fn]
proof fn slide_from_decreases(s: Seq<char>, from: int) {
    if 0 <= from < s.len() && s[from] != '#' {
        lemma_hash_pos_range(s, from);
    }
}

/// Rolling the stones toward the front of the line.
pub open spec fn slide_low(s: Seq<char>) -> Seq<char> {
    slide_from(s, 0)
}

/// Rolling the stones toward the back of the line.
pub open spec fn slide_high(s: Seq<char>) -> Seq<char> {
    slide_low(s.reverse()).reverse()
}

pub open spec fn slid_low(g: Seq<Seq<char>>) -> Seq<Seq<char>> {
    Seq::new(g.len(), |i: int| slide_low(g[i]))
}

pub open spec fn slid_high(g: Seq<Seq<char>>) -> Seq<Seq<char>> {
    Seq::new(g.len(), |i: int| slide_high(g[i]))
}

fn find_hash(line: &Vec<char>, from: usize) -> (r: usize)
    requires
        from <= line@.len(),
    ensures
        r as int == hash_pos(line@, from as int),
        from <= r <= line@.len(),
{
    let mut i: usize = from;
    while i < line.len()
        invariant
            from <= i <= line@.len(),
            forall|j: int| from <= j < i ==> #[trigger] line@[j] != '#',
            hash_pos(line@, from as int) == hash_pos(line@, i as int),
        decreases line@.len() - i,
    {
        if line[i] == '#' {
            return i;
        }
        i += 1;
    }
    i
}

fn count_stones(line: &Vec<char>, from: usize, to: usize) -> (r: usize)
    requires
        from <= to <= line@.len(),
    ensures
        r as int == count_os(line@, from as int, to as int),
        r <= to - from,
{
    let mut r: usize = 0;
    let mut i: usize = from;
    while i < to
        invariant
            from <= i <= to <= line@.len(),
            r as int == count_os(line@, from as int, i as int),
            r <= i - from,
        decreases to - i,
    {
        if line[i] == 'O' {
            r = r + 1;
        }
        i += 1;
    }
    r
}

/// One line rolled toward its front.
#[verifier::loop_isolation(false)]
fn slide_line(line: &Vec<char>) -> (r: Vec<char>)
    ensures
        r@ == slide_low(line@),
{
    let mut out: Vec<char> = Vec::new();
    let mut i: usize = 0;
    while i < line.len()
        invariant
            0 <= i <= line@.len(),
            slide_low(line@) == out@ + slide_from(line@, i as int),
        decreases line@.len() - i,
    {
        if line[i] == '#' {
            let ghost before = out@;
            out.push('#');
            proof {
                assert(before + (seq!['#'] + slide_from(line@, i as int + 1)) =~= out@
                    + slide_from(line@, i as int + 1));
            }
            i += 1;
        } else {
            proof {
                lemma_hash_pos_range(line@, i as int);
            }
            let e = find_hash(line, i);
            let o = count_stones(line, i, e);
            let ghost base = out@;
            let mut t: usize = 0;
            while t < o
                invariant
                    0 <= t <= o,
                    out@ =~= base + reps('O', t as int),
                decreases o - t,
            {
                out.push('O');
                t += 1;
            }
            let ghost base2 = out@;
            let dots = (e - i) - o;
            let mut t2: usize = 0;
            while t2 < dots
                invariant
                    0 <= t2 <= dots,
                    out@ =~= base2 + reps('.', t2 as int),
                decreases dots - t2,
            {
                out.push('.');
                t2 += 1;
            }
            proof {
                assert(out@ =~= base + (reps('O', o as int) + reps(
                    '.',
                    e as int - i as int - o as int,
                )));
                assert(slide_low(line@) =~= out@ + slide_from(line@, e as int));
            }
            i = e;
        }
    }
    proof {
        assert(slide_from(line@, line@.len() as int) == Seq::<char>::empty());
        assert(out@ =~= slide_low(line@));
    }
    out
}

fn reverse_line(line: &Vec<char>) -> (r: Vec<char>)
    ensures
        r@ == line@.reverse(),
{
    let mut out: Vec<char> = Vec::new();
    let mut i: usize = line.len();
    while i > 0
        invariant
            0 <= i <= line@.len(),
            out@.len() == line@.len() - i,
            forall|j: int| 0 <= j < out@.len() ==> #[trigger] out@[j] == line@[line@.len() - 1 - j],
        decreases i,
    {
        i -= 1;
        out.push(line[i]);
    }
    proof {
        assert(out@ =~= line@.reverse());
    }
    out
}

/// One line rolled toward its back.
fn slide_line_high(line: &Vec<char>) -> (r: Vec<char>)
    ensures
        r@ == slide_high(line@),
{
    let rev = reverse_line(line);
    let slid = slide_line(&rev);
    reverse_line(&slid)
}

/// Every line of a grid rolled toward its front.
#[verifier::loop_isolation(false)]
fn slide_grid_low(g: &Vec<Vec<char>>) -> (r: Vec<Vec<char>>)
    ensures
        r.deep_view() == slid_low(g.deep_view()),
{
    let mut out: Vec<Vec<char>> = Vec::new();
    let mut i: usize = 0;
    while i < g.len()
        invariant
            0 <= i <= g@.len(),
            out@.len() == i,
            forall|j: int| 0 <= j < i ==> #[trigger] out.deep_view()[j] == slide_low(
                g.deep_view()[j],
            ),
        decreases g@.len() - i,
    {
        proof {
            assert(g@[i as int]@ == g.deep_view()[i as int]);
        }
        let ghost pre = out.deep_view();
        let slid = slide_line(&g[i]);
        out.push(slid);
        proof {
            assert(out.deep_view() =~~= pre.push(slid@));
        }
        i += 1;
    }
    proof {
        assert(out.deep_view() =~~= slid_low(g.deep_view()));
    }
    out
}

/// Every line of a grid rolled toward its back.
#[verifier::loop_isolation(false)]
fn slide_grid_high(g: &Vec<Vec<char>>) -> (r: Vec<Vec<char>>)
    ensures
        r.deep_view() == slid_high(g.deep_view()),
{
    let mut out: Vec<Vec<char>> = Vec::new();
    let mut i: usize = 0;
    while i < g.len()
        invariant
            0 <= i <= g@.len(),
            out@.len() == i,
            forall|j: int| 0 <= j < i ==> #[trigger] out.deep_view()[j] == slide_high(
                g.deep_view()[j],
            ),
        decreases g@.len() - i,
    {
        proof {
            assert(g@[i as int]@ == g.deep_view()[i as int]);
        }
        let ghost pre = out.deep_view();
        let slid = slide_line_high(&g[i]);
        out.push(slid);
        proof {
            assert(out.deep_view() =~~= pre.push(slid@));
        }
        i += 1;
    }
    proof {
        assert(out.deep_view() =~~= slid_high(g.deep_view()));
    }
    out
}

impl Platform {
    pub fn new(rows: Vec<Vec<char>>) -> (p: Platform)
        ensures
            p.rows.deep_view() == rows.deep_view(),
            p.columns.deep_view() == spec_columns(rows.deep_view()),
    {
        let columns = Platform::columns(&rows);
        Platform { rows, columns }
    }

    /// The columns of the row grid.
    pub fn columns(rows: &Vec<Vec<char>>) -> (r: Vec<Vec<char>>)
        ensures
            r.deep_view() == spec_columns(rows.deep_view()),
    {
        Pattern::columns(rows)
    }

    /// The rows of the column grid: the same transposition.
    pub fn rows(columns: &Vec<Vec<char>>) -> (r: Vec<Vec<char>>)
        ensures
            r.deep_view() == spec_columns(columns.deep_view()),
    {
        Pattern::columns(columns)
    }

    /// Reads the platform grid, one line per row.
    pub fn parse_platform(input: &str) -> (p: Platform)
        ensures
            p.rows.deep_view() == text::spec_lines(input@),
            p.columns.deep_view() == spec_columns(text::spec_lines(input@)),
    {
        let cs = text::chars_of(input);
        let rows = text::lines_of(&cs);
        Platform::new(rows)
    }

    /// Rolls every stone as far north as it goes; the result pairs the
    /// row form with the column form.
    pub fn tilt_north(columns: &Vec<Vec<char>>) -> (r: (Vec<Vec<char>>, Vec<Vec<char>>))
        ensures
            r.1.deep_view() == slid_low(columns.deep_view()),
            r.0.deep_view() == spec_columns(slid_low(columns.deep_view())),
    {
        let new_columns = slide_grid_low(columns);
        let new_rows = Platform::rows(&new_columns);
        (new_rows, new_columns)
    }

    /// Rolls every stone as far south as it goes.
    pub fn tilt_south(columns: &Vec<Vec<char>>) -> (r: (Vec<Vec<char>>, Vec<Vec<char>>))
        ensures
            r.1.deep_view() == slid_high(columns.deep_view()),
            r.0.deep_view() == spec_columns(slid_high(columns.deep_view())),
    {
        let new_columns = slide_grid_high(columns);
        let new_rows = Platform::rows(&new_columns);
        (new_rows, new_columns)
    }

    /// Rolls every stone as far west as it goes.
    pub fn tilt_west(rows: &Vec<Vec<char>>) -> (r: (Vec<Vec<char>>, Vec<Vec<char>>))
        ensures
            r.0.deep_view() == slid_low(rows.deep_view()),
            r.1.deep_view() == spec_columns(slid_low(rows.deep_view())),
    {
        let new_rows = slide_grid_low(rows);
        let new_columns = Platform::columns(&new_rows);
        (new_rows, new_columns)
    }

    /// Rolls every stone as far east as it goes.
    pub fn tilt_east(rows: &Vec<Vec<char>>) -> (r: (Vec<Vec<char>>, Vec<Vec<char>>))
        ensures
            r.0.deep_view() == slid_high(rows.deep_view()),
            r.1.deep_view() == spec_columns(slid_high(rows.deep_view())),
    {
        let new_rows = slide_grid_high(rows);
        let new_columns = Platform::columns(&new_rows);
        (new_rows, new_columns)
    }
}

/// One spin: tilt north, west, south, east in turn, starting from the
/// column form.
pub open spec fn spin_rows(cols: Seq<Seq<char>>) -> Seq<Seq<char>> {
    let cols1 = slid_low(cols);
    let rows1 = spec_columns(cols1);
    let rows2 = slid_low(rows1);
    let cols2 = spec_columns(rows2);
    let cols3 = slid_high(cols2);
    let rows3 = spec_columns(cols3);
    let rows4 = slid_high(rows3);
    rows4
}

pub open spec fn spin_cols(cols: Seq<Seq<char>>) -> Seq<Seq<char>> {
    spec_columns(spin_rows(cols))
}

/// `k` spins applied to the column form.
pub open spec fn spin_cols_k(cols: Seq<Seq<char>>, k: int) -> Seq<Seq<char>>
    decreases k,
{
    if k <= 0 {
        cols
    } else {
        spin_cols(spin_cols_k(cols, k - 1))
    }
}

impl Platform {
    /// One full spin; reports whether the rows came back unchanged.
    pub fn spin_cycle(&mut self) -> (b: bool)
        ensures
            final(self).rows.deep_view() == spin_rows(old(self).columns.deep_view()),
            final(self).columns.deep_view() == spin_cols(old(self).columns.deep_view()),
            b == (final(self).rows.deep_view() == old(self).rows.deep_view()),
    {
        let previous_rows = grid_copy(&self.rows);
        let (r1, c1) = Platform::tilt_north(&self.columns);
        self.rows = r1;
        self.columns = c1;
        let (r2, c2) = Platform::tilt_west(&self.rows);
        self.rows = r2;
        self.columns = c2;
        let (r3, c3) = Platform::tilt_south(&self.columns);
        self.rows = r3;
        self.columns = c3;
        let (r4, c4) = Platform::tilt_east(&self.rows);
        self.rows = r4;
        self.columns = c4;
        let same = grids_eq(&self.rows, &previous_rows);
        same
    }

    /// The load on the north support: each stone counts the number of
    /// rows at and below its own.
    pub fn count_north_load(&self) -> (r: usize)
        requires
            spec_load(self.rows.deep_view()) <= usize::MAX,
        ensures
            r as int == spec_load(self.rows.deep_view()),
    {
        let ghost g = self.rows.deep_view();
        let mut load: usize = 0;
        let mut i: usize = 0;
        while i < self.rows.len()
            invariant
                0 <= i <= g.len(),
                g == self.rows.deep_view(),
                load as int == prefix_load(g, g.len() as int, i as int),
                spec_load(g) <= usize::MAX,
            decreases g.len() - i,
        {
            proof {
                assert(self.rows@[i as int]@ == g[i as int]);
                lemma_row_stones_bound(g[i as int], g[i as int].len() as int);
            }
            let row = &self.rows[i];
            let mut stones: usize = 0;
            let mut j: usize = 0;
            while j < row.len()
                invariant
                    0 <= j <= row@.len(),
                    row@ == g[i as int],
                    stones as int == row_stones(g[i as int], j as int),
                    stones <= j,
                decreases row@.len() - j,
            {
                if row[j] == 'O' {
                    stones = stones + 1;
                }
                j += 1;
            }
            proof {
                assert(stones as int == row_stones(g[i as int], g[i as int].len() as int));
                assert((g.len() - i) * (stones as int) >= 0) by (nonlinear_arith)
                    requires
                        g.len() - i >= 1,
                        stones as int >= 0,
                ;
                lemma_prefix_load_longer(g, g.len() as int, i as int + 1, g.len() as int);
                lemma_load_take(g, g.len() as int, g.len() as int);
                assert(g.take(g.len() as int) =~= g);
                assert(prefix_load(g, g.len() as int, g.len() as int) == spec_load(g));
                assert(prefix_load(g, g.len() as int, i as int + 1) <= spec_load(g));
                assert((g.len() as int - i) * (stones as int) <= usize::MAX * usize::MAX)
                    by (nonlinear_arith)
                    requires
                        0 <= g.len() as int - i <= usize::MAX,
                        0 <= stones as int <= usize::MAX,
                ;
            }
            let weight = self.rows.len() - i;
            proof {
                assert(weight * stones == prefix_load(g, g.len() as int, i as int + 1)
                    - prefix_load(g, g.len() as int, i as int));
            }
            load = load + weight * stones;
            i += 1;
        }
        proof {
            lemma_load_take(g, g.len() as int, g.len() as int);
            assert(g.take(g.len() as int) =~= g);
        }
        load
    }
}

/// The rows after `k` spins, starting from a row form and its columns.
pub open spec fn spec_rows_after(c0: Seq<Seq<char>>, rows0: Seq<Seq<char>>, k: int) -> Seq<
    Seq<char>,
> {
    if k <= 0 {
        rows0
    } else {
        spin_rows(spin_cols_k(c0, k - 1))
    }
}

/// Spins compose: running `a + b` spins is running `b` after `a`.
pub proof fn lemma_spin_add(c: Seq<Seq<char>>, a: int, b: int)
    requires
        a >= 0,
        b >= 0,
    ensures
        spin_cols_k(c, a + b) == spin_cols_k(spin_cols_k(c, a), b),
    decreases b,
{
    if b > 0 {
        lemma_spin_add(c, a, b - 1);
    }
}

/// Once the state repeats with period `p`, every later state equals the
/// state at its offset into the cycle.
pub proof fn lemma_spin_periodic(c0: Seq<Seq<char>>, a: int, p: int, m: int)
    requires
        a >= 0,
        p >= 1,
        spin_cols_k(c0, a + p) == spin_cols_k(c0, a),
        m >= a,
    ensures
        spin_cols_k(c0, m) == spin_cols_k(c0, a + ((m - a) % p)),
    decreases m,
{
    if m < a + p {
        assert((m - a) % p == m - a) by (nonlinear_arith)
            requires
                p >= 1,
                0 <= m - a < p,
        ;
    } else {
        lemma_spin_add(c0, a + p, m - a - p);
        lemma_spin_add(c0, a, m - a - p);
        assert(spin_cols_k(c0, m) == spin_cols_k(c0, m - p));
        lemma_spin_periodic(c0, a, p, m - p);
        assert((m - a) % p == (m - p - a) % p) by {
            assert((m - a) == (m - p - a) + p);
            assert(((m - p - a) + p) % p == (m - p - a) % p) by (nonlinear_arith)
                requires
                    p >= 1,
                    m - p - a >= 0,
            ;
        }
    }
}

/// Where the shortened run lands: with a cycle of length `p` found
/// between the states after spins `lh + 1` and `i + 1`, running
/// `(n - i - 1) % p` further spins reaches the state of spin `n`.
pub proof fn lemma_cycle_landing(c0: Seq<Seq<char>>, lh: int, i: int, n: int, r: int)
    requires
        0 <= lh < i < n,
        spin_cols_k(c0, i + 1) == spin_cols_k(c0, lh + 1),
        r == (n - i - 1) % (i - lh),
    ensures
        spin_cols_k(c0, i + 1 + r) == spin_cols_k(c0, n),
        spin_cols_k(c0, i + r) == spin_cols_k(c0, n - 1),
        0 <= r < i - lh,
{
    let a = lh + 1;
    let p = i - lh;
    assert(0 <= r < p) by (nonlinear_arith)
        requires
            p >= 1,
            n - i - 1 >= 0,
            r == (n - i - 1) % p,
    ;
    assert((n - a) % p == r) by (nonlinear_arith)
        requires
            p >= 1,
            n - i - 1 >= 0,
            n - a == (n - i - 1) + p,
            r == (n - i - 1) % p,
    ;
    lemma_spin_periodic(c0, a, p, n);
    lemma_spin_periodic(c0, a, p, a + p + r);
    assert((a + p + r - a) % p == r) by (nonlinear_arith)
        requires
            p >= 1,
            0 <= r < p,
    ;
    assert(spin_cols_k(c0, i + 1 + r) == spin_cols_k(c0, a + r));
    assert(spin_cols_k(c0, n) == spin_cols_k(c0, a + r));
    // one state earlier on both sides
    lemma_spin_periodic(c0, a, p, n - 1);
    lemma_spin_periodic(c0, a, p, a + p + r - 1);
    assert((n - 1 - a) % p == (a + p + r - 1 - a) % p) by (nonlinear_arith)
        requires
            p >= 1,
            0 <= r < p,
            n - a >= p,
            (n - a) % p == r,
    ;
    assert(spin_cols_k(c0, i + r) == spin_cols_k(c0, n - 1));
}

impl Platform {
    /// Runs `n` spin cycles; once a row state repeats, the remaining
    /// spins are reduced modulo the cycle length, which the periodicity
    /// of the spin map shows to land on the same state.
    #[verifier::rlimit(60)]
    pub fn spin_n_times(&mut self, n: usize)
        ensures
            final(self).columns.deep_view() == spin_cols_k(
                old(self).columns.deep_view(),
                n as int,
            ),
            final(self).rows.deep_view() == spec_rows_after(
                old(self).columns.deep_view(),
                old(self).rows.deep_view(),
                n as int,
            ),
    {
        let ghost c0 = self.columns.deep_view();
        let ghost rows0 = self.rows.deep_view();
        let mut previous_rows: Vec<Vec<Vec<char>>> = Vec::new();
        let mut remaining: usize = 0;
        let mut i: usize = 0;
        let mut found: bool = false;
        let mut last_hit: usize = 0;
        loop
            invariant_except_break
                0 <= i <= n,
                !found,
                self.columns.deep_view() == spin_cols_k(c0, i as int),
                self.rows.deep_view() == spec_rows_after(c0, rows0, i as int),
                previous_rows@.len() == i,
                forall|t: int|
                    0 <= t < i ==> #[trigger] previous_rows.deep_view()[t] == spin_rows(
                        spin_cols_k(c0, t),
                    ),
            invariant
                c0 == old(self).columns.deep_view(),
                rows0 == old(self).rows.deep_view(),
            ensures
                found ==> {
                    &&& last_hit < i < n
                    &&& spin_cols_k(c0, i as int + 1) == spin_cols_k(c0, last_hit as int + 1)
                    &&& remaining as int == (n as int - i as int - 1) % (i as int
                        - last_hit as int)
                    &&& self.columns.deep_view() == spin_cols_k(c0, i as int + 1)
                    &&& self.rows.deep_view() == spin_rows(spin_cols_k(c0, i as int))
                },
                !found ==> {
                    &&& i == n
                    &&& self.columns.deep_view() == spin_cols_k(c0, n as int)
                    &&& self.rows.deep_view() == spec_rows_after(c0, rows0, n as int)
                },
            decreases n - i,
        {
            if i >= n {
                break;
            }
            self.spin_cycle();
            proof {
                assert(self.rows.deep_view() == spin_rows(spin_cols_k(c0, i as int)));
                assert(self.columns.deep_view() == spin_cols_k(c0, i as int + 1));
            }
            let mut t: usize = 0;
            let mut hit: bool = false;
            while t < previous_rows.len()
                invariant_except_break
                    !hit,
                invariant
                    0 <= t <= previous_rows@.len(),
                    forall|u: int|
                        0 <= u < t ==> #[trigger] previous_rows.deep_view()[u]
                            != self.rows.deep_view(),
                ensures
                    hit ==> t < previous_rows@.len() && previous_rows.deep_view()[t as int]
                        == self.rows.deep_view(),
                    !hit ==> t == previous_rows@.len(),
                decreases previous_rows@.len() - t,
            {
                proof {
                    assert(previous_rows@[t as int].deep_view() == previous_rows.deep_view()[
                        t as int]);
                }
                if grids_eq(&previous_rows[t], &self.rows) {
                    hit = true;
                    break;
                }
                t += 1;
            }
            if hit {
                found = true;
                last_hit = t;
                remaining = (n - i - 1) % (i - t);
                proof {
                    assert(spin_rows(spin_cols_k(c0, t as int)) == spin_rows(
                        spin_cols_k(c0, i as int),
                    ));
                    assert(spin_cols_k(c0, t as int + 1) == spec_columns(spin_rows(
                        spin_cols_k(c0, t as int),
                    )));
                    assert(spin_cols_k(c0, i as int + 1) == spin_cols_k(c0, t as int + 1));
                }
                break;
            }
            let copy = grid_copy(&self.rows);
            let ghost pre = previous_rows.deep_view();
            previous_rows.push(copy);
            proof {
                assert(previous_rows.deep_view() =~~= pre.push(self.rows.deep_view()));
            }
            i += 1;
        }
        if !found {
            return ;
        }
        proof {
            lemma_cycle_landing(
                c0,
                last_hit as int,
                i as int,
                n as int,
                remaining as int,
            );
        }
        let ghost b: int = i as int + 1;
        let mut done: usize = 0;
        while done < remaining
            invariant
                0 <= done <= remaining,
                b == i as int + 1,
                self.columns.deep_view() == spin_cols_k(c0, b + done as int),
                self.rows.deep_view() == spin_rows(spin_cols_k(c0, b + done as int - 1)),
            decreases remaining - done,
        {
            self.spin_cycle();
            done += 1;
        }
        proof {
            assert(self.columns.deep_view() == spin_cols_k(c0, i as int + 1 + remaining));
            assert(self.rows.deep_view() == spin_rows(spin_cols_k(c0, i as int + remaining)));
            assert(self.columns.deep_view() == spin_cols_k(c0, n as int));
            assert(self.rows.deep_view() == spin_rows(spin_cols_k(c0, n as int - 1)));
        }
    }
}

/// Stones in the first `upto` cells of a row.
pub open spec fn row_stones(row: Seq<char>, upto: int) -> int
    decreases upto,
{
    if upto <= 0 {
        0
    } else {
        row_stones(row, upto - 1) + if row[upto - 1] == 'O' {
            1int
        } else {
            0int
        }
    }
}

/// The north load of a row grid prefix: row `i` of `n` weighs `n - i`
/// per stone.
pub open spec fn spec_load(g: Seq<Seq<char>>) -> int
    decreases g.len(),
{
    spec_load_upto(g, g.len() as int)
}

pub open spec fn spec_load_upto(g: Seq<Seq<char>>, upto: int) -> int
    decreases upto,
{
    if upto <= 0 {
        0
    } else {
        spec_load_upto(g, upto - 1) + (g.len() - (upto - 1)) * row_stones(
            g[upto - 1],
            g[upto - 1].len() as int,
        )
    }
}

/// The load of a prefix read with the whole grid's weights.
proof fn lemma_load_take(g: Seq<Seq<char>>, k: int, upto: int)
    requires
        0 <= upto <= k <= g.len(),
    ensures
        spec_load_upto(g.take(k), upto) == prefix_load(g, k, upto),
    decreases upto,
{
    if upto > 0 {
        lemma_load_take(g, k, upto - 1);
    }
}

/// The weighted load of the first `upto` rows, weights out of `k`.
pub open spec fn prefix_load(g: Seq<Seq<char>>, k: int, upto: int) -> int
    decreases upto,
{
    if upto <= 0 {
        0
    } else {
        prefix_load(g, k, upto - 1) + (k - (upto - 1)) * row_stones(
            g[upto - 1],
            g[upto - 1].len() as int,
        )
    }
}

/// More rows never lower the load, while the weights stay positive.
proof fn lemma_prefix_load_longer(g: Seq<Seq<char>>, k: int, a: int, b: int)
    requires
        0 <= a <= b <= k <= g.len(),
    ensures
        prefix_load(g, k, a) <= prefix_load(g, k, b),
    decreases b - a,
{
    if a < b {
        lemma_prefix_load_longer(g, k, a + 1, b);
        lemma_row_stones_bound(g[a], g[a].len() as int);
        assert((k - a) * row_stones(g[a], g[a].len() as int) >= 0) by (nonlinear_arith)
            requires
                k - a >= 0,
                row_stones(g[a], g[a].len() as int) >= 0,
        ;
    }
}

proof fn lemma_row_stones_bound(row: Seq<char>, upto: int)
    requires
        0 <= upto <= row.len(),
    ensures
        0 <= row_stones(row, upto) <= upto,
    decreases upto,
{
    if upto > 0 {
        lemma_row_stones_bound(row, upto - 1);
    }
}

/// A deep copy of a grid.
fn grid_copy(rows: &Vec<Vec<char>>) -> (r: Vec<Vec<char>>)
    ensures
        r.deep_view() == rows.deep_view(),
{
    crate::mirrors::copy_grid(rows)
}

/// Whether two grids hold the same characters.
#[verifier::loop_isolation(false)]
fn grids_eq(a: &Vec<Vec<char>>, b: &Vec<Vec<char>>) -> (r: bool)
    ensures
        r == (a.deep_view() == b.deep_view()),
{
    if a.len() != b.len() {
        proof {
            assert(a.deep_view().len() != b.deep_view().len());
        }
        return false;
    }
    let mut i: usize = 0;
    while i < a.len()
        invariant
            0 <= i <= a@.len(),
            a@.len() == b@.len(),
            forall|j: int| 0 <= j < i ==> #[trigger] a.deep_view()[j] == b.deep_view()[j],
        decreases a@.len() - i,
    {
        proof {
            assert(a@[i as int]@ == a.deep_view()[i as int]);
            assert(b@[i as int]@ == b.deep_view()[i as int]);
        }
        if !text::eq_chars(&a[i], &b[i]) {
            return false;
        }
        i += 1;
    }
    proof {
        assert(a.deep_view() =~~= b.deep_view());
    }
    true
}

} // verus!
