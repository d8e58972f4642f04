//! Mirror patterns: a grid reflects about a vertical line when every
//! row reads the same to both sides of it; the smudged variant looks
//! for the reflection that appears after flipping exactly one cell.

use vstd::prelude::*;
use crate::text;

verus! {

pub struct Pattern {
    pub rows: Vec<Vec<char>>,
    pub columns: Vec<Vec<char>>,
}

pub open spec fn rect(rows: Seq<Seq<char>>) -> bool {
    forall|r: int| 0 <= r < rows.len() ==> (#[trigger] rows[r]).len() == rows[0].len()
}

pub open spec fn width(rows: Seq<Seq<char>>) -> int {
    if rows.len() == 0 {
        0
    } else {
        rows[0].len() as int
    }
}

/// The grid reflects about the line before column `p`.
pub open spec fn mirror_ok(rows: Seq<Seq<char>>, p: int) -> bool {
    forall|r: int, k: int|
        0 <= r < rows.len() && 0 <= k < p && p + k < width(rows) ==> (#[trigger] rows[r][p - 1
            - k]) == rows[r][p + k]
}

pub open spec fn excl_ok(p: int, excl: Option<int>) -> bool {
    match excl {
        Some(e) => p != e,
        None => true,
    }
}

/// A reflection point the scan accepts.
pub open spec fn qual(rows: Seq<Seq<char>>, excl: Option<int>, p: int) -> bool {
    1 <= p < width(rows) && mirror_ok(rows, p) && excl_ok(p, excl)
}

/// How many accepted points lie below `p`.
pub open spec fn count_q(rows: Seq<Seq<char>>, excl: Option<int>, p: int) -> int
    decreases p,
{
    if p <= 0 {
        0
    } else {
        count_q(rows, excl, p - 1) + if qual(rows, excl, p - 1) {
            1int
        } else {
            0int
        }
    }
}

/// The reflection point: defined exactly when one point is accepted.
pub open spec fn spec_poi(rows: Seq<Seq<char>>, excl: Option<int>) -> Option<int> {
    if count_q(rows, excl, width(rows)) == 1 {
        Some(choose|p: int| qual(rows, excl, p))
    } else {
        None
    }
}

pub proof fn lemma_count_q_ge(rows: Seq<Seq<char>>, excl: Option<int>, a: int, b: int, p: int)
    requires
        qual(rows, excl, a),
        qual(rows, excl, b),
        a < b,
        p > b,
    ensures
        count_q(rows, excl, p) >= 2,
    decreases p,
{
    if p - 1 > b {
        lemma_count_q_ge(rows, excl, a, b, p - 1);
    } else {
        assert(p - 1 == b);
        lemma_count_q_one(rows, excl, a, p - 1);
    }
}

pub proof fn lemma_count_q_one(rows: Seq<Seq<char>>, excl: Option<int>, a: int, p: int)
    requires
        qual(rows, excl, a),
        p > a,
    ensures
        count_q(rows, excl, p) >= 1,
    decreases p,
{
    lemma_count_q_nonneg(rows, excl, p - 1);
    if p - 1 > a {
        lemma_count_q_one(rows, excl, a, p - 1);
    }
}

/// With exactly one accepted point, any two accepted points coincide.
pub proof fn lemma_qual_unique(rows: Seq<Seq<char>>, excl: Option<int>, a: int, b: int)
    requires
        count_q(rows, excl, width(rows)) == 1,
        qual(rows, excl, a),
        qual(rows, excl, b),
    ensures
        a == b,
{
    if a < b {
        lemma_count_q_ge(rows, excl, a, b, width(rows));
        lemma_count_q_nonneg(rows, excl, width(rows));
        assert(false);
    } else if b < a {
        lemma_count_q_ge(rows, excl, b, a, width(rows));
        assert(false);
    }
}

pub proof fn lemma_count_q_nonneg(rows: Seq<Seq<char>>, excl: Option<int>, p: int)
    ensures
        count_q(rows, excl, p) >= 0,
    decreases p,
{
    if p > 0 {
        lemma_count_q_nonneg(rows, excl, p - 1);
    }
}

/// Whether the grid reflects about the line before column `p`.
#[verifier::loop_isolation(false)]
fn check_mirror(rows: &Vec<Vec<char>>, p: usize) -> (b: bool)
    requires
        rows@.len() > 0,
        rect(rows.deep_view()),
        1 <= p < rows@[0]@.len(),
    ensures
        b == mirror_ok(rows.deep_view(), p as int),
{
    let ghost rs = rows.deep_view();
    let w = rows[0].len();
    let mut r: usize = 0;
    while r < rows.len()
        invariant
            0 <= r <= rows@.len(),
            forall|t: int, k: int|
                0 <= t < r && 0 <= k < p && p + k < w ==> (#[trigger] rs[t][p - 1 - k]) == rs[t][p
                    + k],
        decreases rows@.len() - r,
    {
        let row = &rows[r];
        proof {
            assert(row@ == rs[r as int]);
            assert(rs[r as int].len() == w);
        }
        let mut k: usize = 0;
        while k < p && p + k < w
            invariant
                0 <= k <= p,
                p + k <= w,
                row@ == rs[r as int],
                forall|t: int| 0 <= t < k ==> (#[trigger] rs[r as int][p - 1 - t]) == rs[r as int][p
                    + t],
            decreases p - k,
        {
            if row[p - 1 - k] != row[p + k] {
                return false;
            }
            k += 1;
        }
        proof {
            assert(forall|t: int|
                0 <= t < p && p + t < w ==> (#[trigger] rs[r as int][p - 1 - t]) == rs[r as int][p
                    + t]);
        }
        r += 1;
    }
    true
}

/// The unique accepted reflection point of the grid, if any.
#[verifier::loop_isolation(false)]
fn point_of_incidence(rows: &Vec<Vec<char>>, exclude_point: Option<usize>) -> (r: Option<usize>)
    requires
        rows@.len() > 0,
        rect(rows.deep_view()),
    ensures
        ({
            let excl = match exclude_point {
                Some(e) => Some(e as int),
                None => None,
            };
            match r {
                Some(p) => qual(rows.deep_view(), excl, p as int) && spec_poi(
                    rows.deep_view(),
                    excl,
                ) == Some(p as int),
                None => spec_poi(rows.deep_view(), excl) is None,
            }
        }),
{
    let ghost rs = rows.deep_view();
    let ghost excl: Option<int> = match exclude_point {
        Some(e) => Some(e as int),
        None => None,
    };
    let w = rows[0].len();
    let mut cnt: usize = 0;
    let mut found: usize = 0;
    let mut p: usize = 1;
    proof {
        assert(width(rs) == w);
        assert(!qual(rs, excl, 0));
        assert(count_q(rs, excl, 0int) == 0);
        assert(count_q(rs, excl, 1int) == 0);
    }
    while p < w
        invariant
            1 <= p <= w || (w == 0 && p == 1),
            cnt as int == count_q(rs, excl, p as int),
            cnt <= p,
            cnt >= 1 ==> qual(rs, excl, found as int),
        decreases w - p,
    {
        let ok = check_mirror(rows, p);
        let excluded = match exclude_point {
            Some(e) => e == p,
            None => false,
        };
        if ok && !excluded {
            cnt = cnt + 1;
            found = p;
        }
        p += 1;
    }
    proof {
        if w == 0 {
            assert(count_q(rs, excl, width(rs)) == 0);
        }
    }
    if cnt == 1 {
        proof {
            assert(qual(rs, excl, found as int));
            let c = choose|q: int| qual(rs, excl, q);
            lemma_qual_unique(rs, excl, found as int, c);
        }
        Some(found)
    } else {
        None
    }
}

/// Flipping one cell of the grid.
pub open spec fn flip(c: char) -> char {
    if c == '#' {
        '.'
    } else {
        '#'
    }
}

pub open spec fn flipped(rows: Seq<Seq<char>>, i: int, j: int) -> Seq<Seq<char>> {
    rows.update(i, rows[i].update(j, flip(rows[i][j])))
}

#[verifier::loop_isolation(false)]
pub(crate) fn copy_grid(rows: &Vec<Vec<char>>) -> (r: Vec<Vec<char>>)
    ensures
        r.deep_view() == rows.deep_view(),
        r@.len() == rows@.len(),
{
    let mut r: Vec<Vec<char>> = Vec::new();
    let mut i: usize = 0;
    while i < rows.len()
        invariant
            0 <= i <= rows@.len(),
            r@.len() == i,
            forall|t: int| 0 <= t < i ==> #[trigger] r.deep_view()[t] == rows.deep_view()[t],
        decreases rows@.len() - i,
    {
        let src = &rows[i];
        let mut row: Vec<char> = Vec::new();
        let mut j: usize = 0;
        while j < src.len()
            invariant
                0 <= j <= src@.len(),
                row@ =~= src@.take(j as int),
            decreases src@.len() - j,
        {
            row.push(src[j]);
            j += 1;
        }
        proof {
            assert(row@ =~= src@);
        }
        let ghost old_r = r.deep_view();
        r.push(row);
        proof {
            assert(r.deep_view() =~~= old_r.push(row@));
        }
        i += 1;
    }
    proof {
        assert(r.deep_view() =~~= rows.deep_view());
    }
    r
}

impl Pattern {
    pub fn new(rows: Vec<Vec<char>>) -> (p: Pattern)
        ensures
            p.rows.deep_view() == rows.deep_view(),
            p.columns.deep_view() == spec_columns(rows.deep_view()),
    {
        let columns = Pattern::columns(&rows);
        Pattern { rows, columns }
    }

    /// The columns of a grid: the i-th column collects the i-th cell
    /// of every row that is long enough, in row order.
    #[verifier::loop_isolation(false)]
    pub fn columns(rows: &Vec<Vec<char>>) -> (r: Vec<Vec<char>>)
        ensures
            r.deep_view() == spec_columns(rows.deep_view()),
    {
        let ghost rs = rows.deep_view();
        let mut ncols: usize = 0;
        let mut i: usize = 0;
        while i < rows.len()
            invariant
                0 <= i <= rows@.len(),
                ncols as int == max_len(rs.take(i as int)),
            decreases rows@.len() - i,
        {
            proof {
                assert(rs.take(i as int + 1).drop_last() =~= rs.take(i as int));
                assert(rs.take(i as int + 1).last() == rs[i as int]);
            }
            if rows[i].len() > ncols {
                ncols = rows[i].len();
            }
            i += 1;
        }
        proof {
            assert(rs.take(rs.len() as int) =~= rs);
        }
        let mut cols: Vec<Vec<char>> = Vec::new();
        let mut c: usize = 0;
        while c < ncols
            invariant
                0 <= c <= ncols,
                ncols as int == max_len(rs),
                cols@.len() == c,
                forall|t: int| 0 <= t < c ==> #[trigger] cols.deep_view()[t] == col_of(rs, t),
            decreases ncols - c,
        {
            let mut col: Vec<char> = Vec::new();
            let mut r2: usize = 0;
            while r2 < rows.len()
                invariant
                    0 <= r2 <= rows@.len(),
                    0 <= c < ncols,
                    col@ =~= col_of(rs.take(r2 as int), c as int),
                decreases rows@.len() - r2,
            {
                proof {
                    assert(rs.take(r2 as int + 1).drop_last() =~= rs.take(r2 as int));
                    assert(rs.take(r2 as int + 1).last() == rs[r2 as int]);
                    assert(rows@[r2 as int]@ == rs[r2 as int]);
                }
                if c < rows[r2].len() {
                    col.push(rows[r2][c]);
                }
                r2 += 1;
            }
            proof {
                assert(rs.take(rs.len() as int) =~= rs);
            }
            let ghost old_cols = cols.deep_view();
            cols.push(col);
            proof {
                assert(cols.deep_view() =~~= old_cols.push(col@));
            }
            c += 1;
        }
        proof {
            assert(cols.deep_view() =~~= spec_columns(rs));
        }
        cols
    }

    /// Reads one block of lines as a pattern.
    pub fn parse_pattern(block: &str) -> (p: Pattern)
        ensures
            p.rows.deep_view() == text::spec_lines(block@),
            p.columns.deep_view() == spec_columns(text::spec_lines(block@)),
    {
        let cs = text::chars_of(block);
        let rows = text::lines_of(&cs);
        Pattern::new(rows)
    }

    /// Splits the input at blank lines and reads each block.
    #[verifier::loop_isolation(false)]
    pub fn parse_all_patterns(input: &str) -> (ps: Vec<Pattern>)
        ensures
            ps@.len() == spec_blocks(input@).len(),
            forall|k: int|
                0 <= k < ps@.len() ==> (#[trigger] ps@[k]).rows.deep_view() == spec_blocks(
                    input@,
                )[k] && ps@[k].columns.deep_view() == spec_columns(spec_blocks(input@)[k]),
    {
        let cs = text::chars_of(input);
        let lines = text::lines_of(&cs);
        let ghost ls = text::spec_lines(input@);
        let mut ps: Vec<Pattern> = Vec::new();
        let mut block: Vec<Vec<char>> = Vec::new();
        let mut k: usize = 0;
        let ghost mut start: int = 0;
        proof {
            assert(block.deep_view() =~~= ls.subrange(0, 0));
        }
        while k < lines.len()
            invariant
                0 <= start <= k <= lines@.len(),
                lines.deep_view() == ls,
                lines@.len() == ls.len(),
                block.deep_view() == ls.subrange(start, k as int),
                forall|t: int| start <= t < k ==> (#[trigger] ls[t]).len() > 0,
                spec_blocks_from(ls, 0) == ps_blocks(ps@) + spec_blocks_from(ls, start),
                forall|t: int|
                    0 <= t < ps@.len() ==> (#[trigger] ps@[t]).columns.deep_view()
                        == spec_columns(ps@[t].rows.deep_view()),
            decreases lines@.len() - k,
        {
            proof {
                assert(lines[k as int]@ == ls[k as int]);
            }
            if lines[k].len() == 0 {
                let ghost bv = block.deep_view();
                let done = Pattern::new(block);
                proof {
                    blocks_step(ls, start, k as int);
                }
                let ghost old_ps = ps@;
                ps.push(done);
                block = Vec::new();
                proof {
                    assert(ps_blocks(ps@) =~~= ps_blocks(old_ps).push(bv));
                    assert(spec_blocks_from(ls, 0) =~~= ps_blocks(ps@) + spec_blocks_from(
                        ls,
                        k as int + 1,
                    ));
                    start = k as int + 1;
                    assert(block.deep_view() =~~= ls.subrange(start, k as int + 1));
                }
            } else {
                let mut line: Vec<char> = Vec::new();
                let src = &lines[k];
                let mut j: usize = 0;
                while j < src.len()
                    invariant
                        0 <= j <= src@.len(),
                        line@ =~= src@.take(j as int),
                    decreases src@.len() - j,
                {
                    line.push(src[j]);
                    j += 1;
                }
                proof {
                    assert(line@ =~= ls[k as int]);
                }
                let ghost old_b = block.deep_view();
                block.push(line);
                proof {
                    assert(block.deep_view() =~~= old_b.push(ls[k as int]));
                    assert(block.deep_view() =~~= ls.subrange(start, k as int + 1));
                }
            }
            k += 1;
        }
        let ghost bv = block.deep_view();
        let done = Pattern::new(block);
        proof {
            blocks_last(ls, start);
        }
        let ghost old_ps = ps@;
        ps.push(done);
        proof {
            assert(ps_blocks(ps@) =~~= ps_blocks(old_ps).push(bv));
            assert(ps_blocks(ps@) =~~= spec_blocks(input@));
            assert(forall|t: int|
                0 <= t < ps@.len() ==> (#[trigger] ps@[t]).rows.deep_view() == ps_blocks(ps@)[t]
                    && ps@[t].columns.deep_view() == spec_columns(ps_blocks(ps@)[t]));
        }
        ps
    }

    /// The unique vertical reflection point of the rows, if any.
    pub fn vertical_point_of_incidence(rows: &Vec<Vec<char>>, exclude_point: Option<usize>) -> (r:
        Option<usize>)
        requires
            rows@.len() > 0,
            rect(rows.deep_view()),
        ensures
            ({
                let excl = match exclude_point {
                    Some(e) => Some(e as int),
                    None => None,
                };
                match r {
                    Some(p) => qual(rows.deep_view(), excl, p as int) && spec_poi(
                        rows.deep_view(),
                        excl,
                    ) == Some(p as int),
                    None => spec_poi(rows.deep_view(), excl) is None,
                }
            }),
    {
        point_of_incidence(rows, exclude_point)
    }

    /// The same scan on the columns: a horizontal reflection point.
    pub fn horizontal_point_of_incidence(cols: &Vec<Vec<char>>, exclude_point: Option<usize>) -> (r:
        Option<usize>)
        requires
            cols@.len() > 0,
            rect(cols.deep_view()),
        ensures
            ({
                let excl = match exclude_point {
                    Some(e) => Some(e as int),
                    None => None,
                };
                match r {
                    Some(p) => qual(cols.deep_view(), excl, p as int) && spec_poi(
                        cols.deep_view(),
                        excl,
                    ) == Some(p as int),
                    None => spec_poi(cols.deep_view(), excl) is None,
                }
            }),
    {
        point_of_incidence(cols, exclude_point)
    }

    /// The first reflection point that appears after flipping one cell,
    /// the original reflection point never counted.
    #[verifier::loop_isolation(false)]
    pub fn vertical_point_of_incidence_smudge(rows: &Vec<Vec<char>>) -> (r: Option<usize>)
        requires
            rows@.len() > 0,
            rect(rows.deep_view()),
        ensures
            ({
                let orig = spec_poi(rows.deep_view(), None);
                match r {
                    Some(p) => exists|i: int, j: int|
                        0 <= i < rows.deep_view().len() && 0 <= j < rows.deep_view()[i].len()
                            && #[trigger] spec_poi(flipped(rows.deep_view(), i, j), orig)
                            == Some(p as int),
                    None => forall|i: int, j: int|
                        0 <= i < rows.deep_view().len() && 0 <= j < rows.deep_view()[i].len()
                            ==> #[trigger] spec_poi(flipped(rows.deep_view(), i, j), orig)
                            is None,
                }
            }),
    {
        let ghost rs = rows.deep_view();
        let original = point_of_incidence(rows, None);
        let ghost orig = spec_poi(rs, None);
        proof {
            match original {
                Some(p) => {
                    assert(orig == Some(p as int));
                },
                None => {
                    assert(orig is None);
                },
            }
        }
        let mut i: usize = 0;
        while i < rows.len()
            invariant
                0 <= i <= rs.len(),
                forall|a: int, b: int|
                    0 <= a < i && 0 <= b < rs[a].len() ==> #[trigger] spec_poi(
                        flipped(rs, a, b),
                        orig,
                    ) is None,
            decreases rs.len() - i,
        {
            let mut j: usize = 0;
            while j < rows[i].len()
                invariant
                    0 <= i < rs.len(),
                    0 <= j <= rs[i as int].len(),
                    forall|a: int, b: int|
                        0 <= a < i && 0 <= b < rs[a].len() ==> #[trigger] spec_poi(
                            flipped(rs, a, b),
                            orig,
                        ) is None,
                    forall|b: int|
                        0 <= b < j ==> #[trigger] spec_poi(flipped(rs, i as int, b), orig)
                            is None,
                decreases rs[i as int].len() - j,
            {
                let mut grid = copy_grid(rows);
                let cell = grid[i][j];
                let new_symbol: char = if cell == '#' {
                    '.'
                } else {
                    '#'
                };
                let mut row = grid.remove(i);
                row.set(j, new_symbol);
                grid.insert(i, row);
                proof {
                    assert(row@ =~= rs[i as int].update(
                        j as int,
                        flip(rs[i as int][j as int]),
                    ));
                    assert(forall|t: int|
                        0 <= t < grid@.len() ==> #[trigger] grid.deep_view()[t] == grid@[t]@);
                    assert(grid.deep_view() =~~= flipped(rs, i as int, j as int));
                    assert(rect(grid.deep_view())) by {
                        assert(forall|t: int|
                            0 <= t < grid.deep_view().len() ==> (
                            #[trigger] grid.deep_view()[t]).len() == rs[t].len());
                    }
                }
                let exclude = match original {
                    Some(p) => Some(p),
                    None => None,
                };
                match point_of_incidence(&grid, exclude) {
                    Some(point) => {
                        proof {
                            assert(spec_poi(flipped(rs, i as int, j as int), orig) == Some(
                                point as int,
                            ));
                        }
                        return Some(point);
                    },
                    None => {
                    },
                }
                j += 1;
            }
            i += 1;
        }
        None
    }

    /// Vertical reflection point plus a hundred times the horizontal
    /// one; the pattern must reflect one way or the other.
    pub fn sum_of_reflection_points(&self) -> (r: usize)
        requires
            self.rows@.len() > 0,
            rect(self.rows.deep_view()),
            self.columns@.len() > 0,
            rect(self.columns.deep_view()),
            spec_poi(self.rows.deep_view(), None) is Some || spec_poi(
                self.columns.deep_view(),
                None,
            ) is Some,
            width(self.rows.deep_view()) + 100 * width(self.columns.deep_view()) <= usize::MAX,
        ensures
            r as int == oval(spec_poi(self.rows.deep_view(), None)) + 100 * oval(
                spec_poi(self.columns.deep_view(), None),
            ),
            r > 0,
    {
        let mut sum: usize = 0;
        match Pattern::vertical_point_of_incidence(&self.rows, None) {
            Some(point) => {
                sum = sum + point;
            },
            None => {
            },
        }
        match Pattern::horizontal_point_of_incidence(&self.columns, None) {
            Some(point) => {
                proof {
                    assert(point < width(self.columns.deep_view()));
                }
                sum = sum + 100 * point;
            },
            None => {
            },
        }
        sum
    }

    /// The smudged variant of the reflection sum.
    pub fn sum_of_reflection_points_smudge(&self) -> (r: usize)
        requires
            self.rows@.len() > 0,
            rect(self.rows.deep_view()),
            self.columns@.len() > 0,
            rect(self.columns.deep_view()),
            !(smudge_none(self.rows.deep_view()) && smudge_none(self.columns.deep_view())),
            width(self.rows.deep_view()) + 100 * width(self.columns.deep_view()) <= usize::MAX,
        ensures
            exists|a: Option<int>, b: Option<int>|
                smudge_outcome(self.rows.deep_view(), a) && smudge_outcome(
                    self.columns.deep_view(),
                    b,
                ) && r as int == oval(a) + 100 * oval(b),
            r > 0,
    {
        let ghost rsd = self.rows.deep_view();
        let ghost csd = self.columns.deep_view();
        let mut sum: usize = 0;
        let v = Pattern::vertical_point_of_incidence_smudge(&self.rows);
        let h = Pattern::horizontal_point_of_incidence_smudge(&self.columns);
        let ghost va: Option<int> = match v {
            Some(p) => Some(p as int),
            None => None,
        };
        let ghost hb: Option<int> = match h {
            Some(p) => Some(p as int),
            None => None,
        };
        proof {
            assert(smudge_outcome(rsd, va));
            assert(smudge_outcome(csd, hb));
        }
        match v {
            Some(point) => {
                proof {
                    let (i, j) = choose|i: int, j: int|
                        0 <= i < rsd.len() && 0 <= j < rsd[i].len() && #[trigger] spec_poi(
                            flipped(rsd, i, j),
                            spec_poi(rsd, None),
                        ) == Some(point as int);
                    lemma_flip_width(rsd, i, j);
                    let fg = flipped(rsd, i, j);
                    lemma_count_exists(fg, spec_poi(rsd, None), width(fg));
                    assert(qual(fg, spec_poi(rsd, None), point as int));
                    assert((point as int) < width(rsd));
                }
                sum = sum + point;
            },
            None => {
            },
        }
        match h {
            Some(point) => {
                proof {
                    let (i, j) = choose|i: int, j: int|
                        0 <= i < csd.len() && 0 <= j < csd[i].len() && #[trigger] spec_poi(
                            flipped(csd, i, j),
                            spec_poi(csd, None),
                        ) == Some(point as int);
                    lemma_flip_width(csd, i, j);
                    let fg = flipped(csd, i, j);
                    lemma_count_exists(fg, spec_poi(csd, None), width(fg));
                    assert(qual(fg, spec_poi(csd, None), point as int));
                    assert((point as int) < width(csd));
                }
                sum = sum + 100 * point;
            },
            None => {
            },
        }
        proof {
            if v is None && h is None {
                assert(smudge_none(rsd) && smudge_none(csd));
                assert(false);
            }
        }
        sum
    }

    /// The smudged scan on the columns.
    #[verifier::loop_isolation(false)]
    pub fn horizontal_point_of_incidence_smudge(cols: &Vec<Vec<char>>) -> (r: Option<usize>)
        requires
            cols@.len() > 0,
            rect(cols.deep_view()),
        ensures
            ({
                let orig = spec_poi(cols.deep_view(), None);
                match r {
                    Some(p) => exists|i: int, j: int|
                        0 <= i < cols.deep_view().len() && 0 <= j < cols.deep_view()[i].len()
                            && #[trigger] spec_poi(flipped(cols.deep_view(), i, j), orig)
                            == Some(p as int),
                    None => forall|i: int, j: int|
                        0 <= i < cols.deep_view().len() && 0 <= j < cols.deep_view()[i].len()
                            ==> #[trigger] spec_poi(flipped(cols.deep_view(), i, j), orig)
                            is None,
                }
            }),
    {
        Pattern::vertical_point_of_incidence_smudge(cols)
    }
}

/// Flipping one cell keeps the grid's dimensions.
pub proof fn lemma_flip_width(g: Seq<Seq<char>>, i: int, j: int)
    requires
        0 <= i < g.len(),
        0 <= j < g[i].len(),
    ensures
        width(flipped(g, i, j)) == width(g),
        flipped(g, i, j).len() == g.len(),
{
    if i == 0 {
        assert(flipped(g, i, j)[0] == g[0].update(j, flip(g[0][j])));
    } else {
        assert(flipped(g, i, j)[0] == g[0]);
    }
}

/// A positive count of accepted points yields a witness.
pub proof fn lemma_count_exists(rows: Seq<Seq<char>>, excl: Option<int>, p: int)
    requires
        count_q(rows, excl, p) >= 1,
    ensures
        exists|q: int| qual(rows, excl, q),
    decreases p,
{
    if p > 0 {
        if qual(rows, excl, p - 1) {
            assert(qual(rows, excl, p - 1));
        } else {
            lemma_count_exists(rows, excl, p - 1);
        }
    }
}

/// The value a reflection result contributes.
pub open spec fn oval(r: Option<int>) -> int {
    match r {
        Some(p) => p,
        None => 0,
    }
}

/// What a smudged scan may report for one grid.
pub open spec fn smudge_outcome(g: Seq<Seq<char>>, r: Option<int>) -> bool {
    let orig = spec_poi(g, None);
    match r {
        Some(p) => exists|i: int, j: int|
            0 <= i < g.len() && 0 <= j < g[i].len() && #[trigger] spec_poi(flipped(g, i, j), orig)
                == Some(p),
        None => forall|i: int, j: int|
            0 <= i < g.len() && 0 <= j < g[i].len() ==> #[trigger] spec_poi(
                flipped(g, i, j),
                orig,
            ) is None,
    }
}

/// No flip of the grid produces a reflection point.
pub open spec fn smudge_none(g: Seq<Seq<char>>) -> bool {
    smudge_outcome(g, None)
}

/// The longest row length.
pub open spec fn max_len(rows: Seq<Seq<char>>) -> int
    decreases rows.len(),
{
    if rows.len() == 0 {
        0
    } else {
        let prev = max_len(rows.drop_last());
        if rows.last().len() > prev {
            rows.last().len() as int
        } else {
            prev
        }
    }
}

/// Column `i`: the i-th cell of every row long enough, in row order.
pub open spec fn col_of(rows: Seq<Seq<char>>, i: int) -> Seq<char>
    decreases rows.len(),
{
    if rows.len() == 0 {
        Seq::empty()
    } else {
        col_of(rows.drop_last(), i) + (if i < rows.last().len() {
            seq![rows.last()[i]]
        } else {
            Seq::<char>::empty()
        })
    }
}

pub open spec fn spec_columns(rows: Seq<Seq<char>>) -> Seq<Seq<char>> {
    Seq::new(max_len(rows) as nat, |i: int| col_of(rows, i))
}

/// The blocks of a pattern file: lines between blank lines; a final
/// block always counts, even when empty.
pub open spec fn spec_blocks(s: Seq<char>) -> Seq<Seq<Seq<char>>> {
    spec_blocks_from(text::spec_lines(s), 0)
}

pub open spec fn blank_pos(ls: Seq<Seq<char>>, from: int) -> int
    decreases ls.len() - from,
{
    if from >= ls.len() || from < 0 {
        ls.len() as int
    } else if ls[from].len() == 0 {
        from
    } else {
        blank_pos(ls, from + 1)
    }
}

pub open spec fn spec_blocks_from(ls: Seq<Seq<char>>, from: int) -> Seq<Seq<Seq<char>>>
    decreases ls.len() - from,
    via spec_blocks_from_decreases
{
    if from > ls.len() || from < 0 {
        Seq::empty()
    } else {
        let b = blank_pos(ls, from);
        if b >= ls.len() {
            seq![ls.subrange(from, ls.len() as int)]
        } else {
            seq![ls.subrange(from, b)] + spec_blocks_from(ls, b + 1)
        }
    }
}

pub proof fn lemma_blank_pos_range(ls: Seq<Seq<char>>, from: int)
    requires
        0 <= from <= ls.len(),
    ensures
        from <= blank_pos(ls, from) <= ls.len(),
    decreases ls.len() - from,
{
    if from < ls.len() && ls[from].len() > 0 {
        lemma_blank_pos_range(ls, from + 1);
    }
}

#[via_fn]
proof fn spec_blocks_from_decreases(ls: Seq<Seq<char>>, from: int) {
    if 0 <= from <= ls.len() {
        lemma_blank_pos_range(ls, from);
    }
}

/// The row grids of already collected patterns.
pub open spec fn ps_blocks(ps: Seq<Pattern>) -> Seq<Seq<Seq<char>>> {
    Seq::new(ps.len(), |k: int| ps[k].rows.deep_view())
}

pub proof fn blocks_step(ls: Seq<Seq<char>>, start: int, k: int)
    requires
        0 <= start <= k < ls.len(),
        ls[k].len() == 0,
        forall|t: int| start <= t < k ==> (#[trigger] ls[t]).len() > 0,
    ensures
        spec_blocks_from(ls, start) == seq![ls.subrange(start, k)] + spec_blocks_from(ls, k + 1),
{
    lemma_blank_pos(ls, start, k);
}

pub proof fn lemma_blank_pos(ls: Seq<Seq<char>>, from: int, k: int)
    requires
        0 <= from <= k <= ls.len(),
        k < ls.len() ==> ls[k].len() == 0,
        k == ls.len() || forall|t: int| from <= t < k ==> (#[trigger] ls[t]).len() > 0,
        forall|t: int| from <= t < k ==> (#[trigger] ls[t]).len() > 0,
    ensures
        blank_pos(ls, from) == if k < ls.len() {
            k
        } else {
            ls.len() as int
        },
    decreases k - from,
{
    if from < k {
        lemma_blank_pos(ls, from + 1, k);
    }
}

pub proof fn blocks_last(ls: Seq<Seq<char>>, start: int)
    requires
        0 <= start <= ls.len(),
        forall|t: int| start <= t < ls.len() ==> (#[trigger] ls[t]).len() > 0,
    ensures
        spec_blocks_from(ls, start) == seq![ls.subrange(start, ls.len() as int)],
{
    lemma_blank_pos(ls, start, ls.len() as int);
}

} // verus!
