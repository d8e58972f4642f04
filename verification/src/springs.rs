//! Arrangement counting for condition records: cell sequences over
//! `.` (clear), `#` (blocked) and `?` (unknown), constrained by an ordered
//! list of blocked-run lengths.  `count_arr` is the mathematical count of
//! resolutions; the executable counter is a memoized search proved equal
//! to it, with pruning of offsets that cannot fit the remaining groups.

use vstd::prelude::*;
use crate::text;

verus! {

// ----- the mathematical model -----

/// A cell that may resolve to clear.
pub open spec fn can_clear(c: char) -> bool {
    c != '#'
}

/// A cell that may resolve to blocked.
pub open spec fn can_block(c: char) -> bool {
    c != '.'
}

pub open spec fn no_blocked(r: Seq<char>) -> bool {
    forall|i: int| 0 <= i < r.len() ==> can_clear(#[trigger] r[i])
}

/// A run of length `g` may start at offset `i`: everything before it
/// resolves clear, the run itself resolves blocked, and the cell after
/// the run (if any) resolves clear to terminate the run.
pub open spec fn place_ok(r: Seq<char>, i: int, g: int) -> bool {
    &&& 0 <= i
    &&& i + g <= r.len()
    &&& forall|j: int| 0 <= j < i ==> can_clear(#[trigger] r[j])
    &&& forall|j: int| i <= j < i + g ==> can_block(#[trigger] r[j])
    &&& (i + g == r.len() || can_clear(r[i + g]))
}

/// What is left of the record after a run at offset `i` and its
/// mandatory separator cell.
pub open spec fn after_place(r: Seq<char>, i: int, g: int) -> Seq<char> {
    if i + g + 1 <= r.len() {
        r.skip(i + g + 1)
    } else {
        Seq::empty()
    }
}

/// Number of ways to resolve every unknown cell of `r` so that the
/// maximal blocked runs are exactly `gs`, in order.
pub open spec fn count_arr(r: Seq<char>, gs: Seq<usize>) -> nat
    decreases gs.len(), r.len() + 2,
{
    if gs.len() == 0 {
        if no_blocked(r) {
            1
        } else {
            0
        }
    } else {
        count_scan(r, gs, 0)
    }
}

/// Sum of the counts of all placements of the first group at offsets
/// `i` and beyond.
pub open spec fn count_scan(r: Seq<char>, gs: Seq<usize>, i: int) -> nat
    decreases gs.len(), r.len() + 1 - i,
{
    if gs.len() == 0 || i < 0 || i > r.len() || i + gs[0] > r.len() {
        0
    } else {
        (if place_ok(r, i, gs[0] as int) {
            count_arr(after_place(r, i, gs[0] as int), gs.drop_first())
        } else {
            0
        }) + count_scan(r, gs, i + 1)
    }
}

/// Cells plus separators that `gs` needs: one cell per unit of run
/// length and one separator per group.
pub open spec fn groups_need(gs: Seq<usize>) -> int
    decreases gs.len(),
{
    if gs.len() == 0 {
        0
    } else {
        gs[0] + 1 + groups_need(gs.drop_first())
    }
}

pub proof fn lemma_groups_need_nonneg(gs: Seq<usize>)
    ensures
        groups_need(gs) >= gs.len(),
    decreases gs.len(),
{
    if gs.len() > 0 {
        lemma_groups_need_nonneg(gs.drop_first());
    }
}

/// Positive run lengths, as the group-spec invariant demands.
pub open spec fn all_positive(gs: Seq<usize>) -> bool {
    forall|j: int| 0 <= j < gs.len() ==> #[trigger] gs[j] >= 1
}

/// A record too short for the remaining groups admits no arrangement.
pub proof fn lemma_count_short(r: Seq<char>, gs: Seq<usize>)
    requires
        gs.len() > 0,
        all_positive(gs.drop_first()),
        r.len() < groups_need(gs) - 1,
    ensures
        count_arr(r, gs) == 0,
    decreases gs.len(), r.len() + 2,
{
    lemma_scan_short(r, gs, 0);
}

pub proof fn lemma_scan_short(r: Seq<char>, gs: Seq<usize>, i: int)
    requires
        gs.len() > 0,
        all_positive(gs.drop_first()),
        0 <= i,
        r.len() < i + groups_need(gs) - 1,
    ensures
        count_scan(r, gs, i) == 0,
    decreases gs.len(), r.len() + 1 - i,
{
    if i > r.len() || i + gs[0] > r.len() {
    } else {
        lemma_groups_need_nonneg(gs.drop_first());
        if place_ok(r, i, gs[0] as int) {
            let rest = gs.drop_first();
            if rest.len() > 0 {
                assert(all_positive(rest.drop_first()));
                lemma_groups_need_nonneg(rest.drop_first());
                assert(rest[0] >= 1);
                assert(groups_need(rest) >= 2);
                lemma_count_short(after_place(r, i, gs[0] as int), rest);
            } else {
                assert(r.len() < i + gs[0] + 1 - 1);
                assert(false);
            }
        }
        lemma_scan_short(r, gs, i + 1);
    }
}

/// Once a blocked cell lies strictly before the scan offset, no later
/// placement can be valid.
pub proof fn lemma_scan_blocked(r: Seq<char>, gs: Seq<usize>, i: int, b: int)
    requires
        gs.len() > 0,
        0 <= b < i,
        r[b] == '#',
    ensures
        count_scan(r, gs, i) == 0,
    decreases r.len() + 1 - i,
{
    if i > r.len() || i + gs[0] > r.len() {
    } else {
        assert(!place_ok(r, i, gs[0] as int));
        lemma_scan_blocked(r, gs, i + 1, b);
    }
}

/// The scan from any earlier offset is at least the term contributed at
/// one particular offset.
pub proof fn lemma_scan_ge_term(r: Seq<char>, gs: Seq<usize>, j: int, i: int)
    requires
        gs.len() > 0,
        0 <= j <= i,
        i + gs[0] <= r.len(),
        place_ok(r, i, gs[0] as int),
    ensures
        count_scan(r, gs, j) >= count_arr(after_place(r, i, gs[0] as int), gs.drop_first()),
    decreases i - j,
{
    if j < i {
        lemma_scan_ge_term(r, gs, j + 1, i);
    }
}

/// The scan from an earlier offset includes everything the scan from a
/// later offset still counts.
pub proof fn lemma_scan_ge_scan(r: Seq<char>, gs: Seq<usize>, j: int, i: int)
    requires
        gs.len() > 0,
        0 <= j <= i,
    ensures
        count_scan(r, gs, j) >= count_scan(r, gs, i),
    decreases i - j,
{
    if j < i {
        lemma_scan_ge_scan(r, gs, j + 1, i);
    }
}

// ----- the memo cache -----

/// Maps a sub-problem key, a pair of offsets into one fixed record and
/// group list, to a previously computed count.  One cache serves one
/// top-level counting call and is dropped with it.
pub struct MemoCache {
    rows: Vec<Vec<Option<u64>>>,
    record: Ghost<Seq<char>>,
    groups: Ghost<Seq<usize>>,
}

impl MemoCache {
    pub closed spec fn spec_record(self) -> Seq<char> {
        self.record@
    }

    pub closed spec fn spec_groups(self) -> Seq<usize> {
        self.groups@
    }

    /// Every stored entry is the arrangement count of the suffix pair
    /// its key names.
    pub closed spec fn wf(self) -> bool {
        &&& self.rows.len() == self.record@.len() + 1
        &&& forall|ri: int|
            0 <= ri < self.rows.len() ==> (#[trigger] self.rows[ri])@.len() == self.groups@.len()
                + 1
        &&& forall|ri: int, gi: int|
            0 <= ri < self.rows.len() && 0 <= gi < self.rows[ri]@.len() ==> match #[trigger] self.rows[ri]@[gi] {
                Some(c) => c as nat == count_arr(
                    self.record@.skip(ri),
                    self.groups@.skip(gi),
                ),
                None => true,
            }
    }

    pub fn new(record: &Vec<char>, groups: &Vec<usize>) -> (c: MemoCache)
        ensures
            c.wf(),
            c.spec_record() == record@,
            c.spec_groups() == groups@,
    {
        let mut rows: Vec<Vec<Option<u64>>> = Vec::new();
        let mut ri: usize = 0;
        loop
            invariant_except_break
                rows.len() == ri,
            invariant
                0 <= ri <= record.len(),
                forall|k: int| 0 <= k < ri ==> (#[trigger] rows[k])@.len() == groups@.len() + 1,
                forall|k: int, gi: int|
                    0 <= k < ri && 0 <= gi < rows[k]@.len() ==> rows[k]@[gi] is None,
            ensures
                rows.len() == record@.len() + 1,
                forall|k: int|
                    0 <= k < rows.len() ==> (#[trigger] rows[k])@.len() == groups@.len() + 1,
                forall|k: int, gi: int|
                    0 <= k < rows.len() && 0 <= gi < rows[k]@.len() ==> rows[k]@[gi] is None,
            decreases record.len() - ri,
        {
            let mut row: Vec<Option<u64>> = Vec::new();
            let mut gi: usize = 0;
            loop
                invariant_except_break
                    row.len() == gi,
                invariant
                    0 <= gi <= groups.len(),
                    forall|k: int| 0 <= k < gi ==> row[k] is None,
                ensures
                    row.len() == groups@.len() + 1,
                    forall|k: int| 0 <= k < row.len() ==> row[k] is None,
                decreases groups.len() - gi,
            {
                row.push(None);
                if gi == groups.len() {
                    break;
                }
                gi += 1;
            }
            rows.push(row);
            if ri == record.len() {
                break;
            }
            ri += 1;
        }
        MemoCache { rows, record: Ghost(record@), groups: Ghost(groups@) }
    }

    /// A previously stored count for this key, if any.
    pub fn get(&self, ri: usize, gi: usize) -> (o: Option<u64>)
        requires
            self.wf(),
            ri <= self.spec_record().len(),
            gi <= self.spec_groups().len(),
        ensures
            o matches Some(c) ==> c as nat == count_arr(
                self.spec_record().skip(ri as int),
                self.spec_groups().skip(gi as int),
            ),
    {
        self.rows[ri][gi]
    }

    /// Stores the count computed for this key.
    pub fn put(&mut self, ri: usize, gi: usize, val: u64)
        requires
            old(self).wf(),
            ri <= old(self).spec_record().len(),
            gi <= old(self).spec_groups().len(),
            val as nat == count_arr(
                old(self).spec_record().skip(ri as int),
                old(self).spec_groups().skip(gi as int),
            ),
        ensures
            final(self).wf(),
            final(self).spec_record() == old(self).spec_record(),
            final(self).spec_groups() == old(self).spec_groups(),
    {
        let mut row = self.rows.remove(ri);
        row.set(gi, Some(val));
        self.rows.insert(ri, row);
        proof {
            assert(self.rows@ =~= old(self).rows@.update(ri as int, row));
        }
    }
}

// ----- the executable counter -----

/// True when the record suffix starting at `ri` holds no blocked cell.
fn suffix_all_clearable(record: &Vec<char>, ri: usize) -> (b: bool)
    requires
        ri <= record.len(),
    ensures
        b == no_blocked(record@.skip(ri as int)),
{
    let mut i: usize = ri;
    while i < record.len()
        invariant
            ri <= i <= record.len(),
            forall|j: int| ri <= j < i ==> can_clear(#[trigger] record@[j]),
        decreases record.len() - i,
    {
        if record[i] == '#' {
            assert(!can_clear(record@.skip(ri as int)[i - ri]));
            return false;
        }
        i += 1;
    }
    proof {
        assert(forall|j: int|
            0 <= j < record@.skip(ri as int).len() ==> can_clear(
                #[trigger] record@.skip(ri as int)[j],
            ));
    }
    true
}

/// The memoized recursive search.  `Some(c)` is the exact count; `None`
/// means the count does not fit in 64 bits.
fn count_from(record: &Vec<char>, groups: &Vec<usize>, ri: usize, gi: usize, memo: &mut MemoCache) -> (res:
    Option<u64>)
    requires
        ri <= record.len(),
        gi <= groups.len(),
        old(memo).wf(),
        old(memo).spec_record() == record@,
        old(memo).spec_groups() == groups@,
    ensures
        final(memo).wf(),
        final(memo).spec_record() == record@,
        final(memo).spec_groups() == groups@,
        match res {
            Some(c) => c as nat == count_arr(record@.skip(ri as int), groups@.skip(gi as int)),
            None => count_arr(record@.skip(ri as int), groups@.skip(gi as int)) > u64::MAX,
        },
    decreases groups.len() - gi,
{
    let ghost suffix = record@.skip(ri as int);
    let ghost gsfx = groups@.skip(gi as int);
    if let Some(c) = memo.get(ri, gi) {
        return Some(c);
    }
    if gi == groups.len() {
        proof {
            assert(gsfx.len() == 0);
        }
        let res: u64 = if suffix_all_clearable(record, ri) {
            1
        } else {
            0
        };
        memo.put(ri, gi, res);
        return Some(res);
    }
    let g: usize = groups[gi];
    proof {
        assert(gsfx[0] == g);
        assert(gsfx.len() > 0);
    }
    // Room that the groups after this one require, counting their
    // mandatory separators; offsets beyond it cannot lead anywhere.
    let mut need_rest: u128 = 0;
    let mut rest_positive: bool = true;
    let mut k: usize = gi + 1;
    while k < groups.len()
        invariant
            gi + 1 <= k <= groups.len(),
            need_rest == groups_need(groups@.skip(gi as int + 1)) - groups_need(
                groups@.skip(k as int),
            ),
            need_rest <= 0x1_0000_0000_0000_0000u128 * ((k - gi - 1) as u128),
            rest_positive == (forall|t: int|
                gi + 1 <= t < k ==> #[trigger] groups@[t] >= 1),
        decreases groups.len() - k,
    {
        proof {
            assert(groups@.skip(k as int).drop_first() =~= groups@.skip(k as int + 1));
            assert(groups_need(groups@.skip(k as int)) == groups@[k as int] + 1 + groups_need(
                groups@.skip(k as int + 1),
            ));
        }
        if groups[k] == 0 {
            rest_positive = false;
        }
        need_rest = need_rest + groups[k] as u128 + 1;
        k += 1;
    }
    proof {
        assert(groups@.skip(groups.len() as int) =~= Seq::<usize>::empty());
        assert(need_rest == groups_need(groups@.skip(gi as int + 1)));
        assert(gsfx.drop_first() =~= groups@.skip(gi as int + 1));
        if rest_positive {
            assert(forall|t: int|
                0 <= t < gsfx.drop_first().len() ==> #[trigger] gsfx.drop_first()[t] >= 1);
            assert(all_positive(gsfx.drop_first()));
        }
    }
    let suffix_len: usize = record.len() - ri;
    let mut acc: u64 = 0;
    let mut i: usize = 0;
    loop
        invariant_except_break
            forall|j: int| 0 <= j < i && j < suffix.len() ==> can_clear(#[trigger] suffix[j]),
            acc as int + count_scan(suffix, gsfx, i as int) == count_scan(suffix, gsfx, 0),
        invariant
            memo.wf(),
            memo.spec_record() == record@,
            memo.spec_groups() == groups@,
            ri <= record.len(),
            gi < groups.len(),
            g == groups@[gi as int],
            suffix == record@.skip(ri as int),
            gsfx == groups@.skip(gi as int),
            gsfx.len() > 0,
            gsfx[0] == g,
            suffix_len == suffix.len(),
            ri + suffix_len == record.len(),
            need_rest == groups_need(gsfx.drop_first()),
            rest_positive ==> all_positive(gsfx.drop_first()),
            0 <= i <= suffix_len + 1,
        ensures
            memo.wf(),
            memo.spec_record() == record@,
            memo.spec_groups() == groups@,
            acc as int == count_scan(suffix, gsfx, 0),
        decreases suffix_len + 1 - i,
    {
        if i > suffix_len || g > suffix_len - i {
            proof {
                assert(count_scan(suffix, gsfx, i as int) == 0);
            }
            break;
        }
        if rest_positive && need_rest > ((suffix_len - i - g) as u128) {
            proof {
                lemma_groups_need_nonneg(gsfx.drop_first());
                assert(groups_need(gsfx) == g + 1 + need_rest);
                lemma_scan_short(suffix, gsfx, i as int);
                assert(count_scan(suffix, gsfx, i as int) == 0);
            }
            break;
        }
        proof {
            assert(i + g <= suffix_len);
        }
        // Check whether the run fits at offset i.
        let mut ok: bool = true;
        let mut j: usize = 0;
        while j < g
            invariant
                0 <= j <= g,
                i + g <= suffix_len,
                suffix_len == suffix.len(),
                ri + suffix_len == record.len(),
                suffix == record@.skip(ri as int),
                ok ==> forall|t: int| i <= t < i + j ==> can_block(#[trigger] suffix[t]),
                !ok ==> exists|t: int| i <= t < i + g && !can_block(#[trigger] suffix[t]),
            decreases g - j,
        {
            if record[ri + i + j] == '.' {
                proof {
                    assert(suffix[i + j] == record@[ri + i + j]);
                    assert(!can_block(suffix[i + j]));
                }
                ok = false;
                j = g;
            } else {
                proof {
                    assert(suffix[i + j] == record@[ri + i + j]);
                    assert(can_block(suffix[i + j]));
                }
                j += 1;
            }
        }
        if ok && i + g < suffix_len && record[ri + i + g] == '#' {
            proof {
                assert(suffix[i + g] == record@[ri + i + g]);
            }
            ok = false;
            proof {
                assert(!place_ok(suffix, i as int, g as int));
            }
        }
        proof {
            if ok {
                assert(place_ok(suffix, i as int, g as int));
            } else {
                assert(!place_ok(suffix, i as int, g as int));
            }
        }
        if ok {
            let next_ri: usize = if ri + i + g + 1 <= record.len() {
                ri + i + g + 1
            } else {
                record.len()
            };
            proof {
                assert(after_place(suffix, i as int, g as int) =~= record@.skip(next_ri as int));
                assert(gsfx.drop_first() =~= groups@.skip(gi as int + 1));
            }
            match count_from(record, groups, next_ri, gi + 1, memo) {
                Some(c) => {
                    proof {
                        assert(count_scan(suffix, gsfx, i as int) == c + count_scan(
                            suffix,
                            gsfx,
                            i as int + 1,
                        ));
                    }
                    if acc > u64::MAX - c {
                        proof {
                            assert(count_scan(suffix, gsfx, 0) > u64::MAX);
                            lemma_count_ge_scan_total(suffix, gsfx);
                        }
                        return None;
                    }
                    acc = acc + c;
                },
                None => {
                    proof {
                        lemma_scan_ge_term(suffix, gsfx, 0, i as int);
                        lemma_count_ge_scan_total(suffix, gsfx);
                    }
                    return None;
                },
            }
        } else {
            proof {
                assert(count_scan(suffix, gsfx, i as int) == count_scan(
                    suffix,
                    gsfx,
                    i as int + 1,
                ));
            }
        }
        // The offset just scanned resolves clear in every counted
        // arrangement from later offsets.
        if i < suffix_len && record[ri + i] == '#' {
            proof {
                assert(suffix[i as int] == record@[ri + i]);
                lemma_scan_blocked(suffix, gsfx, i as int + 1, i as int);
            }
            i += 1;
            proof {
                assert(count_scan(suffix, gsfx, i as int) == 0);
            }
            break;
        }
        i += 1;
    }
    proof {
        lemma_count_ge_scan_total(suffix, gsfx);
    }
    memo.put(ri, gi, acc);
    Some(acc)
}

/// The total count equals the scan of the first group, so a scan that
/// overflows means the count itself does.
proof fn lemma_count_ge_scan_total(r: Seq<char>, gs: Seq<usize>)
    requires
        gs.len() > 0,
    ensures
        count_arr(r, gs) == count_scan(r, gs, 0),
{
}

/// Counts the arrangements of one record against one group list.
/// `Some(c)` is the exact count; `None` reports a count beyond 64 bits.
pub fn count(record: &Vec<char>, groups: &Vec<usize>) -> (res: Option<u64>)
    ensures
        match res {
            Some(c) => c as nat == count_arr(record@, groups@),
            None => count_arr(record@, groups@) > u64::MAX,
        },
{
    let mut memo = MemoCache::new(record, groups);
    let res = count_from(record, groups, 0, 0, &mut memo);
    proof {
        assert(record@.skip(0) =~= record@);
        assert(groups@.skip(0) =~= groups@);
    }
    res
}

// ----- the unfolder -----

/// `f` copies of the record joined by single unknown cells.
pub open spec fn spec_unfold_record(r: Seq<char>, f: int) -> Seq<char>
    decreases f,
{
    if f <= 0 {
        Seq::empty()
    } else if f == 1 {
        r
    } else {
        spec_unfold_record(r, f - 1) + seq!['?'] + r
    }
}

/// `f` copies of the groups, concatenated.
pub open spec fn spec_repeat_groups(gs: Seq<usize>, f: int) -> Seq<usize>
    decreases f,
{
    if f <= 0 {
        Seq::empty()
    } else {
        spec_repeat_groups(gs, f - 1) + gs
    }
}

/// The unfolded record would not fit in memory.
pub open spec fn unfold_too_large(r: Seq<char>, f: int) -> bool {
    f >= 1 && r.len() * f + f - 1 > usize::MAX
}

/// Replicates a record `factor` times with an unknown cell between the
/// copies, and the groups `factor` times with no insertion.  Its result
/// depends on the arguments alone; `None` only when the unfolded record
/// would be too large to build.
#[verifier::loop_isolation(false)]
pub fn unfold(record: &Vec<char>, groups: &Vec<usize>, factor: usize) -> (res: Option<
    (Vec<char>, Vec<usize>)>)
    ensures
        res is Some <==> !unfold_too_large(record@, factor as int),
        res matches Some(p) ==> p.0@ == spec_unfold_record(record@, factor as int) && p.1@
            == spec_repeat_groups(groups@, factor as int),
{
    if factor >= 1 {
        proof {
            assert((record.len() as u128) * (factor as u128) <= 0xffff_ffff_ffff_ffffu128
                * 0xffff_ffff_ffff_ffffu128) by (nonlinear_arith)
                requires
                    record.len() as u128 <= 0xffff_ffff_ffff_ffffu128,
                    factor as u128 <= 0xffff_ffff_ffff_ffffu128,
            ;
        }
        let cells: u128 = (record.len() as u128) * (factor as u128) + ((factor as u128) - 1);
        if cells > usize::MAX as u128 {
            return None;
        }
    }
    let mut cells: Vec<char> = Vec::new();
    let mut reps: Vec<usize> = Vec::new();
    let mut rep: usize = 0;
    while rep < factor
        invariant
            0 <= rep <= factor,
            cells@ == spec_unfold_record(record@, rep as int),
            reps@ == spec_repeat_groups(groups@, rep as int),
        decreases factor - rep,
    {
        if rep > 0 {
            cells.push('?');
        }
        let mut i: usize = 0;
        let ghost base = cells@;
        while i < record.len()
            invariant
                0 <= i <= record.len(),
                cells@ =~= base + record@.take(i as int),
            decreases record.len() - i,
        {
            cells.push(record[i]);
            i += 1;
        }
        let mut k: usize = 0;
        let ghost gbase = reps@;
        while k < groups.len()
            invariant
                0 <= k <= groups.len(),
                reps@ =~= gbase + groups@.take(k as int),
            decreases groups.len() - k,
        {
            reps.push(groups[k]);
            k += 1;
        }
        proof {
            assert(record@.take(record@.len() as int) =~= record@);
            assert(groups@.take(groups@.len() as int) =~= groups@);
            if rep == 0 {
                assert(cells@ =~= spec_unfold_record(record@, 1));
            } else {
                assert(cells@ =~= spec_unfold_record(record@, rep as int) + seq!['?']
                    + record@);
            }
            assert(reps@ =~= spec_repeat_groups(groups@, rep as int) + groups@);
        }
        rep += 1;
    }
    Some((cells, reps))
}

/// Unfolding is deterministic: its result is a function of the record,
/// the groups and the factor alone, so repeated applications to the
/// same arguments give the same pair.
pub proof fn lemma_unfold_deterministic(
    r1: Seq<char>,
    g1: Seq<usize>,
    r2: Seq<char>,
    g2: Seq<usize>,
    f: int,
)
    requires
        r1 == r2,
        g1 == g2,
    ensures
        spec_unfold_record(r1, f) == spec_unfold_record(r2, f),
        spec_repeat_groups(g1, f) == spec_repeat_groups(g2, f),
{
}

// ----- laws of the count -----

/// Appending one trailing unknown cell never decreases the count.
pub proof fn lemma_count_monotonic_unknown(r: Seq<char>, gs: Seq<usize>)
    ensures
        count_arr(r.push('?'), gs) >= count_arr(r, gs),
    decreases gs.len(), r.len() + 2,
{
    if gs.len() == 0 {
        let r2 = r.push('?');
        if no_blocked(r) {
            assert(forall|i: int| 0 <= i < r2.len() ==> can_clear(#[trigger] r2[i]));
        }
    } else {
        lemma_scan_monotonic_unknown(r, gs, 0);
    }
}

proof fn lemma_scan_monotonic_unknown(r: Seq<char>, gs: Seq<usize>, i: int)
    requires
        gs.len() > 0,
        0 <= i,
    ensures
        count_scan(r.push('?'), gs, i) >= count_scan(r, gs, i),
    decreases gs.len(), r.len() + 1 - i,
{
    let r2 = r.push('?');
    let g = gs[0] as int;
    if i > r.len() || i + g > r.len() {
        // nothing: the original scan is zero there
    } else {
        lemma_scan_monotonic_unknown(r, gs, i + 1);
        if place_ok(r, i, g) {
            assert(place_ok(r2, i, g));
            if i + g + 1 <= r.len() {
                assert(after_place(r2, i, g) =~= after_place(r, i, g).push('?'));
                lemma_count_monotonic_unknown(after_place(r, i, g), gs.drop_first());
            } else {
                assert(after_place(r2, i, g) =~= after_place(r, i, g));
            }
        }
    }
}

/// Cells that are already resolved.
pub open spec fn fully_known(r: Seq<char>) -> bool {
    forall|i: int| 0 <= i < r.len() ==> (#[trigger] r[i] == '.' || r[i] == '#')
}

/// Length of the blocked run at the front of the record.
pub open spec fn lead_run(r: Seq<char>) -> int
    decreases r.len(),
{
    if r.len() == 0 || r[0] != '#' {
        0
    } else {
        1 + lead_run(r.drop_first())
    }
}

pub proof fn lemma_lead_run(r: Seq<char>)
    ensures
        0 <= lead_run(r) <= r.len(),
        forall|j: int| 0 <= j < lead_run(r) ==> #[trigger] r[j] == '#',
        lead_run(r) < r.len() ==> r[lead_run(r)] != '#',
    decreases r.len(),
{
    if r.len() > 0 && r[0] == '#' {
        lemma_lead_run(r.drop_first());
        assert(forall|j: int|
            1 <= j < lead_run(r) ==> #[trigger] r[j] == r.drop_first()[j - 1]);
    }
}

/// The maximal blocked-run lengths of a record, left to right.
pub open spec fn runs_of(r: Seq<char>) -> Seq<int>
    decreases r.len(),
    via runs_of_decreases
{
    if r.len() == 0 {
        Seq::empty()
    } else if r[0] != '#' {
        runs_of(r.drop_first())
    } else {
        seq![lead_run(r)] + runs_of(r.skip(lead_run(r)))
    }
}

#[via_fn]
proof fn runs_of_decreases(r: Seq<char>) {
    if r.len() > 0 && r[0] == '#' {
        lemma_lead_run(r);
    }
}

/// The group lengths as plain integers.
pub open spec fn to_ints(gs: Seq<usize>) -> Seq<int> {
    Seq::new(gs.len(), |k: int| gs[k] as int)
}

/// Without unknown cells there is no choice left: the count is one when
/// the actual runs equal the groups, and zero otherwise.
pub proof fn lemma_count_fully_known(r: Seq<char>, gs: Seq<usize>)
    requires
        fully_known(r),
        all_positive(gs),
    ensures
        count_arr(r, gs) == (if runs_of(r) == to_ints(gs) {
            1nat
        } else {
            0nat
        }),
    decreases r.len(),
{
    if r.len() == 0 {
        if gs.len() == 0 {
            assert(runs_of(r) =~= to_ints(gs));
        } else {
            assert(runs_of(r).len() == 0 && to_ints(gs).len() > 0);
            assert(count_scan(r, gs, 0) == 0);
        }
    } else if r[0] == '.' {
        let d = r.drop_first();
        assert(fully_known(d));
        lemma_count_fully_known(d, gs);
        assert(runs_of(r) == runs_of(d));
        if gs.len() == 0 {
            assert(no_blocked(r) == no_blocked(d)) by {
                if no_blocked(d) {
                    assert(forall|j: int| 1 <= j < r.len() ==> #[trigger] r[j] == d[j - 1]);
                    assert(forall|j: int| 0 <= j < r.len() ==> can_clear(#[trigger] r[j]));
                }
            }
        } else {
            assert(!place_ok(r, 0, gs[0] as int));
            lemma_scan_shift(r, gs, 0);
            assert(count_scan(r, gs, 0) == count_scan(d, gs, 0));
        }
    } else {
        assert(r[0] == '#');
        lemma_lead_run(r);
        let len_ = lead_run(r);
        assert(runs_of(r) == seq![len_] + runs_of(r.skip(len_)));
        if gs.len() == 0 {
            assert(!no_blocked(r));
            assert(runs_of(r).len() > 0);
            assert(runs_of(r) != to_ints(gs));
        } else {
            let g = gs[0] as int;
            lemma_scan_blocked(r, gs, 1, 0);
            assert(count_scan(r, gs, 0) == (if place_ok(r, 0, g) {
                count_arr(after_place(r, 0, g), gs.drop_first())
            } else {
                0
            }) + count_scan(r, gs, 1) || g > r.len());
            if place_ok(r, 0, g) {
                // a valid front placement pins the first run exactly
                assert(forall|j: int| 0 <= j < g ==> #[trigger] r[j] == '#');
                assert(g <= len_);
                assert(len_ <= g) by {
                    if g < len_ {
                        assert(r[g] == '#');
                        assert(g == r.len() || can_clear(r[g]));
                    }
                }
                let after = after_place(r, 0, g);
                assert(fully_known(after));
                assert(all_positive(gs.drop_first()));
                lemma_count_fully_known(after, gs.drop_first());
                assert(runs_of(r.skip(len_)) == runs_of(after)) by {
                    if g + 1 <= r.len() {
                        assert(r.skip(g)[0] != '#');
                        assert(r.skip(g).drop_first() =~= r.skip(g + 1));
                        assert(runs_of(r.skip(g)) == runs_of(r.skip(g + 1)));
                        assert(after =~= r.skip(g + 1));
                    } else {
                        assert(r.skip(g) =~= Seq::<char>::empty());
                        assert(after =~= Seq::<char>::empty());
                    }
                }
                assert(runs_of(r) == to_ints(gs) <==> runs_of(after) == to_ints(
                    gs.drop_first(),
                )) by {
                    if runs_of(after) == to_ints(gs.drop_first()) {
                        assert(runs_of(r) =~= to_ints(gs));
                    }
                    if runs_of(r) == to_ints(gs) {
                        assert(runs_of(r)[0] == to_ints(gs)[0]);
                        assert(forall|k: int|
                            0 <= k < runs_of(after).len() ==> #[trigger] runs_of(after)[k]
                                == runs_of(r)[k + 1]);
                        assert(forall|k: int|
                            0 <= k < gs.drop_first().len() ==> #[trigger] to_ints(
                                gs.drop_first(),
                            )[k] == gs[k + 1] as int);
                        assert(forall|k: int|
                            0 <= k < gs.drop_first().len() ==> #[trigger] to_ints(gs)[k + 1]
                                == gs[k + 1] as int);
                        assert(runs_of(after) =~= to_ints(gs.drop_first()));
                    }
                }
            } else {
                // no valid front placement: the runs cannot match either
                assert(count_arr(r, gs) == 0);
                if runs_of(r) == to_ints(gs) {
                    assert(runs_of(r)[0] == len_);
                    assert(len_ == g);
                    assert(g <= r.len());
                    assert(forall|j: int| 0 <= j < g ==> #[trigger] r[j] == '#');
                    assert(g == r.len() || can_clear(r[g]));
                    assert(place_ok(r, 0, g));
                    assert(false);
                }
            }
        }
    }
}

// ----- records and parsing -----

/// One condition record: the cells and the required run lengths.
#[derive(Debug)]
pub struct MaintenanceRecord {
    pub springs: Vec<char>,
    pub damaged_springs: Vec<usize>,
}

/// Why a line was rejected.
#[derive(Debug, PartialEq, Eq, Clone, Copy)]
pub enum ParseError {
    /// Not exactly one record part and one group part.
    MissingSpec,
    /// A record character outside `.`, `#`, `?`.
    IllegalCell,
    /// A group that is not a decimal number fitting the machine.
    BadGroup,
}

pub open spec fn valid_cell(c: char) -> bool {
    c == '.' || c == '#' || c == '?'
}

pub open spec fn valid_cells(s: Seq<char>) -> bool {
    forall|i: int| 0 <= i < s.len() ==> valid_cell(#[trigger] s[i])
}

pub open spec fn valid_group_text(s: Seq<char>) -> bool {
    s.len() > 0 && text::all_digits(s) && text::digits_val(s) <= usize::MAX
}

pub open spec fn valid_groups_text(ps: Seq<Seq<char>>) -> bool {
    forall|k: int| 0 <= k < ps.len() ==> valid_group_text(#[trigger] ps[k])
}

/// A line the parser accepts: record, one space, comma-separated runs.
pub open spec fn line_ok(s: Seq<char>) -> bool {
    let parts = text::spec_split(s, ' ');
    &&& parts.len() == 2
    &&& valid_cells(parts[0])
    &&& valid_groups_text(text::spec_split(parts[1], ','))
}

pub open spec fn spec_record_of(s: Seq<char>) -> Seq<char> {
    text::spec_split(s, ' ')[0]
}

pub open spec fn spec_groups_of(s: Seq<char>) -> Seq<usize> {
    let gs = text::spec_split(text::spec_split(s, ' ')[1], ',');
    Seq::new(gs.len(), |k: int| text::digits_val(gs[k]) as usize)
}

/// The error a bad line draws.
pub open spec fn spec_error_of(s: Seq<char>) -> ParseError {
    let parts = text::spec_split(s, ' ');
    if parts.len() != 2 {
        ParseError::MissingSpec
    } else if !valid_cells(parts[0]) {
        ParseError::IllegalCell
    } else {
        ParseError::BadGroup
    }
}

impl MaintenanceRecord {
    pub fn new() -> (m: MaintenanceRecord)
        ensures
            m.springs@ == Seq::<char>::empty(),
            m.damaged_springs@ == Seq::<usize>::empty(),
    {
        MaintenanceRecord { springs: Vec::new(), damaged_springs: Vec::new() }
    }

    /// Parses `<cells> <runs>`; every malformed line draws the error
    /// `spec_error_of` names, and nothing else does.
    pub fn parse_maintenance_record(line: &str) -> (r: Result<MaintenanceRecord, ParseError>)
        ensures
            r is Ok <==> line_ok(line@),
            r matches Ok(m) ==> m.springs@ == spec_record_of(line@) && m.damaged_springs@
                == spec_groups_of(line@),
            r matches Err(e) ==> e == spec_error_of(line@),
    {
        let cs = text::chars_of(line);
        Self::parse_record_from_chars(&cs)
    }

    /// Parses a batch of lines, stopping at the first malformed one.
    #[verifier::loop_isolation(false)]
    pub fn parse_all_maintenance_records(input: &str) -> (r: Result<
        Vec<MaintenanceRecord>,
        ParseError,
    >)
        ensures
            r is Ok <==> (forall|k: int|
                0 <= k < text::spec_lines(input@).len() ==> line_ok(
                    #[trigger] text::spec_lines(input@)[k],
                )),
            r matches Ok(ms) ==> {
                &&& ms@.len() == text::spec_lines(input@).len()
                &&& forall|k: int|
                    0 <= k < ms@.len() ==> (#[trigger] ms@[k]).springs@ == spec_record_of(
                        text::spec_lines(input@)[k],
                    ) && ms@[k].damaged_springs@ == spec_groups_of(text::spec_lines(input@)[k])
            },
            r matches Err(e) ==> exists|k: int|
                0 <= k < text::spec_lines(input@).len() && !line_ok(
                    #[trigger] text::spec_lines(input@)[k],
                ) && e == spec_error_of(text::spec_lines(input@)[k]),
    {
        let cs = text::chars_of(input);
        let lines = text::lines_of(&cs);
        let ghost lspec = text::spec_lines(input@);
        let mut ms: Vec<MaintenanceRecord> = Vec::new();
        let mut k: usize = 0;
        while k < lines.len()
            invariant
                0 <= k <= lines.len(),
                lines.deep_view() == lspec,
                lines.len() == lspec.len(),
                ms@.len() == k,
                forall|t: int| 0 <= t < k ==> line_ok(#[trigger] lspec[t]),
                forall|t: int|
                    0 <= t < k ==> (#[trigger] ms@[t]).springs@ == spec_record_of(lspec[t])
                        && ms@[t].damaged_springs@ == spec_groups_of(lspec[t]),
            decreases lines.len() - k,
        {
            proof {
                assert(lines[k as int]@ == lspec[k as int]);
            }
            match Self::parse_record_from_chars(&lines[k]) {
                Ok(m) => {
                    ms.push(m);
                },
                Err(e) => {
                    proof {
                        assert((k as int) < lspec.len());
                        assert(!line_ok(lspec[k as int]));
                        assert(e == spec_error_of(lspec[k as int]));
                    }
                    return Err(e);
                },
            }
            k += 1;
        }
        Ok(ms)
    }

    /// The single-line parser on an already split line.
    #[verifier::loop_isolation(false)]
    pub fn parse_record_from_chars(cs: &Vec<char>) -> (r: Result<MaintenanceRecord, ParseError>)
        ensures
            r is Ok <==> line_ok(cs@),
            r matches Ok(m) ==> m.springs@ == spec_record_of(cs@) && m.damaged_springs@
                == spec_groups_of(cs@),
            r matches Err(e) ==> e == spec_error_of(cs@),
    {
        let parts = text::split_on(cs, ' ');
        if parts.len() != 2 {
            return Err(ParseError::MissingSpec);
        }
        let rec = &parts[0];
        proof {
            assert(rec@ == text::spec_split(cs@, ' ')[0]);
        }
        let mut i: usize = 0;
        while i < rec.len()
            invariant
                0 <= i <= rec.len(),
                forall|j: int| 0 <= j < i ==> valid_cell(#[trigger] rec@[j]),
            decreases rec.len() - i,
        {
            let c = rec[i];
            if !(c == '.' || c == '#' || c == '?') {
                assert(!valid_cells(rec@));
                return Err(ParseError::IllegalCell);
            }
            i += 1;
        }
        assert(valid_cells(rec@));
        proof {
            assert(parts[1]@ == text::spec_split(cs@, ' ')[1]);
        }
        let gtexts = text::split_on(&parts[1], ',');
        let ghost gspec = text::spec_split(text::spec_split(cs@, ' ')[1], ',');
        proof {
            assert(gtexts.deep_view() == gspec);
        }
        let mut groups: Vec<usize> = Vec::new();
        let mut k: usize = 0;
        while k < gtexts.len()
            invariant
                0 <= k <= gtexts.len(),
                gtexts.deep_view() == gspec,
                gtexts.len() == gspec.len(),
                forall|t: int| 0 <= t < k ==> valid_group_text(#[trigger] gspec[t]),
                groups@.len() == k,
                forall|t: int|
                    0 <= t < k ==> #[trigger] groups@[t] == text::digits_val(gspec[t]) as usize,
            decreases gtexts.len() - k,
        {
            proof {
                assert(gtexts[k as int]@ == gspec[k as int]);
            }
            match text::parse_u64(&gtexts[k]) {
                Some(v) => {
                    if v <= usize::MAX as u64 {
                        groups.push(v as usize);
                    } else {
                        assert(!valid_group_text(gspec[k as int]));
                        return Err(ParseError::BadGroup);
                    }
                },
                None => {
                    proof {
                        if gspec[k as int].len() > 0 && text::all_digits(gspec[k as int]) {
                            text::lemma_digits_val_nonneg(gspec[k as int]);
                        }
                        assert(!valid_group_text(gspec[k as int]));
                    }
                    return Err(ParseError::BadGroup);
                },
            }
            k += 1;
        }
        let mut springs: Vec<char> = Vec::new();
        let mut j: usize = 0;
        while j < rec.len()
            invariant
                0 <= j <= rec.len(),
                springs@ =~= rec@.take(j as int),
            decreases rec.len() - j,
        {
            springs.push(rec[j]);
            j += 1;
        }
        proof {
            assert(springs@ =~= rec@);
            assert(groups@ =~= spec_groups_of(cs@));
        }
        Ok(MaintenanceRecord { springs, damaged_springs: groups })
    }

    /// Counting through an explicitly threaded cache, as the search
    /// itself does.
    pub fn possible_failures(
        &self,
        lava: &Vec<char>,
        springs: &Vec<usize>,
        cache: &mut MemoCache,
    ) -> (res: Option<u64>)
        requires
            old(cache).wf(),
            old(cache).spec_record() == lava@,
            old(cache).spec_groups() == springs@,
        ensures
            final(cache).wf(),
            final(cache).spec_record() == lava@,
            final(cache).spec_groups() == springs@,
            match res {
                Some(c) => c as nat == count_arr(lava@, springs@),
                None => count_arr(lava@, springs@) > u64::MAX,
            },
    {
        let res = count_from(lava, springs, 0, 0, cache);
        proof {
            assert(lava@.skip(0) =~= lava@);
            assert(springs@.skip(0) =~= springs@);
        }
        res
    }

    /// The arrangement count of this record.
    pub fn count_possible_failures(&self) -> (res: Option<u64>)
        ensures
            match res {
                Some(c) => c as nat == count_arr(self.springs@, self.damaged_springs@),
                None => count_arr(self.springs@, self.damaged_springs@) > u64::MAX,
            },
    {
        count(&self.springs, &self.damaged_springs)
    }

    /// The arrangement count of this record unfolded five-fold.
    pub fn count_possible_failures_unfold(&self) -> (res: Option<u64>)
        ensures
            match res {
                Some(c) => c as nat == count_arr(
                    spec_unfold_record(self.springs@, 5),
                    spec_repeat_groups(self.damaged_springs@, 5),
                ) && !unfold_too_large(self.springs@, 5),
                None => unfold_too_large(self.springs@, 5) || count_arr(
                    spec_unfold_record(self.springs@, 5),
                    spec_repeat_groups(self.damaged_springs@, 5),
                ) > u64::MAX,
            },
    {
        match unfold(&self.springs, &self.damaged_springs, 5) {
            Some(pair) => count(&pair.0, &pair.1),
            None => None,
        }
    }
}

// ----- the aggregator -----

/// Sum of the plain counts of a batch.
pub open spec fn total_plain_of(ms: Seq<MaintenanceRecord>) -> nat
    decreases ms.len(),
{
    if ms.len() == 0 {
        0
    } else {
        total_plain_of(ms.drop_last()) + count_arr(
            ms.last().springs@,
            ms.last().damaged_springs@,
        )
    }
}

/// Sum of the five-fold unfolded counts of a batch.
pub open spec fn total_unfolded_of(ms: Seq<MaintenanceRecord>) -> nat
    decreases ms.len(),
{
    if ms.len() == 0 {
        0
    } else {
        total_unfolded_of(ms.drop_last()) + count_arr(
            spec_unfold_record(ms.last().springs@, 5),
            spec_repeat_groups(ms.last().damaged_springs@, 5),
        )
    }
}

/// Some record of the batch is too large to unfold five-fold.
pub open spec fn some_unfold_too_large(ms: Seq<MaintenanceRecord>) -> bool {
    exists|k: int| 0 <= k < ms.len() && unfold_too_large((#[trigger] ms[k]).springs@, 5)
}

/// Sums the per-record counts of a batch; the plain and the unfolded
/// totals are computed independently.  `None` reports a value beyond
/// 64 bits, or (for the unfolded total) a record too large to unfold.
#[verifier::loop_isolation(false)]
pub fn totals(ms: &Vec<MaintenanceRecord>) -> (res: (Option<u64>, Option<u64>))
    ensures
        match res.0 {
            Some(c) => c as nat == total_plain_of(ms@),
            None => total_plain_of(ms@) > u64::MAX,
        },
        match res.1 {
            Some(c) => c as nat == total_unfolded_of(ms@) && !some_unfold_too_large(ms@),
            None => total_unfolded_of(ms@) > u64::MAX || some_unfold_too_large(ms@),
        },
{
    let mut plain: Option<u64> = Some(0);
    let mut unfolded: Option<u64> = Some(0);
    let mut k: usize = 0;
    while k < ms.len()
        invariant
            0 <= k <= ms.len(),
            match plain {
                Some(c) => c as nat == total_plain_of(ms@.take(k as int)),
                None => total_plain_of(ms@.take(k as int)) > u64::MAX,
            },
            match unfolded {
                Some(c) => c as nat == total_unfolded_of(ms@.take(k as int))
                    && !some_unfold_too_large(ms@.take(k as int)),
                None => total_unfolded_of(ms@.take(k as int)) > u64::MAX
                    || some_unfold_too_large(ms@.take(k as int)),
            },
        decreases ms.len() - k,
    {
        let m = &ms[k];
        proof {
            assert(ms@.take(k as int + 1).drop_last() =~= ms@.take(k as int));
            assert(ms@.take(k as int + 1).last() == ms@[k as int]);
            lemma_total_prefix_le(ms@, k as int);
        }
        match (m.count_possible_failures(), plain) {
            (Some(c), Some(p)) => {
                if p > u64::MAX - c {
                    plain = None;
                } else {
                    plain = Some(p + c);
                }
            },
            _ => {
                plain = None;
            },
        }
        match (m.count_possible_failures_unfold(), unfolded) {
            (Some(c), Some(p)) => {
                if p > u64::MAX - c {
                    unfolded = None;
                } else {
                    unfolded = Some(p + c);
                }
                proof {
                    if some_unfold_too_large(ms@.take(k as int + 1)) {
                        let t = choose|t: int|
                            0 <= t < ms@.take(k as int + 1).len() && unfold_too_large(
                                (#[trigger] ms@.take(k as int + 1)[t]).springs@,
                                5,
                            );
                        if t < k as int {
                            assert(ms@.take(k as int)[t] == ms@.take(k as int + 1)[t]);
                            assert(some_unfold_too_large(ms@.take(k as int)));
                        }
                        assert(false);
                    }
                }
            },
            _ => {
                unfolded = None;
                proof {
                    if some_unfold_too_large(ms@.take(k as int)) {
                        let t = choose|t: int|
                            0 <= t < ms@.take(k as int).len() && unfold_too_large(
                                (#[trigger] ms@.take(k as int)[t]).springs@,
                                5,
                            );
                        assert(ms@.take(k as int + 1)[t] == ms@.take(k as int)[t]);
                        assert(some_unfold_too_large(ms@.take(k as int + 1)));
                    }
                    if unfold_too_large(ms@[k as int].springs@, 5) {
                        assert(ms@.take(k as int + 1)[k as int] == ms@[k as int]);
                        assert(some_unfold_too_large(ms@.take(k as int + 1)));
                    }
                }
            },
        }
        k += 1;
    }
    proof {
        assert(ms@.take(ms@.len() as int) =~= ms@);
    }
    (plain, unfolded)
}

/// A prefix total never exceeds a longer prefix total.
proof fn lemma_total_prefix_le(ms: Seq<MaintenanceRecord>, k: int)
    requires
        0 <= k < ms.len(),
    ensures
        total_plain_of(ms.take(k + 1)) == total_plain_of(ms.take(k)) + count_arr(
            ms[k].springs@,
            ms[k].damaged_springs@,
        ),
        total_unfolded_of(ms.take(k + 1)) == total_unfolded_of(ms.take(k)) + count_arr(
            spec_unfold_record(ms[k].springs@, 5),
            spec_repeat_groups(ms[k].damaged_springs@, 5),
        ),
{
    assert(ms.take(k + 1).drop_last() =~= ms.take(k));
    assert(ms.take(k + 1).last() == ms[k]);
}

/// Shifting the scan across a leading clearable cell.
proof fn lemma_scan_shift(r: Seq<char>, gs: Seq<usize>, i: int)
    requires
        gs.len() > 0,
        r.len() > 0,
        can_clear(r[0]),
        0 <= i,
    ensures
        count_scan(r, gs, i + 1) == count_scan(r.drop_first(), gs, i),
    decreases r.len() - i,
{
    let d = r.drop_first();
    let g = gs[0] as int;
    if i + 1 > r.len() || i + 1 + g > r.len() {
        // both scans are zero
    } else {
        lemma_scan_shift(r, gs, i + 1);
        assert(place_ok(r, i + 1, g) == place_ok(d, i, g)) by {
            if place_ok(d, i, g) {
                assert(forall|j: int| 1 <= j < i + 1 ==> #[trigger] r[j] == d[j - 1]);
                assert(forall|j: int|
                    i + 1 <= j < i + 1 + g ==> #[trigger] r[j] == d[j - 1]);
                assert(i + 1 + g == r.len() || r[i + 1 + g] == d[i + g]);
                assert(place_ok(r, i + 1, g));
            }
            if place_ok(r, i + 1, g) {
                assert(forall|j: int| 0 <= j < i ==> #[trigger] d[j] == r[j + 1]);
                assert(forall|j: int| i <= j < i + g ==> #[trigger] d[j] == r[j + 1]);
                assert(i + g == d.len() || d[i + g] == r[i + 1 + g]);
                assert(place_ok(d, i, g));
            }
        }
        if place_ok(d, i, g) {
            assert(after_place(r, i + 1, g) =~= after_place(d, i, g));
        }
    }
}

} // verus!
