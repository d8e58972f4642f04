//! Extrapolating number series by repeated differencing: the next value
//! of a series is its last value plus the next value of the series of
//! consecutive differences, until those differences vanish.

use vstd::prelude::*;
use crate::text;

verus! {

#[derive(Debug, PartialEq, Eq, Clone)]
pub struct History {
    pub data_points: Vec<i64>,
}

pub open spec fn ints_of(s: Seq<i64>) -> Seq<int> {
    Seq::new(s.len(), |i: int| s[i] as int)
}

/// Consecutive differences, later minus earlier.
pub open spec fn diffs(s: Seq<int>) -> Seq<int> {
    Seq::new(if s.len() > 0 {
        (s.len() - 1) as nat
    } else {
        0
    }, |i: int| s[i + 1] - s[i])
}

pub open spec fn all_zero_s(s: Seq<int>) -> bool {
    forall|i: int| 0 <= i < s.len() ==> #[trigger] s[i] == 0
}

/// The extrapolated next value of a non-empty series.
pub open spec fn sext(s: Seq<int>) -> int
    decreases s.len(),
{
    if s.len() == 0 {
        0
    } else if all_zero_s(diffs(s)) {
        s.last()
    } else {
        s.last() + sext(diffs(s))
    }
}

/// The extrapolated value before the first of a non-empty series.
pub open spec fn sext_back(s: Seq<int>) -> int
    decreases s.len(),
{
    if s.len() == 0 {
        0
    } else if all_zero_s(diffs(s)) {
        s[0]
    } else {
        s[0] - sext_back(diffs(s))
    }
}

pub open spec fn in_i64(x: int) -> bool {
    i64::MIN <= x <= i64::MAX
}

/// Every intermediate value of the forward extrapolation fits i64.
pub open spec fn fits_fwd(s: Seq<int>) -> bool
    decreases s.len(),
{
    if s.len() == 0 {
        true
    } else {
        let d = diffs(s);
        &&& forall|i: int| 0 <= i < d.len() ==> in_i64(#[trigger] d[i])
        &&& (all_zero_s(d) || (fits_fwd(d) && in_i64(s.last() + sext(d))))
    }
}

pub open spec fn fits_back(s: Seq<int>) -> bool
    decreases s.len(),
{
    if s.len() == 0 {
        true
    } else {
        let d = diffs(s);
        &&& forall|i: int| 0 <= i < d.len() ==> in_i64(#[trigger] d[i])
        &&& (all_zero_s(d) || (fits_back(d) && in_i64(s[0] - sext_back(d))))
    }
}

impl History {
    pub fn new(data_points: Vec<i64>) -> (h: History)
        ensures
            h.data_points@ == data_points@,
    {
        History { data_points }
    }

    pub fn all_zero(&self) -> (b: bool)
        ensures
            b == all_zero_s(ints_of(self.data_points@)),
    {
        let mut i: usize = 0;
        while i < self.data_points.len()
            invariant
                0 <= i <= self.data_points.len(),
                forall|j: int| 0 <= j < i ==> #[trigger] self.data_points@[j] == 0,
            decreases self.data_points.len() - i,
        {
            if self.data_points[i] != 0 {
                assert(ints_of(self.data_points@)[i as int] != 0);
                return false;
            }
            i += 1;
        }
        proof {
            assert(forall|j: int|
                0 <= j < self.data_points@.len() ==> #[trigger] ints_of(self.data_points@)[j]
                    == 0);
        }
        true
    }

    /// The differences of this series, when each fits i64.
    #[verifier::loop_isolation(false)]
    fn derive(&self) -> (r: Option<Vec<i64>>)
        requires
            self.data_points.len() > 0,
        ensures
            match r {
                Some(d) => ints_of(d@) == diffs(ints_of(self.data_points@)),
                None => exists|i: int|
                    0 <= i < diffs(ints_of(self.data_points@)).len() && !in_i64(
                        #[trigger] diffs(ints_of(self.data_points@))[i],
                    ),
            },
    {
        let ghost s = ints_of(self.data_points@);
        let mut d: Vec<i64> = Vec::new();
        let mut i: usize = 0;
        while i + 1 < self.data_points.len()
            invariant
                0 <= i <= self.data_points.len() - 1,
                d@.len() == i,
                forall|j: int| 0 <= j < i ==> #[trigger] d@[j] as int == diffs(s)[j],
            decreases self.data_points.len() - i,
        {
            let a = self.data_points[i];
            let b = self.data_points[i + 1];
            if (b >= 0 && a < b - i64::MAX) || (b < 0 && a > b - i64::MIN) {
                proof {
                    assert(!in_i64(diffs(s)[i as int]));
                }
                return None;
            }
            d.push(b - a);
            i += 1;
        }
        proof {
            assert(ints_of(d@) =~= diffs(s));
        }
        Some(d)
    }

    /// The next value of the series: `None` for an empty series or when
    /// an intermediate value leaves the machine range.
    pub fn extrapolate(&self) -> (r: Option<i64>)
        ensures
            r is Some <==> self.data_points@.len() > 0 && fits_fwd(ints_of(self.data_points@)),
            r matches Some(v) ==> v as int == sext(ints_of(self.data_points@)),
        decreases self.data_points.len(),
    {
        let ghost s = ints_of(self.data_points@);
        if self.data_points.len() == 0 {
            return None;
        }
        let derived = match self.derive() {
            Some(d) => d,
            None => {
                return None;
            },
        };
        let derived_history = History::new(derived);
        let last = self.data_points[self.data_points.len() - 1];
        proof {
            assert(last as int == s.last());
            assert(ints_of(derived_history.data_points@) == diffs(s));
        }
        if derived_history.all_zero() {
            return Some(last);
        }
        proof {
            assert(derived_history.data_points@.len() < self.data_points@.len());
        }
        match derived_history.extrapolate() {
            Some(v) => {
                proof {
                    assert(diffs(s).len() > 0);
                }
                if (v >= 0 && last > i64::MAX - v) || (v < 0 && last < i64::MIN - v) {
                    proof {
                        assert(!in_i64(s.last() + sext(diffs(s))));
                    }
                    return None;
                }
                Some(last + v)
            },
            None => {
                proof {
                    if diffs(s).len() == 0 {
                        assert(all_zero_s(diffs(s)));
                        assert(false);
                    }
                }
                None
            },
        }
    }

    /// The value before the first of the series, by the same scheme.
    pub fn extrapolate_backwards(&self) -> (r: Option<i64>)
        ensures
            r is Some <==> self.data_points@.len() > 0 && fits_back(ints_of(self.data_points@)),
            r matches Some(v) ==> v as int == sext_back(ints_of(self.data_points@)),
        decreases self.data_points.len(),
    {
        let ghost s = ints_of(self.data_points@);
        if self.data_points.len() == 0 {
            return None;
        }
        let derived = match self.derive() {
            Some(d) => d,
            None => {
                return None;
            },
        };
        let derived_history = History::new(derived);
        let first = self.data_points[0];
        proof {
            assert(first as int == s[0]);
            assert(ints_of(derived_history.data_points@) == diffs(s));
        }
        if derived_history.all_zero() {
            return Some(first);
        }
        match derived_history.extrapolate_backwards() {
            Some(v) => {
                proof {
                    assert(diffs(s).len() > 0);
                }
                if (v >= 0 && first < i64::MIN + v) || (v < 0 && first > i64::MAX + v) {
                    proof {
                        assert(!in_i64(s[0] - sext_back(diffs(s))));
                    }
                    return None;
                }
                Some(first - v)
            },
            None => {
                proof {
                    if diffs(s).len() == 0 {
                        assert(all_zero_s(diffs(s)));
                        assert(false);
                    }
                }
                None
            },
        }
    }
}

/// A line the series parser accepts: non-empty, space-separated i64
/// values.
pub open spec fn history_line_ok(s: Seq<char>) -> bool {
    let fs = text::spec_fields(s);
    forall|k: int| 0 <= k < fs.len() ==> text::valid_i64(#[trigger] fs[k])
}

pub open spec fn spec_history_of(s: Seq<char>) -> Seq<int> {
    let fs = text::spec_fields(s);
    Seq::new(fs.len(), |k: int| text::i64_val(fs[k]))
}

/// Parses one series per line; `None` when some field is not an i64.
#[verifier::loop_isolation(false)]
pub fn parse_histories(input: &str) -> (r: Option<Vec<History>>)
    ensures
        r is Some <==> (forall|k: int|
            0 <= k < text::spec_lines(input@).len() ==> history_line_ok(
                #[trigger] text::spec_lines(input@)[k],
            )),
        r matches Some(hs) ==> {
            &&& hs@.len() == text::spec_lines(input@).len()
            &&& forall|k: int|
                0 <= k < hs@.len() ==> ints_of((#[trigger] hs@[k]).data_points@)
                    == spec_history_of(text::spec_lines(input@)[k])
        },
{
    let cs = text::chars_of(input);
    let lines = text::lines_of(&cs);
    let ghost lspec = text::spec_lines(input@);
    let mut hs: Vec<History> = Vec::new();
    let mut k: usize = 0;
    while k < lines.len()
        invariant
            0 <= k <= lines.len(),
            hs@.len() == k,
            forall|t: int| 0 <= t < k ==> history_line_ok(#[trigger] lspec[t]),
            forall|t: int|
                0 <= t < k ==> ints_of((#[trigger] hs@[t]).data_points@) == spec_history_of(
                    lspec[t],
                ),
        decreases lines.len() - k,
    {
        proof {
            assert(lines[k as int]@ == lspec[k as int]);
        }
        let fs = text::fields_of(&lines[k]);
        let ghost fspec = text::spec_fields(lspec[k as int]);
        let mut vals: Vec<i64> = Vec::new();
        let mut t: usize = 0;
        while t < fs.len()
            invariant
                0 <= t <= fs.len(),
                fs.deep_view() == fspec,
                fs.len() == fspec.len(),
                vals@.len() == t,
                forall|u: int| 0 <= u < t ==> text::valid_i64(#[trigger] fspec[u]),
                forall|u: int|
                    0 <= u < t ==> #[trigger] vals@[u] as int == text::i64_val(fspec[u]),
            decreases fs.len() - t,
        {
            proof {
                assert(fs[t as int]@ == fspec[t as int]);
            }
            match text::parse_i64(&fs[t]) {
                Some(v) => {
                    vals.push(v);
                },
                None => {
                    proof {
                        assert(!history_line_ok(lspec[k as int]));
                    }
                    return None;
                },
            }
            t += 1;
        }
        proof {
            assert(ints_of(vals@) =~= spec_history_of(lspec[k as int]));
        }
        hs.push(History { data_points: vals });
        k += 1;
    }
    Some(hs)
}

/// Left-to-right sum of the forward extrapolations of a batch.
pub open spec fn sum_ext(hs: Seq<History>) -> int
    decreases hs.len(),
{
    if hs.len() == 0 {
        0
    } else {
        sum_ext(hs.drop_last()) + sext(ints_of(hs.last().data_points@))
    }
}

pub open spec fn sum_ext_back(hs: Seq<History>) -> int
    decreases hs.len(),
{
    if hs.len() == 0 {
        0
    } else {
        sum_ext_back(hs.drop_last()) + sext_back(ints_of(hs.last().data_points@))
    }
}

/// Sums the next values of every series.  All series must be non-empty
/// and every partial result must fit the machine, which is what lets
/// the original finish without failing.
#[verifier::loop_isolation(false)]
pub fn sum_extrapolations(histories: Vec<History>) -> (r: i64)
    requires
        histories@.len() > 0,
        forall|k: int|
            0 <= k < histories@.len() ==> (#[trigger] histories@[k]).data_points@.len() > 0
                && fits_fwd(ints_of(histories@[k].data_points@)),
        forall|k: int| 0 <= k <= histories@.len() ==> in_i64(sum_ext(#[trigger] histories@.take(k))),
    ensures
        r as int == sum_ext(histories@),
{
    let mut acc: i64 = 0;
    let mut k: usize = 0;
    while k < histories.len()
        invariant
            0 <= k <= histories.len(),
            acc as int == sum_ext(histories@.take(k as int)),
        decreases histories.len() - k,
    {
        let v = histories[k].extrapolate().unwrap();
        proof {
            assert(histories@.take(k as int + 1).drop_last() =~= histories@.take(k as int));
            assert(histories@.take(k as int + 1).last() == histories@[k as int]);
            assert(in_i64(sum_ext(histories@.take(k as int + 1))));
        }
        acc = acc + v;
        k += 1;
    }
    proof {
        assert(histories@.take(histories@.len() as int) =~= histories@);
    }
    acc
}

/// Sums the values extrapolated before the first of every series.
#[verifier::loop_isolation(false)]
pub fn sum_backwards_extrapolations(histories: Vec<History>) -> (r: i64)
    requires
        histories@.len() > 0,
        forall|k: int|
            0 <= k < histories@.len() ==> (#[trigger] histories@[k]).data_points@.len() > 0
                && fits_back(ints_of(histories@[k].data_points@)),
        forall|k: int|
            0 <= k <= histories@.len() ==> in_i64(sum_ext_back(#[trigger] histories@.take(k))),
    ensures
        r as int == sum_ext_back(histories@),
{
    let mut acc: i64 = 0;
    let mut k: usize = 0;
    while k < histories.len()
        invariant
            0 <= k <= histories.len(),
            acc as int == sum_ext_back(histories@.take(k as int)),
        decreases histories.len() - k,
    {
        let v = histories[k].extrapolate_backwards().unwrap();
        proof {
            assert(histories@.take(k as int + 1).drop_last() =~= histories@.take(k as int));
            assert(histories@.take(k as int + 1).last() == histories@[k as int]);
            assert(in_i64(sum_ext_back(histories@.take(k as int + 1))));
        }
        acc = acc + v;
        k += 1;
    }
    proof {
        assert(histories@.take(histories@.len() as int) =~= histories@);
    }
    acc
}

} // verus!
