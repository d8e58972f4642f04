//! Toy boat races: holding the button for `p` time units out of `t`
//! travels `p * (t - p)`; a press wins when that beats the record.

use vstd::prelude::*;
use crate::text;

verus! {

#[derive(Debug, PartialEq, Eq, Clone)]
pub struct Race {
    pub total_time: u64,
    pub record_distance: u64,
}

/// Press `p` wins a race of time `t` against record `d`.
pub open spec fn wins(t: int, d: int, p: int) -> bool {
    0 <= p <= t && p * (t - p) > d
}

impl Race {
    pub open spec fn spec_wins(self, p: int) -> bool {
        wins(self.total_time as int, self.record_distance as int, p)
    }

    pub open spec fn some_win(self) -> bool {
        exists|p: int| self.spec_wins(p)
    }

    fn press_wins(&self, p: u64) -> (b: bool)
        requires
            p <= self.total_time,
        ensures
            b == self.spec_wins(p as int),
    {
        proof {
            assert((p as int) * ((self.total_time - p) as int) <= 0xffff_ffff_ffff_ffffu64
                as int * 0xffff_ffff_ffff_ffffu64 as int) by (nonlinear_arith)
                requires
                    0 <= p as int <= 0xffff_ffff_ffff_ffffu64 as int,
                    0 <= (self.total_time - p) as int <= 0xffff_ffff_ffff_ffffu64 as int,
            ;
            assert((p as int) * ((self.total_time - p) as int) >= 0) by (nonlinear_arith)
                requires
                    0 <= p as int,
                    0 <= (self.total_time - p) as int,
            ;
        }
        let travelled: u128 = (p as u128) * ((self.total_time - p) as u128);
        travelled > self.record_distance as u128
    }

    /// The smallest winning press, for a race that can be won at all.
    pub fn get_min_winning_press(&self) -> (r: u64)
        requires
            self.some_win(),
        ensures
            self.spec_wins(r as int),
            forall|q: int| q < r ==> !self.spec_wins(q),
    {
        let mut p: u64 = 0;
        loop
            invariant
                self.some_win(),
                0 <= p <= self.total_time,
                forall|q: int| q < p ==> !self.spec_wins(q),
            ensures
                self.spec_wins(p as int),
            decreases self.total_time - p,
        {
            if self.press_wins(p) {
                break;
            }
            proof {
                let w = choose|w: int| self.spec_wins(w);
                assert(w > p);
            }
            p += 1;
        }
        p
    }

    /// The greatest winning press, for a race that can be won at all.
    pub fn get_max_winning_press(&self) -> (r: u64)
        requires
            self.some_win(),
        ensures
            self.spec_wins(r as int),
            forall|q: int| q > r ==> !self.spec_wins(q),
    {
        let mut p: u64 = self.total_time;
        loop
            invariant
                self.some_win(),
                0 <= p <= self.total_time,
                forall|q: int| p < q ==> !self.spec_wins(q),
            ensures
                self.spec_wins(p as int),
            decreases p,
        {
            if self.press_wins(p) {
                break;
            }
            proof {
                let w = choose|w: int| self.spec_wins(w);
                assert(w < p);
            }
            p -= 1;
        }
        p
    }

    /// How many presses win: the winning presses form one contiguous
    /// interval, so the count is greatest minus smallest plus one.
    pub fn get_num_winning_presses(&self) -> (r: u64)
        requires
            self.some_win(),
        ensures
            exists|lo: int, hi: int|
                {
                    &&& self.spec_wins(lo)
                    &&& self.spec_wins(hi)
                    &&& forall|q: int| q < lo ==> !self.spec_wins(q)
                    &&& forall|q: int| q > hi ==> !self.spec_wins(q)
                    &&& r == hi - lo + 1
                },
    {
        let lo = self.get_min_winning_press();
        let hi = self.get_max_winning_press();
        proof {
            assert(!self.spec_wins(0)) by {
                assert(0 * (self.total_time as int - 0) == 0);
            }
            assert(lo >= 1);
            assert(lo <= hi);
        }
        hi - lo + 1
    }
}

/// The winning presses of a race form one interval: anything between
/// two winning presses wins as well.
pub proof fn lemma_wins_contiguous(t: int, d: int, p: int, m: int, q: int)
    requires
        wins(t, d, p),
        wins(t, d, q),
        p <= m <= q,
    ensures
        wins(t, d, m),
{
    if t - p - m >= 0 {
        assert(m * (t - m) - p * (t - p) == (m - p) * (t - p - m)) by (nonlinear_arith);
        assert((m - p) * (t - p - m) >= 0) by (nonlinear_arith)
            requires
                m - p >= 0,
                t - p - m >= 0,
        ;
    } else {
        assert(m * (t - m) - q * (t - q) == (q - m) * (m + q - t)) by (nonlinear_arith);
        assert((q - m) * (m + q - t) >= 0) by (nonlinear_arith)
            requires
                q - m >= 0,
                m + q - t >= 0,
        ;
    }
}

/// The two input lines: race times, then record distances.  Only the
/// columns that pair up are read, as a strict zip of the two lists.
pub open spec fn races_ok(s: Seq<char>) -> bool {
    let ls = text::spec_lines(s);
    &&& ls.len() >= 2
    &&& text::spec_starts_with(ls[0], "Time:"@)
    &&& text::spec_starts_with(ls[1], "Distance:"@)
    &&& text::spec_fields(ls[0]).len() >= 1
    &&& text::spec_fields(ls[1]).len() >= 1
    &&& forall|k: int|
        1 <= k <= spec_num_races(s) ==> {
            let f = #[trigger] text::spec_fields(ls[0])[k];
            f.len() > 0 && text::all_digits(f) && text::digits_val(f) <= u64::MAX
        }
    &&& forall|k: int|
        1 <= k <= spec_num_races(s) ==> {
            let f = #[trigger] text::spec_fields(ls[1])[k];
            f.len() > 0 && text::all_digits(f) && text::digits_val(f) <= u64::MAX
        }
}

/// How many races the two lines define: the shorter of the two value
/// lists, the header fields not counted.
pub open spec fn spec_num_races(s: Seq<char>) -> int {
    let ls = text::spec_lines(s);
    let nt = text::spec_fields(ls[0]).len() - 1;
    let nd = text::spec_fields(ls[1]).len() - 1;
    if nt <= nd {
        nt
    } else {
        nd
    }
}

pub open spec fn spec_race_time(s: Seq<char>, k: int) -> int {
    text::digits_val(text::spec_fields(text::spec_lines(s)[0])[k + 1])
}

pub open spec fn spec_race_distance(s: Seq<char>, k: int) -> int {
    text::digits_val(text::spec_fields(text::spec_lines(s)[1])[k + 1])
}

/// Reads the race table: a `Time:` line and a `Distance:` line whose
/// columns pair up into races.
#[verifier::loop_isolation(false)]
pub fn define_races(input: &str) -> (r: Option<Vec<Race>>)
    ensures
        r is Some <==> races_ok(input@),
        r matches Some(rs) ==> {
            &&& rs@.len() == spec_num_races(input@)
            &&& forall|k: int|
                0 <= k < rs@.len() ==> (#[trigger] rs@[k]).total_time == spec_race_time(input@, k)
                    && rs@[k].record_distance == spec_race_distance(input@, k)
        },
{
    let cs = text::chars_of(input);
    let lines = text::lines_of(&cs);
    let ghost ls = text::spec_lines(input@);
    if lines.len() < 2 {
        return None;
    }
    proof {
        assert(lines[0int]@ == ls[0]);
        assert(lines[1int]@ == ls[1]);
    }
    if !text::starts_with(&lines[0], "Time:") {
        return None;
    }
    if !text::starts_with(&lines[1], "Distance:") {
        return None;
    }
    let tfields = text::fields_of(&lines[0]);
    let dfields = text::fields_of(&lines[1]);
    let ghost tf = text::spec_fields(ls[0]);
    let ghost df = text::spec_fields(ls[1]);
    if tfields.len() == 0 || dfields.len() == 0 {
        return None;
    }
    let n: usize = if tfields.len() <= dfields.len() {
        tfields.len()
    } else {
        dfields.len()
    };
    proof {
        assert(n as int == spec_num_races(input@) + 1);
    }
    let mut races: Vec<Race> = Vec::new();
    let mut k: usize = 1;
    while k < n
        invariant
            1 <= k <= n,
            races@.len() == k - 1,
            forall|t: int|
                1 <= t < k ==> {
                    let f = #[trigger] tf[t];
                    f.len() > 0 && text::all_digits(f) && text::digits_val(f) <= u64::MAX
                },
            forall|t: int|
                1 <= t < k ==> {
                    let f = #[trigger] df[t];
                    f.len() > 0 && text::all_digits(f) && text::digits_val(f) <= u64::MAX
                },
            forall|t: int|
                0 <= t < races@.len() ==> (#[trigger] races@[t]).total_time == text::digits_val(
                    tf[t + 1],
                ) && races@[t].record_distance == text::digits_val(df[t + 1]),
        decreases n - k,
    {
        proof {
            assert(tfields[k as int]@ == tf[k as int]);
            assert(dfields[k as int]@ == df[k as int]);
        }
        let time = match text::parse_u64(&tfields[k]) {
            Some(v) => v,
            None => {
                proof {
                    if tf[k as int].len() > 0 && text::all_digits(tf[k as int]) {
                        text::lemma_digits_val_nonneg(tf[k as int]);
                    }
                }
                return None;
            },
        };
        let dist = match text::parse_u64(&dfields[k]) {
            Some(v) => v,
            None => {
                proof {
                    if df[k as int].len() > 0 && text::all_digits(df[k as int]) {
                        text::lemma_digits_val_nonneg(df[k as int]);
                    }
                }
                return None;
            },
        };
        races.push(Race { total_time: time, record_distance: dist });
        k += 1;
    }
    Some(races)
}

} // verus!
