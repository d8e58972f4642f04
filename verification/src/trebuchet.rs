//! Calibration values: each line hides a two-digit number.  Spelled-out
//! digit words are first materialised — the leftmost and the rightmost
//! word each have their first character replaced by the digit — and the
//! value is ten times the first digit plus the last digit.

use vstd::prelude::*;
use crate::text;

verus! {

/// The word `w` occurs in `s` at offset `i`.
pub open spec fn word_at(s: Seq<char>, w: Seq<char>, i: int) -> bool {
    0 <= i && i + w.len() <= s.len() && s.subrange(i, i + w.len()) == w
}

/// First occurrence of `w`, or the length of `s` when there is none.
pub open spec fn first_match(s: Seq<char>, w: Seq<char>) -> int
    decreases s.len(),
{
    if s.len() == 0 {
        0
    } else if word_at(s, w, 0) {
        0
    } else {
        1 + first_match(s.drop_first(), w)
    }
}

/// Last occurrence of `w` at or before `i`, or `-1` when there is none.
pub open spec fn last_match_from(s: Seq<char>, w: Seq<char>, i: int) -> int
    decreases i + 1,
{
    if i < 0 {
        -1
    } else if word_at(s, w, i) {
        i
    } else {
        last_match_from(s, w, i - 1)
    }
}

/// The digit words and their digit characters and values.
pub open spec fn spec_words() -> Seq<(Seq<char>, char)> {
    seq![
        ("one"@, '1'),
        ("two"@, '2'),
        ("three"@, '3'),
        ("four"@, '4'),
        ("five"@, '5'),
        ("six"@, '6'),
        ("seven"@, '7'),
        ("eight"@, '8'),
        ("nine"@, '9'),
    ]
}

/// Leftmost digit-word occurrence over a word table: position and digit
/// character, the position `s.len() + 1` standing for none.
pub open spec fn fold_leftmost(s: Seq<char>, ws: Seq<(Seq<char>, char)>) -> (int, char)
    decreases ws.len(),
{
    if ws.len() == 0 {
        (s.len() as int + 1, '0')
    } else {
        let prev = fold_leftmost(s, ws.drop_last());
        let p = first_match(s, ws.last().0);
        if p < s.len() && p < prev.0 {
            (p, ws.last().1)
        } else {
            prev
        }
    }
}

/// Rightmost digit-word occurrence, the position `-1` standing for none.
pub open spec fn fold_rightmost(s: Seq<char>, ws: Seq<(Seq<char>, char)>) -> (int, char)
    decreases ws.len(),
{
    if ws.len() == 0 {
        (-1, '0')
    } else {
        let prev = fold_rightmost(s, ws.drop_last());
        let p = if ws.last().0.len() > s.len() {
            -1
        } else {
            last_match_from(s, ws.last().0, s.len() - ws.last().0.len())
        };
        if p >= 0 && p > prev.0 {
            (p, ws.last().1)
        } else {
            prev
        }
    }
}

/// The line after the leftmost digit word had its first character
/// replaced by the digit.
pub open spec fn after_left(s: Seq<char>) -> Seq<char> {
    let best = fold_leftmost(s, spec_words());
    if best.0 < s.len() {
        s.update(best.0, best.1)
    } else {
        s
    }
}

/// The line after both replacements.
pub open spec fn after_both(s: Seq<char>) -> Seq<char> {
    let s1 = after_left(s);
    let best = fold_rightmost(s1, spec_words());
    if best.0 >= 0 {
        s1.update(best.0, best.1)
    } else {
        s1
    }
}

/// The digit characters of a line, in order.
pub open spec fn digits_of(s: Seq<char>) -> Seq<char>
    decreases s.len(),
{
    if s.len() == 0 {
        Seq::empty()
    } else {
        digits_of(s.drop_last()) + (if text::is_digit(s.last()) {
            seq![s.last()]
        } else {
            Seq::<char>::empty()
        })
    }
}

/// A line decodes when at least one digit is left after the word
/// replacements.
pub open spec fn decodable(s: Seq<char>) -> bool {
    digits_of(after_both(s)).len() > 0
}

/// The calibration value: first digit times ten plus last digit.
pub open spec fn spec_decode(s: Seq<char>) -> int {
    let d = digits_of(after_both(s));
    text::digit_val(d[0]) * 10 + text::digit_val(d.last())
}

pub proof fn lemma_first_match(s: Seq<char>, w: Seq<char>, i: int)
    requires
        0 <= i <= s.len(),
        forall|j: int| 0 <= j < i ==> !word_at(s, w, j),
        i < s.len() ==> word_at(s, w, i),
    ensures
        first_match(s, w) == i,
    decreases i,
{
    if s.len() == 0 {
    } else if i == 0 {
    } else {
        assert(!word_at(s, w, 0));
        lemma_shift_word(s, w, i - 1);
        assert forall|j: int| 0 <= j < i - 1 implies !word_at(s.drop_first(), w, j) by {
            lemma_shift_word(s, w, j);
            assert(!word_at(s, w, j + 1));
        }
        lemma_first_match(s.drop_first(), w, i - 1);
    }
}

/// Occurrences in the tail are occurrences one step later in the whole.
pub proof fn lemma_shift_word(s: Seq<char>, w: Seq<char>, i: int)
    requires
        s.len() > 0,
        0 <= i,
    ensures
        word_at(s.drop_first(), w, i) == word_at(s, w, i + 1),
{
    if i + 1 + w.len() <= s.len() {
        assert(s.drop_first().subrange(i, i + w.len()) =~= s.subrange(i + 1, i + 1 + w.len()));
    }
}

/// Whether `w` occurs in `s` at offset `i`.
fn word_matches(s: &Vec<char>, w: &Vec<char>, i: usize) -> (r: bool)
    requires
        i + w@.len() <= s@.len(),
    ensures
        r == word_at(s@, w@, i as int),
{
    let slen = s.len();
    let mut j: usize = 0;
    while j < w.len()
        invariant
            0 <= j <= w@.len(),
            i + w@.len() <= s@.len(),
            slen == s@.len(),
            forall|t: int| 0 <= t < j ==> s@[i + t] == w@[t],
        decreases w@.len() - j,
    {
        proof {
            assert(i + j < slen);
        }
        if s[i + j] != w[j] {
            proof {
                assert(s@.subrange(i as int, i + w@.len())[j as int] == s@[i + j]);
            }
            return false;
        }
        j += 1;
    }
    proof {
        assert(s@.subrange(i as int, i + w@.len()) =~= w@);
    }
    true
}

/// First occurrence of `w` in `s`, or the length when there is none.
#[verifier::loop_isolation(false)]
fn find_sub(s: &Vec<char>, w: &Vec<char>) -> (r: usize)
    requires
        w@.len() > 0,
    ensures
        r as int == first_match(s@, w@),
        r <= s@.len(),
        r < s@.len() ==> word_at(s@, w@, r as int),
{
    if w.len() > s.len() {
        proof {
            lemma_first_match(s@, w@, s@.len() as int);
        }
        return s.len();
    }
    let mut i: usize = 0;
    while i <= s.len() - w.len()
        invariant
            0 <= i <= s@.len() - w@.len() + 1,
            forall|j: int| 0 <= j < i ==> !word_at(s@, w@, j),
        decreases s@.len() - w@.len() + 1 - i,
    {
        if word_matches(s, w, i) {
            proof {
                lemma_first_match(s@, w@, i as int);
            }
            return i;
        }
        i += 1;
    }
    proof {
        assert(forall|j: int| i <= j <= s@.len() ==> !word_at(s@, w@, j));
        lemma_first_match(s@, w@, s@.len() as int);
    }
    s.len()
}

/// Last occurrence of `w` in `s` at or before `from`, or the length of
/// `s` when there is none.
fn rfind_sub(s: &Vec<char>, w: &Vec<char>) -> (r: Option<usize>)
    requires
        w@.len() > 0,
    ensures
        ({
            let lm = if w@.len() > s@.len() {
                -1
            } else {
                last_match_from(s@, w@, s@.len() - w@.len())
            };
            match r {
                Some(p) => p as int == lm && lm >= 0 && word_at(s@, w@, p as int),
                None => lm == -1,
            }
        }),
{
    if w.len() > s.len() {
        return None;
    }
    let mut i: usize = s.len() - w.len();
    loop
        invariant
            0 < w@.len() <= s@.len(),
            0 <= i <= s@.len() - w@.len(),
            last_match_from(s@, w@, s@.len() - w@.len()) == last_match_from(s@, w@, i as int),
        ensures
            last_match_from(s@, w@, s@.len() - w@.len()) == if word_at(s@, w@, i as int) {
                i as int
            } else {
                -1
            },
            word_at(s@, w@, i as int) || i == 0,
        decreases i,
    {
        if word_matches(s, w, i) {
            break;
        }
        if i == 0 {
            proof {
                assert(last_match_from(s@, w@, 0int) == last_match_from(s@, w@, -1));
            }
            break;
        }
        i -= 1;
    }
    if word_matches(s, w, i) {
        Some(i)
    } else {
        None
    }
}

/// The digit words in scanning order.
fn word_table() -> (r: Vec<(&'static str, char)>)
    ensures
        r@.len() == spec_words().len(),
        forall|k: int|
            0 <= k < r@.len() ==> (#[trigger] r@[k]).0@ == spec_words()[k].0 && r@[k].1
                == spec_words()[k].1,
{
    let mut r: Vec<(&'static str, char)> = Vec::new();
    r.push(("one", '1'));
    r.push(("two", '2'));
    r.push(("three", '3'));
    r.push(("four", '4'));
    r.push(("five", '5'));
    r.push(("six", '6'));
    r.push(("seven", '7'));
    r.push(("eight", '8'));
    r.push(("nine", '9'));
    r
}

/// The digit words are never empty.
pub proof fn lemma_words_wf()
    ensures
        spec_words().len() == 9,
        forall|k: int| 0 <= k < 9 ==> (#[trigger] spec_words()[k]).0.len() > 0,
{
    reveal_strlit("one");
    reveal_strlit("two");
    reveal_strlit("three");
    reveal_strlit("four");
    reveal_strlit("five");
    reveal_strlit("six");
    reveal_strlit("seven");
    reveal_strlit("eight");
    reveal_strlit("nine");
    assert forall|k: int| 0 <= k < 9 implies (#[trigger] spec_words()[k]).0.len() > 0 by {
        if k == 0 {
            assert(spec_words()[0].0.len() > 0);
        } else if k == 1 {
            assert(spec_words()[1].0.len() > 0);
        } else if k == 2 {
            assert(spec_words()[2].0.len() > 0);
        } else if k == 3 {
            assert(spec_words()[3].0.len() > 0);
        } else if k == 4 {
            assert(spec_words()[4].0.len() > 0);
        } else if k == 5 {
            assert(spec_words()[5].0.len() > 0);
        } else if k == 6 {
            assert(spec_words()[6].0.len() > 0);
        } else if k == 7 {
            assert(spec_words()[7].0.len() > 0);
        } else {
            assert(spec_words()[8].0.len() > 0);
        }
    }
}

/// Decodes one calibration line.
#[verifier::loop_isolation(false)]
pub fn decode(line: &str) -> (r: usize)
    requires
        decodable(line@),
    ensures
        r as int == spec_decode(line@),
{
    proof {
        lemma_words_wf();
    }
    let mut s = text::chars_of(line);
    let words = word_table();
    // Find and materialise the leftmost digit word.
    let mut best: Option<(usize, char)> = None;
    let mut k: usize = 0;
    while k < words.len()
        invariant
            0 <= k <= words@.len(),
            words@.len() == spec_words().len(),
            forall|t: int|
                0 <= t < words@.len() ==> (#[trigger] words@[t]).0@ == spec_words()[t].0
                    && words@[t].1 == spec_words()[t].1,
            s@ == line@,
            match best {
                Some(p) => p.0 < s@.len() && (p.0 as int, p.1) == fold_leftmost(
                    s@,
                    spec_words().take(k as int),
                ),
                None => fold_leftmost(s@, spec_words().take(k as int)).0 == s@.len() + 1,
            },
        decreases words@.len() - k,
    {
        proof {
            assert(spec_words().take(k as int + 1).drop_last() =~= spec_words().take(k as int));
            assert(spec_words().take(k as int + 1).last() == spec_words()[k as int]);
        }
        let w = text::chars_of(words[k].0);
        let p = find_sub(&s, &w);
        if p < s.len() {
            match best {
                Some(b) => {
                    if p < b.0 {
                        best = Some((p, words[k].1));
                    }
                },
                None => {
                    best = Some((p, words[k].1));
                },
            }
        }
        k += 1;
    }
    proof {
        assert(spec_words().take(spec_words().len() as int) =~= spec_words());
    }
    match best {
        Some(b) => {
            s.set(b.0, b.1);
            proof {
                assert(s@ == after_left(line@));
            }
        },
        None => {
            proof {
                assert(s@ == after_left(line@));
            }
        },
    }
    // Find and materialise the rightmost digit word.
    let ghost s1 = s@;
    let mut rbest: Option<(usize, char)> = None;
    let mut k2: usize = 0;
    while k2 < words.len()
        invariant
            0 <= k2 <= words@.len(),
            words@.len() == spec_words().len(),
            forall|t: int|
                0 <= t < words@.len() ==> (#[trigger] words@[t]).0@ == spec_words()[t].0
                    && words@[t].1 == spec_words()[t].1,
            s@ == s1,
            match rbest {
                Some(p) => p.0 < s1.len() && (p.0 as int, p.1) == fold_rightmost(
                    s1,
                    spec_words().take(k2 as int),
                ),
                None => fold_rightmost(s1, spec_words().take(k2 as int)).0 == -1,
            },
        decreases words@.len() - k2,
    {
        proof {
            assert(spec_words().take(k2 as int + 1).drop_last() =~= spec_words().take(
                k2 as int,
            ));
            assert(spec_words().take(k2 as int + 1).last() == spec_words()[k2 as int]);
        }
        let w = text::chars_of(words[k2].0);
        match rfind_sub(&s, &w) {
            Some(p) => {
                proof {
                    assert(word_at(s1, w@, p as int));
                }
                match rbest {
                    Some(b) => {
                        if p > b.0 {
                            rbest = Some((p, words[k2].1));
                        }
                    },
                    None => {
                        rbest = Some((p, words[k2].1));
                    },
                }
            },
            None => {
            },
        }
        k2 += 1;
    }
    proof {
        assert(spec_words().take(spec_words().len() as int) =~= spec_words());
    }
    match rbest {
        Some(b) => {
            s.set(b.0, b.1);
            proof {
                assert(s@ == after_both(line@));
            }
        },
        None => {
            proof {
                assert(s@ == after_both(line@));
            }
        },
    }
    // Read the first and the last digit.
    let ghost s2 = s@;
    let mut first_digit: Option<char> = None;
    let mut last_digit: Option<char> = None;
    let mut i: usize = 0;
    while i < s.len()
        invariant
            0 <= i <= s2.len(),
            s@ == s2,
            match first_digit {
                Some(c) => digits_of(s2.take(i as int)).len() > 0 && digits_of(
                    s2.take(i as int),
                )[0] == c && text::is_digit(c),
                None => digits_of(s2.take(i as int)).len() == 0,
            },
            match last_digit {
                Some(c) => digits_of(s2.take(i as int)).len() > 0 && digits_of(
                    s2.take(i as int),
                ).last() == c && text::is_digit(c),
                None => digits_of(s2.take(i as int)).len() == 0,
            },
        decreases s2.len() - i,
    {
        proof {
            assert(s2.take(i as int + 1).drop_last() =~= s2.take(i as int));
            assert(s2.take(i as int + 1).last() == s2[i as int]);
        }
        let c = s[i];
        if '0' <= c && c <= '9' {
            if first_digit.is_none() {
                first_digit = Some(c);
            }
            last_digit = Some(c);
        }
        i += 1;
    }
    proof {
        assert(s2.take(s2.len() as int) =~= s2);
    }
    let f = first_digit.unwrap();
    let l = last_digit.unwrap();
    proof {
        assert('0' <= f && f <= '9');
        assert('0' <= l && l <= '9');
    }
    let fv: usize = (f as u32 - '0' as u32) as usize;
    let lv: usize = (l as u32 - '0' as u32) as usize;
    fv * 10 + lv
}

/// Left-to-right sum of the line values.
pub open spec fn spec_calibration_sum(lines: Seq<Seq<char>>) -> int
    decreases lines.len(),
{
    if lines.len() == 0 {
        0
    } else {
        spec_calibration_sum(lines.drop_last()) + spec_decode(lines.last())
    }
}

/// Sums the calibration values of a batch; `None` for an empty batch.
#[verifier::loop_isolation(false)]
pub fn calculate(lines: Vec<String>) -> (r: Option<usize>)
    requires
        forall|k: int| 0 <= k < lines@.len() ==> decodable((#[trigger] lines@[k])@),
        forall|k: int|
            0 <= k <= lines@.len() ==> 0 <= spec_calibration_sum(
                #[trigger] lines_view(lines@).take(k),
            ) <= usize::MAX,
    ensures
        r is Some <==> lines@.len() > 0,
        r matches Some(v) ==> v as int == spec_calibration_sum(lines_view(lines@)),
{
    if lines.len() == 0 {
        return None;
    }
    let mut sum: usize = 0;
    let mut k: usize = 0;
    while k < lines.len()
        invariant
            0 <= k <= lines@.len(),
            sum as int == spec_calibration_sum(lines_view(lines@).take(k as int)),
        decreases lines@.len() - k,
    {
        proof {
            assert(lines_view(lines@).take(k as int + 1).drop_last() =~= lines_view(
                lines@,
            ).take(k as int));
            assert(lines_view(lines@).take(k as int + 1).last() == lines@[k as int]@);
            assert((k as int) + 1 <= lines@.len());
        }
        let v = decode(lines[k].as_str());
        sum = sum + v;
        k += 1;
    }
    proof {
        assert(lines_view(lines@).take(lines@.len() as int) =~= lines_view(lines@));
    }
    Some(sum)
}

pub open spec fn lines_view(lines: Seq<String>) -> Seq<Seq<char>> {
    Seq::new(lines.len(), |k: int| lines[k]@)
}

} // verus!
