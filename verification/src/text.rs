//! Shared helpers for turning raw text into character vectors, splitting
//! it into lines and fields, and reading decimal numbers, all with exact
//! contracts over the character sequences involved.

use vstd::prelude::*;
use vstd::std_specs::iter::IteratorSpec;

verus! {

/// True for the characters that `trim` removes at either end.
pub open spec fn is_space(c: char) -> bool {
    c == ' ' || c == '\t' || c == '\r' || c == '\n'
}

pub open spec fn is_digit(c: char) -> bool {
    '0' <= c && c <= '9'
}

pub open spec fn digit_val(c: char) -> int {
    c as int - '0' as int
}

pub open spec fn all_digits(s: Seq<char>) -> bool {
    forall|i: int| 0 <= i < s.len() ==> is_digit(#[trigger] s[i])
}

/// Value of a most-significant-first digit string.
pub open spec fn digits_val(s: Seq<char>) -> int
    decreases s.len(),
{
    if s.len() == 0 {
        0
    } else {
        digits_val(s.drop_last()) * 10 + digit_val(s.last())
    }
}

pub proof fn lemma_digits_val_nonneg(s: Seq<char>)
    requires
        all_digits(s),
    ensures
        digits_val(s) >= 0,
    decreases s.len(),
{
    if s.len() > 0 {
        assert(all_digits(s.drop_last()));
        lemma_digits_val_nonneg(s.drop_last());
    }
}

/// A digit string is worth at least any of its prefixes.
pub proof fn lemma_digits_val_prefix_le(s: Seq<char>, i: int)
    requires
        all_digits(s),
        0 <= i <= s.len(),
    ensures
        digits_val(s.take(i)) <= digits_val(s),
    decreases s.len() - i,
{
    assert(all_digits(s.take(i)));
    if i < s.len() {
        lemma_digits_val_prefix_le(s, i + 1);
        assert(s.take(i + 1).drop_last() =~= s.take(i));
        assert(digits_val(s.take(i + 1)) == digits_val(s.take(i)) * 10 + digit_val(s.take(i + 1).last()));
        lemma_digits_val_nonneg(s.take(i));
    } else {
        assert(s.take(i) =~= s);
    }
}

/// Collects the characters of a string slice into a vector.
pub fn chars_of(s: &str) -> (v: Vec<char>)
    ensures
        v@ == s@,
{
    broadcast use vstd::string::axiom_spec_iter, vstd::string::next_postcondition;

    let mut it = s.chars();
    let mut v: Vec<char> = Vec::new();
    loop
        invariant
            v@ + it.remaining() == s@,
            it.decrease() is Some,
        ensures
            v@ == s@,
        decreases it.decrease()->0,
    {
        match it.next() {
            Some(c) => {
                v.push(c);
            },
            None => {
                proof {
                    assert(v@ + it.remaining() =~= v@);
                }
                break;
            },
        }
    }
    v
}

/// Equality test on character vectors, reflected into the views.
pub fn eq_chars(a: &Vec<char>, b: &Vec<char>) -> (r: bool)
    ensures
        r == (a@ == b@),
{
    if a.len() != b.len() {
        return false;
    }
    let mut i: usize = 0;
    while i < a.len()
        invariant
            0 <= i <= a.len(),
            a.len() == b.len(),
            forall|j: int| 0 <= j < i ==> a@[j] == b@[j],
        decreases a.len() - i,
    {
        if a[i] != b[i] {
            return false;
        }
        i += 1;
    }
    proof {
        assert(a@ =~= b@);
    }
    true
}

/// True when `s` starts with `p`.
pub open spec fn spec_starts_with(s: Seq<char>, p: Seq<char>) -> bool {
    p.len() <= s.len() && s.take(p.len() as int) == p
}

pub fn starts_with(s: &Vec<char>, p: &str) -> (r: bool)
    ensures
        r == spec_starts_with(s@, p@),
{
    let pv = chars_of(p);
    if pv.len() > s.len() {
        assert(!spec_starts_with(s@, p@));
        return false;
    }
    let mut i: usize = 0;
    while i < pv.len()
        invariant
            0 <= i <= pv.len(),
            pv.len() <= s.len(),
            pv@ == p@,
            forall|j: int| 0 <= j < i ==> s@[j] == pv@[j],
        decreases pv.len() - i,
    {
        if s[i] != pv[i] {
            assert(s@.take(p@.len() as int)[i as int] != p@[i as int]);
            return false;
        }
        i += 1;
    }
    proof {
        assert(s@.take(p@.len() as int) =~= p@);
    }
    true
}

/// Removes the spaces on both ends, keeping everything in between.
pub open spec fn spec_trim_front(s: Seq<char>) -> Seq<char>
    decreases s.len(),
{
    if s.len() > 0 && is_space(s[0]) {
        spec_trim_front(s.drop_first())
    } else {
        s
    }
}

pub open spec fn spec_trim_back(s: Seq<char>) -> Seq<char>
    decreases s.len(),
{
    if s.len() > 0 && is_space(s.last()) {
        spec_trim_back(s.drop_last())
    } else {
        s
    }
}

pub open spec fn spec_trim(s: Seq<char>) -> Seq<char> {
    spec_trim_back(spec_trim_front(s))
}

fn is_space_exec(c: char) -> (r: bool)
    ensures
        r == is_space(c),
{
    c == ' ' || c == '\t' || c == '\r' || c == '\n'
}

pub fn trim(s: &Vec<char>) -> (r: Vec<char>)
    ensures
        r@ == spec_trim(s@),
{
    let mut lo: usize = 0;
    proof {
        assert(s@.skip(0) =~= s@);
    }
    while lo < s.len() && is_space_exec(s[lo])
        invariant
            0 <= lo <= s.len(),
            spec_trim_front(s@) == spec_trim_front(s@.skip(lo as int)),
        decreases s.len() - lo,
    {
        proof {
            assert(s@.skip(lo as int).drop_first() =~= s@.skip(lo as int + 1));
        }
        lo += 1;
    }
    proof {
        assert(spec_trim_front(s@.skip(lo as int)) == s@.skip(lo as int));
    }
    let mut hi: usize = s.len();
    while hi > lo && is_space_exec(s[hi - 1])
        invariant
            lo <= hi <= s.len(),
            spec_trim_front(s@) == s@.skip(lo as int),
            spec_trim_back(s@.skip(lo as int)) == spec_trim_back(s@.subrange(lo as int, hi as int)),
        decreases hi,
    {
        proof {
            assert(s@.subrange(lo as int, hi as int).drop_last() =~= s@.subrange(lo as int, hi as int - 1));
        }
        hi -= 1;
    }
    proof {
        assert(spec_trim_back(s@.subrange(lo as int, hi as int)) == s@.subrange(lo as int, hi as int));
    }
    let mut r: Vec<char> = Vec::new();
    let mut i: usize = lo;
    while i < hi
        invariant
            lo <= i <= hi <= s.len(),
            r@ =~= s@.subrange(lo as int, i as int),
        decreases hi - i,
    {
        r.push(s[i]);
        i += 1;
    }
    proof {
        assert(r@ =~= s@.subrange(lo as int, hi as int));
    }
    r
}

/// Splitting on a separator character; the separator itself is dropped
/// and `n` separators yield `n + 1` pieces.
pub open spec fn spec_split(s: Seq<char>, sep: char) -> Seq<Seq<char>>
    decreases s.len(),
{
    if s.len() == 0 {
        seq![Seq::<char>::empty()]
    } else {
        let rest = spec_split(s.drop_first(), sep);
        if s[0] == sep {
            seq![Seq::<char>::empty()] + rest
        } else {
            seq![seq![s[0]] + rest[0]] + rest.drop_first()
        }
    }
}

pub proof fn lemma_split_len(s: Seq<char>, sep: char)
    ensures
        spec_split(s, sep).len() >= 1,
    decreases s.len(),
{
    if s.len() > 0 {
        lemma_split_len(s.drop_first(), sep);
    }
}

/// If no separator occurs, the split is the whole string alone.
pub proof fn lemma_split_no_sep(s: Seq<char>, sep: char)
    requires
        forall|i: int| 0 <= i < s.len() ==> #[trigger] s[i] != sep,
    ensures
        spec_split(s, sep) == seq![s],
    decreases s.len(),
{
    if s.len() == 0 {
        assert(spec_split(s, sep) =~~= seq![s]);
    } else {
        lemma_split_no_sep(s.drop_first(), sep);
        assert(seq![s[0]] + s.drop_first() =~= s);
        assert(spec_split(s, sep) =~~= seq![s]);
    }
}

/// Splitting at the first separator: everything before it is one piece.
pub proof fn lemma_split_at_sep(s: Seq<char>, sep: char, i: int)
    requires
        0 <= i < s.len(),
        s[i] == sep,
        forall|j: int| 0 <= j < i ==> #[trigger] s[j] != sep,
    ensures
        spec_split(s, sep) =~= seq![s.take(i)] + spec_split(s.skip(i + 1), sep),
    decreases i,
{
    if i == 0 {
        assert(spec_split(s, sep) == seq![Seq::<char>::empty()] + spec_split(s.drop_first(), sep));
        assert(s.take(0) =~= Seq::<char>::empty());
        assert(s.drop_first() =~= s.skip(1));
    } else {
        lemma_split_at_sep(s.drop_first(), sep, i - 1);
        lemma_split_len(s.skip(i + 1), sep);
        assert(s.drop_first().take(i - 1) =~= s.take(i).drop_first());
        assert(s.drop_first().skip(i) =~= s.skip(i + 1));
        assert(seq![s[0]] + s.take(i).drop_first() =~= s.take(i));
    }
}

pub fn split_on(s: &Vec<char>, sep: char) -> (r: Vec<Vec<char>>)
    ensures
        r.deep_view() == spec_split(s@, sep),
{
    let ghost whole: Seq<char> = s@;
    let mut r: Vec<Vec<char>> = Vec::new();
    let mut piece: Vec<char> = Vec::new();
    let mut i: usize = 0;
    let ghost mut k: int = 0;
    proof {
        assert(whole.skip(0) =~= whole);
        assert(r.deep_view() + spec_split(whole, sep) =~~= spec_split(whole, sep));
    }
    while i < s.len()
        invariant
            0 <= k <= i <= s.len(),
            whole == s@,
            piece@ == whole.subrange(k, i as int),
            forall|j: int| k <= j < i ==> #[trigger] whole[j] != sep,
            spec_split(whole, sep) =~~= r.deep_view() + spec_split(whole.skip(k), sep),
        decreases s.len() - i,
    {
        if s[i] == sep {
            proof {
                lemma_split_at_sep(whole.skip(k), sep, i - k);
                assert(whole.skip(k).take(i - k) =~= whole.subrange(k, i as int));
                assert(whole.skip(k).skip(i - k + 1) =~= whole.skip(i as int + 1));
            }
            let ghost old_r = r.deep_view();
            r.push(piece);
            piece = Vec::new();
            proof {
                assert(r.deep_view() =~~= old_r.push(whole.subrange(k, i as int)));
                k = i as int + 1;
                assert(piece@ =~= whole.subrange(k, i as int + 1));
                assert(spec_split(whole, sep) =~~= r.deep_view() + spec_split(
                    whole.skip(k),
                    sep,
                ));
            }
            i += 1;
        } else {
            piece.push(s[i]);
            proof {
                assert(piece@ =~= whole.subrange(k, i as int + 1));
            }
            i += 1;
        }
    }
    proof {
        lemma_split_no_sep(whole.skip(k), sep);
        assert(whole.skip(k) =~= whole.subrange(k, i as int));
    }
    let ghost old_r = r.deep_view();
    r.push(piece);
    proof {
        assert(r.deep_view() =~~= old_r.push(whole.subrange(k, i as int)));
        assert(r.deep_view() =~~= spec_split(whole, sep));
    }
    r
}

/// What `lines` yields: pieces split at each newline, a carriage return
/// dropped from the end of each piece, and no empty final piece when the
/// text ends with a newline.
pub open spec fn strip_cr(s: Seq<char>) -> Seq<char> {
    if s.len() > 0 && s.last() == '\r' {
        s.drop_last()
    } else {
        s
    }
}

/// Carriage returns stripped from the end of every piece.
pub open spec fn strip_all(ps: Seq<Seq<char>>) -> Seq<Seq<char>> {
    ps.map_values(|p: Seq<char>| strip_cr(p))
}

pub open spec fn spec_lines(s: Seq<char>) -> Seq<Seq<char>> {
    if s.len() == 0 {
        Seq::empty()
    } else {
        let ps = spec_split(s, '\n');
        let kept = if ps.last().len() == 0 {
            ps.drop_last()
        } else {
            ps
        };
        strip_all(kept)
    }
}

/// Splits a text into its lines, as `spec_lines` describes.
pub fn lines_of(s: &Vec<char>) -> (r: Vec<Vec<char>>)
    ensures
        r.deep_view() == spec_lines(s@),
{
    if s.len() == 0 {
        let r: Vec<Vec<char>> = Vec::new();
        proof {
            assert(r.deep_view() =~~= spec_lines(s@));
        }
        return r;
    }
    let pieces = split_on(s, '\n');
    let mut r: Vec<Vec<char>> = Vec::new();
    let ghost ps = spec_split(s@, '\n');
    let ghost kept = if ps.last().len() == 0 {
        ps.drop_last()
    } else {
        ps
    };
    proof {
        lemma_split_len(s@, '\n');
    }
    let n: usize = if pieces[pieces.len() - 1].len() == 0 {
        pieces.len() - 1
    } else {
        pieces.len()
    };
    proof {
        assert(pieces.deep_view()[pieces@.len() - 1] == pieces@[pieces@.len() - 1]@);
        assert(n as int == kept.len());
        assert(forall|j: int| 0 <= j < n ==> kept[j] == #[trigger] pieces.deep_view()[j]);
    }
    let mut i: usize = 0;
    while i < n
        invariant
            0 <= i <= n,
            n <= pieces.len(),
            pieces.deep_view() == spec_split(s@, '\n'),
            kept.len() == n,
            forall|j: int| 0 <= j < n ==> kept[j] == #[trigger] pieces.deep_view()[j],
            r.deep_view().len() == i,
            forall|j: int| 0 <= j < i ==> #[trigger] r.deep_view()[j] == strip_cr(kept[j]),
        decreases n - i,
    {
        let piece = &pieces[i];
        let mut line: Vec<char> = Vec::new();
        let m: usize = if piece.len() > 0 && piece[piece.len() - 1] == '\r' {
            piece.len() - 1
        } else {
            piece.len()
        };
        let mut j: usize = 0;
        while j < m
            invariant
                0 <= j <= m,
                m <= piece.len(),
                line@ =~= piece@.take(j as int),
            decreases m - j,
        {
            line.push(piece[j]);
            j += 1;
        }
        proof {
            assert(piece@ == pieces.deep_view()[i as int]);
            assert(line@ =~= strip_cr(pieces.deep_view()[i as int]));
        }
        let ghost old_r = r.deep_view();
        r.push(line);
        proof {
            assert(r.deep_view() =~~= old_r.push(line@));
        }
        i += 1;
    }
    proof {
        assert(r.deep_view() =~~= strip_all(kept));
    }
    r
}

/// Reads an unsigned decimal number; `None` when the text is empty, holds
/// a non-digit, or does not fit.
pub fn parse_u64(s: &Vec<char>) -> (r: Option<u64>)
    ensures
        r is Some <==> s@.len() > 0 && all_digits(s@) && digits_val(s@) <= u64::MAX,
        r is Some ==> r->0 == digits_val(s@),
{
    if s.len() == 0 {
        return None;
    }
    let mut acc: u64 = 0;
    let mut i: usize = 0;
    while i < s.len()
        invariant
            0 <= i <= s.len(),
            s@.len() > 0,
            all_digits(s@.take(i as int)),
            acc == digits_val(s@.take(i as int)),
        decreases s.len() - i,
    {
        let c = s[i];
        if !('0' <= c && c <= '9') {
            assert(!all_digits(s@));
            return None;
        }
        let d: u64 = (c as u32 - '0' as u32) as u64;
        proof {
            assert(all_digits(s@.take(i as int + 1)));
            assert(s@.take(i as int + 1).drop_last() =~= s@.take(i as int));
        }
        if acc > (u64::MAX - d) / 10 {
            proof {
                if all_digits(s@) {
                    lemma_digits_val_prefix_le(s@, i + 1);
                    assert(digits_val(s@.take(i as int + 1)) == acc * 10 + d);
                }
            }
            return None;
        }
        acc = acc * 10 + d;
        i += 1;
    }
    proof {
        assert(s@.take(i as int) =~= s@);
    }
    Some(acc)
}

/// Reads a decimal number with an optional leading minus sign.
pub open spec fn valid_i64(s: Seq<char>) -> bool {
    if s.len() > 0 && s[0] == '-' {
        let d = s.drop_first();
        d.len() > 0 && all_digits(d) && -digits_val(d) >= i64::MIN
    } else {
        s.len() > 0 && all_digits(s) && digits_val(s) <= i64::MAX
    }
}

pub open spec fn i64_val(s: Seq<char>) -> int {
    if s.len() > 0 && s[0] == '-' {
        -digits_val(s.drop_first())
    } else {
        digits_val(s)
    }
}

pub fn parse_i64(s: &Vec<char>) -> (r: Option<i64>)
    ensures
        r is Some <==> valid_i64(s@),
        r is Some ==> r->0 == i64_val(s@),
{
    if s.len() == 0 {
        return None;
    }
    if s[0] == '-' {
        let mut digits: Vec<char> = Vec::new();
        let mut i: usize = 1;
        while i < s.len()
            invariant
                1 <= i <= s.len(),
                digits@ =~= s@.subrange(1, i as int),
            decreases s.len() - i,
        {
            digits.push(s[i]);
            i += 1;
        }
        proof {
            assert(digits@ =~= s@.drop_first());
        }
        match parse_u64(&digits) {
            Some(m) => {
                if m <= i64::MAX as u64 {
                    Some(-(m as i64))
                } else if m == i64::MAX as u64 + 1 {
                    Some(i64::MIN)
                } else {
                    None
                }
            },
            None => {
                proof {
                    if digits@.len() > 0 && all_digits(digits@) {
                        lemma_digits_val_nonneg(digits@);
                    }
                }
                None
            },
        }
    } else {
        match parse_u64(s) {
            Some(m) => {
                if m <= i64::MAX as u64 {
                    Some(m as i64)
                } else {
                    None
                }
            },
            None => None,
        }
    }
}

/// The non-empty pieces of a split: what splitting on runs of spaces
/// leaves over.
pub open spec fn spec_fields_of(ps: Seq<Seq<char>>) -> Seq<Seq<char>>
    decreases ps.len(),
{
    if ps.len() == 0 {
        Seq::empty()
    } else {
        spec_fields_of(ps.drop_last()) + (if ps.last().len() > 0 {
            seq![ps.last()]
        } else {
            Seq::<Seq<char>>::empty()
        })
    }
}

/// The space-separated fields of a line; empty fields are dropped, so
/// runs of spaces count as one separator.
pub open spec fn spec_fields(s: Seq<char>) -> Seq<Seq<char>> {
    spec_fields_of(spec_split(s, ' '))
}

#[verifier::loop_isolation(false)]
pub fn fields_of(s: &Vec<char>) -> (r: Vec<Vec<char>>)
    ensures
        r.deep_view() == spec_fields(s@),
{
    let pieces = split_on(s, ' ');
    let ghost ps = spec_split(s@, ' ');
    let mut r: Vec<Vec<char>> = Vec::new();
    let mut i: usize = 0;
    while i < pieces.len()
        invariant
            0 <= i <= pieces.len(),
            r.deep_view() =~~= spec_fields_of(ps.take(i as int)),
        decreases pieces.len() - i,
    {
        proof {
            assert(ps.take(i as int + 1).drop_last() =~= ps.take(i as int));
            assert(ps.take(i as int + 1).last() == pieces.deep_view()[i as int]);
        }
        if pieces[i].len() > 0 {
            let ghost old_r = r.deep_view();
            let mut piece: Vec<char> = Vec::new();
            let src = &pieces[i];
            let mut j: usize = 0;
            while j < src.len()
                invariant
                    0 <= j <= src.len(),
                    piece@ =~= src@.take(j as int),
                decreases src.len() - j,
            {
                piece.push(src[j]);
                j += 1;
            }
            proof {
                assert(piece@ =~= src@);
            }
            r.push(piece);
            proof {
                assert(r.deep_view() =~~= old_r.push(pieces.deep_view()[i as int]));
            }
        }
        i += 1;
    }
    proof {
        assert(ps.take(ps.len() as int) =~= ps);
    }
    r
}

/// Equality of two string slices, reflected into the views.
pub fn str_is(s: &str, t: &str) -> (r: bool)
    ensures
        r == (s@ == t@),
{
    let sv = chars_of(s);
    let tv = chars_of(t);
    eq_chars(&sv, &tv)
}

/// The characters the renderers in this crate emit.
pub open spec fn is_render_char(c: char) -> bool {
    ||| c == '.'
    ||| c == '#'
    ||| c == '*'
    ||| c == ' '
    ||| c == '\n'
    ||| c == '^'
    ||| c == 'v'
    ||| c == '<'
    ||| c == '>'
    ||| is_digit(c)
}

/// Appends one rendering character to a string.
pub fn push_render_char(out: &mut String, c: char)
    requires
        is_render_char(c),
    ensures
        final(out)@ == old(out)@ + seq![c],
{
    if c == '.' {
        proof {
            reveal_strlit(".");
        }
        out.append(".");
    } else if c == '#' {
        proof {
            reveal_strlit("#");
        }
        out.append("#");
    } else if c == '*' {
        proof {
            reveal_strlit("*");
        }
        out.append("*");
    } else if c == ' ' {
        proof {
            reveal_strlit(" ");
        }
        out.append(" ");
    } else if c == '\n' {
        proof {
            reveal_strlit("\n");
        }
        out.append("\n");
    } else if c == '^' {
        proof {
            reveal_strlit("^");
        }
        out.append("^");
    } else if c == 'v' {
        proof {
            reveal_strlit("v");
        }
        out.append("v");
    } else if c == '<' {
        proof {
            reveal_strlit("<");
        }
        out.append("<");
    } else if c == '>' {
        proof {
            reveal_strlit(">");
        }
        out.append(">");
    } else if c == '0' {
        proof {
            reveal_strlit("0");
        }
        out.append("0");
    } else if c == '1' {
        proof {
            reveal_strlit("1");
        }
        out.append("1");
    } else if c == '2' {
        proof {
            reveal_strlit("2");
        }
        out.append("2");
    } else if c == '3' {
        proof {
            reveal_strlit("3");
        }
        out.append("3");
    } else if c == '4' {
        proof {
            reveal_strlit("4");
        }
        out.append("4");
    } else if c == '5' {
        proof {
            reveal_strlit("5");
        }
        out.append("5");
    } else if c == '6' {
        proof {
            reveal_strlit("6");
        }
        out.append("6");
    } else if c == '7' {
        proof {
            reveal_strlit("7");
        }
        out.append("7");
    } else if c == '8' {
        proof {
            reveal_strlit("8");
        }
        out.append("8");
    } else {
        proof {
            reveal_strlit("9");
        }
        out.append("9");
    }
}

/// The decimal digit characters of `n`, most significant first.
pub open spec fn spec_decimal(n: int) -> Seq<char>
    decreases n,
{
    if n <= 0 {
        Seq::empty()
    } else {
        spec_decimal(n / 10).push(((n % 10) + '0' as int) as char)
    }
}

/// Appends the decimal form of `n` to a string (a lone `0` for zero).
pub fn push_decimal(out: &mut String, n: u32)
    ensures
        final(out)@ == old(out)@ + (if n == 0 {
            seq!['0']
        } else {
            spec_decimal(n as int)
        }),
{
    if n == 0 {
        push_render_char(out, '0');
        return;
    }
    let mut digits: Vec<char> = Vec::new();
    let mut m: u32 = n;
    while m > 0
        invariant
            0 <= m <= n,
            n > 0,
            spec_decimal(n as int) =~= spec_decimal(m as int) + digits@.reverse(),
            forall|j: int| 0 <= j < digits@.len() ==> is_render_char(#[trigger] digits@[j]),
        decreases m,
    {
        let d: u32 = m % 10;
        let c: char = (('0' as u32) + d) as u8 as char;
        proof {
            assert(('0' as u32 + m % 10) < 128);
            assert(c as int == (m as int % 10) + '0' as int);
            assert(is_digit(c));
            assert(spec_decimal(m as int) == spec_decimal(m as int / 10).push(c));
            assert(spec_decimal(m as int / 10) + digits@.push(c).reverse() =~= spec_decimal(
                m as int,
            ) + digits@.reverse());
        }
        digits.push(c);
        m = m / 10;
    }
    let ghost dd = spec_decimal(n as int);
    proof {
        assert(digits@.reverse() =~= dd);
    }
    let mut i: usize = digits.len();
    while i > 0
        invariant
            0 <= i <= digits.len(),
            digits@.reverse() == dd,
            forall|j: int| 0 <= j < digits@.len() ==> is_render_char(#[trigger] digits@[j]),
            out@ == old(out)@ + dd.take(digits@.len() - i),
        decreases i,
    {
        i -= 1;
        push_render_char(out, digits[i]);
        proof {
            assert(dd.take(digits@.len() - i) =~= dd.take(digits@.len() - (i + 1)).push(
                digits@[i as int],
            ));
        }
    }
    proof {
        assert(dd.take(digits@.len() as int) =~= dd);
    }
}

} // verus!
