//! The holiday ASCII string helper: a rolling 8-bit hash over the
//! characters of an instruction, and the boxes of lenses the
//! instruction sequence fills.

use vstd::prelude::*;
use crate::text;
use std::collections::HashMap;

verus! {

#[derive(Debug, Clone, PartialEq, Eq)]
pub enum Operation {
    Dash,
    Equals,
}

#[derive(Debug, Clone)]
pub struct Instruction {
    pub text: Vec<char>,
    pub label: Vec<char>,
    pub operation: Operation,
    pub focul_length: Option<u8>,
}

/// The rolling hash: add the character, multiply by 17, keep the low
/// eight bits.
pub open spec fn spec_hash(s: Seq<char>) -> int
    decreases s.len(),
{
    if s.len() == 0 {
        0
    } else {
        ((spec_hash(s.drop_last()) + (s.last() as u32)) * 17) % 256
    }
}

fn hash_chars(s: &Vec<char>) -> (r: u8)
    ensures
        r as int == spec_hash(s@),
{
    let mut h: u64 = 0;
    let mut i: usize = 0;
    while i < s.len()
        invariant
            0 <= i <= s.len(),
            h < 256,
            h as int == spec_hash(s@.take(i as int)),
        decreases s.len() - i,
    {
        proof {
            assert(s@.take(i as int + 1).drop_last() =~= s@.take(i as int));
            assert(s@.take(i as int + 1).last() == s@[i as int]);
        }
        let c = s[i];
        let ascii: u64 = (c as u32) as u64;
        h = ((h + ascii) * 17) % 256;
        i += 1;
    }
    proof {
        assert(s@.take(s@.len() as int) =~= s@);
    }
    h as u8
}

pub open spec fn is_delim(c: char) -> bool {
    c == '-' || c == '='
}

/// Index of the first `-` or `=`, or the length when there is none.
pub open spec fn delim_pos(s: Seq<char>) -> int
    decreases s.len(),
{
    if s.len() == 0 {
        0
    } else if is_delim(s[0]) {
        0
    } else {
        1 + delim_pos(s.drop_first())
    }
}

pub proof fn lemma_delim_pos(s: Seq<char>, i: int)
    requires
        0 <= i <= s.len(),
        forall|j: int| 0 <= j < i ==> !is_delim(#[trigger] s[j]),
        i < s.len() ==> is_delim(s[i]),
    ensures
        delim_pos(s) == i,
    decreases i,
{
    if s.len() == 0 {
    } else if i == 0 {
    } else {
        assert(forall|j: int|
            0 <= j < i - 1 ==> #[trigger] s.drop_first()[j] == s[j + 1]);
        lemma_delim_pos(s.drop_first(), i - 1);
    }
}

/// A parsable instruction: a delimiter exists, and what follows it up
/// to the next delimiter is empty or a focal length in eight bits.
pub open spec fn instruction_ok(s: Seq<char>) -> bool {
    let d = delim_pos(s);
    let rest = s.skip(d + 1);
    let f = rest.take(delim_pos(rest));
    &&& d < s.len()
    &&& (f.len() == 0 || (text::all_digits(f) && text::digits_val(f) <= u8::MAX))
}

pub open spec fn spec_label_of(s: Seq<char>) -> Seq<char> {
    s.take(delim_pos(s))
}

pub open spec fn spec_op_of(s: Seq<char>) -> Operation {
    if s[delim_pos(s)] == '-' {
        Operation::Dash
    } else {
        Operation::Equals
    }
}

pub open spec fn spec_focal_of(s: Seq<char>) -> Option<u8> {
    let rest = s.skip(delim_pos(s) + 1);
    let f = rest.take(delim_pos(rest));
    if f.len() == 0 {
        None
    } else {
        Some(text::digits_val(f) as u8)
    }
}

/// Why an instruction was rejected.
#[derive(Debug, PartialEq, Eq, Clone, Copy)]
pub enum ParseError {
    /// No `-` or `=` in the instruction.
    MissingOperation,
    /// The focal length is not a number in eight bits.
    BadFocalLength,
}

fn find_delim(s: &Vec<char>, from: usize) -> (r: usize)
    requires
        from <= s.len(),
    ensures
        from <= r <= s.len(),
        r - from == delim_pos(s@.skip(from as int)),
        r < s.len() ==> is_delim(s@[r as int]),
{
    let mut i: usize = from;
    while i < s.len()
        invariant
            from <= i <= s.len(),
            forall|j: int| from <= j < i ==> !is_delim(#[trigger] s@[j]),
        decreases s.len() - i,
    {
        let c = s[i];
        if c == '-' || c == '=' {
            proof {
                assert(forall|j: int|
                    0 <= j < i - from ==> #[trigger] s@.skip(from as int)[j] == s@[j + from]);
                lemma_delim_pos(s@.skip(from as int), i - from);
            }
            return i;
        }
        i += 1;
    }
    proof {
        assert(forall|j: int|
            0 <= j < s@.len() - from ==> #[trigger] s@.skip(from as int)[j] == s@[j + from]);
        lemma_delim_pos(s@.skip(from as int), s@.len() - from);
    }
    s.len()
}

impl Instruction {
    /// Splits `label`, the operation character, and the focal length
    /// out of one instruction.
    #[verifier::loop_isolation(false)]
    pub fn parse_instruction(chars: Vec<char>) -> (r: Result<Instruction, ParseError>)
        ensures
            r is Ok <==> instruction_ok(chars@),
            r matches Ok(ins) ==> {
                &&& ins.text@ == chars@
                &&& ins.label@ == spec_label_of(chars@)
                &&& ins.operation == spec_op_of(chars@)
                &&& ins.focul_length == spec_focal_of(chars@)
            },
            r matches Err(e) ==> (e == ParseError::MissingOperation <==> delim_pos(chars@)
                == chars@.len()),
    {
        let d = find_delim(&chars, 0);
        proof {
            assert(chars@.skip(0) =~= chars@);
        }
        if d == chars.len() {
            return Err(ParseError::MissingOperation);
        }
        let mut label: Vec<char> = Vec::new();
        let mut i: usize = 0;
        while i < d
            invariant
                0 <= i <= d,
                label@ =~= chars@.take(i as int),
            decreases d - i,
        {
            label.push(chars[i]);
            i += 1;
        }
        let op = if chars[d] == '-' {
            Operation::Dash
        } else {
            Operation::Equals
        };
        let e = find_delim(&chars, d + 1);
        let mut ftext: Vec<char> = Vec::new();
        let mut j: usize = d + 1;
        while j < e
            invariant
                d + 1 <= j <= e,
                ftext@ =~= chars@.subrange(d as int + 1, j as int),
            decreases e - j,
        {
            ftext.push(chars[j]);
            j += 1;
        }
        let ghost rest = chars@.skip(d as int + 1);
        proof {
            assert(ftext@ =~= rest.take(delim_pos(rest)));
        }
        let focul_length: Option<u8> = if ftext.len() == 0 {
            None
        } else {
            match text::parse_u64(&ftext) {
                Some(v) => {
                    if v <= u8::MAX as u64 {
                        Some(v as u8)
                    } else {
                        return Err(ParseError::BadFocalLength);
                    }
                },
                None => {
                    proof {
                        if text::all_digits(ftext@) {
                            text::lemma_digits_val_nonneg(ftext@);
                        }
                    }
                    return Err(ParseError::BadFocalLength);
                },
            }
        };
        Ok(Instruction { text: chars, label, operation: op, focul_length })
    }

    pub fn hash(&self) -> (r: u8)
        ensures
            r as int == spec_hash(self.text@),
    {
        hash_chars(&self.text)
    }

    pub fn hash_label(&self) -> (r: u8)
        ensures
            r as int == spec_hash(self.label@),
    {
        hash_chars(&self.label)
    }

    /// An equal-content copy, field by field.
    fn duplicate(&self) -> (r: Instruction)
        ensures
            r.text@ == self.text@,
            r.label@ == self.label@,
            r.operation == self.operation,
            r.focul_length == self.focul_length,
    {
        let mut text: Vec<char> = Vec::new();
        let mut i: usize = 0;
        while i < self.text.len()
            invariant
                0 <= i <= self.text.len(),
                text@ =~= self.text@.take(i as int),
            decreases self.text.len() - i,
        {
            text.push(self.text[i]);
            i += 1;
        }
        let mut label: Vec<char> = Vec::new();
        let mut j: usize = 0;
        while j < self.label.len()
            invariant
                0 <= j <= self.label.len(),
                label@ =~= self.label@.take(j as int),
            decreases self.label.len() - j,
        {
            label.push(self.label[j]);
            j += 1;
        }
        proof {
            assert(text@ =~= self.text@);
            assert(label@ =~= self.label@);
        }
        let operation = match self.operation {
            Operation::Dash => Operation::Dash,
            Operation::Equals => Operation::Equals,
        };
        Instruction { text, label, operation, focul_length: self.focul_length }
    }
}

pub struct Init {
    pub sequence: Vec<Instruction>,
}

/// What the focusing rules read of a lens: its label and focal length.
pub open spec fn pairs_of(v: Seq<Instruction>) -> Seq<(Seq<char>, Option<u8>)> {
    Seq::new(v.len(), |i: int| (v[i].label@, v[i].focul_length))
}

/// First lens with this label, or the length when there is none.
pub open spec fn label_pos(box_: Seq<(Seq<char>, Option<u8>)>, l: Seq<char>) -> int
    decreases box_.len(),
{
    if box_.len() == 0 {
        0
    } else if box_[0].0 == l {
        0
    } else {
        1 + label_pos(box_.drop_first(), l)
    }
}

pub proof fn lemma_label_pos(box_: Seq<(Seq<char>, Option<u8>)>, l: Seq<char>, i: int)
    requires
        0 <= i <= box_.len(),
        forall|j: int| 0 <= j < i ==> (#[trigger] box_[j]).0 != l,
        i < box_.len() ==> box_[i].0 == l,
    ensures
        label_pos(box_, l) == i,
    decreases i,
{
    if box_.len() == 0 {
    } else if i == 0 {
    } else {
        assert(forall|j: int|
            0 <= j < i - 1 ==> #[trigger] box_.drop_first()[j] == box_[j + 1]);
        lemma_label_pos(box_.drop_first(), l, i - 1);
    }
}

/// The contents of box `b` after running the instructions: a dash takes
/// the lens with the same label out, an equals replaces it or appends.
pub open spec fn spec_box(s: Seq<Instruction>, b: int) -> Seq<(Seq<char>, Option<u8>)>
    decreases s.len(),
{
    if s.len() == 0 {
        Seq::empty()
    } else {
        let prev = spec_box(s.drop_last(), b);
        let ins = s.last();
        if spec_hash(ins.label@) != b {
            prev
        } else {
            let at = label_pos(prev, ins.label@);
            match ins.operation {
                Operation::Dash => if at < prev.len() {
                    prev.take(at) + prev.skip(at + 1)
                } else {
                    prev
                },
                Operation::Equals => if at < prev.len() {
                    prev.update(at, (ins.label@, ins.focul_length))
                } else {
                    prev.push((ins.label@, ins.focul_length))
                },
            }
        }
    }
}

/// Whether box `b` was ever created: some equals instruction hashes
/// into it.
pub open spec fn spec_box_present(s: Seq<Instruction>, b: int) -> bool
    decreases s.len(),
{
    if s.len() == 0 {
        false
    } else {
        spec_box_present(s.drop_last(), b) || (s.last().operation == Operation::Equals
            && spec_hash(s.last().label@) == b)
    }
}

/// A box nothing was ever put into stays empty: dashes alone create
/// nothing.
pub proof fn lemma_not_present_empty(s: Seq<Instruction>, b: int)
    requires
        !spec_box_present(s, b),
    ensures
        spec_box(s, b) == Seq::<(Seq<char>, Option<u8>)>::empty(),
    decreases s.len(),
{
    if s.len() > 0 {
        lemma_not_present_empty(s.drop_last(), b);
        if spec_hash(s.last().label@) == b {
            assert(label_pos(Seq::<(Seq<char>, Option<u8>)>::empty(), s.last().label@) == 0);
        }
    }
}

impl Init {
    pub fn new(sequence: Vec<Instruction>) -> (r: Init)
        ensures
            r.sequence@ == sequence@,
    {
        Init { sequence }
    }

    /// Splits the input on commas, trims each piece, and parses it.
    #[verifier::loop_isolation(false)]
    pub fn parse_init_sequence(input: &str) -> (r: Result<Init, ParseError>)
        ensures
            r is Ok <==> (forall|k: int|
                0 <= k < text::spec_split(input@, ',').len() ==> instruction_ok(
                    text::spec_trim(#[trigger] text::spec_split(input@, ',')[k]),
                )),
            r matches Ok(init) ==> {
                &&& init.sequence@.len() == text::spec_split(input@, ',').len()
                &&& forall|k: int|
                    0 <= k < init.sequence@.len() ==> {
                        let t = text::spec_trim(#[trigger] text::spec_split(input@, ',')[k]);
                        &&& init.sequence@[k].text@ == t
                        &&& init.sequence@[k].label@ == spec_label_of(t)
                        &&& init.sequence@[k].operation == spec_op_of(t)
                        &&& init.sequence@[k].focul_length == spec_focal_of(t)
                    }
            },
    {
        let cs = text::chars_of(input);
        let pieces = text::split_on(&cs, ',');
        let ghost ps = text::spec_split(input@, ',');
        let mut seq_v: Vec<Instruction> = Vec::new();
        let mut k: usize = 0;
        while k < pieces.len()
            invariant
                0 <= k <= pieces.len(),
                seq_v@.len() == k,
                forall|t: int|
                    0 <= t < k ==> instruction_ok(text::spec_trim(#[trigger] ps[t])),
                forall|t: int|
                    0 <= t < k ==> {
                        let tt = text::spec_trim(#[trigger] ps[t]);
                        &&& seq_v@[t].text@ == tt
                        &&& seq_v@[t].label@ == spec_label_of(tt)
                        &&& seq_v@[t].operation == spec_op_of(tt)
                        &&& seq_v@[t].focul_length == spec_focal_of(tt)
                    },
            decreases pieces.len() - k,
        {
            proof {
                assert(pieces[k as int]@ == ps[k as int]);
            }
            let trimmed = text::trim(&pieces[k]);
            match Instruction::parse_instruction(trimmed) {
                Ok(ins) => {
                    seq_v.push(ins);
                },
                Err(e) => {
                    return Err(e);
                },
            }
            k += 1;
        }
        Ok(Init { sequence: seq_v })
    }

    /// Left-to-right sum of the instruction hashes.
    pub open spec fn spec_sum_hashes(s: Seq<Instruction>) -> int
        decreases s.len(),
    {
        if s.len() == 0 {
            0
        } else {
            Self::spec_sum_hashes(s.drop_last()) + spec_hash(s.last().text@)
        }
    }

    #[verifier::loop_isolation(false)]
    pub fn sum_hashes(&self) -> (r: u32)
        requires
            Self::spec_sum_hashes(self.sequence@) <= u32::MAX,
        ensures
            r as int == Self::spec_sum_hashes(self.sequence@),
    {
        let mut sum: u32 = 0;
        let mut i: usize = 0;
        while i < self.sequence.len()
            invariant
                0 <= i <= self.sequence.len(),
                sum as int == Self::spec_sum_hashes(self.sequence@.take(i as int)),
            decreases self.sequence.len() - i,
        {
            proof {
                assert(self.sequence@.take(i as int + 1).drop_last() =~= self.sequence@.take(
                    i as int,
                ));
                lemma_sum_hashes_prefix(self.sequence@, i as int + 1);
            }
            sum = sum + (self.sequence[i].hash() as u32);
            i += 1;
        }
        proof {
            assert(self.sequence@.take(self.sequence@.len() as int) =~= self.sequence@);
        }
        sum
    }

    /// Runs the instruction sequence into its lens boxes.
    #[verifier::loop_isolation(false)]
    #[verifier::rlimit(80)]
    pub fn initialise(&self) -> (r: HashMap<u8, Vec<Instruction>>)
        ensures
            forall|b: int|
                0 <= b < 256 ==> (r@.dom().contains(b as u8) <==> spec_box_present(
                    self.sequence@,
                    b,
                )),
            forall|b: int|
                0 <= b < 256 && r@.dom().contains(b as u8) ==> pairs_of(#[trigger] r@[b as u8]@)
                    == spec_box(self.sequence@, b),
    {
        broadcast use vstd::std_specs::hash::group_hash_axioms;

        let mut boxes: HashMap<u8, Vec<Instruction>> = HashMap::new();
        let mut i: usize = 0;
        while i < self.sequence.len()
            invariant
                0 <= i <= self.sequence.len(),
                forall|b: int|
                    0 <= b < 256 ==> (boxes@.dom().contains(b as u8) <==> spec_box_present(
                        self.sequence@.take(i as int),
                        b,
                    )),
                forall|b: int|
                    0 <= b < 256 && boxes@.dom().contains(b as u8) ==> pairs_of(
                        #[trigger] boxes@[b as u8]@,
                    ) == spec_box(self.sequence@.take(i as int), b),
            decreases self.sequence.len() - i,
        {
            let ins = &self.sequence[i];
            let h = ins.hash_label();
            let ghost prefix = self.sequence@.take(i as int);
            let ghost prefix1 = self.sequence@.take(i as int + 1);
            proof {
                assert(prefix1.drop_last() =~= prefix);
                assert(prefix1.last() == self.sequence@[i as int]);
                assert(((h as int) as u8) == h);
            }
            match ins.operation {
                Operation::Dash => {
                    proof {
                        assert(self.sequence@[i as int].operation == Operation::Dash);
                    }
                    if boxes.contains_key(&h) {
                        let old_box = boxes.get(&h).unwrap();
                        let ghost ob = old_box@;
                        let ghost pob = pairs_of(ob);
                        proof {
                            assert(pairs_of(boxes@[(h as int) as u8]@) == spec_box(
                                prefix,
                                h as int,
                            ));
                            assert(pob == spec_box(prefix, h as int));
                        }
                        let mut new_box: Vec<Instruction> = Vec::new();
                        let mut t: usize = 0;
                        let mut removed: bool = false;
                        let ghost at = label_pos(pob, ins.label@);
                        while t < old_box.len()
                            invariant
                                0 <= t <= old_box.len(),
                                old_box@ == ob,
                                pob == pairs_of(ob),
                                at == label_pos(pob, ins.label@),
                                !removed ==> {
                                    &&& pairs_of(new_box@).len() == t
                                    &&& forall|u: int|
                                        0 <= u < t ==> #[trigger] pairs_of(new_box@)[u]
                                            == pob[u]
                                    &&& forall|u: int|
                                        0 <= u < t ==> (#[trigger] pob[u]).0 != ins.label@
                                },
                                removed ==> {
                                    &&& 0 <= at < t
                                    &&& pairs_of(new_box@).len() == t - 1
                                    &&& forall|u: int|
                                        0 <= u < at ==> #[trigger] pairs_of(new_box@)[u]
                                            == pob[u]
                                    &&& forall|u: int|
                                        at <= u < t - 1 ==> #[trigger] pairs_of(new_box@)[u]
                                            == pob[u + 1]
                                },
                            decreases old_box.len() - t,
                        {
                            let same = text::eq_chars(&old_box[t].label, &ins.label);
                            proof {
                                assert(pob[t as int].0 == ob[t as int].label@);
                            }
                            if same && !removed {
                                removed = true;
                                proof {
                                    lemma_label_pos(pob, ins.label@, t as int);
                                }
                            } else {
                                let ghost oldnb = pairs_of(new_box@);
                                new_box.push(old_box[t].duplicate());
                                proof {
                                    assert(pairs_of(new_box@) =~= oldnb.push(pob[t as int]));
                                }
                            }
                            t += 1;
                        }
                        proof {
                            if !removed {
                                lemma_label_pos(pob, ins.label@, ob.len() as int);
                                assert(pairs_of(new_box@) =~= pob);
                            } else {
                                assert(pairs_of(new_box@) =~= pob.take(at) + pob.skip(at
                                    + 1));
                            }
                            assert(spec_hash(ins.label@) == h as int);
                            assert(pairs_of(new_box@) == spec_box(prefix1, h as int));
                            assert(spec_box_present(prefix, h as int)) by {
                                assert(boxes@.dom().contains((h as int) as u8));
                            }
                            assert(spec_box_present(prefix1, h as int));
                        }
                        boxes.insert(h, new_box);
                    } else {
                        proof {
                            assert(!spec_box_present(prefix, h as int));
                            lemma_not_present_empty(prefix, h as int);
                            assert(label_pos(
                                Seq::<(Seq<char>, Option<u8>)>::empty(),
                                ins.label@,
                            ) == 0);
                            assert(spec_box(prefix1, h as int) == spec_box(
                                prefix,
                                h as int,
                            ));
                            assert(!spec_box_present(prefix1, h as int));
                        }
                    }
                },
                Operation::Equals => {
                    proof {
                        assert(self.sequence@[i as int].operation == Operation::Equals);
                    }
                    if boxes.contains_key(&h) {
                        let old_box = boxes.get(&h).unwrap();
                        let ghost ob = old_box@;
                        let ghost pob = pairs_of(ob);
                        proof {
                            assert(pairs_of(boxes@[(h as int) as u8]@) == spec_box(
                                prefix,
                                h as int,
                            ));
                            assert(pob == spec_box(prefix, h as int));
                        }
                        let mut new_box: Vec<Instruction> = Vec::new();
                        let mut t: usize = 0;
                        let mut replaced: bool = false;
                        let ghost at = label_pos(pob, ins.label@);
                        while t < old_box.len()
                            invariant
                                0 <= t <= old_box.len(),
                                old_box@ == ob,
                                pob == pairs_of(ob),
                                at == label_pos(pob, ins.label@),
                                ins.label@ == self.sequence@[i as int].label@,
                                ins.focul_length == self.sequence@[i as int].focul_length,
                                pairs_of(new_box@).len() == t,
                                !replaced ==> {
                                    &&& forall|u: int|
                                        0 <= u < t ==> #[trigger] pairs_of(new_box@)[u]
                                            == pob[u]
                                    &&& forall|u: int|
                                        0 <= u < t ==> (#[trigger] pob[u]).0 != ins.label@
                                },
                                replaced ==> {
                                    &&& 0 <= at < t
                                    &&& pairs_of(new_box@)[at] == (ins.label@, ins.focul_length)
                                    &&& forall|u: int|
                                        0 <= u < t && u != at ==> #[trigger] pairs_of(
                                            new_box@,
                                        )[u] == pob[u]
                                },
                            decreases old_box.len() - t,
                        {
                            let same = text::eq_chars(&old_box[t].label, &ins.label);
                            proof {
                                assert(pob[t as int].0 == ob[t as int].label@);
                            }
                            let ghost oldnb = pairs_of(new_box@);
                            if same && !replaced {
                                replaced = true;
                                new_box.push(ins.duplicate());
                                proof {
                                    lemma_label_pos(pob, ins.label@, t as int);
                                    assert(pairs_of(new_box@) =~= oldnb.push(
                                        (ins.label@, ins.focul_length),
                                    ));
                                }
                            } else {
                                new_box.push(old_box[t].duplicate());
                                proof {
                                    assert(pairs_of(new_box@) =~= oldnb.push(pob[t as int]));
                                }
                            }
                            t += 1;
                        }
                        if !replaced {
                            let ghost oldnb = pairs_of(new_box@);
                            new_box.push(ins.duplicate());
                            proof {
                                lemma_label_pos(pob, ins.label@, ob.len() as int);
                                assert(pairs_of(new_box@) =~= oldnb.push(
                                    (ins.label@, ins.focul_length),
                                ));
                                assert(pairs_of(new_box@) =~= pob.push(
                                    (ins.label@, ins.focul_length),
                                ));
                            }
                        } else {
                            proof {
                                assert(pairs_of(new_box@) =~= pob.update(
                                    at,
                                    (ins.label@, ins.focul_length),
                                ));
                            }
                        }
                        proof {
                            assert(spec_hash(ins.label@) == h as int);
                            assert(pairs_of(new_box@) == spec_box(prefix1, h as int));
                            assert(spec_box_present(prefix1, h as int));
                        }
                        boxes.insert(h, new_box);
                    } else {
                        let mut new_box: Vec<Instruction> = Vec::new();
                        new_box.push(ins.duplicate());
                        proof {
                            assert(!spec_box_present(prefix, h as int));
                            lemma_not_present_empty(prefix, h as int);
                            assert(pairs_of(new_box@) =~= Seq::<
                                (Seq<char>, Option<u8>),
                            >::empty().push((ins.label@, ins.focul_length)));
                            assert(label_pos(
                                Seq::<(Seq<char>, Option<u8>)>::empty(),
                                ins.label@,
                            ) == 0);
                            assert(spec_hash(ins.label@) == h as int);
                            assert(pairs_of(new_box@) == spec_box(prefix1, h as int));
                            assert(spec_box_present(prefix1, h as int));
                        }
                        boxes.insert(h, new_box);
                    }
                },
            }
            proof {
                assert(forall|b: int|
                    0 <= b < 256 && b != h as int ==> spec_box(prefix1, b) == spec_box(
                        prefix,
                        b,
                    ));
                assert(forall|b: int|
                    0 <= b < 256 && b != h as int ==> spec_box_present(prefix1, b)
                        == spec_box_present(prefix, b));
                assert(forall|b: int| 0 <= b < 256 && b != h as int ==> #[trigger] (b as u8) != h);
            }
            i += 1;
        }
        proof {
            assert(self.sequence@.take(self.sequence@.len() as int) =~= self.sequence@);
        }
        boxes
    }

    /// Focal power of one box's lenses.
    pub open spec fn spec_box_power(box_: Seq<(Seq<char>, Option<u8>)>, b: int) -> int
        decreases box_.len(),
    {
        if box_.len() == 0 {
            0
        } else {
            Self::spec_box_power(box_.drop_last(), b) + match box_.last().1 {
                Some(f) => (b + 1) * (box_.len() as int) * f,
                None => 0,
            }
        }
    }

    /// Focal power of the boxes up to number `b`.
    pub open spec fn spec_power_upto(m: Map<u8, Vec<Instruction>>, b: int) -> int
        decreases b,
    {
        if b <= 0 {
            0
        } else {
            Self::spec_power_upto(m, b - 1) + if m.dom().contains((b - 1) as u8) {
                Self::spec_box_power(pairs_of(m[(b - 1) as u8]@), b - 1)
            } else {
                0
            }
        }
    }

    /// Adds up `(box + 1) * slot * focal length` over every lens.
    #[verifier::loop_isolation(false)]
    pub fn calculate_focusing_power(lens_boxes: HashMap<u8, Vec<Instruction>>) -> (r: u32)
        requires
            Self::spec_power_upto(lens_boxes@, 256) <= u32::MAX,
        ensures
            r as int == Self::spec_power_upto(lens_boxes@, 256),
    {
        broadcast use vstd::std_specs::hash::group_hash_axioms;

        let mut power: u32 = 0;
        let mut b: u32 = 0;
        while b < 256
            invariant
                0 <= b <= 256,
                power as int == Self::spec_power_upto(lens_boxes@, b as int),
            decreases 256 - b,
        {
            proof {
                lemma_power_upto_mono(lens_boxes@, b as int + 1, 256);
            }
            let key: u8 = b as u8;
            if lens_boxes.contains_key(&key) {
                let lens_box = lens_boxes.get(&key).unwrap();
                let ghost pb = pairs_of(lens_box@);
                let mut t: usize = 0;
                while t < lens_box.len()
                    invariant
                        0 <= t <= lens_box.len(),
                        power as int == Self::spec_power_upto(lens_boxes@, b as int)
                            + Self::spec_box_power(pb.take(t as int), b as int),
                    decreases lens_box.len() - t,
                {
                    proof {
                        assert(pb.take(t as int + 1).drop_last() =~= pb.take(t as int));
                        assert(pb.take(t as int + 1).last() == pb[t as int]);
                        assert(pb[t as int].1 == lens_box@[t as int].focul_length);
                        lemma_box_power_mono(pb, b as int, t as int + 1);
                        lemma_power_upto_nonneg(lens_boxes@, b as int);
                        assert(pb.take(pb.len() as int) =~= pb);
                        assert(Self::spec_power_upto(lens_boxes@, b as int + 1)
                            == Self::spec_power_upto(lens_boxes@, b as int)
                            + Self::spec_box_power(pb, b as int));
                    }
                    match lens_box[t].focul_length {
                        Some(f) => {
                            proof {
                                assert(((b as int) + 1) * ((t as int) + 1) <= 256
                                    * 0x1_0000_0000_0000_0000) by (nonlinear_arith)
                                    requires
                                        0 <= (b as int) + 1 <= 256,
                                        0 <= (t as int) + 1 <= 0x1_0000_0000_0000_0000,
                                ;
                                assert(((b as int) + 1) * ((t as int) + 1) * (f as int)
                                    <= 256 * 0x1_0000_0000_0000_0000 * 256) by (nonlinear_arith)
                                    requires
                                        0 <= ((b as int) + 1) * ((t as int) + 1) <= 256
                                            * 0x1_0000_0000_0000_0000,
                                        0 <= f as int <= 256,
                                ;
                                assert(((b as int) + 1) * ((t as int) + 1) * (f as int)
                                    >= 0) by (nonlinear_arith)
                                    requires
                                        (b as int) + 1 >= 0,
                                        (t as int) + 1 >= 0,
                                        f as int >= 0,
                                ;
                                assert(Self::spec_box_power(pb.take(t as int + 1), b as int)
                                    == Self::spec_box_power(pb.take(t as int), b as int)
                                    + ((b as int) + 1) * ((t as int) + 1) * (f as int));
                                lemma_box_power_mono(pb, b as int, t as int);
                            }
                            let term: u128 = ((b as u128) + 1) * ((t as u128) + 1) * (
                            f as u128);
                            power = power + (term as u32);
                        },
                        None => {
                        },
                    }
                    t += 1;
                }
                proof {
                    assert(pb.take(pb.len() as int) =~= pb);
                }
            }
            b += 1;
        }
        power
    }
}

/// Every lens contributes a non-negative power.
proof fn lemma_box_power_mono(box_: Seq<(Seq<char>, Option<u8>)>, b: int, t: int)
    requires
        b >= 0,
        0 <= t <= box_.len(),
    ensures
        0 <= Init::spec_box_power(box_.take(t), b),
        Init::spec_box_power(box_.take(t), b) <= Init::spec_box_power(box_, b),
    decreases box_.len() - t,
{
    lemma_box_power_nonneg(box_.take(t), b);
    if t == box_.len() {
        assert(box_.take(t) =~= box_);
    } else {
        lemma_box_power_mono(box_, b, t + 1);
        assert(box_.take(t + 1).drop_last() =~= box_.take(t));
        assert(box_.take(t + 1).last() == box_[t]);
        match box_[t].1 {
            Some(f) => {
                assert((b + 1) * (t + 1) * (f as int) >= 0) by (nonlinear_arith)
                    requires
                        b + 1 >= 0,
                        t + 1 >= 0,
                        f as int >= 0,
                ;
            },
            None => {
            },
        }
    }
}

proof fn lemma_box_power_nonneg(box_: Seq<(Seq<char>, Option<u8>)>, b: int)
    requires
        b >= 0,
    ensures
        Init::spec_box_power(box_, b) >= 0,
    decreases box_.len(),
{
    if box_.len() > 0 {
        lemma_box_power_nonneg(box_.drop_last(), b);
        match box_.last().1 {
            Some(f) => {
                assert((b + 1) * (box_.len() as int) * (f as int) >= 0) by (nonlinear_arith)
                    requires
                        b + 1 >= 0,
                        box_.len() as int >= 0,
                        f as int >= 0,
                ;
            },
            None => {
            },
        }
    }
}

proof fn lemma_power_upto_nonneg(m: Map<u8, Vec<Instruction>>, b: int)
    ensures
        Init::spec_power_upto(m, b) >= 0,
    decreases b,
{
    if b > 0 {
        lemma_power_upto_nonneg(m, b - 1);
        if 0 <= b - 1 < 256 || true {
            if m.dom().contains((b - 1) as u8) {
                lemma_box_power_nonneg(pairs_of(m[(b - 1) as u8]@), b - 1);
            }
        }
    }
}

proof fn lemma_power_upto_mono(m: Map<u8, Vec<Instruction>>, a: int, b: int)
    requires
        0 <= a <= b,
    ensures
        Init::spec_power_upto(m, a) <= Init::spec_power_upto(m, b),
    decreases b - a,
{
    if a < b {
        lemma_power_upto_mono(m, a + 1, b);
        if m.dom().contains(a as u8) {
            lemma_box_power_nonneg(pairs_of(m[a as u8]@), a);
        }
    }
}

proof fn lemma_sum_hashes_prefix(s: Seq<Instruction>, k: int)
    requires
        0 < k <= s.len(),
    ensures
        Init::spec_sum_hashes(s.take(k)) == Init::spec_sum_hashes(s.take(k - 1)) + spec_hash(
            s[k - 1].text@,
        ),
        Init::spec_sum_hashes(s.take(k)) <= Init::spec_sum_hashes(s),
    decreases s.len() - k,
{
    assert(s.take(k).drop_last() =~= s.take(k - 1));
    assert(s.take(k).last() == s[k - 1]);
    if k < s.len() {
        lemma_sum_hashes_prefix(s, k + 1);
        lemma_hash_nonneg_all(s, k);
    } else {
        assert(s.take(k) =~= s);
    }
}

proof fn lemma_hash_nonneg_all(s: Seq<Instruction>, k: int)
    requires
        0 <= k < s.len(),
    ensures
        spec_hash(s[k].text@) >= 0,
{
}

} // verus!
