//! Names: labels, compression pointers, and the decoding and comparing of
//! names inside a buffer.

use vstd::prelude::*;
use vstd::std_specs::cmp::PartialEqSpecImpl;
use vstd::string::StringSliceAdditionalSpecFns;
use vstd::utf8::{decode_utf8, valid_utf8};
use crate::bytes::{eq_ignore_ascii_case, push_all, u16_from_be, u16_to_be};
use crate::error::Error;
use crate::lemmas::{
    lemma_decode_relax, lemma_dotted_prefix, lemma_dotted_step, lemma_labels_valid,
    lemma_names_match_step,
};
use crate::wire::{
    ascii_lower, decode_from, decode_name, Decoded, dotted, eq_ignore_case, label_at, label_bytes,
    labels_of, LabelType, LEN_MASK, MAX_LABEL_READS, MAX_NAME_LEN, MAX_POINTER, name_labels,
    name_pointer, names_match, pointer_among, pointer_bytes, PTR_MASK, valid_labels, wire_len,
};

verus! {

/// The masks that read a length byte pick the cases that [`label_at`] tells apart.
proof fn lemma_label_bits(b: u8)
    by (bit_vector)
    ensures
        (b & 0xC0 == 0xC0) <==> b >= 0xC0,
        b >= 0xC0 ==> b & 0x3F == b - 0xC0,
        (b & 0xC0 == 0) <==> b < 0x40,
        b < 0x40 ==> b & 0x3F == b,
        b < 0x40 ==> b | 0xC0 == b + 0xC0,
{
}

impl LabelType {
    /// Reads the label announced at offset `i` of `buf`.
    ///
    /// Returns `None` where [`label_at`] finds nothing to read.
    pub fn read(buf: &[u8], i: usize) -> (label: Option<LabelType>)
        ensures
            label == label_at(buf@, i as int),
    {
        if i >= buf.len() {
            return None;
        }
        let ptr_or_len = buf[i];
        proof {
            lemma_label_bits(ptr_or_len);
        }
        if ptr_or_len & PTR_MASK == PTR_MASK {
            if buf.len() - i < 2 {
                return None;
            }
            Some(LabelType::Pointer(u16_from_be(ptr_or_len & LEN_MASK, buf[i + 1])))
        } else if ptr_or_len & PTR_MASK != 0 {
            None
        } else if ptr_or_len & LEN_MASK == 0 {
            Some(LabelType::End)
        } else {
            Some(LabelType::Part(ptr_or_len & LEN_MASK))
        }
    }
}

/// One label of a name: a view of its length byte and the bytes behind it.
#[derive(Debug, Clone, Copy)]
pub struct Label<'a> {
    buf: &'a [u8],
    buf_i: usize,
}

impl<'a> Label<'a> {
    #[verifier::type_invariant]
    spec fn inv(self) -> bool {
        &&& self.buf_i < self.buf@.len()
        &&& 1 <= self.buf@[self.buf_i as int] <= 63
        &&& self.buf_i + 1 + self.buf@[self.buf_i as int] <= self.buf@.len()
    }

    /// The buffer that holds the label.
    pub closed spec fn bytes(self) -> Seq<u8> {
        self.buf@
    }

    /// The offset of the label's length byte.
    pub closed spec fn offset(self) -> int {
        self.buf_i as int
    }

    /// The bytes of the label, without its length byte.
    #[inline]
    pub fn as_bytes(&self) -> (bytes: &'a [u8])
        ensures
            bytes@ == self@,
    {
        proof {
            use_type_invariant(self);
        }
        let len = self.buf[self.buf_i] as usize;
        vstd::slice::slice_subrange(self.buf, self.buf_i + 1, self.buf_i + 1 + len)
    }

    /// The number of bytes of the label, between 1 and 63.
    #[inline]
    pub fn len(&self) -> (len: usize)
        ensures
            len == self@.len(),
            1 <= len <= 63,
    {
        proof {
            use_type_invariant(self);
        }
        self.buf[self.buf_i] as usize
    }

    /// The label as text, where its bytes are valid UTF-8.
    #[inline]
    pub fn as_str(&self) -> (text: Option<&'a str>)
        ensures
            match text {
                Some(s) => valid_utf8(self@) && s.spec_bytes() == self@,
                None => !valid_utf8(self@),
            },
    {
        str_from_utf8(self.as_bytes())
    }
}

impl View for Label<'_> {
    type V = Seq<u8>;

    /// The bytes of the label.
    open spec fn view(&self) -> Seq<u8> {
        label_bytes(self.bytes(), self.offset())
    }
}

/// A cursor over the labels of a name.
#[derive(Debug, Clone, Copy)]
pub(crate) struct Labels<'a> {
    buf: &'a [u8],
    buf_i: usize,
    limit: usize,
    budget: usize,
    fuel: usize,
}

impl<'a> Labels<'a> {
    #[verifier::type_invariant]
    spec fn inv(self) -> bool {
        &&& decode_from(
            self.buf@,
            self.buf_i as int,
            self.limit as int,
            self.budget as int,
            self.fuel as nat,
        ) is Ok
        &&& self.limit <= self.buf_i
        &&& self.budget <= MAX_NAME_LEN
        &&& self.fuel <= MAX_LABEL_READS
    }

    /// The buffer that the cursor walks.
    pub closed spec fn bytes(self) -> Seq<u8> {
        self.buf@
    }

    /// The offset at which the next label is announced.
    pub closed spec fn position(self) -> int {
        self.buf_i as int
    }

    /// The offsets of the labels that are still to come.
    pub closed spec fn remaining(self) -> Seq<int> {
        match decode_from(
            self.buf@,
            self.buf_i as int,
            self.limit as int,
            self.budget as int,
            self.fuel as nat,
        ) {
            Ok(d) => d.labels,
            Err(_) => seq![],
        }
    }

    /// Hands out the next label, following compression pointers on the way,
    /// or `None` behind the last label.
    ///
    /// Each pointer on the way is held to the rule that it goes strictly
    /// backwards, and the reads are counted, although the name was decoded
    /// before.
    pub fn next(&mut self) -> (label: Option<Label<'a>>)
        ensures
            final(self).bytes() == old(self).bytes(),
            match label {
                Some(l) => {
                    &&& old(self).remaining().len() > 0
                    &&& l.bytes() == old(self).bytes()
                    &&& l.offset() == old(self).remaining()[0]
                    &&& final(self).remaining() == old(self).remaining().skip(1)
                    &&& final(self).position() == l.offset() + 1 + l@.len()
                    &&& l@.len() == old(self).bytes()[l.offset()]
                    &&& decode_name(l.bytes(), l.offset()) matches Ok(d)
                    &&& d.labels == old(self).remaining()
                },
                None => {
                    &&& old(self).remaining().len() == 0
                    &&& final(self).remaining().len() == 0
                },
            },
    {
        proof {
            use_type_invariant(&*self);
        }
        let buf = self.buf;
        let mut pos = self.buf_i;
        let mut limit = self.limit;
        let budget = self.budget;
        let mut fuel = self.fuel;
        loop
            invariant
                buf == self.buf,
                *self == *old(self),
                decode_from(buf@, pos as int, limit as int, budget as int, fuel as nat) is Ok,
                decode_from(buf@, pos as int, limit as int, budget as int, fuel as nat).unwrap().labels
                    == old(self).remaining(),
                limit <= pos,
                budget <= MAX_NAME_LEN,
                fuel <= MAX_LABEL_READS,
            decreases fuel,
        {
            if fuel == 0 {
                return None;
            }
            match LabelType::read(buf, pos) {
                None => {
                    return None;
                },
                Some(LabelType::End) => {
                    *self = Labels { buf, buf_i: pos, limit, budget, fuel };
                    return None;
                },
                Some(LabelType::Part(n)) => {
                    if n as usize > budget || buf.len() - pos - 1 <= n as usize {
                        return None;
                    }
                    let ghost rest = decode_from(
                        buf@,
                        pos + 1 + n,
                        limit as int,
                        budget - n,
                        (fuel - 1) as nat,
                    ).unwrap();
                    proof {
                        lemma_decode_relax(
                            buf@,
                            pos as int,
                            limit as int,
                            budget as int,
                            fuel as nat,
                            pos as int,
                            MAX_NAME_LEN as int,
                            MAX_LABEL_READS as nat,
                        );
                        assert(old(self).remaining().skip(1) =~= rest.labels);
                    }
                    let label = Label { buf, buf_i: pos };
                    *self =
                    Labels {
                        buf,
                        buf_i: pos + 1 + n as usize,
                        limit,
                        budget: budget - n as usize,
                        fuel: fuel - 1,
                    };
                    return Some(label);
                },
                Some(LabelType::Pointer(target)) => {
                    if target as usize >= limit {
                        return None;
                    }
                    pos = target as usize;
                    limit = target as usize;
                    fuel = fuel - 1;
                },
            }
        }
    }
}

/// A DNS name: a view of a name inside the buffer of a message.
///
/// A `Name` is only ever made of a place where a name decodes
/// ([`Name::wf`]), so its labels can always be walked.
#[derive(Debug, Clone, Copy)]
pub struct Name<'a> {
    pub(crate) buf: &'a [u8],
    pub(crate) start: usize,
}

impl View for Name<'_> {
    type V = Seq<Seq<u8>>;

    /// The labels of the name, in order, each without its length byte.
    open spec fn view(&self) -> Seq<Seq<u8>> {
        name_labels(self.bytes(), self.offset())
    }
}

impl<'a> Name<'a> {
    /// What holds of every name that the program holds: it decodes.
    #[verifier::type_invariant]
    pub closed spec fn inv(self) -> bool {
        decode_name(self.buf@, self.start as int) is Ok
    }

    /// A name that decodes is well formed, and its labels are valid.
    pub proof fn lemma_inv_wf(self)
        requires
            self.inv(),
        ensures
            self.wf(),
            valid_labels(self@),
            self@.len() < MAX_LABEL_READS,
            wire_len(self@) <= MAX_NAME_LEN + MAX_LABEL_READS,
    {
        lemma_labels_valid(self.buf@, self.start as int);
    }

    /// The buffer that holds the name.
    pub closed spec fn bytes(self) -> Seq<u8> {
        self.buf@
    }

    /// The offset at which the name starts.
    pub closed spec fn offset(self) -> int {
        self.start as int
    }

    /// A name is well formed where it decodes.
    pub open spec fn wf(self) -> bool {
        decode_name(self.bytes(), self.offset()) is Ok
    }

    /// The name that starts at the first byte of `bytes`.
    pub fn from_bytes(bytes: &'a [u8]) -> (name: Name<'a>)
        requires
            decode_name(bytes@, 0) is Ok,
        ensures
            name.bytes() == bytes@,
            name.offset() == 0,
            name.wf(),
    {
        Name { buf: bytes, start: 0 }
    }

    /// Decodes the name at offset `*i` of `buf` and moves `*i` behind it:
    /// behind its terminator, or behind its first pointer.
    ///
    /// The result is what [`decode_name`] says. On failure `*i` is left as it
    /// was.
    pub fn read(buf: &'a [u8], i: &mut usize) -> (r: Result<Name<'a>, Error>)
        ensures
            match decode_name(buf@, *old(i) as int) {
                Ok(d) => {
                    &&& r matches Ok(name)
                    &&& name.bytes() == buf@
                    &&& name.offset() == *old(i)
                    &&& name.wf()
                    &&& *final(i) == d.end
                },
                Err(e) => {
                    &&& r matches Err(err)
                    &&& err == e
                    &&& *final(i) == *old(i)
                },
            },
    {
        let start = *i;
        let mut pos = start;
        let mut limit = start;
        let mut budget: usize = MAX_NAME_LEN;
        let mut fuel: usize = MAX_LABEL_READS;
        let mut end: Option<usize> = None;
        let size = buf.len();
        loop
            invariant
                size == buf@.len(),
                *i == *old(i),
                start == *old(i),
                budget <= MAX_NAME_LEN,
                fuel <= MAX_LABEL_READS,
                end matches Some(e) ==> e <= buf@.len(),
                match decode_from(buf@, pos as int, limit as int, budget as int, fuel as nat) {
                    Ok(d) => {
                        &&& decode_name(buf@, start as int) matches Ok(t)
                        &&& t.end == (match end {
                            Some(e) => e as int,
                            None => d.end,
                        })
                    },
                    Err(e) => decode_name(buf@, start as int) == Err::<Decoded, Error>(e),
                },
            decreases fuel,
        {
            if fuel == 0 {
                return Err(Error::NameTooLong);
            }
            match LabelType::read(buf, pos) {
                None => {
                    return Err(Error::MessageTooShort);
                },
                Some(LabelType::End) => {
                    *i = match end {
                        Some(e) => e,
                        None => pos + 1,
                    };
                    return Ok(Name { buf, start });
                },
                Some(LabelType::Part(n)) => {
                    if n as usize > budget {
                        return Err(Error::NameTooLong);
                    }
                    if size - pos - 1 <= n as usize {
                        return Err(Error::MessageTooShort);
                    }
                    budget = budget - n as usize;
                    pos = pos + 1 + n as usize;
                    fuel = fuel - 1;
                },
                Some(LabelType::Pointer(target)) => {
                    if target as usize >= limit {
                        return Err(Error::Pointer);
                    }
                    if end.is_none() {
                        end = Some(pos + 2);
                    }
                    pos = target as usize;
                    limit = target as usize;
                    fuel = fuel - 1;
                },
            }
        }
    }

    /// A cursor at the first label of the name.
    pub(crate) fn labels(&self) -> (labels: Labels<'a>)
        ensures
            labels.bytes() == self.bytes(),
            labels.position() == self.offset(),
            decode_name(self.bytes(), self.offset()) matches Ok(d) && d.labels == labels.remaining(),
    {
        proof {
            use_type_invariant(self);
        }
        Labels {
            buf: self.buf,
            buf_i: self.start,
            limit: self.start,
            budget: MAX_NAME_LEN,
            fuel: MAX_LABEL_READS,
        }
    }

    /// Whether the name has no labels: the name of the root.
    pub fn is_root(&self) -> (root: bool)
        ensures
            root == (self@.len() == 0),
    {
        let mut labels = self.labels();
        labels.next().is_none()
    }

    /// Splits the name into its first label and the name behind it, which is
    /// `None` where the first label is the last.
    pub fn split(&self) -> (parts: (Label<'a>, Option<Name<'a>>))
        requires
            self@.len() > 0,
        ensures
            parts.0.bytes() == self.bytes(),
            parts.0@ == self@[0],
            match parts.1 {
                Some(rest) => {
                    &&& rest.bytes() == self.bytes()
                    &&& rest.wf()
                    &&& rest@ == self@.skip(1)
                },
                None => self@.len() == 1,
            },
    {
        let mut labels = self.labels();
        let ghost all = labels.remaining();
        let label = labels.next().unwrap();
        let name = match labels.next() {
            Some(l) => {
                assert(labels_of(self.bytes(), all.skip(1)) =~= self@.skip(1));
                Some(Name { buf: l.buf, start: l.buf_i })
            },
            None => None,
        };
        (label, name)
    }

    /// Looks for a place inside this name to which a compression pointer can
    /// refer in place of `sub_name`, and returns the two bytes of that pointer.
    ///
    /// The places tried are the label boundaries of this name, front to back;
    /// see [`name_pointer`].
    pub fn create_pointer(&self, sub_name: &Name<'_>) -> (pointer: Option<[u8; 2]>)
        ensures
            match name_pointer(self.bytes(), self.offset(), sub_name@) {
                Some(target) => {
                    &&& pointer matches Some(bytes)
                    &&& bytes@ == pointer_bytes(target)
                    &&& label_at(bytes@, 0) == Some(LabelType::Pointer(target as u16))
                    &&& 0 <= target <= MAX_POINTER
                },
                None => pointer is None,
            },
    {
        let mut labels = self.labels();
        loop
            invariant
                labels.bytes() == self.bytes(),
                name_pointer(self.bytes(), self.offset(), sub_name@) == pointer_among(
                    self.bytes(),
                    labels.position(),
                    labels.remaining(),
                    sub_name@,
                ),
            decreases labels.remaining().len(),
        {
            let here = labels;
            match labels.next() {
                Some(_) => {
                    if here.buf_i <= MAX_POINTER && Name::equal_from(here, sub_name.labels()) {
                        let be = u16_to_be(here.buf_i as u16);
                        proof {
                            lemma_label_bits(be[0]);
                        }
                        let bytes = [be[0] | PTR_MASK, be[1]];
                        assert(bytes@ =~= pointer_bytes(here.buf_i as int));
                        return Some(bytes);
                    }
                },
                None => {
                    return None;
                },
            }
        }
    }

    /// The dotted form of the name as text, such as `example.com`.
    ///
    /// Bytes that are not valid UTF-8 come out as replacement characters.
    pub fn to_string(&self) -> (text: String)
        ensures
            text@ == utf8_lossy(dotted(self@)),
            valid_utf8(dotted(self@)) ==> text@ == decode_utf8(dotted(self@)),
    {
        let mut out: Vec<u8> = Vec::new();
        let mut labels = self.labels();
        let mut print_dot = false;
        let ghost all = self@;
        let ghost mut k: int = 0;
        assert(all.take(0) =~= Seq::<Seq<u8>>::empty());
        assert(all.skip(0) =~= all);
        loop
            invariant
                0 <= k <= all.len(),
                labels_of(labels.bytes(), labels.remaining()) == all.skip(k),
                out@ == dotted(all.take(k)),
                print_dot == (k > 0),
                all == self@,
            decreases labels.remaining().len(),
        {
            let ghost before = labels_of(labels.bytes(), labels.remaining());
            assert(before == all.skip(k));
            assert(before.len() == all.len() - k);
            match labels.next() {
                None => {
                    assert(before.len() == 0);
                    assert(all.take(k) =~= all);
                    return string_from_utf8_lossy(out.as_slice());
                },
                Some(label) => {
                    proof {
                        assert(label@ == before[0]);
                        assert(before[0] == all[k]);
                        assert(labels_of(labels.bytes(), labels.remaining()) =~= before.skip(1));
                        assert(before.skip(1) =~= all.skip(k + 1));
                        lemma_dotted_step(all, k);
                    }
                    if print_dot {
                        out.push(46u8);
                    }
                    push_all(&mut out, label.as_bytes());
                    print_dot = true;
                    proof {
                        k = k + 1;
                    }
                },
            }
        }
    }

    /// Whether the labels left under `this` match those left under `other`,
    /// label for label, up to the case of ASCII letters.
    pub(crate) fn equal_from(this: Labels<'_>, other: Labels<'_>) -> (equal: bool)
        ensures
            equal == names_match(
                labels_of(this.bytes(), this.remaining()),
                labels_of(other.bytes(), other.remaining()),
            ),
    {
        let mut left = this;
        let mut right = other;
        loop
            invariant
                names_match(
                    labels_of(this.bytes(), this.remaining()),
                    labels_of(other.bytes(), other.remaining()),
                ) == names_match(
                    labels_of(left.bytes(), left.remaining()),
                    labels_of(right.bytes(), right.remaining()),
                ),
            decreases left.remaining().len(),
        {
            let ghost a = labels_of(left.bytes(), left.remaining());
            let ghost b = labels_of(right.bytes(), right.remaining());
            let l = left.next();
            let r = right.next();
            match (l, r) {
                (Some(l), Some(r)) => {
                    proof {
                        assert(l@ == a[0] && r@ == b[0]);
                        let a1 = labels_of(left.bytes(), left.remaining());
                        let b1 = labels_of(right.bytes(), right.remaining());
                        assert(a1 =~= a.skip(1));
                        assert(b1 =~= b.skip(1));
                        lemma_names_match_step(a, b);
                    }
                    if !eq_ignore_ascii_case(l.as_bytes(), r.as_bytes()) {
                        return false;
                    }
                },
                (None, None) => {
                    assert(a.len() == 0 && b.len() == 0);
                    return true;
                },
                _ => {
                    assert(a.len() != b.len());
                    return false;
                },
            }
        }
    }
}

/// The text that `String::from_utf8_lossy` makes of a byte string.
pub uninterp spec fn utf8_lossy(bytes: Seq<u8>) -> Seq<char>;

/// Calls `String::from_utf8_lossy` and makes the result an owned string.
///
/// The contract is taken on trust from the documentation of that function:
/// the result depends on the bytes alone ([`utf8_lossy`]), and it is the
/// text that the bytes encode where they are valid UTF-8. Where they are
/// not, invalid sequences come out as replacement characters.
#[verifier::external_body]
fn string_from_utf8_lossy(bytes: &[u8]) -> (text: String)
    ensures
        text@ == utf8_lossy(bytes@),
        valid_utf8(bytes@) ==> text@ == decode_utf8(bytes@),
{
    String::from_utf8_lossy(bytes).into_owned()
}

/// Calls `core::str::from_utf8` and drops the error.
///
/// The contract is taken on trust from the documentation of that function:
/// it gives the same bytes as a string slice where they are valid UTF-8, and
/// fails where they are not.
#[verifier::external_body]
fn str_from_utf8<'a>(bytes: &'a [u8]) -> (text: Option<&'a str>)
    ensures
        match text {
            Some(s) => valid_utf8(bytes@) && s.spec_bytes() == bytes@,
            None => !valid_utf8(bytes@),
        },
{
    core::str::from_utf8(bytes).ok()
}

impl PartialEq<str> for Name<'_> {
    /// Compares the name with its dotted form, up to the case of ASCII
    /// letters: label for label, with exactly one `.` between two labels and
    /// none before the first or behind the last.
    fn eq(&self, other: &str) -> (equal: bool) {
        let text = other.as_bytes();
        let mut other_i: usize = 0;
        let mut labels = self.labels();
        let ghost all = self@;
        let ghost mut k: int = 0;
        proof {
            assert(all.take(0) =~= Seq::<Seq<u8>>::empty());
            assert(all.skip(0) =~= all);
            assert(text@.take(0) =~= Seq::<u8>::empty());
        }
        loop
            invariant
                0 <= k <= all.len(),
                all == self@,
                labels_of(labels.bytes(), labels.remaining()) == all.skip(k),
                other_i == dotted(all.take(k)).len(),
                other_i <= text@.len(),
                eq_ignore_case(dotted(all.take(k)), text@.take(other_i as int)),
                text@ == other.spec_bytes(),
                (other_i == 0) == (k == 0),
            decreases labels.remaining().len(),
        {
            let ghost before = labels_of(labels.bytes(), labels.remaining());
            assert(before == all.skip(k));
            assert(before.len() == all.len() - k);
            match labels.next() {
                None => {
                    proof {
                        assert(before.len() == 0);
                        assert(all.take(k) =~= all);
                        if other_i == text@.len() {
                            assert(text@.take(other_i as int) =~= text@);
                        }
                    }
                    return other_i == text.len();
                },
                Some(label) => {
                    let ghost whole = dotted(all);
                    let ghost done = dotted(all.take(k));
                    let ghost next = dotted(all.take(k + 1));
                    proof {
                        assert(label@ == before[0]);
                        assert(before[0] == all[k]);
                        assert(labels_of(labels.bytes(), labels.remaining()) =~= before.skip(1));
                        assert(before.skip(1) =~= all.skip(k + 1));
                        lemma_dotted_step(all, k);
                        lemma_dotted_prefix(all, k + 1);
                        assert(forall|p: int| 0 <= p < next.len() ==> whole[p] == whole.take(
                            next.len() as int,
                        )[p]);
                    }
                    if other_i != 0 {
                        if other_i >= text.len() || text[other_i] != 46u8 {
                            proof {
                                assert(next[other_i as int] == 46u8);
                                assert(whole[other_i as int] == 46u8);
                            }
                            return false;
                        }
                        other_i += 1;
                    }
                    let len = label.len();
                    if text.len() - other_i < len {
                        return false;
                    }
                    let sub = vstd::slice::slice_subrange(text, other_i, other_i + len);
                    if !eq_ignore_ascii_case(label.as_bytes(), sub) {
                        proof {
                            if eq_ignore_case(whole, text@) {
                                assert forall|j: int| 0 <= j < len implies ascii_lower(
                                    #[trigger] label@[j],
                                ) == ascii_lower(sub@[j]) by {
                                    assert(next[other_i + j] == label@[j]);
                                    assert(whole[other_i + j] == label@[j]);
                                    assert(sub@[j] == text@[other_i + j]);
                                }
                                assert(false);
                            }
                        }
                        return false;
                    }
                    proof {
                        let grown = text@.take(other_i + len);
                        assert forall|p: int| 0 <= p < next.len() implies ascii_lower(
                            #[trigger] next[p],
                        ) == ascii_lower(grown[p]) by {
                            if p < done.len() {
                                assert(next[p] == done[p]);
                                assert(text@.take(done.len() as int)[p] == grown[p]);
                            } else if p < other_i {
                                assert(next[p] == 46u8);
                            } else {
                                assert(next[p] == label@[p - other_i]);
                                assert(sub@[p - other_i] == grown[p]);
                            }
                        }
                    }
                    other_i += len;
                    proof {
                        k = k + 1;
                    }
                },
            }
        }
    }
}

impl PartialEqSpecImpl<str> for Name<'_> {
    open spec fn obeys_eq_spec() -> bool {
        true
    }

    /// A name equals a string where its dotted form and the string's bytes
    /// are equal up to the case of ASCII letters.
    open spec fn eq_spec(&self, other: &str) -> bool {
        eq_ignore_case(dotted(self@), other.spec_bytes())
    }
}

} // verus!
