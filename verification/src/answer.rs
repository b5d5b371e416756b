//! Answers: resource records with a name, a kind, a class, a time to live
//! and opaque data.

use vstd::prelude::*;
use crate::bytes::{read_u16, read_u32};
use crate::error::Error;
use crate::name::Name;
use crate::query_class::QueryClass;
use crate::query_kind::QueryKind;
use crate::wire::{answer_at, AnswerAt, u16_at, u32_at};

verus! {

/// A DNS answer.
#[derive(Debug)]
pub struct Answer<'a> {
    pub name: Name<'a>,
    pub kind: QueryKind,
    pub class: QueryClass,
    pub ttl: u32,
    pub rdata: &'a [u8],
}

/// Reads the time to live at offset `*i` of `buf` and moves `*i` behind it.
///
/// Fails with `MessageTooShort`, and leaves `*i` as it was, where fewer than
/// four bytes are left.
pub fn read_ttl(buf: &[u8], i: &mut usize) -> (r: Result<u32, Error>)
    ensures
        match u32_at(buf@, *old(i) as int) {
            Ok(v) => r == Ok::<u32, Error>(v as u32) && *final(i) == *old(i) + 4,
            Err(e) => r == Err::<u32, Error>(e) && *final(i) == *old(i),
        },
{
    read_u32(buf, i)
}

/// The record data announced at offset `i`: the offset and length of the
/// bytes behind a two-byte length, where the length and that many bytes lie
/// inside the buffer.
pub open spec fn rdata_at(buf: Seq<u8>, i: int) -> Result<(int, int), Error> {
    match u16_at(buf, i) {
        Err(e) => Err(e),
        Ok(len) => if i + 2 + len <= buf.len() {
            Ok((i + 2, len))
        } else {
            Err(Error::MessageTooShort)
        },
    }
}

/// Reads the record data at offset `*i` of `buf` and moves `*i` behind it.
///
/// Fails with `MessageTooShort`, and leaves `*i` as it was, where the
/// two-byte length or the bytes it announces do not fit in what is left.
pub fn read_rdata<'a>(buf: &'a [u8], i: &mut usize) -> (r: Result<&'a [u8], Error>)
    ensures
        match rdata_at(buf@, *old(i) as int) {
            Ok((at, len)) => {
                &&& r matches Ok(rdata)
                &&& rdata@ == buf@.subrange(at, at + len)
                &&& *final(i) == at + len
            },
            Err(e) => {
                &&& r matches Err(err)
                &&& err == e
                &&& *final(i) == *old(i)
            },
        },
{
    let mut j = *i;
    let rdata_len = read_u16(buf, &mut j)? as usize;
    if buf.len() - j >= rdata_len {
        let rdata = vstd::slice::slice_subrange(buf, j, j + rdata_len);
        *i = j + rdata_len;
        Ok(rdata)
    } else {
        Err(Error::MessageTooShort)
    }
}

impl<'a> Answer<'a> {
    /// Whether this is the answer that was read as `found` at offset `at` of
    /// `buf`.
    pub open spec fn is_at(&self, buf: Seq<u8>, at: int, found: AnswerAt) -> bool {
        &&& self.name.bytes() == buf
        &&& self.name.offset() == at
        &&& self.name.wf()
        &&& self.kind == QueryKind::spec_from_u16(found.kind)
        &&& self.class == QueryClass::spec_from_u16(found.class)
        &&& self.ttl == found.ttl
        &&& self.rdata@ == buf.subrange(found.rdata_at, found.rdata_at + found.rdata_len)
    }

    /// Reads the answer at offset `*i` of `buf` and moves `*i` behind it.
    ///
    /// The result is what [`answer_at`] says. On failure `*i` is left as it
    /// was.
    pub fn read(buf: &'a [u8], i: &mut usize) -> (r: Result<Answer<'a>, Error>)
        ensures
            match answer_at(buf@, *old(i) as int) {
                Ok(found) => {
                    &&& r matches Ok(answer)
                    &&& answer.is_at(buf@, *old(i) as int, found)
                    &&& *final(i) == found.end
                },
                Err(e) => {
                    &&& r matches Err(err)
                    &&& err == e
                    &&& *final(i) == *old(i)
                },
            },
    {
        let mut j = *i;
        let name = Name::read(buf, &mut j)?;
        let kind = QueryKind::read(buf, &mut j)?;
        let class = QueryClass::read(buf, &mut j)?;
        let ttl = read_ttl(buf, &mut j)?;
        let rdata = read_rdata(buf, &mut j)?;
        *i = j;
        Ok(Answer { name, kind, class, ttl, rdata })
    }

    /// The name that the answer is for.
    pub fn name(&self) -> (name: &Name<'a>)
        ensures
            *name == self.name,
    {
        &self.name
    }

    /// The kind of the record.
    pub fn kind(&self) -> (kind: &QueryKind)
        ensures
            *kind == self.kind,
    {
        &self.kind
    }

    /// The class of the record.
    pub fn class(&self) -> (class: &QueryClass)
        ensures
            *class == self.class,
    {
        &self.class
    }

    /// The time to live of the record, in seconds.
    pub fn ttl(&self) -> (ttl: u32)
        ensures
            ttl == self.ttl,
    {
        self.ttl
    }

    /// The data of the record, as it stands in the message.
    pub fn rdata(&self) -> (rdata: &'a [u8])
        ensures
            rdata@ == self.rdata@,
    {
        self.rdata
    }
}

/// A cursor over the [`Answer`]s contained in a [`crate::Message`].
#[derive(Debug)]
pub struct Answers<'a> {
    pub(crate) answer_count: usize,
    pub(crate) current_answer: usize,
    pub(crate) buf: &'a [u8],
    pub(crate) buf_i: usize,
}

impl<'a> Answers<'a> {
    /// The bytes that the cursor reads from.
    pub closed spec fn bytes(&self) -> Seq<u8> {
        self.buf@
    }

    /// The offset of the next answer.
    pub closed spec fn cursor(&self) -> int {
        self.buf_i as int
    }

    /// The number of answers that are still to come.
    pub closed spec fn remaining(&self) -> int {
        self.answer_count - self.current_answer
    }

    /// A cursor over `count` answers in `buf`, the first at offset `at`.
    pub fn new(buf: &'a [u8], count: usize, at: usize) -> (answers: Answers<'a>)
        ensures
            answers.bytes() == buf@,
            answers.cursor() == at,
            answers.remaining() == count,
    {
        Answers { answer_count: count, current_answer: 0, buf, buf_i: at }
    }

    /// Reads the next answer and moves behind it.
    ///
    /// Returns `Ok(None)` behind the last answer. Where an answer is still to
    /// come but cannot be read, the error of reading it is returned and the
    /// cursor stays where it is.
    pub fn try_next(&mut self) -> (answer: Result<Option<Answer<'a>>, Error>)
        ensures
            final(self).bytes() == old(self).bytes(),
            match answer {
                Ok(Some(a)) => {
                    &&& old(self).remaining() > 0
                    &&& answer_at(old(self).bytes(), old(self).cursor()) matches Ok(found)
                    &&& a.is_at(old(self).bytes(), old(self).cursor(), found)
                    &&& final(self).cursor() == found.end
                    &&& final(self).remaining() == old(self).remaining() - 1
                },
                Ok(None) => {
                    &&& old(self).remaining() <= 0
                    &&& final(self).cursor() == old(self).cursor()
                    &&& final(self).remaining() == old(self).remaining()
                },
                Err(e) => {
                    &&& old(self).remaining() > 0
                    &&& answer_at(old(self).bytes(), old(self).cursor()) matches Err(err)
                    &&& err == e
                    &&& final(self).cursor() == old(self).cursor()
                    &&& final(self).remaining() == old(self).remaining()
                },
            },
    {
        if self.current_answer >= self.answer_count {
            return Ok(None);
        }
        let mut i = self.buf_i;
        let answer = Answer::read(self.buf, &mut i)?;
        self.current_answer += 1;
        self.buf_i = i;
        Ok(Some(answer))
    }

    /// Reads the next answer and moves behind it.
    ///
    /// Returns `None`, and stays where it is, behind the last answer, and
    /// also where the next answer cannot be read; [`Answers::try_next`] tells
    /// the two apart.
    pub fn next(&mut self) -> (answer: Option<Answer<'a>>)
        ensures
            final(self).bytes() == old(self).bytes(),
            match answer {
                Some(a) => {
                    &&& old(self).remaining() > 0
                    &&& answer_at(old(self).bytes(), old(self).cursor()) matches Ok(found)
                    &&& a.is_at(old(self).bytes(), old(self).cursor(), found)
                    &&& final(self).cursor() == found.end
                    &&& final(self).remaining() == old(self).remaining() - 1
                },
                None => {
                    &&& old(self).remaining() <= 0 || answer_at(
                        old(self).bytes(),
                        old(self).cursor(),
                    ) is Err
                    &&& final(self).cursor() == old(self).cursor()
                    &&& final(self).remaining() == old(self).remaining()
                },
            },
    {
        match self.try_next() {
            Ok(answer) => answer,
            Err(_) => None,
        }
    }
}

} // verus!
