//! Questions: a name, a kind and a class.

use vstd::prelude::*;
use crate::error::Error;
use crate::name::Name;
use crate::query_class::QueryClass;
use crate::query_kind::QueryKind;
use crate::wire::{question_at, QuestionAt};

verus! {

/// A DNS question.
#[derive(Debug)]
pub struct Question<'a> {
    pub(crate) name: Name<'a>,
    pub(crate) kind: QueryKind,
    pub(crate) class: QueryClass,
}

impl<'a> Question<'a> {
    /// The name asked for.
    pub closed spec fn spec_name(&self) -> Name<'a> {
        self.name
    }

    /// The kind asked for.
    pub closed spec fn spec_kind(&self) -> QueryKind {
        self.kind
    }

    /// The class asked for.
    pub closed spec fn spec_class(&self) -> QueryClass {
        self.class
    }

    /// Whether this is the question that was read as `found` at offset `at`
    /// of `buf`.
    pub open spec fn is_at(&self, buf: Seq<u8>, at: int, found: QuestionAt) -> bool {
        &&& self.spec_name().bytes() == buf
        &&& self.spec_name().offset() == at
        &&& self.spec_name().wf()
        &&& self.spec_kind() == QueryKind::spec_from_u16(found.kind)
        &&& self.spec_class() == QueryClass::spec_from_u16(found.class)
    }

    /// Reads the question at offset `*i` of `buf` and moves `*i` behind it.
    ///
    /// The result is what [`question_at`] says. On failure `*i` is left as it
    /// was.
    pub fn read(buf: &'a [u8], i: &mut usize) -> (r: Result<Question<'a>, Error>)
        ensures
            match question_at(buf@, *old(i) as int) {
                Ok(found) => {
                    &&& r matches Ok(question)
                    &&& question.is_at(buf@, *old(i) as int, found)
                    &&& *final(i) == found.end
                },
                Err(e) => {
                    &&& r matches Err(err)
                    &&& err == e
                    &&& *final(i) == *old(i)
                },
            },
    {
        let mut j = *i;
        let name = Name::read(buf, &mut j)?;
        let kind = QueryKind::read(buf, &mut j)?;
        let class = QueryClass::read(buf, &mut j)?;
        *i = j;
        Ok(Question { name, kind, class })
    }

    /// The name asked for.
    #[inline]
    pub fn name(&self) -> (name: &Name<'a>)
        ensures
            *name == self.spec_name(),
    {
        &self.name
    }

    /// The kind asked for.
    #[inline]
    pub fn kind(&self) -> (kind: &QueryKind)
        ensures
            *kind == self.spec_kind(),
    {
        &self.kind
    }

    /// The class asked for.
    #[inline]
    pub fn class(&self) -> (class: &QueryClass)
        ensures
            *class == self.spec_class(),
    {
        &self.class
    }
}

/// A cursor over the [`Question`]s contained in a [`crate::Message`].
#[derive(Debug)]
pub struct Questions<'a> {
    pub(crate) question_count: usize,
    pub(crate) current_question: usize,
    pub(crate) buf: &'a [u8],
    pub(crate) buf_i: usize,
}

impl<'a> Questions<'a> {
    /// The bytes that the cursor reads from.
    pub closed spec fn bytes(&self) -> Seq<u8> {
        self.buf@
    }

    /// The offset of the next question.
    pub closed spec fn cursor(&self) -> int {
        self.buf_i as int
    }

    /// The number of questions that are still to come.
    pub closed spec fn remaining(&self) -> int {
        self.question_count - self.current_question
    }

    /// A cursor over `count` questions in `buf`, the first at offset `at`.
    pub fn new(buf: &'a [u8], count: usize, at: usize) -> (questions: Questions<'a>)
        ensures
            questions.bytes() == buf@,
            questions.cursor() == at,
            questions.remaining() == count,
    {
        Questions { question_count: count, current_question: 0, buf, buf_i: at }
    }

    /// Reads the next question and moves behind it.
    ///
    /// Returns `Ok(None)` behind the last question. Where a question is still
    /// to come but cannot be read, the error of reading it is returned and
    /// the cursor stays where it is.
    pub fn try_next(&mut self) -> (question: Result<Option<Question<'a>>, Error>)
        ensures
            final(self).bytes() == old(self).bytes(),
            match question {
                Ok(Some(q)) => {
                    &&& old(self).remaining() > 0
                    &&& question_at(old(self).bytes(), old(self).cursor()) matches Ok(found)
                    &&& q.is_at(old(self).bytes(), old(self).cursor(), found)
                    &&& final(self).cursor() == found.end
                    &&& final(self).remaining() == old(self).remaining() - 1
                },
                Ok(None) => {
                    &&& old(self).remaining() <= 0
                    &&& final(self).cursor() == old(self).cursor()
                    &&& final(self).remaining() == old(self).remaining()
                },
                Err(e) => {
                    &&& old(self).remaining() > 0
                    &&& question_at(old(self).bytes(), old(self).cursor()) matches Err(err)
                    &&& err == e
                    &&& final(self).cursor() == old(self).cursor()
                    &&& final(self).remaining() == old(self).remaining()
                },
            },
    {
        if self.current_question >= self.question_count {
            return Ok(None);
        }
        let mut i = self.buf_i;
        let question = Question::read(self.buf, &mut i)?;
        self.current_question += 1;
        self.buf_i = i;
        Ok(Some(question))
    }

    /// Reads the next question and moves behind it.
    ///
    /// Returns `None`, and stays where it is, behind the last question, and
    /// also where the next question cannot be read; [`Questions::try_next`]
    /// tells the two apart.
    pub fn next(&mut self) -> (question: Option<Question<'a>>)
        ensures
            final(self).bytes() == old(self).bytes(),
            match question {
                Some(q) => {
                    &&& old(self).remaining() > 0
                    &&& question_at(old(self).bytes(), old(self).cursor()) matches Ok(found)
                    &&& q.is_at(old(self).bytes(), old(self).cursor(), found)
                    &&& final(self).cursor() == found.end
                    &&& final(self).remaining() == old(self).remaining() - 1
                },
                None => {
                    &&& old(self).remaining() <= 0 || question_at(
                        old(self).bytes(),
                        old(self).cursor(),
                    ) is Err
                    &&& final(self).cursor() == old(self).cursor()
                    &&& final(self).remaining() == old(self).remaining()
                },
            },
    {
        match self.try_next() {
            Ok(question) => question,
            Err(_) => None,
        }
    }
}

} // verus!
