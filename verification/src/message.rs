//! Messages: parsing a received buffer, and building a message in a buffer
//! record by record.

use vstd::prelude::*;
use crate::answer::{Answer, Answers};
use crate::bytes::{u16_to_be, u32_to_be};
use crate::error::Error;
use crate::header::{Header, zero_header};
use crate::consistency::{
    lemma_be16_injective, lemma_be16_round_trip, lemma_empty_well_formed, lemma_with_answer_len,
    lemma_with_answer_well_formed, lemma_with_header_well_formed, lemma_with_question_len,
    lemma_with_question_well_formed,
};
use crate::lemmas::{
    lemma_answer_tail, lemma_answers_bounds, lemma_ending_in_has_label, lemma_no_pointer_for_root,
    lemma_questions_bounds, lemma_records_prefix, lemma_splice_append,
    lemma_suffix_match_compresses, lemma_with_name_len, lemma_with_name_unfold,
};
use crate::name::{Label, Name};
use crate::query_class::QueryClass;
use crate::query_kind::QueryKind;
use crate::question::{Question, Questions};
use crate::wire::{
    answer_at, answer_count, answer_tail, answers_end, answers_from, be16, be16_bytes, be32_bytes,
    consistent, depth, find_pointer, has_question_ending_in, has_question_named, HEADER_SIZE,
    kept_behind, MAX_LABEL_READS, MAX_MESSAGE_SIZE, MAX_POINTER, name_labels, names_match,
    parsed_len, pointer_bytes, pointer_in_questions, question_at, question_count, questions_end,
    questions_from, questions_ok, questions_span, records_ok, records_span, Span, splice,
    well_formed, wire_len, with_answer, with_name, with_question, with_u16,
};

verus! {

/// Helper type for constructing a buffer with the maximum UDP message size.
pub type MessageBuffer = [u8; 512];

/// Copies the header out of the first twelve bytes of `buf`.
fn read_header(buf: &[u8]) -> (header: Header)
    requires
        buf@.len() >= HEADER_SIZE,
    ensures
        header@ == buf@.take(HEADER_SIZE as int),
{
    let bytes = [
        buf[0],
        buf[1],
        buf[2],
        buf[3],
        buf[4],
        buf[5],
        buf[6],
        buf[7],
        buf[8],
        buf[9],
        buf[10],
        buf[11],
    ];
    assert(bytes@ =~= buf@.take(HEADER_SIZE as int));
    Header::from_bytes(bytes)
}

/// Copies the header into the first twelve bytes of `buf`.
fn write_header(buf: &mut [u8], header: &Header)
    requires
        old(buf)@.len() >= HEADER_SIZE,
    ensures
        final(buf)@ == header@ + old(buf)@.skip(HEADER_SIZE as int),
{
    let bytes = header.to_bytes();
    let mut i: usize = 0;
    while i < HEADER_SIZE
        invariant
            i <= HEADER_SIZE,
            buf@.len() == old(buf)@.len(),
            buf@.len() >= HEADER_SIZE,
            bytes@ == header@,
            forall|k: int| 0 <= k < i ==> buf@[k] == bytes@[k],
            forall|k: int| HEADER_SIZE <= k < buf@.len() ==> buf@[k] == old(buf)@[k],
        decreases HEADER_SIZE - i,
    {
        buf[i] = bytes[i];
        i += 1;
    }
    assert(buf@ =~= header@ + old(buf)@.skip(HEADER_SIZE as int));
}

/// Reads the questions and then the answers that the header of `buf`
/// announces, and returns the offset behind the last answer, or the first
/// error.
fn read_records(buf: &[u8]) -> (r: Result<usize, Error>)
    requires
        buf@.len() >= HEADER_SIZE,
    ensures
        match records_span(buf@) {
            Ok(span) => r == Ok::<usize, Error>(span.end as usize) && HEADER_SIZE <= span.end
                <= buf@.len(),
            Err(e) => r == Err::<usize, Error>(e),
        },
{
    let header = read_header(buf);
    let question_count = header.question_count();
    let answer_count = header.answer_count();
    let mut i: usize = HEADER_SIZE;
    proof {
        if questions_span(buf@) is Ok {
            lemma_questions_bounds(buf@, HEADER_SIZE as int, question_count as nat);
        }
    }
    let mut k: u16 = 0;
    while k < question_count
        invariant
            k <= question_count,
            question_count == crate::wire::question_count(buf@),
            match questions_from(buf@, i as int, (question_count - k) as nat) {
                Ok(s) => questions_span(buf@) matches Ok(t) && t.end == s.end,
                Err(e) => questions_span(buf@) == Err::<Span, Error>(e),
            },
        decreases question_count - k,
    {
        Question::read(buf, &mut i)?;
        k += 1;
    }
    proof {
        if records_span(buf@) is Ok {
            lemma_answers_bounds(buf@, i as int, answer_count as nat);
        }
    }
    let mut k: u16 = 0;
    while k < answer_count
        invariant
            k <= answer_count,
            answer_count == crate::wire::answer_count(buf@),
            match answers_from(buf@, i as int, (answer_count - k) as nat) {
                Ok(s) => records_span(buf@) matches Ok(t) && t.end == s.end,
                Err(e) => records_span(buf@) == Err::<Span, Error>(e),
            },
        decreases answer_count - k,
    {
        Answer::read(buf, &mut i)?;
        k += 1;
    }
    Ok(i)
}

/// A DNS message: a caller's buffer and the number of its bytes that are in
/// use.
///
/// The bytes in use are the message ([`Message::view`]); the rest of the
/// buffer is room to grow into.
#[derive(Debug)]
pub struct Message<'a> {
    buf: &'a mut [u8],
    len: usize,
}

/// Builder for [`Message`].
#[derive(Debug)]
pub struct MessageBuilder<'a> {
    buf: &'a mut [u8],
    len: usize,
}

impl View for MessageBuilder<'_> {
    type V = Seq<u8>;

    /// The bytes of the message built so far.
    closed spec fn view(&self) -> Seq<u8> {
        self.buf@.take(self.len as int)
    }
}

impl<'a> MessageBuilder<'a> {
    #[verifier::type_invariant]
    spec fn inv(self) -> bool {
        HEADER_SIZE <= self.len <= self.buf@.len()
    }

    /// The whole buffer: the bytes of the message and what stands behind
    /// them.
    pub closed spec fn buffer(&self) -> Seq<u8> {
        self.buf@
    }

    /// The size of the buffer.
    pub open spec fn capacity(&self) -> nat {
        self.buffer().len()
    }

    /// Installs `header` as the header of the message, which then holds
    /// nothing else.
    pub fn header(self, header: Header) -> (builder: MessageBuilder<'a>)
        ensures
            builder@ == header@,
            builder.buffer() == header@ + self.buffer().skip(HEADER_SIZE as int),
            builder.capacity() == self.capacity(),
            header.spec_question_count() == 0 && header.spec_answer_count() == 0 ==> well_formed(
                builder@,
            ) && depth(builder@) == 0,
    {
        proof {
            use_type_invariant(&self);
            header.lemma_len();
        }
        let MessageBuilder { buf, len } = self;
        write_header(buf, &header);
        let builder = MessageBuilder { buf, len: HEADER_SIZE };
        assert(builder@ =~= header@);
        assert(builder.buffer().len() == self.buffer().len());
        proof {
            if header.spec_question_count() == 0 && header.spec_answer_count() == 0 {
                lemma_empty_well_formed(builder@);
            }
        }
        builder
    }

    /// The message built.
    pub fn build(self) -> (message: Message<'a>)
        ensures
            message@ == self@,
            message.buffer() == self.buffer(),
    {
        proof {
            use_type_invariant(&self);
        }
        let MessageBuilder { buf, len } = self;
        Message { buf, len }
    }
}

impl View for Message<'_> {
    type V = Seq<u8>;

    /// The bytes of the message: the part of the buffer that is in use.
    closed spec fn view(&self) -> Seq<u8> {
        self.buf@.take(self.len as int)
    }
}

impl core::ops::Deref for Message<'_> {
    type Target = [u8];

    /// The bytes of the message.
    fn deref(&self) -> (bytes: &[u8])
        ensures
            bytes@ == self@,
    {
        self.as_bytes()
    }
}

impl<'a> Message<'a> {
    /// An empty buffer of the maximum message size.
    pub const BUFFER: [u8; 512] = [
        0, 0, 0, 0, 0, 0, 0, 0, 0, 0, 0, 0, 0, 0, 0, 0, 0, 0, 0, 0, 0, 0, 0, 0, 0, 0, 0, 0, 0, 0, 0, 0,
        0, 0, 0, 0, 0, 0, 0, 0, 0, 0, 0, 0, 0, 0, 0, 0, 0, 0, 0, 0, 0, 0, 0, 0, 0, 0, 0, 0, 0, 0, 0, 0,
        0, 0, 0, 0, 0, 0, 0, 0, 0, 0, 0, 0, 0, 0, 0, 0, 0, 0, 0, 0, 0, 0, 0, 0, 0, 0, 0, 0, 0, 0, 0, 0,
        0, 0, 0, 0, 0, 0, 0, 0, 0, 0, 0, 0, 0, 0, 0, 0, 0, 0, 0, 0, 0, 0, 0, 0, 0, 0, 0, 0, 0, 0, 0, 0,
        0, 0, 0, 0, 0, 0, 0, 0, 0, 0, 0, 0, 0, 0, 0, 0, 0, 0, 0, 0, 0, 0, 0, 0, 0, 0, 0, 0, 0, 0, 0, 0,
        0, 0, 0, 0, 0, 0, 0, 0, 0, 0, 0, 0, 0, 0, 0, 0, 0, 0, 0, 0, 0, 0, 0, 0, 0, 0, 0, 0, 0, 0, 0, 0,
        0, 0, 0, 0, 0, 0, 0, 0, 0, 0, 0, 0, 0, 0, 0, 0, 0, 0, 0, 0, 0, 0, 0, 0, 0, 0, 0, 0, 0, 0, 0, 0,
        0, 0, 0, 0, 0, 0, 0, 0, 0, 0, 0, 0, 0, 0, 0, 0, 0, 0, 0, 0, 0, 0, 0, 0, 0, 0, 0, 0, 0, 0, 0, 0,
        0, 0, 0, 0, 0, 0, 0, 0, 0, 0, 0, 0, 0, 0, 0, 0, 0, 0, 0, 0, 0, 0, 0, 0, 0, 0, 0, 0, 0, 0, 0, 0,
        0, 0, 0, 0, 0, 0, 0, 0, 0, 0, 0, 0, 0, 0, 0, 0, 0, 0, 0, 0, 0, 0, 0, 0, 0, 0, 0, 0, 0, 0, 0, 0,
        0, 0, 0, 0, 0, 0, 0, 0, 0, 0, 0, 0, 0, 0, 0, 0, 0, 0, 0, 0, 0, 0, 0, 0, 0, 0, 0, 0, 0, 0, 0, 0,
        0, 0, 0, 0, 0, 0, 0, 0, 0, 0, 0, 0, 0, 0, 0, 0, 0, 0, 0, 0, 0, 0, 0, 0, 0, 0, 0, 0, 0, 0, 0, 0,
        0, 0, 0, 0, 0, 0, 0, 0, 0, 0, 0, 0, 0, 0, 0, 0, 0, 0, 0, 0, 0, 0, 0, 0, 0, 0, 0, 0, 0, 0, 0, 0,
        0, 0, 0, 0, 0, 0, 0, 0, 0, 0, 0, 0, 0, 0, 0, 0, 0, 0, 0, 0, 0, 0, 0, 0, 0, 0, 0, 0, 0, 0, 0, 0,
        0, 0, 0, 0, 0, 0, 0, 0, 0, 0, 0, 0, 0, 0, 0, 0, 0, 0, 0, 0, 0, 0, 0, 0, 0, 0, 0, 0, 0, 0, 0, 0,
        0, 0, 0, 0, 0, 0, 0, 0, 0, 0, 0, 0, 0, 0, 0, 0, 0, 0, 0, 0, 0, 0, 0, 0, 0, 0, 0, 0, 0, 0, 0, 0,
    ];

    #[verifier::type_invariant]
    spec fn inv(self) -> bool {
        HEADER_SIZE <= self.len <= self.buf@.len()
    }

    /// The whole buffer: the bytes of the message and what stands behind
    /// them.
    pub closed spec fn buffer(&self) -> Seq<u8> {
        self.buf@
    }

    /// The size of the buffer, which the message cannot outgrow.
    pub open spec fn capacity(&self) -> nat {
        self.buffer().len()
    }

    /// The questions and answers that the header announces can be read and
    /// fill the message exactly.
    pub open spec fn is_consistent(&self) -> bool {
        consistent(self@)
    }

    /// The message is consistent and its names are compressed against its
    /// questions alone; see [`well_formed`].
    pub open spec fn is_well_formed(&self) -> bool {
        well_formed(self@)
    }

    /// Starts a message in `buf`: the header is set to zero and nothing
    /// follows it.
    pub fn builder(buf: &'a mut [u8]) -> (builder: MessageBuilder<'a>)
        requires
            old(buf)@.len() >= HEADER_SIZE,
        ensures
            builder@ == zero_header(),
            builder.buffer() == zero_header() + old(buf)@.skip(HEADER_SIZE as int),
    {
        let mut i: usize = 0;
        while i < HEADER_SIZE
            invariant
                i <= HEADER_SIZE,
                buf@.len() == old(buf)@.len(),
                buf@.len() >= HEADER_SIZE,
                forall|k: int| 0 <= k < i ==> buf@[k] == 0u8,
                forall|k: int| HEADER_SIZE <= k < buf@.len() ==> buf@[k] == old(buf)@[k],
            decreases HEADER_SIZE - i,
        {
            buf[i] = 0;
            i += 1;
        }
        let builder = MessageBuilder { buf, len: HEADER_SIZE };
        assert(builder@ =~= zero_header());
        assert(builder.buffer() =~= zero_header() + old(buf)@.skip(HEADER_SIZE as int));
        builder
    }

    /// Parses the message at the start of `buffer`.
    ///
    /// The result is what [`parsed_len`] says: on success the message is the
    /// prefix of the buffer that ends behind the last answer, and the whole
    /// buffer, as it is, is its room to grow into. The message is consistent
    /// wherever none of its names reads a byte behind its end;
    /// [`Message::check`] tells whether it is.
    pub fn parse(buffer: &'a mut [u8]) -> (r: Result<Message<'a>, Error>)
        ensures
            match parsed_len(old(buffer)@) {
                Ok(len) => {
                    &&& r matches Ok(message)
                    &&& message@ == old(buffer)@.take(len)
                    &&& message.buffer() == old(buffer)@
                    &&& records_span(old(buffer)@) matches Ok(span)
                    &&& span.end == len
                    &&& span.reach <= len ==> message.is_consistent()
                },
                Err(e) => r matches Err(err) && err == e && final(buffer)@ == old(buffer)@,
            },
    {
        if buffer.len() < HEADER_SIZE {
            return Err(Error::MessageTooShort);
        } else if buffer.len() > HEADER_SIZE + MAX_MESSAGE_SIZE {
            return Err(Error::MessageTooLong);
        }
        let len = read_records(&*buffer)?;
        proof {
            if records_span(buffer@).unwrap().reach <= len {
                lemma_records_prefix(buffer@);
            }
        }
        Ok(Message { buf: buffer, len })
    }

    /// Reads the questions and the answers that the header announces from the
    /// bytes of the message, and returns the offset behind the last answer,
    /// or the first error.
    ///
    /// The message is consistent where the result is its length.
    pub fn check(&self) -> (r: Result<usize, Error>)
        ensures
            match records_span(self@) {
                Ok(span) => r == Ok::<usize, Error>(span.end as usize) && HEADER_SIZE <= span.end
                    <= self@.len(),
                Err(e) => r == Err::<usize, Error>(e),
            },
            r == Ok::<usize, Error>(self@.len() as usize) <==> self.is_consistent(),
    {
        proof {
            use_type_invariant(self);
        }
        read_records(self.as_bytes())
    }

    /// A copy of the header of the message.
    pub fn header(&self) -> (header: Header)
        ensures
            header@ == self@.take(HEADER_SIZE as int),
    {
        proof {
            use_type_invariant(self);
        }
        let header = read_header(&*self.buf);
        assert(header@ =~= self@.take(HEADER_SIZE as int));
        header
    }

    /// Replaces the header of the message by `header` and leaves every other
    /// byte of the buffer as it was.
    ///
    /// It is the caller's responsibility that the numbers of questions and
    /// answers in `header` are those of the message.
    pub fn set_header(&mut self, header: Header)
        ensures
            final(self)@ == header@ + old(self)@.skip(HEADER_SIZE as int),
            kept_behind(final(self).buffer(), old(self).buffer(), final(self)@.len() as int),
            old(self).is_well_formed() && header.spec_question_count() == question_count(
                old(self)@,
            ) && header.spec_answer_count() == answer_count(old(self)@) ==> {
                &&& final(self).is_well_formed()
                &&& depth(final(self)@) == depth(old(self)@)
            },
    {
        proof {
            use_type_invariant(&*self);
            header.lemma_len();
            if well_formed(self@) && header.spec_question_count() == question_count(self@)
                && header.spec_answer_count() == answer_count(self@) {
                lemma_be16_injective(header@[4], header@[5], self@[4], self@[5]);
                lemma_be16_injective(header@[6], header@[7], self@[6], self@[7]);
                lemma_with_header_well_formed(self@, header@);
            }
        }
        let bytes = header.to_bytes();
        let mut i: usize = 0;
        while i < HEADER_SIZE
            invariant
                i <= HEADER_SIZE,
                self.len == old(self).len,
                self.buf@.len() == old(self).buf@.len(),
                HEADER_SIZE <= self.len <= self.buf@.len(),
                bytes@ == header@,
                forall|k: int| 0 <= k < i ==> self.buf@[k] == bytes@[k],
                forall|k: int|
                    HEADER_SIZE <= k < self.buf@.len() ==> self.buf@[k] == old(self).buf@[k],
            decreases HEADER_SIZE - i,
        {
            self.buf[i] = bytes[i];
            i += 1;
        }
        assert(self@ =~= header@ + old(self)@.skip(HEADER_SIZE as int));
    }

    /// The number of bytes of the message.
    pub fn len(&self) -> (len: usize)
        ensures
            len == self@.len(),
            HEADER_SIZE <= len <= self.capacity(),
            self@ == self.buffer().take(len as int),
    {
        proof {
            use_type_invariant(self);
        }
        self.len
    }

    /// The bytes of the message: the part of the buffer that is in use, and
    /// never more.
    pub fn as_bytes(&self) -> (bytes: &[u8])
        ensures
            bytes@ == self@,
    {
        proof {
            use_type_invariant(self);
        }
        let bytes = vstd::slice::slice_subrange(&*self.buf, 0, self.len);
        assert(bytes@ =~= self@);
        bytes
    }

    /// A cursor at the first question of the message.
    pub fn questions(&self) -> (questions: Questions<'_>)
        ensures
            questions.bytes() == self@,
            questions.cursor() == HEADER_SIZE,
            questions.remaining() == question_count(self@),
    {
        let header = self.header();
        proof {
            use_type_invariant(self);
            assert(header@[4] == self@[4] && header@[5] == self@[5]);
        }
        Questions::new(self.as_bytes(), header.question_count() as usize, HEADER_SIZE)
    }

    /// The offset behind the last question.
    pub fn questions_end(&self) -> (end: usize)
        requires
            questions_ok(self@),
        ensures
            end == questions_end(self@),
            HEADER_SIZE <= end <= self@.len(),
    {
        let buf = self.as_bytes();
        let count = self.header().question_count();
        let mut i: usize = HEADER_SIZE;
        let mut k: u16 = 0;
        proof {
            lemma_questions_bounds(buf@, HEADER_SIZE as int, count as nat);
        }
        while k < count
            invariant
                k <= count,
                buf@ == self@,
                questions_from(buf@, i as int, (count - k) as nat) matches Ok(s) && s.end
                    == questions_end(self@),
            decreases count - k,
        {
            Question::read(buf, &mut i).unwrap();
            k += 1;
        }
        i
    }

    /// A cursor at the first answer of the message.
    pub fn answers(&self) -> (answers: Answers<'_>)
        requires
            questions_ok(self@),
        ensures
            answers.bytes() == self@,
            answers.cursor() == questions_end(self@),
            answers.remaining() == answer_count(self@),
    {
        let header = self.header();
        proof {
            use_type_invariant(self);
            assert(header@[6] == self@[6] && header@[7] == self@[7]);
        }
        Answers::new(self.as_bytes(), header.answer_count() as usize, self.questions_end())
    }

    /// The offset behind the last answer.
    pub fn answers_end(&self) -> (end: usize)
        requires
            records_ok(self@),
        ensures
            end == answers_end(self@),
            HEADER_SIZE <= questions_end(self@) <= end <= self@.len(),
    {
        let buf = self.as_bytes();
        let count = self.header().answer_count();
        let mut i: usize = self.questions_end();
        let mut k: u16 = 0;
        proof {
            lemma_answers_bounds(buf@, i as int, count as nat);
        }
        while k < count
            invariant
                k <= count,
                buf@ == self@,
                answers_from(buf@, i as int, (count - k) as nat) matches Ok(s) && s.end
                    == answers_end(self@),
            decreases count - k,
        {
            Answer::read(buf, &mut i).unwrap();
            k += 1;
        }
        i
    }

    /// Adds a question behind the questions of the message and raises the
    /// header's number of questions by one.
    ///
    /// Answers that the message holds move back by the size of the question.
    /// The name is compressed against the names of the questions that the
    /// message holds; see [`with_name`].
    pub fn add_question(&mut self, question: &Question<'_>)
        requires
            questions_ok(old(self)@),
            question_count(old(self)@) < u16::MAX,
            with_question(
                old(self)@,
                question.spec_name()@,
                question.spec_kind().spec_to_u16(),
                question.spec_class().spec_to_u16(),
            ).len() <= old(self).capacity(),
        ensures
            final(self)@ == with_question(
                old(self)@,
                question.spec_name()@,
                question.spec_kind().spec_to_u16(),
                question.spec_class().spec_to_u16(),
            ),
            kept_behind(final(self).buffer(), old(self).buffer(), final(self)@.len() as int),
            question_count(final(self)@) == question_count(old(self)@) + 1,
            answer_count(final(self)@) == answer_count(old(self)@),
            final(self)@.len() <= old(self)@.len() + wire_len(question.spec_name()@) + 4,
            has_question_ending_in(old(self)@, question.spec_name()@) && old(self)@.len()
                <= MAX_POINTER + 1 ==> final(self)@.len() == old(self)@.len() + 6,
            old(self).is_well_formed() && question.spec_name()@.len() + 1 + depth(old(self)@)
                <= MAX_LABEL_READS ==> {
                &&& final(self).is_well_formed()
                &&& has_question_named(final(self)@, question.spec_name()@)
                &&& question_at(final(self)@, questions_end(old(self)@)) matches Ok(q)
                &&& q.kind == question.spec_kind().spec_to_u16()
                &&& q.class == question.spec_class().spec_to_u16()
                &&& q.end == questions_end(final(self)@)
                &&& names_match(
                    name_labels(final(self)@, questions_end(old(self)@)),
                    question.spec_name()@,
                )
                &&& depth(old(self)@) <= depth(final(self)@) <= question.spec_name()@.len() + 1
                    + depth(old(self)@)
            },
    {
        let ghost before = self@;
        let ghost target = question.spec_name()@;
        let name = question.name();
        proof {
            use_type_invariant(name);
            name.lemma_inv_wf();
            lemma_with_question_len(
                before,
                target,
                question.spec_kind().spec_to_u16(),
                question.spec_class().spec_to_u16(),
            );
            if has_question_ending_in(before, target) && before.len() <= MAX_POINTER + 1 {
                lemma_ending_in_has_label(before, HEADER_SIZE as int, question_count(before), target);
                lemma_questions_bounds(before, HEADER_SIZE as int, question_count(before));
                lemma_suffix_match_compresses(before, questions_end(before), target);
            }
            if well_formed(before) && target.len() + 1 + depth(before) <= MAX_LABEL_READS {
                lemma_with_question_well_formed(
                    before,
                    target,
                    question.spec_kind().spec_to_u16(),
                    question.spec_class().spec_to_u16(),
                );
            }
        }
        self.write_question(question);
    }

    /// Writes `question` behind the questions and raises their number.
    fn write_question(&mut self, question: &Question<'_>)
        requires
            questions_ok(old(self)@),
            question_count(old(self)@) < u16::MAX,
            with_question(
                old(self)@,
                question.spec_name()@,
                question.spec_kind().spec_to_u16(),
                question.spec_class().spec_to_u16(),
            ).len() <= old(self).capacity(),
        ensures
            final(self)@ == with_question(
                old(self)@,
                question.spec_name()@,
                question.spec_kind().spec_to_u16(),
                question.spec_class().spec_to_u16(),
            ),
            kept_behind(final(self).buffer(), old(self).buffer(), final(self)@.len() as int),
            question_count(final(self)@) == question_count(old(self)@) + 1,
            answer_count(final(self)@) == answer_count(old(self)@),
    {
        let ghost before = self@;
        let ghost target = question.spec_name()@;
        let mut i = self.questions_end();
        proof {
            lemma_with_name_len(before, i as int, target);
        }
        self.add_name(&mut i, question.name());
        self.add_kind(&mut i, question.kind());
        self.add_class(&mut i, question.class());
        let ghost body = self@;
        proof {
            let named = with_name(before, questions_end(before), target);
            let at = questions_end(before) + (named.len() - before.len());
            let kind = be16_bytes(question.spec_kind().spec_to_u16() as int);
            let class = be16_bytes(question.spec_class().spec_to_u16() as int);
            lemma_splice_append(named, at, kind, class);
            assert(body == splice(named, at, kind + class));
            assert(body.take(HEADER_SIZE as int) =~= named.take(questions_end(before)).take(
                HEADER_SIZE as int,
            ));
            assert(body.take(HEADER_SIZE as int) =~= before.take(HEADER_SIZE as int));
            assert(body[4] == before[4] && body[5] == before[5]);
            assert(body[6] == before[6] && body[7] == before[7]);
            lemma_be16_round_trip(question_count(before) as int + 1);
        }
        self.raise_count(4);
    }

    /// Adds an answer behind the answers of the message and raises the
    /// header's number of answers by one.
    ///
    /// The name is compressed against the names of the questions that the
    /// message holds; see [`with_name`].
    pub fn add_answer(&mut self, answer: &Answer<'_>)
        requires
            records_ok(old(self)@),
            answer_count(old(self)@) < u16::MAX,
            with_answer(
                old(self)@,
                answer.name@,
                answer.kind.spec_to_u16(),
                answer.class.spec_to_u16(),
                answer.ttl,
                answer.rdata@,
            ).len() <= old(self).capacity(),
        ensures
            final(self)@ == with_answer(
                old(self)@,
                answer.name@,
                answer.kind.spec_to_u16(),
                answer.class.spec_to_u16(),
                answer.ttl,
                answer.rdata@,
            ),
            kept_behind(final(self).buffer(), old(self).buffer(), final(self)@.len() as int),
            question_count(final(self)@) == question_count(old(self)@),
            answer_count(final(self)@) == answer_count(old(self)@) + 1,
            final(self)@.len() <= old(self)@.len() + wire_len(answer.name@) + 10
                + answer.rdata@.len(),
            has_question_ending_in(old(self)@, answer.name@) && old(self)@.len() <= MAX_POINTER
                + 1 ==> final(self)@.len() == old(self)@.len() + 12 + answer.rdata@.len(),
            old(self).is_well_formed() && answer.rdata@.len() <= u16::MAX && answer.name@.len()
                + 1 + depth(old(self)@) <= MAX_LABEL_READS ==> {
                &&& final(self).is_well_formed()
                &&& depth(final(self)@) == depth(old(self)@)
                &&& answer_at(final(self)@, old(self)@.len() as int) matches Ok(a)
                &&& a.kind == answer.kind.spec_to_u16()
                &&& a.class == answer.class.spec_to_u16()
                &&& a.ttl == answer.ttl
                &&& a.end == final(self)@.len()
                &&& final(self)@.subrange(a.rdata_at, a.end) == answer.rdata@
                &&& names_match(name_labels(final(self)@, old(self)@.len() as int), answer.name@)
            },
    {
        let ghost before = self@;
        let ghost target = answer.name@;
        proof {
            use_type_invariant(&answer.name);
            answer.name.lemma_inv_wf();
            lemma_with_answer_len(
                before,
                target,
                answer.kind.spec_to_u16(),
                answer.class.spec_to_u16(),
                answer.ttl,
                answer.rdata@,
            );
            if has_question_ending_in(before, target) && before.len() <= MAX_POINTER + 1 {
                lemma_ending_in_has_label(before, HEADER_SIZE as int, question_count(before), target);
                lemma_questions_bounds(before, HEADER_SIZE as int, question_count(before));
                lemma_answers_bounds(before, questions_end(before), answer_count(before));
                lemma_suffix_match_compresses(before, answers_end(before), target);
            }
            if well_formed(before) && answer.rdata@.len() <= u16::MAX && target.len() + 1
                + depth(before) <= MAX_LABEL_READS {
                lemma_with_answer_well_formed(
                    before,
                    target,
                    answer.kind.spec_to_u16(),
                    answer.class.spec_to_u16(),
                    answer.ttl,
                    answer.rdata@,
                );
            }
        }
        self.write_answer(answer);
    }

    /// Writes `answer` behind the answers and raises their number.
    fn write_answer(&mut self, answer: &Answer<'_>)
        requires
            records_ok(old(self)@),
            answer_count(old(self)@) < u16::MAX,
            with_answer(
                old(self)@,
                answer.name@,
                answer.kind.spec_to_u16(),
                answer.class.spec_to_u16(),
                answer.ttl,
                answer.rdata@,
            ).len() <= old(self).capacity(),
        ensures
            final(self)@ == with_answer(
                old(self)@,
                answer.name@,
                answer.kind.spec_to_u16(),
                answer.class.spec_to_u16(),
                answer.ttl,
                answer.rdata@,
            ),
            kept_behind(final(self).buffer(), old(self).buffer(), final(self)@.len() as int),
            question_count(final(self)@) == question_count(old(self)@),
            answer_count(final(self)@) == answer_count(old(self)@) + 1,
    {
        let ghost before = self@;
        let ghost target = answer.name@;
        let mut i = self.answers_end();
        proof {
            lemma_with_name_len(before, i as int, target);
        }
        self.add_name(&mut i, &answer.name);
        let ghost named = self@;
        self.add_tail(&mut i, answer);
        proof {
            assert(self@.take(HEADER_SIZE as int) =~= named.take(answers_end(before)).take(
                HEADER_SIZE as int,
            ));
            assert(self@.take(HEADER_SIZE as int) =~= before.take(HEADER_SIZE as int));
            assert(self@[6] == before[6] && self@[7] == before[7]);
            assert(self@[4] == before[4] && self@[5] == before[5]);
            lemma_be16_round_trip(answer_count(before) as int + 1);
        }
        self.raise_count(6);
    }

    /// Writes the fields of `answer` behind its name at offset `*i`.
    fn add_tail(&mut self, i: &mut usize, answer: &Answer<'_>)
        requires
            *old(i) <= old(self)@.len(),
            old(self)@.len() + 10 + answer.rdata@.len() <= old(self).capacity(),
        ensures
            final(self)@ == splice(
                old(self)@,
                *old(i) as int,
                answer_tail(
                    answer.kind.spec_to_u16(),
                    answer.class.spec_to_u16(),
                    answer.ttl,
                    answer.rdata@,
                ),
            ),
            kept_behind(final(self).buffer(), old(self).buffer(), final(self)@.len() as int),
    {
        proof {
            lemma_answer_tail(
                self@,
                *i as int,
                answer.kind.spec_to_u16(),
                answer.class.spec_to_u16(),
                answer.ttl,
                answer.rdata@,
            );
        }
        self.add_kind(i, &answer.kind);
        self.add_class(i, &answer.class);
        self.add_ttl(i, answer.ttl);
        self.add_rdata(i, answer.rdata);
    }

    /// Raises the number at offset `at` of the header, which is 4 for the
    /// questions and 6 for the answers, by one.
    fn raise_count(&mut self, at: usize)
        requires
            at == 4 || at == 6,
            be16(old(self)@[at as int], old(self)@[at + 1]) < u16::MAX,
        ensures
            final(self)@ == with_u16(
                old(self)@,
                at as int,
                be16(old(self)@[at as int], old(self)@[at + 1]) + 1,
            ),
            kept_behind(final(self).buffer(), old(self).buffer(), final(self)@.len() as int),
    {
        let mut header = self.header();
        proof {
            use_type_invariant(&*self);
            header.lemma_len();
            assert(header@[4] == self@[4] && header@[5] == self@[5]);
            assert(header@[6] == self@[6] && header@[7] == self@[7]);
        }
        if at == 4 {
            header.set_question_count(header.question_count() + 1);
        } else {
            header.set_answer_count(header.answer_count() + 1);
        }
        let ghost body = self@;
        self.set_header(header);
        assert(self@ =~= with_u16(body, at as int, be16(body[at as int], body[at + 1]) + 1));
    }

    /// Looks among the names of the questions for a place to which a pointer
    /// can refer in place of `name`.
    fn find_pointer(&self, name: &Name<'_>) -> (pointer: Option<[u8; 2]>)
        ensures
            match find_pointer(self@, name@) {
                Some(target) => pointer matches Some(bytes) && bytes@ == pointer_bytes(target),
                None => pointer is None,
            },
    {
        let mut questions = self.questions();
        loop
            invariant
                questions.bytes() == self@,
                questions.remaining() >= 0,
                find_pointer(self@, name@) == pointer_in_questions(
                    self@,
                    questions.cursor(),
                    questions.remaining() as nat,
                    name@,
                ),
            decreases questions.remaining(),
        {
            match questions.next() {
                Some(question) => {
                    let found = question.name().create_pointer(name);
                    if found.is_some() {
                        return found;
                    }
                },
                None => {
                    return None;
                },
            }
        }
    }

    /// Writes a pointer in place of `name` at offset `*i`, where there is a
    /// place among the names of the questions that it can refer to.
    fn add_pointer(&mut self, i: &mut usize, name: &Name<'_>) -> (added: bool)
        requires
            *old(i) <= old(self)@.len(),
            find_pointer(old(self)@, name@) is Some ==> old(self)@.len() + 2 <= old(
                self,
            ).capacity(),
        ensures
            kept_behind(final(self).buffer(), old(self).buffer(), final(self)@.len() as int),
            match find_pointer(old(self)@, name@) {
                Some(target) => {
                    &&& added
                    &&& final(self)@ == splice(old(self)@, *old(i) as int, pointer_bytes(target))
                    &&& *final(i) == *old(i) + 2
                },
                None => {
                    &&& !added
                    &&& final(self)@ == old(self)@
                    &&& *final(i) == *old(i)
                },
            },
    {
        match self.find_pointer(name) {
            Some(pointer) => {
                self.insert(i, pointer.as_slice());
                true
            },
            None => false,
        }
    }

    /// Writes `name` at offset `*i` and moves `*i` behind it.
    fn add_name(&mut self, i: &mut usize, name: &Name<'_>)
        requires
            *old(i) <= old(self)@.len(),
            with_name(old(self)@, *old(i) as int, name@).len() <= old(self).capacity(),
        ensures
            final(self)@ == with_name(old(self)@, *old(i) as int, name@),
            kept_behind(final(self).buffer(), old(self).buffer(), final(self)@.len() as int),
            *final(i) == *old(i) + (final(self)@.len() - old(self)@.len()),
            *final(i) <= final(self)@.len(),
    {
        let ghost goal = with_name(old(self)@, *old(i) as int, name@);
        let ghost start = old(self)@.len() - *old(i);
        proof {
            lemma_with_name_len(self@, *i as int, name@);
            lemma_with_name_unfold(self@, *i as int, name@);
        }
        if self.add_pointer(i, name) {
            return ;
        }
        let mut rest: Name<'_> = *name;
        loop
            invariant
                *i <= self@.len(),
                self@.len() - *i == start,
                start == old(self)@.len() - *old(i),
                goal == with_name(old(self)@, *old(i) as int, name@),
                kept_behind(self.buffer(), old(self).buffer(), self@.len() as int),
                goal.len() <= self.capacity(),
                find_pointer(self@, rest@) is None,
                goal == with_name(self@, *i as int, rest@),
            decreases rest@.len(),
        {
            proof {
                lemma_with_name_len(self@, *i as int, rest@);
                lemma_with_name_unfold(self@, *i as int, rest@);
            }
            if rest.is_root() {
                self.add_end(i);
                return ;
            }
            let (label, tail) = rest.split();
            proof {
                let grown = splice(self@, *i as int, seq![rest@[0].len() as u8] + rest@[0]);
                lemma_with_name_len(grown, *i + 1 + rest@[0].len(), rest@.skip(1));
                lemma_with_name_unfold(grown, *i + 1 + rest@[0].len(), rest@.skip(1));
            }
            self.add_label(i, &label);
            match tail {
                Some(tail) => {
                    if self.add_pointer(i, &tail) {
                        return ;
                    }
                    rest = tail;
                },
                None => {
                    proof {
                        assert(rest@.skip(1) =~= Seq::<Seq<u8>>::empty());
                        lemma_no_pointer_for_root(self@);
                    }
                    self.add_end(i);
                    return ;
                },
            }
        }
    }

    /// Writes `label` at offset `*i`, its length byte first.
    fn add_label(&mut self, i: &mut usize, label: &Label<'_>)
        requires
            *old(i) <= old(self)@.len(),
            old(self)@.len() + 1 + label@.len() <= old(self).capacity(),
        ensures
            final(self)@ == splice(
                old(self)@,
                *old(i) as int,
                seq![label@.len() as u8] + label@,
            ),
            kept_behind(final(self).buffer(), old(self).buffer(), final(self)@.len() as int),
            *final(i) == *old(i) + 1 + label@.len(),
    {
        let length = [label.len() as u8];
        assert(length@ =~= seq![label@.len() as u8]);
        proof {
            lemma_splice_append(self@, *i as int, length@, label@);
        }
        self.insert(i, length.as_slice());
        self.insert(i, label.as_bytes());
    }

    /// Writes the zero byte that ends a name at offset `*i`.
    fn add_end(&mut self, i: &mut usize)
        requires
            *old(i) <= old(self)@.len(),
            old(self)@.len() + 1 <= old(self).capacity(),
        ensures
            final(self)@ == splice(old(self)@, *old(i) as int, seq![0u8]),
            kept_behind(final(self).buffer(), old(self).buffer(), final(self)@.len() as int),
            *final(i) == *old(i) + 1,
    {
        let zero = [0u8];
        assert(zero@ =~= seq![0u8]);
        self.insert(i, zero.as_slice());
    }

    /// Writes the two bytes of `kind` at offset `*i`.
    fn add_kind(&mut self, i: &mut usize, kind: &QueryKind)
        requires
            *old(i) <= old(self)@.len(),
            old(self)@.len() + 2 <= old(self).capacity(),
        ensures
            final(self)@ == splice(
                old(self)@,
                *old(i) as int,
                be16_bytes(kind.spec_to_u16() as int),
            ),
            kept_behind(final(self).buffer(), old(self).buffer(), final(self)@.len() as int),
            *final(i) == *old(i) + 2,
    {
        let bytes = kind.to_be_bytes();
        self.insert(i, bytes.as_slice());
    }

    /// Writes the two bytes of `class` at offset `*i`.
    fn add_class(&mut self, i: &mut usize, class: &QueryClass)
        requires
            *old(i) <= old(self)@.len(),
            old(self)@.len() + 2 <= old(self).capacity(),
        ensures
            final(self)@ == splice(
                old(self)@,
                *old(i) as int,
                be16_bytes(class.spec_to_u16() as int),
            ),
            kept_behind(final(self).buffer(), old(self).buffer(), final(self)@.len() as int),
            *final(i) == *old(i) + 2,
    {
        let bytes = class.to_be_bytes();
        self.insert(i, bytes.as_slice());
    }

    /// Writes the four bytes of `ttl` at offset `*i`.
    fn add_ttl(&mut self, i: &mut usize, ttl: u32)
        requires
            *old(i) <= old(self)@.len(),
            old(self)@.len() + 4 <= old(self).capacity(),
        ensures
            final(self)@ == splice(old(self)@, *old(i) as int, be32_bytes(ttl as int)),
            kept_behind(final(self).buffer(), old(self).buffer(), final(self)@.len() as int),
            *final(i) == *old(i) + 4,
    {
        let bytes = u32_to_be(ttl);
        self.insert(i, bytes.as_slice());
    }

    /// Writes the two bytes of the length of `data`, and `data` behind them,
    /// at offset `*i`.
    fn add_rdata(&mut self, i: &mut usize, data: &[u8])
        requires
            *old(i) <= old(self)@.len(),
            old(self)@.len() + 2 + data@.len() <= old(self).capacity(),
        ensures
            final(self)@ == splice(
                splice(old(self)@, *old(i) as int, be16_bytes(data@.len() as int % 65536)),
                *old(i) + 2,
                data@,
            ),
            kept_behind(final(self).buffer(), old(self).buffer(), final(self)@.len() as int),
            *final(i) == *old(i) + 2 + data@.len(),
    {
        let bytes = u16_to_be((data.len() % 65536) as u16);
        self.insert(i, bytes.as_slice());
        self.insert(i, data);
    }

    /// Inserts `bytes` at offset `*i`: the bytes of the message from there on
    /// move back to make room. `*i` is moved behind what was inserted.
    fn insert(&mut self, i: &mut usize, bytes: &[u8])
        requires
            *old(i) <= old(self)@.len(),
            old(self)@.len() + bytes@.len() <= old(self).capacity(),
        ensures
            final(self)@ == splice(old(self)@, *old(i) as int, bytes@),
            kept_behind(final(self).buffer(), old(self).buffer(), final(self)@.len() as int),
            *final(i) == *old(i) + bytes@.len(),
    {
        proof {
            use_type_invariant(&*self);
        }
        let len = bytes.len();
        let at = *i;
        let end = self.len;
        let size = self.buf.len();
        let mut j: usize = end;
        while j > at
            invariant
                size == self.buf@.len(),
                at <= j <= end,
                end == self.len,
                HEADER_SIZE <= self.len,
                self.len == old(self).len,
                self.buf@.len() == old(self).buf@.len(),
                end + len <= self.buf@.len(),
                forall|k: int| 0 <= k < j ==> self.buf@[k] == old(self).buf@[k],
                forall|k: int| j <= k < end ==> self.buf@[k + len] == old(self).buf@[k],
                forall|k: int|
                    end + len <= k < self.buf@.len() ==> self.buf@[k] == old(self).buf@[k],
            decreases j,
        {
            j -= 1;
            let byte = self.buf[j];
            self.buf[j + len] = byte;
        }
        let mut k: usize = 0;
        while k < len
            invariant
                size == self.buf@.len(),
                k <= len,
                len == bytes@.len(),
                end == self.len,
                HEADER_SIZE <= self.len,
                self.len == old(self).len,
                self.buf@.len() == old(self).buf@.len(),
                at <= end,
                end + len <= self.buf@.len(),
                forall|m: int| 0 <= m < at ==> self.buf@[m] == old(self).buf@[m],
                forall|m: int| 0 <= m < k ==> self.buf@[at + m] == bytes@[m],
                forall|m: int| at <= m < end ==> self.buf@[m + len] == old(self).buf@[m],
                forall|m: int|
                    end + len <= m < self.buf@.len() ==> self.buf@[m] == old(self).buf@[m],
            decreases len - k,
        {
            self.buf[at + k] = bytes[k];
            k += 1;
        }
        self.len = end + len;
        *i = at + len;
        assert(self@ =~= splice(old(self)@, at as int, bytes@));
    }
}

} // verus!
