//! The byte-level model of the wire format.
//!
//! Everything here is a definition over `Seq<u8>`: what a label, a name, a
//! question or an answer *is* at some offset of a buffer, and what a message
//! becomes when a record is added to it. The executable code in the other
//! modules is proved against these definitions.

use vstd::prelude::*;
use crate::error::Error;

verus! {

/// Size of the fixed message header in bytes.
pub const HEADER_SIZE: usize = 12;

/// Largest message body that [`crate::Message::parse`] accepts.
pub const MAX_MESSAGE_SIZE: usize = 512 - HEADER_SIZE;

/// Upper bound on the summed label lengths of one name.
pub const MAX_NAME_LEN: usize = 255;

/// Upper bound on the number of labels, pointers and terminators that the
/// decoding of one name may read.
pub const MAX_LABEL_READS: usize = 128;

/// Largest offset that a compression pointer can express (14 bits).
pub const MAX_POINTER: usize = 0x3FFF;

/// The two top bits that mark a compression pointer.
pub const PTR_MASK: u8 = 0xC0;

/// The six low bits that hold a label length.
pub const LEN_MASK: u8 = 0x3F;

/// The number that two bytes denote in network byte order.
pub open spec fn be16(hi: u8, lo: u8) -> int {
    hi as int * 256 + lo as int
}

/// The number that four bytes denote in network byte order.
pub open spec fn be32(b0: u8, b1: u8, b2: u8, b3: u8) -> int {
    ((b0 as int * 256 + b1 as int) * 256 + b2 as int) * 256 + b3 as int
}

/// The 16-bit number at offset `i`, where two bytes are left to read.
pub open spec fn u16_at(buf: Seq<u8>, i: int) -> Result<int, Error> {
    if 0 <= i && i + 2 <= buf.len() {
        Ok(be16(buf[i], buf[i + 1]))
    } else {
        Err(Error::MessageTooShort)
    }
}

/// The 32-bit number at offset `i`, where four bytes are left to read.
pub open spec fn u32_at(buf: Seq<u8>, i: int) -> Result<int, Error> {
    if 0 <= i && i + 4 <= buf.len() {
        Ok(be32(buf[i], buf[i + 1], buf[i + 2], buf[i + 3]))
    } else {
        Err(Error::MessageTooShort)
    }
}

/// The two bytes that encode `v` in network byte order.
pub open spec fn be16_bytes(v: int) -> Seq<u8> {
    seq![((v / 256) % 256) as u8, (v % 256) as u8]
}

/// The four bytes that encode `v` in network byte order.
pub open spec fn be32_bytes(v: int) -> Seq<u8> {
    seq![
        ((v / 16777216) % 256) as u8,
        ((v / 65536) % 256) as u8,
        ((v / 256) % 256) as u8,
        (v % 256) as u8,
    ]
}

/// What one length byte of a name announces.
#[derive(Debug, Clone, Copy, PartialEq, Eq, Structural)]
pub enum LabelType {
    /// A compression pointer to the given offset of the message.
    Pointer(u16),
    /// A label of the given length (1 to 63), whose bytes follow.
    Part(u8),
    /// The zero byte that terminates a name.
    End,
}

/// The label announced at offset `i`, if one can be read there.
///
/// A byte of 192 or more (both top bits set) starts a pointer, whose 14-bit
/// target is completed by the next byte; a byte below 64 (both top bits clear)
/// is a length, zero being the terminator. Nothing can be read outside the
/// buffer, from a pointer cut off after its first byte, or from a byte with
/// exactly one of the top bits set.
pub open spec fn label_at(buf: Seq<u8>, i: int) -> Option<LabelType> {
    if i < 0 || i >= buf.len() {
        None
    } else if buf[i] >= 0xC0 {
        if i + 1 < buf.len() {
            Some(LabelType::Pointer(be16((buf[i] - 0xC0) as u8, buf[i + 1]) as u16))
        } else {
            None
        }
    } else if buf[i] >= 0x40 {
        None
    } else if buf[i] == 0 {
        Some(LabelType::End)
    } else {
        Some(LabelType::Part(buf[i]))
    }
}

/// The bytes of the label whose length byte is at `at`.
pub open spec fn label_bytes(buf: Seq<u8>, at: int) -> Seq<u8> {
    buf.subrange(at + 1, at + 1 + buf[at] as int)
}

/// The larger of two numbers.
pub open spec fn max_int(a: int, b: int) -> int {
    if a >= b {
        a
    } else {
        b
    }
}

/// What decoding a name yields.
pub struct Decoded {
    /// Every offset at which a label, pointer or terminator was read, in order.
    pub visited: Seq<int>,
    /// The offsets of the length bytes of the name's labels, in order.
    pub labels: Seq<int>,
    /// The offset just behind the name in its record: behind its terminator,
    /// or behind its first pointer.
    pub end: int,
    /// One more than the highest offset that the decoding depends on.
    pub reach: int,
}

/// Decodes the rest of a name from offset `pos`.
///
/// `limit` is the bound that the next pointer target must stay below, `budget`
/// the label bytes that the name may still grow by, and `fuel` the reads that
/// are left.
pub open spec fn decode_from(buf: Seq<u8>, pos: int, limit: int, budget: int, fuel: nat) -> Result<
    Decoded,
    Error,
>
    decreases fuel,
{
    if fuel == 0 {
        Err(Error::NameTooLong)
    } else {
        match label_at(buf, pos) {
            None => Err(Error::MessageTooShort),
            Some(LabelType::End) => Ok(
                Decoded { visited: seq![pos], labels: seq![], end: pos + 1, reach: pos + 1 },
            ),
            Some(LabelType::Part(n)) => {
                if n > budget {
                    Err(Error::NameTooLong)
                } else if pos + 1 + n >= buf.len() {
                    Err(Error::MessageTooShort)
                } else {
                    match decode_from(buf, pos + 1 + n, limit, budget - n, (fuel - 1) as nat) {
                        Err(e) => Err(e),
                        Ok(rest) => Ok(
                            Decoded {
                                visited: seq![pos] + rest.visited,
                                labels: seq![pos] + rest.labels,
                                end: rest.end,
                                reach: rest.reach,
                            },
                        ),
                    }
                }
            },
            Some(LabelType::Pointer(target)) => {
                if target >= limit {
                    Err(Error::Pointer)
                } else {
                    match decode_from(buf, target as int, target as int, budget, (fuel - 1) as nat) {
                        Err(e) => Err(e),
                        Ok(rest) => Ok(
                            Decoded {
                                visited: seq![pos] + rest.visited,
                                labels: rest.labels,
                                end: pos + 2,
                                reach: max_int(pos + 2, rest.reach),
                            },
                        ),
                    }
                }
            },
        }
    }
}

/// Decodes the name that starts at offset `start`.
///
/// The name is followed label by label. A pointer is followed only to an
/// offset strictly below the start of the run of labels that holds it, so the
/// starts of the runs decrease strictly. The decoding fails with
/// `MessageTooShort` where nothing can be read, with `Pointer` where a pointer
/// does not go strictly backwards, and with `NameTooLong` where the labels sum
/// to more than [`MAX_NAME_LEN`] bytes or more than [`MAX_LABEL_READS`] reads
/// are needed.
pub open spec fn decode_name(buf: Seq<u8>, start: int) -> Result<Decoded, Error> {
    decode_from(buf, start, start, MAX_NAME_LEN as int, MAX_LABEL_READS as nat)
}

/// The labels of a name as byte strings.
pub open spec fn labels_of(buf: Seq<u8>, offsets: Seq<int>) -> Seq<Seq<u8>> {
    Seq::new(offsets.len(), |k: int| label_bytes(buf, offsets[k]))
}

/// The labels of the name that starts at `start`, where it decodes.
pub open spec fn name_labels(buf: Seq<u8>, start: int) -> Seq<Seq<u8>> {
    match decode_name(buf, start) {
        Ok(d) => labels_of(buf, d.labels),
        Err(_) => seq![],
    }
}


/// A byte with an ASCII upper-case letter turned into its lower-case form.
pub open spec fn ascii_lower(c: u8) -> u8 {
    if 65 <= c <= 90 {
        (c + 32) as u8
    } else {
        c
    }
}

/// Whether two byte strings are equal up to the case of ASCII letters.
pub open spec fn eq_ignore_case(a: Seq<u8>, b: Seq<u8>) -> bool {
    &&& a.len() == b.len()
    &&& forall|i: int| 0 <= i < a.len() ==> ascii_lower(#[trigger] a[i]) == ascii_lower(b[i])
}

/// Whether two names have the same labels up to the case of ASCII letters.
pub open spec fn names_match(a: Seq<Seq<u8>>, b: Seq<Seq<u8>>) -> bool {
    &&& a.len() == b.len()
    &&& forall|k: int| 0 <= k < a.len() ==> eq_ignore_case(#[trigger] a[k], b[k])
}

/// The two bytes of a compression pointer to `target`.
pub open spec fn pointer_bytes(target: int) -> Seq<u8> {
    seq![(0xC0 + target / 256) as u8, (target % 256) as u8]
}

/// Searches the label boundaries of a name for a suffix that matches `target`.
///
/// `boundary` is the offset at which the first of `labels` is announced (the
/// offset of its length byte, or of the pointer that leads to it). The first
/// boundary wins whose offset a pointer can express and behind which the
/// remaining labels match `target` label for label.
pub open spec fn pointer_among(
    buf: Seq<u8>,
    boundary: int,
    labels: Seq<int>,
    target: Seq<Seq<u8>>,
) -> Option<int>
    decreases labels.len(),
{
    if labels.len() == 0 {
        None
    } else if boundary <= MAX_POINTER && names_match(labels_of(buf, labels), target) {
        Some(boundary)
    } else {
        pointer_among(buf, labels[0] + 1 + buf[labels[0]] as int, labels.skip(1), target)
    }
}

/// The offset inside the name at `start` to which a pointer can refer in
/// place of `target`, if there is one.
pub open spec fn name_pointer(buf: Seq<u8>, start: int, target: Seq<Seq<u8>>) -> Option<int> {
    match decode_name(buf, start) {
        Ok(d) => pointer_among(buf, start, d.labels, target),
        Err(_) => None,
    }
}


/// The dotted form of a name: its labels joined by `.`.
pub open spec fn dotted(labels: Seq<Seq<u8>>) -> Seq<u8>
    decreases labels.len(),
{
    if labels.len() == 0 {
        seq![]
    } else if labels.len() == 1 {
        labels[0]
    } else {
        dotted(labels.drop_last()) + seq![46u8] + labels.last()
    }
}


/// What reading a question yields, besides its name.
pub struct QuestionAt {
    /// The number of the question's kind.
    pub kind: u16,
    /// The number of the question's class.
    pub class: u16,
    /// The offset just behind the question.
    pub end: int,
    /// One more than the highest offset that the question depends on.
    pub reach: int,
}

/// Reads the question at offset `i`: a name, two bytes of kind and two bytes
/// of class.
pub open spec fn question_at(buf: Seq<u8>, i: int) -> Result<QuestionAt, Error> {
    match decode_name(buf, i) {
        Err(e) => Err(e),
        Ok(name) => match u16_at(buf, name.end) {
            Err(e) => Err(e),
            Ok(kind) => match u16_at(buf, name.end + 2) {
                Err(e) => Err(e),
                Ok(class) => Ok(
                    QuestionAt {
                        kind: kind as u16,
                        class: class as u16,
                        end: name.end + 4,
                        reach: max_int(name.reach, name.end + 4),
                    },
                ),
            },
        },
    }
}

/// What reading an answer yields, besides its name.
pub struct AnswerAt {
    /// The number of the record's kind.
    pub kind: u16,
    /// The number of the record's class.
    pub class: u16,
    /// The time to live.
    pub ttl: u32,
    /// The offset of the first byte of the record's data.
    pub rdata_at: int,
    /// The number of bytes of the record's data.
    pub rdata_len: int,
    /// The offset just behind the answer.
    pub end: int,
    /// One more than the highest offset that the answer depends on.
    pub reach: int,
}

/// Reads the answer at offset `i`: a name, two bytes of kind, two bytes of
/// class, four bytes of time to live, two bytes of length and that many bytes
/// of data.
pub open spec fn answer_at(buf: Seq<u8>, i: int) -> Result<AnswerAt, Error> {
    match decode_name(buf, i) {
        Err(e) => Err(e),
        Ok(name) => match u16_at(buf, name.end) {
            Err(e) => Err(e),
            Ok(kind) => match u16_at(buf, name.end + 2) {
                Err(e) => Err(e),
                Ok(class) => match u32_at(buf, name.end + 4) {
                    Err(e) => Err(e),
                    Ok(ttl) => match u16_at(buf, name.end + 8) {
                        Err(e) => Err(e),
                        Ok(len) => if name.end + 10 + len <= buf.len() {
                            Ok(
                                AnswerAt {
                                    kind: kind as u16,
                                    class: class as u16,
                                    ttl: ttl as u32,
                                    rdata_at: name.end + 10,
                                    rdata_len: len,
                                    end: name.end + 10 + len,
                                    reach: max_int(name.reach, name.end + 10 + len),
                                },
                            )
                        } else {
                            Err(Error::MessageTooShort)
                        },
                    },
                },
            },
        },
    }
}


/// Where a run of records ends, and how far it reaches.
pub struct Span {
    /// The offset just behind the last record.
    pub end: int,
    /// One more than the highest offset that the records depend on.
    pub reach: int,
}

/// Reads `n` questions in a row, the first at offset `i`.
pub open spec fn questions_from(buf: Seq<u8>, i: int, n: nat) -> Result<Span, Error>
    decreases n,
{
    if n == 0 {
        Ok(Span { end: i, reach: i })
    } else {
        match question_at(buf, i) {
            Err(e) => Err(e),
            Ok(q) => match questions_from(buf, q.end, (n - 1) as nat) {
                Err(e) => Err(e),
                Ok(rest) => Ok(Span { end: rest.end, reach: max_int(q.reach, rest.reach) }),
            },
        }
    }
}

/// Reads `n` answers in a row, the first at offset `i`.
pub open spec fn answers_from(buf: Seq<u8>, i: int, n: nat) -> Result<Span, Error>
    decreases n,
{
    if n == 0 {
        Ok(Span { end: i, reach: i })
    } else {
        match answer_at(buf, i) {
            Err(e) => Err(e),
            Ok(a) => match answers_from(buf, a.end, (n - 1) as nat) {
                Err(e) => Err(e),
                Ok(rest) => Ok(Span { end: rest.end, reach: max_int(a.reach, rest.reach) }),
            },
        }
    }
}

/// The number of questions that the header announces.
pub open spec fn question_count(msg: Seq<u8>) -> nat {
    be16(msg[4], msg[5]) as nat
}

/// The number of answers that the header announces.
pub open spec fn answer_count(msg: Seq<u8>) -> nat {
    be16(msg[6], msg[7]) as nat
}

/// Reads the questions that the header announces, from behind the header.
pub open spec fn questions_span(msg: Seq<u8>) -> Result<Span, Error> {
    questions_from(msg, HEADER_SIZE as int, question_count(msg))
}

/// Reads the questions and then the answers that the header announces.
pub open spec fn records_span(msg: Seq<u8>) -> Result<Span, Error> {
    match questions_span(msg) {
        Err(e) => Err(e),
        Ok(q) => match answers_from(msg, q.end, answer_count(msg)) {
            Err(e) => Err(e),
            Ok(a) => Ok(Span { end: a.end, reach: max_int(q.reach, a.reach) }),
        },
    }
}

/// The offset behind the last question, where the questions can be read.
pub open spec fn questions_end(msg: Seq<u8>) -> int {
    match questions_span(msg) {
        Ok(s) => s.end,
        Err(_) => HEADER_SIZE as int,
    }
}

/// The offset behind the last answer, where the records can be read.
pub open spec fn answers_end(msg: Seq<u8>) -> int {
    match records_span(msg) {
        Ok(s) => s.end,
        Err(_) => HEADER_SIZE as int,
    }
}

/// The questions that the header announces can be read.
pub open spec fn questions_ok(msg: Seq<u8>) -> bool {
    &&& msg.len() >= HEADER_SIZE
    &&& questions_span(msg) is Ok
}

/// A message is consistent where the questions and answers that its header
/// announces can be read, one after the other, and fill it exactly.
pub open spec fn consistent(msg: Seq<u8>) -> bool {
    &&& msg.len() >= HEADER_SIZE
    &&& records_span(msg) matches Ok(s)
    &&& s.end == msg.len()
}

/// The length of the message at the start of a received buffer.
///
/// A buffer shorter than a header is too short and one longer than a header
/// and [`MAX_MESSAGE_SIZE`] bytes is too long. Otherwise the questions and
/// the answers that the header announces are read; the first failure among
/// them is the result. The message ends behind the last answer.
pub open spec fn parsed_len(buf: Seq<u8>) -> Result<int, Error> {
    if buf.len() < HEADER_SIZE {
        Err(Error::MessageTooShort)
    } else if buf.len() > HEADER_SIZE + MAX_MESSAGE_SIZE {
        Err(Error::MessageTooLong)
    } else {
        match records_span(buf) {
            Err(e) => Err(e),
            Ok(s) => Ok(s.end),
        }
    }
}

/// Whether a buffer has kept its size and, from offset `from` on, its bytes.
pub open spec fn kept_behind(now: Seq<u8>, before: Seq<u8>, from: int) -> bool {
    &&& now.len() == before.len()
    &&& forall|k: int| from <= k < now.len() ==> #[trigger] now[k] == before[k]
}

/// `msg` with `bytes` inserted at offset `at`.
pub open spec fn splice(msg: Seq<u8>, at: int, bytes: Seq<u8>) -> Seq<u8> {
    msg.take(at) + bytes + msg.skip(at)
}

/// `msg` with the 16-bit number at offset `at` replaced by `v`.
pub open spec fn with_u16(msg: Seq<u8>, at: int, v: int) -> Seq<u8> {
    msg.update(at, be16_bytes(v)[0]).update(at + 1, be16_bytes(v)[1])
}

/// Searches `n` questions in a row, the first at offset `i`, for a place to
/// which a pointer can refer in place of `target`.
///
/// The questions are tried in order, and the search ends at a question that
/// cannot be read.
pub open spec fn pointer_in_questions(buf: Seq<u8>, i: int, n: nat, target: Seq<Seq<u8>>) -> Option<
    int,
>
    decreases n,
{
    if n == 0 {
        None
    } else {
        match question_at(buf, i) {
            Err(_) => None,
            Ok(q) => match name_pointer(buf, i, target) {
                Some(p) => Some(p),
                None => pointer_in_questions(buf, q.end, (n - 1) as nat, target),
            },
        }
    }
}

/// The offset among the names of the message's questions to which a pointer
/// can refer in place of `target`, if there is one.
pub open spec fn find_pointer(msg: Seq<u8>, target: Seq<Seq<u8>>) -> Option<int> {
    pointer_in_questions(msg, HEADER_SIZE as int, question_count(msg), target)
}

/// `msg` with the name `target` written at offset `at`.
///
/// Where a pointer can stand for the whole of what is left of the name, its
/// two bytes are written and the name is done. Otherwise the first label is
/// written out, length byte first, and the rest of the name is written behind
/// it in the same way, against the message as it then is; a name with no
/// label left ends in a zero byte.
#[verifier::opaque]
pub open spec fn with_name(msg: Seq<u8>, at: int, target: Seq<Seq<u8>>) -> Seq<u8>
    decreases target.len(),
{
    match find_pointer(msg, target) {
        Some(p) => splice(msg, at, pointer_bytes(p)),
        None => if target.len() == 0 {
            splice(msg, at, seq![0u8])
        } else {
            with_name(
                splice(msg, at, seq![target[0].len() as u8] + target[0]),
                at + 1 + target[0].len(),
                target.skip(1),
            )
        },
    }
}

/// `msg` with a record inserted at offset `at`: the name `target`, written as
/// [`with_name`] says, and the bytes `fixed` behind it.
pub open spec fn with_record(msg: Seq<u8>, at: int, target: Seq<Seq<u8>>, fixed: Seq<u8>) -> Seq<
    u8,
> {
    let named = with_name(msg, at, target);
    splice(named, at + (named.len() - msg.len()), fixed)
}

/// `msg` with one more question: the question is inserted behind the last
/// question, in front of the answers, and the header's number of questions
/// is raised by one.
pub open spec fn with_question(msg: Seq<u8>, target: Seq<Seq<u8>>, kind: u16, class: u16) -> Seq<
    u8,
> {
    with_u16(
        with_record(
            msg,
            questions_end(msg),
            target,
            be16_bytes(kind as int) + be16_bytes(class as int),
        ),
        4,
        question_count(msg) as int + 1,
    )
}

/// The bytes of an answer behind its name.
pub open spec fn answer_tail(kind: u16, class: u16, ttl: u32, rdata: Seq<u8>) -> Seq<u8> {
    be16_bytes(kind as int) + be16_bytes(class as int) + be32_bytes(ttl as int) + be16_bytes(
        rdata.len() as int % 65536,
    ) + rdata
}

/// `msg` with one more answer: the answer is inserted behind the last answer
/// and the header's number of answers is raised by one.
///
/// The length of the data is written as 16 bits; of a longer length only the
/// low 16 bits are written.
pub open spec fn with_answer(
    msg: Seq<u8>,
    target: Seq<Seq<u8>>,
    kind: u16,
    class: u16,
    ttl: u32,
    rdata: Seq<u8>,
) -> Seq<u8> {
    with_u16(
        with_record(msg, answers_end(msg), target, answer_tail(kind, class, ttl, rdata)),
        6,
        answer_count(msg) as int + 1,
    )
}


/// The questions and the answers that the header announces can be read.
pub open spec fn records_ok(msg: Seq<u8>) -> bool {
    &&& msg.len() >= HEADER_SIZE
    &&& records_span(msg) is Ok
}

/// The length of the name when written without pointers: a length byte and
/// the bytes of each label, and the zero byte.
pub open spec fn wire_len(labels: Seq<Seq<u8>>) -> int
    decreases labels.len(),
{
    if labels.len() == 0 {
        1
    } else {
        1 + labels[0].len() + wire_len(labels.skip(1))
    }
}


/// A byte with an ASCII lower-case letter turned into its upper-case form.
pub open spec fn ascii_upper(c: u8) -> u8 {
    if 97 <= c <= 122 {
        (c - 32) as u8
    } else {
        c
    }
}

/// A byte string with its ASCII letters in lower case.
pub open spec fn to_ascii_lower(s: Seq<u8>) -> Seq<u8> {
    Seq::new(s.len(), |i: int| ascii_lower(s[i]))
}

/// A byte string with its ASCII letters in upper case.
pub open spec fn to_ascii_upper(s: Seq<u8>) -> Seq<u8> {
    Seq::new(s.len(), |i: int| ascii_upper(s[i]))
}

/// A byte string with each `.` replaced by `-`.
pub open spec fn dots_to_dashes(s: Seq<u8>) -> Seq<u8> {
    Seq::new(s.len(), |i: int| if s[i] == 46u8 { 45u8 } else { s[i] })
}

/// Whether the pointer read at place `k` of a decoding, if one was read
/// there, leads strictly below every offset visited up to then.
pub open spec fn goes_backwards(buf: Seq<u8>, visited: Seq<int>, k: int) -> bool {
    label_at(buf, visited[k]) matches Some(LabelType::Pointer(target)) ==> {
        &&& forall|j: int| 0 <= j <= k ==> target < #[trigger] visited[j]
        &&& k + 1 < visited.len()
        &&& visited[k + 1] == target
    }
}

/// Whether one of `n` questions in a row, the first at offset `i`, asks for a
/// name that matches `target`.
pub open spec fn question_named(buf: Seq<u8>, i: int, n: nat, target: Seq<Seq<u8>>) -> bool
    decreases n,
{
    n > 0 && question_at(buf, i) is Ok && (names_match(name_labels(buf, i), target)
        || question_named(buf, question_at(buf, i).unwrap().end, (n - 1) as nat, target))
}

/// Whether the message holds a question that asks for a name that matches
/// `target`.
pub open spec fn has_question_named(msg: Seq<u8>, target: Seq<Seq<u8>>) -> bool {
    question_named(msg, HEADER_SIZE as int, question_count(msg), target)
}


/// Whether `target` matches `labels` from one of its labels on: the whole
/// of the name, or a suffix of it that begins at a label boundary.
pub open spec fn ends_in(labels: Seq<Seq<u8>>, target: Seq<Seq<u8>>) -> bool {
    exists|k: int| 0 <= k < labels.len() && names_match(#[trigger] labels.skip(k), target)
}

/// Whether one of `n` questions in a row, the first at offset `i`, asks for a
/// name that `target` matches from one of its labels on.
pub open spec fn question_ends_in(buf: Seq<u8>, i: int, n: nat, target: Seq<Seq<u8>>) -> bool
    decreases n,
{
    n > 0 && question_at(buf, i) is Ok && (ends_in(name_labels(buf, i), target)
        || question_ends_in(buf, question_at(buf, i).unwrap().end, (n - 1) as nat, target))
}

/// Whether the message holds a question that asks for a name that `target`
/// matches from one of its labels on.
pub open spec fn has_question_ending_in(msg: Seq<u8>, target: Seq<Seq<u8>>) -> bool {
    question_ends_in(msg, HEADER_SIZE as int, question_count(msg), target)
}

/// The summed lengths of the labels of a name.
pub open spec fn name_len(labels: Seq<Seq<u8>>) -> int
    decreases labels.len(),
{
    if labels.len() == 0 {
        0
    } else {
        labels[0].len() + name_len(labels.skip(1))
    }
}

/// Whether `labels` can be the labels of a name: each has between 1 and 63
/// bytes, and together they have at most [`MAX_NAME_LEN`].
pub open spec fn valid_labels(labels: Seq<Seq<u8>>) -> bool {
    &&& labels_fit(labels)
    &&& name_len(labels) <= MAX_NAME_LEN
}

/// Whether a decoding visits no offset below `lo`.
pub open spec fn stays_above(d: Decoded, lo: int) -> bool {
    forall|k: int| 0 <= k < d.visited.len() ==> #[trigger] d.visited[k] >= lo
}

/// Whether the names of `n` questions in a row, the first at offset `i`,
/// decode without a visit to an offset below `lo`.
pub open spec fn questions_above(buf: Seq<u8>, i: int, n: nat, lo: int) -> bool
    decreases n,
{
    n == 0 || (question_at(buf, i) is Ok && stays_above(decode_name(buf, i).unwrap(), lo)
        && questions_above(buf, question_at(buf, i).unwrap().end, (n - 1) as nat, lo))
}

/// The largest number of reads that the name of one of `n` questions in a
/// row, the first at offset `i`, takes to decode.
pub open spec fn questions_depth(buf: Seq<u8>, i: int, n: nat) -> int
    decreases n,
{
    if n == 0 {
        0
    } else {
        match question_at(buf, i) {
            Err(_) => 0,
            Ok(q) => max_int(
                decode_name(buf, i).unwrap().visited.len() as int,
                questions_depth(buf, q.end, (n - 1) as nat),
            ),
        }
    }
}

/// The largest number of reads that the name of a question of the message
/// takes to decode.
pub open spec fn depth(msg: Seq<u8>) -> int {
    questions_depth(msg, HEADER_SIZE as int, question_count(msg))
}

/// Whether the name that decodes from `pos` leaves its record only for places
/// from `lo` up to `hi`: once a pointer is followed, nothing below `lo` is
/// visited and nothing from `hi` on is reached.
pub open spec fn hops_into(
    buf: Seq<u8>,
    pos: int,
    limit: int,
    budget: int,
    fuel: nat,
    lo: int,
    hi: int,
) -> bool
    decreases fuel,
{
    if fuel == 0 {
        false
    } else {
        match label_at(buf, pos) {
            None => false,
            Some(LabelType::End) => true,
            Some(LabelType::Part(n)) => n <= budget && pos + 1 + n < buf.len() && hops_into(
                buf,
                pos + 1 + n,
                limit,
                budget - n,
                (fuel - 1) as nat,
                lo,
                hi,
            ),
            Some(LabelType::Pointer(target)) => target < limit && (decode_from(
                buf,
                target as int,
                target as int,
                budget,
                (fuel - 1) as nat,
            ) matches Ok(rest) && stays_above(rest, lo) && rest.reach <= hi),
        }
    }
}

/// Whether the name at offset `start` leaves its record only for places from
/// `lo` up to `hi`.
pub open spec fn name_hops_into(buf: Seq<u8>, start: int, lo: int, hi: int) -> bool {
    hops_into(buf, start, start, MAX_NAME_LEN as int, MAX_LABEL_READS as nat, lo, hi)
}

/// Whether the names of `n` answers in a row, the first at offset `i`, leave
/// their records only for places from `lo` up to `hi`.
pub open spec fn answers_hop_into(buf: Seq<u8>, i: int, n: nat, lo: int, hi: int) -> bool
    decreases n,
{
    n == 0 || (answer_at(buf, i) is Ok && name_hops_into(buf, i, lo, hi) && answers_hop_into(
        buf,
        answer_at(buf, i).unwrap().end,
        (n - 1) as nat,
        lo,
        hi,
    ))
}

/// A message is well formed where it is consistent and its names are
/// compressed against the questions alone: the names of the questions do
/// not lead into the header or behind the questions, and the names of the
/// answers leave their records only for the questions.
///
/// Such a message stays readable when its header changes and when its
/// answers move. An empty message is well formed, and [`with_question`] and
/// [`with_answer`] keep a message so.
pub open spec fn well_formed(msg: Seq<u8>) -> bool {
    &&& consistent(msg)
    &&& questions_settled(msg, questions_end(msg))
    &&& answers_hop_into(
        msg,
        questions_end(msg),
        answer_count(msg),
        HEADER_SIZE as int,
        questions_end(msg),
    )
}

/// Whether the questions of `msg` can be read, stay clear of the header and
/// reach no further than `hi`, which lies inside the message.
pub open spec fn questions_settled(msg: Seq<u8>, hi: int) -> bool {
    &&& HEADER_SIZE <= hi <= msg.len()
    &&& questions_span(msg) matches Ok(s)
    &&& s.reach <= hi
    &&& questions_above(msg, HEADER_SIZE as int, question_count(msg), HEADER_SIZE as int)
}

/// Whether each of `labels` has between 1 and 63 bytes.
pub open spec fn labels_fit(labels: Seq<Seq<u8>>) -> bool {
    forall|k: int| 0 <= k < labels.len() ==> 1 <= (#[trigger] labels[k]).len() <= 63
}


} // verus!
