//! Facts about the byte-level model that the codecs are proved with.

use vstd::prelude::*;
use crate::error::Error;
use crate::wire::{
    answer_at, answer_count, answer_tail, answers_from, be16_bytes, be32_bytes, consistent,
    decode_from, decode_name, dots_to_dashes, dotted, ends_in, eq_ignore_case, find_pointer,
    goes_backwards, has_question_ending_in, has_question_named, HEADER_SIZE, label_at, label_bytes,
    labels_fit, labels_of, LabelType, max_int, MAX_LABEL_READS, MAX_NAME_LEN, MAX_POINTER,
    name_labels, name_len, name_pointer, names_match, parsed_len, pointer_among, pointer_bytes,
    pointer_in_questions, question_at, question_count, question_ends_in, question_named,
    questions_from, questions_span, records_span, splice, to_ascii_lower, to_ascii_upper,
    valid_labels, wire_len, with_name,
};

verus! {

/// A decoding that succeeds still succeeds, with the same result, under a
/// higher pointer limit, a larger length budget and more reads.
pub(crate) proof fn lemma_decode_relax(
    buf: Seq<u8>,
    pos: int,
    limit: int,
    budget: int,
    fuel: nat,
    limit2: int,
    budget2: int,
    fuel2: nat,
)
    requires
        decode_from(buf, pos, limit, budget, fuel) is Ok,
        limit <= limit2,
        budget <= budget2,
        fuel <= fuel2,
    ensures
        decode_from(buf, pos, limit2, budget2, fuel2) == decode_from(buf, pos, limit, budget, fuel),
    decreases fuel,
{
    match label_at(buf, pos) {
        Some(LabelType::Part(n)) => {
            lemma_decode_relax(
                buf,
                pos + 1 + n,
                limit,
                budget - n,
                (fuel - 1) as nat,
                limit2,
                budget2 - n,
                (fuel2 - 1) as nat,
            );
        },
        Some(LabelType::Pointer(t)) => {
            lemma_decode_relax(
                buf,
                t as int,
                t as int,
                budget,
                (fuel - 1) as nat,
                t as int,
                budget2,
                (fuel2 - 1) as nat,
            );
        },
        _ => {},
    }
}

/// A name that decodes lies inside the buffer: it ends behind its start, and
/// reaches at least to its end and at most to the end of the buffer.
pub proof fn lemma_decode_bounds(buf: Seq<u8>, pos: int, limit: int, budget: int, fuel: nat)
    requires
        decode_from(buf, pos, limit, budget, fuel) is Ok,
    ensures
        0 <= pos,
        pos + 1 <= decode_from(buf, pos, limit, budget, fuel).unwrap().end,
        decode_from(buf, pos, limit, budget, fuel).unwrap().end <= decode_from(
            buf,
            pos,
            limit,
            budget,
            fuel,
        ).unwrap().reach,
        decode_from(buf, pos, limit, budget, fuel).unwrap().reach <= buf.len(),
    decreases fuel,
{
    match label_at(buf, pos) {
        Some(LabelType::Part(n)) => {
            lemma_decode_bounds(buf, pos + 1 + n, limit, budget - n, (fuel - 1) as nat);
        },
        Some(LabelType::Pointer(t)) => {
            lemma_decode_bounds(buf, t as int, t as int, budget, (fuel - 1) as nat);
        },
        _ => {},
    }
}

/// A name decodes in the same way in every prefix of the buffer that holds
/// all it reaches.
pub(crate) proof fn lemma_decode_prefix(
    buf: Seq<u8>,
    len: int,
    pos: int,
    limit: int,
    budget: int,
    fuel: nat,
)
    requires
        decode_from(buf, pos, limit, budget, fuel) is Ok,
        decode_from(buf, pos, limit, budget, fuel).unwrap().reach <= len <= buf.len(),
    ensures
        decode_from(buf.take(len), pos, limit, budget, fuel) == decode_from(
            buf,
            pos,
            limit,
            budget,
            fuel,
        ),
    decreases fuel,
{
    lemma_decode_bounds(buf, pos, limit, budget, fuel);
    match label_at(buf, pos) {
        Some(LabelType::Part(n)) => {
            lemma_decode_bounds(buf, pos + 1 + n, limit, budget - n, (fuel - 1) as nat);
            lemma_decode_prefix(buf, len, pos + 1 + n, limit, budget - n, (fuel - 1) as nat);
        },
        Some(LabelType::Pointer(t)) => {
            lemma_decode_prefix(buf, len, t as int, t as int, budget, (fuel - 1) as nat);
        },
        _ => {},
    }
}

/// A question that can be read ends behind its start and inside the buffer.
pub(crate) proof fn lemma_question_bounds(buf: Seq<u8>, i: int)
    requires
        question_at(buf, i) is Ok,
    ensures
        0 <= i,
        i + 5 <= question_at(buf, i).unwrap().end <= question_at(buf, i).unwrap().reach
            <= buf.len(),
{
    lemma_decode_bounds(buf, i, i, crate::wire::MAX_NAME_LEN as int, crate::wire::MAX_LABEL_READS as nat);
}

/// An answer that can be read ends behind its start and inside the buffer.
pub(crate) proof fn lemma_answer_bounds(buf: Seq<u8>, i: int)
    requires
        answer_at(buf, i) is Ok,
    ensures
        0 <= i,
        i + 11 <= answer_at(buf, i).unwrap().end <= answer_at(buf, i).unwrap().reach <= buf.len(),
        answer_at(buf, i).unwrap().rdata_at + answer_at(buf, i).unwrap().rdata_len == answer_at(
            buf,
            i,
        ).unwrap().end,
        i + 11 <= answer_at(buf, i).unwrap().rdata_at,
        0 <= answer_at(buf, i).unwrap().rdata_len,
{
    lemma_decode_bounds(buf, i, i, crate::wire::MAX_NAME_LEN as int, crate::wire::MAX_LABEL_READS as nat);
}

/// A question reads in the same way in every prefix of the buffer that holds
/// all it reaches.
pub(crate) proof fn lemma_question_prefix(buf: Seq<u8>, len: int, i: int)
    requires
        question_at(buf, i) is Ok,
        question_at(buf, i).unwrap().reach <= len <= buf.len(),
    ensures
        question_at(buf.take(len), i) == question_at(buf, i),
{
    lemma_question_bounds(buf, i);
    lemma_decode_prefix(buf, len, i, i, crate::wire::MAX_NAME_LEN as int, crate::wire::MAX_LABEL_READS as nat);
}

/// An answer reads in the same way in every prefix of the buffer that holds
/// all it reaches.
pub(crate) proof fn lemma_answer_prefix(buf: Seq<u8>, len: int, i: int)
    requires
        answer_at(buf, i) is Ok,
        answer_at(buf, i).unwrap().reach <= len <= buf.len(),
    ensures
        answer_at(buf.take(len), i) == answer_at(buf, i),
{
    lemma_answer_bounds(buf, i);
    lemma_decode_prefix(buf, len, i, i, crate::wire::MAX_NAME_LEN as int, crate::wire::MAX_LABEL_READS as nat);
}

/// Questions that can be read end at or behind their start, inside the
/// buffer or where they started.
pub(crate) proof fn lemma_questions_bounds(buf: Seq<u8>, i: int, n: nat)
    requires
        questions_from(buf, i, n) is Ok,
    ensures
        i <= questions_from(buf, i, n).unwrap().end <= questions_from(buf, i, n).unwrap().reach,
        questions_from(buf, i, n).unwrap().reach <= max_int(i, buf.len() as int),
    decreases n,
{
    if n > 0 {
        lemma_question_bounds(buf, i);
        lemma_questions_bounds(buf, question_at(buf, i).unwrap().end, (n - 1) as nat);
    }
}

/// Answers that can be read end at or behind their start, inside the buffer
/// or where they started.
pub(crate) proof fn lemma_answers_bounds(buf: Seq<u8>, i: int, n: nat)
    requires
        answers_from(buf, i, n) is Ok,
    ensures
        i <= answers_from(buf, i, n).unwrap().end <= answers_from(buf, i, n).unwrap().reach,
        answers_from(buf, i, n).unwrap().reach <= max_int(i, buf.len() as int),
    decreases n,
{
    if n > 0 {
        lemma_answer_bounds(buf, i);
        lemma_answers_bounds(buf, answer_at(buf, i).unwrap().end, (n - 1) as nat);
    }
}

/// Questions read in the same way in every prefix of the buffer that holds
/// all they reach.
pub(crate) proof fn lemma_questions_prefix(buf: Seq<u8>, len: int, i: int, n: nat)
    requires
        questions_from(buf, i, n) is Ok,
        questions_from(buf, i, n).unwrap().reach <= len <= buf.len(),
    ensures
        questions_from(buf.take(len), i, n) == questions_from(buf, i, n),
    decreases n,
{
    if n > 0 {
        let q = question_at(buf, i).unwrap();
        lemma_questions_bounds(buf, q.end, (n - 1) as nat);
        lemma_question_prefix(buf, len, i);
        lemma_questions_prefix(buf, len, q.end, (n - 1) as nat);
    }
}

/// Answers read in the same way in every prefix of the buffer that holds all
/// they reach.
pub(crate) proof fn lemma_answers_prefix(buf: Seq<u8>, len: int, i: int, n: nat)
    requires
        answers_from(buf, i, n) is Ok,
        answers_from(buf, i, n).unwrap().reach <= len <= buf.len(),
    ensures
        answers_from(buf.take(len), i, n) == answers_from(buf, i, n),
    decreases n,
{
    if n > 0 {
        let a = answer_at(buf, i).unwrap();
        lemma_answers_bounds(buf, a.end, (n - 1) as nat);
        lemma_answer_prefix(buf, len, i);
        lemma_answers_prefix(buf, len, a.end, (n - 1) as nat);
    }
}

/// The records of a message read in the same way in the prefix that ends
/// behind the last answer, where they do not reach behind it; that prefix is
/// then a consistent message.
pub proof fn lemma_records_prefix(buf: Seq<u8>)
    requires
        buf.len() >= HEADER_SIZE,
        records_span(buf) is Ok,
        records_span(buf).unwrap().reach <= records_span(buf).unwrap().end,
    ensures
        HEADER_SIZE <= records_span(buf).unwrap().end <= buf.len(),
        records_span(buf.take(records_span(buf).unwrap().end)) == records_span(buf),
        consistent(buf.take(records_span(buf).unwrap().end)),
{
    let s = records_span(buf).unwrap();
    let q = questions_span(buf).unwrap();
    lemma_questions_bounds(buf, HEADER_SIZE as int, question_count(buf));
    lemma_answers_bounds(buf, q.end, answer_count(buf));
    let msg = buf.take(s.end);
    lemma_questions_prefix(buf, s.end, HEADER_SIZE as int, question_count(buf));
    lemma_answers_prefix(buf, s.end, q.end, answer_count(buf));
}

/// The message that is parsed from a buffer is a prefix of the buffer.
/// Where none of its names reads a byte behind its end, it is a consistent
/// message, and parsing that prefix gives the same message again.
pub proof fn lemma_parse_round_trip(buf: Seq<u8>)
    requires
        parsed_len(buf) is Ok,
    ensures
        HEADER_SIZE <= parsed_len(buf).unwrap() <= buf.len(),
        records_span(buf).unwrap().reach <= parsed_len(buf).unwrap() ==> consistent(
            buf.take(parsed_len(buf).unwrap()),
        ) && parsed_len(buf.take(parsed_len(buf).unwrap())) == parsed_len(buf),
{
    let qs = questions_span(buf).unwrap();
    lemma_questions_bounds(buf, HEADER_SIZE as int, question_count(buf));
    lemma_answers_bounds(buf, qs.end, answer_count(buf));
    if records_span(buf).unwrap().reach <= parsed_len(buf).unwrap() {
        lemma_records_prefix(buf);
    }
}

/// No pointer can stand for the name without labels.
pub(crate) proof fn lemma_no_pointer_for_root(msg: Seq<u8>)
    ensures
        find_pointer(msg, Seq::<Seq<u8>>::empty()) is None,
{
    lemma_no_pointer_in_questions(msg, HEADER_SIZE as int, question_count(msg));
}

/// No question holds a place that can stand for the name without labels.
pub(crate) proof fn lemma_no_pointer_in_questions(buf: Seq<u8>, i: int, n: nat)
    ensures
        pointer_in_questions(buf, i, n, Seq::<Seq<u8>>::empty()) is None,
    decreases n,
{
    if n > 0 {
        if question_at(buf, i) is Ok {
            if decode_name(buf, i) is Ok {
                lemma_no_pointer_among(buf, i, decode_name(buf, i).unwrap().labels);
            }
            lemma_no_pointer_in_questions(
                buf,
                question_at(buf, i).unwrap().end,
                (n - 1) as nat,
            );
        }
    }
}

/// No label boundary of a name can stand for the name without labels.
pub(crate) proof fn lemma_no_pointer_among(buf: Seq<u8>, boundary: int, labels: Seq<int>)
    ensures
        pointer_among(buf, boundary, labels, Seq::<Seq<u8>>::empty()) is None,
    decreases labels.len(),
{
    if labels.len() > 0 {
        lemma_no_pointer_among(buf, labels[0] + 1 + buf[labels[0]] as int, labels.skip(1));
    }
}

/// Writing a name adds at least one byte, and at most as many as the name
/// takes when written without pointers.
pub(crate) proof fn lemma_with_name_len(msg: Seq<u8>, at: int, target: Seq<Seq<u8>>)
    requires
        0 <= at <= msg.len(),
    ensures
        msg.len() + 1 <= with_name(msg, at, target).len() <= msg.len() + wire_len(target),
        with_name(msg, at, target).take(at) == msg.take(at),
        with_name(msg, at, target).skip(at + with_name(msg, at, target).len() - msg.len())
            == msg.skip(at),
    decreases target.len(),
{
    reveal(with_name);
    let done = with_name(msg, at, target);
    if find_pointer(msg, target) is None && target.len() > 0 {
        let grown = splice(msg, at, seq![target[0].len() as u8] + target[0]);
        let next = at + 1 + target[0].len();
        lemma_with_name_len(grown, next, target.skip(1));
        assert(done.take(at) =~= done.take(next).take(at));
        assert(grown.take(next).take(at) =~= msg.take(at));
        assert(grown.skip(next) =~= msg.skip(at));
    } else {
        assert(done.take(at) =~= msg.take(at));
        assert(done.skip(at + done.len() - msg.len()) =~= msg.skip(at));
    }
    if find_pointer(msg, target) is Some {
        lemma_no_pointer_for_root(msg);
        assert(target.len() > 0) by {
            if target.len() == 0 {
                assert(target =~= Seq::<Seq<u8>>::empty());
            }
        }
        lemma_wire_len_min(target.skip(1));
    }
}

/// Every name takes at least one byte when written without pointers.
pub(crate) proof fn lemma_wire_len_min(target: Seq<Seq<u8>>)
    ensures
        wire_len(target) >= 1,
    decreases target.len(),
{
    if target.len() > 0 {
        lemma_wire_len_min(target.skip(1));
    }
}

/// Inserting `b` right behind an inserted `a` inserts `a + b`.
pub(crate) proof fn lemma_splice_append(msg: Seq<u8>, at: int, a: Seq<u8>, b: Seq<u8>)
    requires
        0 <= at <= msg.len(),
    ensures
        splice(splice(msg, at, a), at + a.len(), b) == splice(msg, at, a + b),
{
    assert(splice(splice(msg, at, a), at + a.len(), b) =~= splice(msg, at, a + b));
}

/// What [`with_name`] does first.
pub(crate) proof fn lemma_with_name_unfold(msg: Seq<u8>, at: int, target: Seq<Seq<u8>>)
    ensures
        with_name(msg, at, target) == match find_pointer(msg, target) {
            Some(p) => splice(msg, at, pointer_bytes(p)),
            None => if target.len() == 0 {
                splice(msg, at, seq![0u8])
            } else {
                with_name(
                    splice(msg, at, seq![target[0].len() as u8] + target[0]),
                    at + 1 + target[0].len(),
                    target.skip(1),
                )
            },
        },
{
    reveal(with_name);
}

/// Inserting the fields of an answer one behind the other inserts
/// [`answer_tail`].
pub(crate) proof fn lemma_answer_tail(
    msg: Seq<u8>,
    at: int,
    kind: u16,
    class: u16,
    ttl: u32,
    rdata: Seq<u8>,
)
    requires
        0 <= at <= msg.len(),
    ensures
        splice(
            splice(
                splice(
                    splice(splice(msg, at, be16_bytes(kind as int)), at + 2, be16_bytes(class as int)),
                    at + 4,
                    be32_bytes(ttl as int),
                ),
                at + 8,
                be16_bytes(rdata.len() as int % 65536),
            ),
            at + 10,
            rdata,
        ) == splice(msg, at, answer_tail(kind, class, ttl, rdata)),
{
    let k = be16_bytes(kind as int);
    let c = be16_bytes(class as int);
    let t = be32_bytes(ttl as int);
    let n = be16_bytes(rdata.len() as int % 65536);
    lemma_splice_append(msg, at, k, c);
    lemma_splice_append(msg, at, k + c, t);
    lemma_splice_append(msg, at, k + c + t, n);
    lemma_splice_append(msg, at, k + c + t + n, rdata);
}

/// Decoding a name always ends: it reads at most [`MAX_LABEL_READS`] places,
/// whatever the pointers in the buffer, and gives either a name or one of the
/// errors `MessageTooShort`, `Pointer` and `NameTooLong`.
pub proof fn lemma_decode_ends(buf: Seq<u8>, start: int)
    ensures
        match decode_name(buf, start) {
            Ok(d) => 1 <= d.visited.len() <= MAX_LABEL_READS && d.labels.len() <= MAX_NAME_LEN,
            Err(e) => e == Error::MessageTooShort || e == Error::Pointer || e
                == Error::NameTooLong,
        },
{
    lemma_decode_reads(buf, start, start, MAX_NAME_LEN as int, MAX_LABEL_READS as nat);
}

/// A decoding reads at most as many places as it has fuel for, and finds at
/// most as many labels as its budget has bytes.
pub(crate) proof fn lemma_decode_reads(buf: Seq<u8>, pos: int, limit: int, budget: int, fuel: nat)
    requires
        0 <= budget,
    ensures
        match decode_from(buf, pos, limit, budget, fuel) {
            Ok(d) => 1 <= d.visited.len() <= fuel && d.labels.len() <= budget && d.labels.len()
                <= d.visited.len(),
            Err(e) => e == Error::MessageTooShort || e == Error::Pointer || e
                == Error::NameTooLong,
        },
    decreases fuel,
{
    if fuel > 0 {
        match label_at(buf, pos) {
            Some(LabelType::Part(n)) => {
                if n <= budget {
                    lemma_decode_reads(buf, pos + 1 + n, limit, budget - n, (fuel - 1) as nat);
                }
            },
            Some(LabelType::Pointer(t)) => {
                lemma_decode_reads(buf, t as int, t as int, budget, (fuel - 1) as nat);
            },
            _ => {},
        }
    }
}

/// Every compression pointer that a successful decoding follows leads to an
/// offset strictly below every offset that the decoding visited before, and
/// the decoding goes on there.
pub proof fn lemma_pointers_go_backwards(buf: Seq<u8>, start: int)
    requires
        decode_name(buf, start) is Ok,
    ensures
        forall|k: int|
            0 <= k < decode_name(buf, start).unwrap().visited.len() ==> #[trigger] goes_backwards(
                buf,
                decode_name(buf, start).unwrap().visited,
                k,
            ),
{
    lemma_backwards_from(buf, start, start, MAX_NAME_LEN as int, MAX_LABEL_READS as nat);
}

/// The pointers of a decoding that is under way lead strictly below the limit
/// and below every offset visited from here on.
pub(crate) proof fn lemma_backwards_from(buf: Seq<u8>, pos: int, limit: int, budget: int, fuel: nat)
    requires
        decode_from(buf, pos, limit, budget, fuel) is Ok,
        limit <= pos,
    ensures
        decode_from(buf, pos, limit, budget, fuel).unwrap().visited.len() > 0,
        decode_from(buf, pos, limit, budget, fuel).unwrap().visited[0] == pos,
        forall|k: int|
            0 <= k < decode_from(buf, pos, limit, budget, fuel).unwrap().visited.len()
                ==> #[trigger] goes_backwards(
                buf,
                decode_from(buf, pos, limit, budget, fuel).unwrap().visited,
                k,
            ),
        forall|k: int|
            0 <= k < decode_from(buf, pos, limit, budget, fuel).unwrap().visited.len() ==> (
            label_at(
                buf,
                #[trigger] decode_from(buf, pos, limit, budget, fuel).unwrap().visited[k],
            ) matches Some(LabelType::Pointer(target)) ==> target < limit),
    decreases fuel,
{
    let d = decode_from(buf, pos, limit, budget, fuel).unwrap();
    match label_at(buf, pos) {
        Some(LabelType::Part(n)) => {
            lemma_backwards_from(buf, pos + 1 + n, limit, budget - n, (fuel - 1) as nat);
            let rest = decode_from(buf, pos + 1 + n, limit, budget - n, (fuel - 1) as nat).unwrap();
            assert forall|k: int| 0 <= k < d.visited.len() implies #[trigger] goes_backwards(
                buf,
                d.visited,
                k,
            ) by {
                if k > 0 {
                    assert(d.visited[k] == rest.visited[k - 1]);
                    assert(goes_backwards(buf, rest.visited, k - 1));
                    if let Some(LabelType::Pointer(target)) = label_at(buf, d.visited[k]) {
                        assert forall|j: int| 0 <= j <= k implies target
                            < #[trigger] d.visited[j] by {
                            if j > 0 {
                                assert(d.visited[j] == rest.visited[j - 1]);
                            }
                        }
                        assert(d.visited[k + 1] == rest.visited[k]);
                    }
                }
            }
            assert forall|k: int| 0 <= k < d.visited.len() implies (label_at(
                buf,
                #[trigger] d.visited[k],
            ) matches Some(LabelType::Pointer(target)) ==> target < limit) by {
                if k > 0 {
                    assert(d.visited[k] == rest.visited[k - 1]);
                }
            }
        },
        Some(LabelType::Pointer(t)) => {
            lemma_backwards_from(buf, t as int, t as int, budget, (fuel - 1) as nat);
            let rest = decode_from(buf, t as int, t as int, budget, (fuel - 1) as nat).unwrap();
            assert forall|k: int| 0 <= k < d.visited.len() implies #[trigger] goes_backwards(
                buf,
                d.visited,
                k,
            ) by {
                if k > 0 {
                    assert(d.visited[k] == rest.visited[k - 1]);
                    assert(goes_backwards(buf, rest.visited, k - 1));
                    if let Some(LabelType::Pointer(target)) = label_at(buf, d.visited[k]) {
                        assert forall|j: int| 0 <= j <= k implies target
                            < #[trigger] d.visited[j] by {
                            if j > 0 {
                                assert(d.visited[j] == rest.visited[j - 1]);
                            }
                        }
                        assert(d.visited[k + 1] == rest.visited[k]);
                    }
                } else {
                    assert(d.visited[1] == rest.visited[0]);
                }
            }
            assert forall|k: int| 0 <= k < d.visited.len() implies (label_at(
                buf,
                #[trigger] d.visited[k],
            ) matches Some(LabelType::Pointer(target)) ==> target < limit) by {
                if k > 0 {
                    assert(d.visited[k] == rest.visited[k - 1]);
                }
            }
        },
        _ => {},
    }
}

/// Two names that both have a first label match where those labels are equal
/// up to case and the names behind them match.
pub(crate) proof fn lemma_names_match_step(a: Seq<Seq<u8>>, b: Seq<Seq<u8>>)
    requires
        a.len() > 0,
        b.len() > 0,
    ensures
        names_match(a, b) == (eq_ignore_case(a[0], b[0]) && names_match(a.skip(1), b.skip(1))),
{
    if names_match(a, b) {
        assert forall|k: int| 0 <= k < a.skip(1).len() implies eq_ignore_case(
            #[trigger] a.skip(1)[k],
            b.skip(1)[k],
        ) by {
            assert(a.skip(1)[k] == a[k + 1]);
            assert(eq_ignore_case(a[k + 1], b[k + 1]));
        }
    }
    if eq_ignore_case(a[0], b[0]) && names_match(a.skip(1), b.skip(1)) {
        assert(a.len() == a.skip(1).len() + 1);
        assert(b.len() == b.skip(1).len() + 1);
        assert forall|k: int| 0 <= k < a.len() implies eq_ignore_case(#[trigger] a[k], b[k]) by {
            if k > 0 {
                assert(a.skip(1)[k - 1] == a[k]);
                assert(eq_ignore_case(a.skip(1)[k - 1], b.skip(1)[k - 1]));
            }
        }
    }
}

/// The dotted form of the first `k + 1` labels is that of the first `k`, a
/// dot where `k` is not zero, and label `k`.
pub(crate) proof fn lemma_dotted_step(labels: Seq<Seq<u8>>, k: int)
    requires
        0 <= k < labels.len(),
    ensures
        dotted(labels.take(k + 1)) == if k == 0 {
            labels[0]
        } else {
            dotted(labels.take(k)) + seq![46u8] + labels[k]
        },
{
    let s = labels.take(k + 1);
    assert(s.last() == labels[k]);
    if k > 0 {
        assert(s.drop_last() =~= labels.take(k));
    }
}

/// The dotted form of the first `k` labels is a prefix of the dotted form of
/// the name.
pub(crate) proof fn lemma_dotted_prefix(labels: Seq<Seq<u8>>, k: int)
    requires
        0 <= k <= labels.len(),
    ensures
        dotted(labels.take(k)).len() <= dotted(labels).len(),
        dotted(labels).take(dotted(labels.take(k)).len() as int) == dotted(labels.take(k)),
    decreases labels.len() - k,
{
    if k == labels.len() {
        assert(labels.take(k) =~= labels);
        assert(dotted(labels).take(dotted(labels).len() as int) =~= dotted(labels));
    } else {
        lemma_dotted_prefix(labels, k + 1);
        lemma_dotted_step(labels, k);
        let next = dotted(labels.take(k + 1));
        let this = dotted(labels.take(k));
        if k == 0 {
            assert(labels.take(0) =~= Seq::<Seq<u8>>::empty());
            assert(dotted(labels).take(0) =~= this);
        } else {
            assert(next.take(this.len() as int) =~= this);
            assert(dotted(labels).take(this.len() as int) =~= dotted(labels).take(
                next.len() as int,
            ).take(this.len() as int));
        }
    }
}

/// A name equals its own dotted form in lower case and in upper case.
pub proof fn lemma_equals_any_case(labels: Seq<Seq<u8>>)
    ensures
        eq_ignore_case(dotted(labels), dotted(labels)),
        eq_ignore_case(dotted(labels), to_ascii_lower(dotted(labels))),
        eq_ignore_case(dotted(labels), to_ascii_upper(dotted(labels))),
{
}

/// A name does not equal its dotted form with a dot in front or a dot
/// behind.
pub proof fn lemma_differs_with_extra_dot(labels: Seq<Seq<u8>>)
    ensures
        !eq_ignore_case(dotted(labels), seq![46u8] + dotted(labels)),
        !eq_ignore_case(dotted(labels), dotted(labels) + seq![46u8]),
{
}

/// A name of two or more labels does not equal its dotted form with the dots
/// replaced by dashes.
pub proof fn lemma_differs_with_dashes(labels: Seq<Seq<u8>>)
    requires
        labels.len() >= 2,
    ensures
        !eq_ignore_case(dotted(labels), dots_to_dashes(dotted(labels))),
{
    lemma_dotted_step(labels, 0);
    lemma_dotted_step(labels, 1);
    lemma_dotted_prefix(labels, 2);
    let two = dotted(labels.take(2));
    let at = labels[0].len() as int;
    assert(two[at] == 46u8);
    assert(dotted(labels).take(two.len() as int)[at] == 46u8);
    assert(dotted(labels)[at] == 46u8);
    assert(dots_to_dashes(dotted(labels))[at] == 45u8);
}

/// Writing a name takes no more bytes than the name takes without pointers,
/// and at least two bytes where the name has a label.
pub proof fn lemma_compression_never_longer(msg: Seq<u8>, at: int, target: Seq<Seq<u8>>)
    requires
        0 <= at <= msg.len(),
    ensures
        1 <= with_name(msg, at, target).len() - msg.len() <= wire_len(target),
        target.len() > 0 ==> 2 <= with_name(msg, at, target).len() - msg.len(),
{
    lemma_with_name_len(msg, at, target);
    lemma_with_name_unfold(msg, at, target);
    if target.len() > 0 && find_pointer(msg, target) is None {
        lemma_with_name_len(
            splice(msg, at, seq![target[0].len() as u8] + target[0]),
            at + 1 + target[0].len(),
            target.skip(1),
        );
    }
}

/// The labels that a decoding finds lie inside the buffer, with one byte
/// more behind each of them.
pub(crate) proof fn lemma_labels_inside(buf: Seq<u8>, pos: int, limit: int, budget: int, fuel: nat)
    requires
        decode_from(buf, pos, limit, budget, fuel) is Ok,
    ensures
        forall|k: int|
            0 <= k < decode_from(buf, pos, limit, budget, fuel).unwrap().labels.len() ==> {
                let at = #[trigger] decode_from(buf, pos, limit, budget, fuel).unwrap().labels[k];
                0 <= at && at + 1 + buf[at] < buf.len()
            },
    decreases fuel,
{
    let d = decode_from(buf, pos, limit, budget, fuel).unwrap();
    match label_at(buf, pos) {
        Some(LabelType::Part(n)) => {
            lemma_labels_inside(buf, pos + 1 + n, limit, budget - n, (fuel - 1) as nat);
            let rest = decode_from(buf, pos + 1 + n, limit, budget - n, (fuel - 1) as nat).unwrap();
            assert forall|k: int| 0 <= k < d.labels.len() implies {
                let at = #[trigger] d.labels[k];
                0 <= at && at + 1 + buf[at] < buf.len()
            } by {
                if k > 0 {
                    assert(d.labels[k] == rest.labels[k - 1]);
                }
            }
        },
        Some(LabelType::Pointer(t)) => {
            lemma_labels_inside(buf, t as int, t as int, budget, (fuel - 1) as nat);
        },
        _ => {},
    }
}

/// Where the labels of a name match `target` from label `k` on, and a
/// pointer can express every offset of the buffer, the search among the
/// label boundaries of the name finds an offset.
pub(crate) proof fn lemma_pointer_among_finds(
    buf: Seq<u8>,
    boundary: int,
    labels: Seq<int>,
    target: Seq<Seq<u8>>,
    k: int,
)
    requires
        0 <= k < labels.len(),
        names_match(labels_of(buf, labels).skip(k), target),
        buf.len() <= MAX_POINTER + 1,
        boundary < buf.len(),
        forall|j: int|
            0 <= j < labels.len() ==> 0 <= #[trigger] labels[j] && labels[j] + 1 + buf[labels[j]]
                < buf.len(),
    ensures
        pointer_among(buf, boundary, labels, target) is Some,
    decreases labels.len(),
{
    if k == 0 {
        assert(labels_of(buf, labels).skip(0) =~= labels_of(buf, labels));
    } else if !(boundary <= MAX_POINTER && names_match(labels_of(buf, labels), target)) {
        let rest = labels.skip(1);
        assert(labels_of(buf, rest).skip(k - 1) =~= labels_of(buf, labels).skip(k));
        assert forall|j: int| 0 <= j < rest.len() implies 0 <= #[trigger] rest[j] && rest[j] + 1
            + buf[rest[j]] < buf.len() by {
            assert(rest[j] == labels[j + 1]);
        }
        assert(labels[0] + 1 + buf[labels[0]] < buf.len());
        lemma_pointer_among_finds(
            buf,
            labels[0] + 1 + buf[labels[0]] as int,
            rest,
            target,
            k - 1,
        );
    }
}

/// Where one of the questions asks for a name that `target` matches from one
/// of its labels on, the search for a pointer succeeds, and `target` takes at
/// least three bytes when written without pointers.
pub(crate) proof fn lemma_question_suffix_found(buf: Seq<u8>, i: int, n: nat, target: Seq<Seq<u8>>)
    requires
        question_ends_in(buf, i, n, target),
        target.len() > 0,
        buf.len() <= MAX_POINTER + 1,
    ensures
        pointer_in_questions(buf, i, n, target) is Some,
        wire_len(target) >= 3,
    decreases n,
{
    if ends_in(name_labels(buf, i), target) {
        let d = decode_name(buf, i).unwrap();
        let all = labels_of(buf, d.labels);
        let k = choose|k: int| 0 <= k < all.len() && names_match(#[trigger] all.skip(k), target);
        lemma_decode_bounds(buf, i, i, MAX_NAME_LEN as int, MAX_LABEL_READS as nat);
        lemma_labels_inside(buf, i, i, MAX_NAME_LEN as int, MAX_LABEL_READS as nat);
        lemma_labels_valid(buf, i);
        lemma_pointer_among_finds(buf, i, d.labels, target, k);
        assert(all.skip(k)[0] == all[k]);
        assert(all[k].len() >= 1);
        assert(eq_ignore_case(all.skip(k)[0], target[0]));
        assert(target[0].len() >= 1);
        lemma_wire_len_min(target.skip(1));
    } else {
        lemma_question_suffix_found(
            buf,
            question_at(buf, i).unwrap().end,
            (n - 1) as nat,
            target,
        );
    }
}

/// A name that matches a name of a question from one of its labels on has a
/// label.
pub(crate) proof fn lemma_ending_in_has_label(buf: Seq<u8>, i: int, n: nat, target: Seq<Seq<u8>>)
    requires
        question_ends_in(buf, i, n, target),
    ensures
        target.len() > 0,
    decreases n,
{
    if ends_in(name_labels(buf, i), target) {
        let all = name_labels(buf, i);
        let k = choose|k: int| 0 <= k < all.len() && names_match(#[trigger] all.skip(k), target);
        assert(all.skip(k).len() > 0);
    } else {
        lemma_ending_in_has_label(buf, question_at(buf, i).unwrap().end, (n - 1) as nat, target);
    }
}

/// Where the message holds a question that asks for a name that `target`
/// matches from one of its labels on (the whole name, or a suffix that
/// begins at a label boundary), `target` is written as the two bytes of a
/// pointer, which is fewer than the name takes without pointers.
///
/// This holds of every message that pointers can reach all of, and of every
/// name with at least one label.
pub proof fn lemma_suffix_match_compresses(msg: Seq<u8>, at: int, target: Seq<Seq<u8>>)
    requires
        0 <= at <= msg.len(),
        msg.len() <= MAX_POINTER + 1,
        target.len() > 0,
        has_question_ending_in(msg, target),
    ensures
        find_pointer(msg, target) is Some,
        0 <= find_pointer(msg, target).unwrap() <= MAX_POINTER,
        with_name(msg, at, target) == splice(
            msg,
            at,
            pointer_bytes(find_pointer(msg, target).unwrap()),
        ),
        with_name(msg, at, target).len() == msg.len() + 2,
        with_name(msg, at, target).len() - msg.len() < wire_len(target),
{
    lemma_question_suffix_found(msg, HEADER_SIZE as int, question_count(msg), target);
    lemma_with_name_unfold(msg, at, target);
    lemma_found_in_range(msg, HEADER_SIZE as int, question_count(msg), target);
}

/// An offset that the search for a pointer finds is one that a pointer can
/// express.
pub(crate) proof fn lemma_found_in_range(buf: Seq<u8>, i: int, n: nat, target: Seq<Seq<u8>>)
    requires
        pointer_in_questions(buf, i, n, target) is Some,
    ensures
        0 <= pointer_in_questions(buf, i, n, target).unwrap() <= MAX_POINTER,
    decreases n,
{
    if n > 0 && question_at(buf, i) is Ok {
        if name_pointer(buf, i, target) is Some {
            lemma_decode_bounds(buf, i, i, MAX_NAME_LEN as int, MAX_LABEL_READS as nat);
            lemma_labels_inside(buf, i, i, MAX_NAME_LEN as int, MAX_LABEL_READS as nat);
            lemma_among_in_range(buf, i, decode_name(buf, i).unwrap().labels, target);
        } else {
            lemma_found_in_range(buf, question_at(buf, i).unwrap().end, (n - 1) as nat, target);
        }
    }
}

/// The same of the search among the label boundaries of one name.
pub(crate) proof fn lemma_among_in_range(
    buf: Seq<u8>,
    boundary: int,
    labels: Seq<int>,
    target: Seq<Seq<u8>>,
)
    requires
        pointer_among(buf, boundary, labels, target) is Some,
        0 <= boundary,
        forall|j: int|
            0 <= j < labels.len() ==> 0 <= #[trigger] labels[j] && labels[j] + 1 + buf[labels[j]]
                < buf.len(),
    ensures
        0 <= pointer_among(buf, boundary, labels, target).unwrap() <= MAX_POINTER,
    decreases labels.len(),
{
    if labels.len() > 0 && !(boundary <= MAX_POINTER && names_match(
        labels_of(buf, labels),
        target,
    )) {
        let rest = labels.skip(1);
        assert forall|j: int| 0 <= j < rest.len() implies 0 <= #[trigger] rest[j] && rest[j] + 1
            + buf[rest[j]] < buf.len() by {
            assert(rest[j] == labels[j + 1]);
        }
        assert(0 <= labels[0]);
        lemma_among_in_range(buf, labels[0] + 1 + buf[labels[0]] as int, rest, target);
    }
}

/// Where one of the questions asks for a name that matches `target`, the
/// search for a pointer succeeds, and `target` takes at least three bytes
/// when written without pointers.
pub(crate) proof fn lemma_named_question_found(buf: Seq<u8>, i: int, n: nat, target: Seq<Seq<u8>>)
    requires
        question_named(buf, i, n, target),
        target.len() > 0,
        buf.len() <= MAX_POINTER + 1,
    ensures
        pointer_in_questions(buf, i, n, target) is Some,
        wire_len(target) >= 3,
    decreases n,
{
    if names_match(name_labels(buf, i), target) {
        let d = decode_name(buf, i).unwrap();
        lemma_decode_bounds(buf, i, i, MAX_NAME_LEN as int, MAX_LABEL_READS as nat);
        lemma_labels_valid(buf, i);
        assert(d.labels.len() == target.len());
        assert(labels_of(buf, d.labels)[0].len() >= 1);
        assert(eq_ignore_case(labels_of(buf, d.labels)[0], target[0]));
        assert(target[0].len() >= 1);
        lemma_wire_len_min(target.skip(1));
    } else {
        lemma_named_question_found(buf, question_at(buf, i).unwrap().end, (n - 1) as nat, target);
    }
}

/// Where the message holds a question that asks for a name that matches
/// `target`, the name is written as the two bytes of a pointer, which is
/// fewer than the name takes without pointers.
///
/// This holds of every message that pointers can reach all of, and of every
/// name with at least one label.
pub proof fn lemma_full_match_compresses(msg: Seq<u8>, at: int, target: Seq<Seq<u8>>)
    requires
        0 <= at <= msg.len(),
        msg.len() <= MAX_POINTER + 1,
        target.len() > 0,
        has_question_named(msg, target),
    ensures
        find_pointer(msg, target) is Some,
        with_name(msg, at, target) == splice(
            msg,
            at,
            pointer_bytes(find_pointer(msg, target).unwrap()),
        ),
        with_name(msg, at, target).len() == msg.len() + 2,
        with_name(msg, at, target).len() - msg.len() < wire_len(target),
{
    lemma_named_question_found(msg, HEADER_SIZE as int, question_count(msg), target);
    lemma_with_name_unfold(msg, at, target);
}

/// The labels of a name that decodes are valid: each has between 1 and 63
/// bytes and together they have at most [`MAX_NAME_LEN`]. There are fewer of
/// them than [`MAX_LABEL_READS`], and written without pointers the name takes
/// less than [`MAX_NAME_LEN`] and [`MAX_LABEL_READS`] bytes together.
pub proof fn lemma_labels_valid(buf: Seq<u8>, start: int)
    requires
        decode_name(buf, start) is Ok,
    ensures
        valid_labels(name_labels(buf, start)),
        name_labels(buf, start).len() < MAX_LABEL_READS,
        wire_len(name_labels(buf, start)) <= MAX_NAME_LEN + MAX_LABEL_READS,
{
    lemma_labels_valid_from(buf, start, start, MAX_NAME_LEN as int, MAX_LABEL_READS as nat);
}

/// The same of a decoding that is under way: the labels that are still to
/// come fit the budget, and there are fewer of them than reads.
pub(crate) proof fn lemma_labels_valid_from(buf: Seq<u8>, pos: int, limit: int, budget: int, fuel: nat)
    requires
        decode_from(buf, pos, limit, budget, fuel) is Ok,
        0 <= budget,
    ensures
        labels_fit(labels_of(buf, decode_from(buf, pos, limit, budget, fuel).unwrap().labels)),
        0 <= name_len(labels_of(buf, decode_from(buf, pos, limit, budget, fuel).unwrap().labels))
            <= budget,
        decode_from(buf, pos, limit, budget, fuel).unwrap().labels.len() < fuel,
        wire_len(labels_of(buf, decode_from(buf, pos, limit, budget, fuel).unwrap().labels))
            == 1 + decode_from(buf, pos, limit, budget, fuel).unwrap().labels.len() + name_len(
            labels_of(buf, decode_from(buf, pos, limit, budget, fuel).unwrap().labels),
        ),
    decreases fuel,
{
    let d = decode_from(buf, pos, limit, budget, fuel).unwrap();
    let all = labels_of(buf, d.labels);
    match label_at(buf, pos) {
        Some(LabelType::Part(n)) => {
            let rest = decode_from(buf, pos + 1 + n, limit, budget - n, (fuel - 1) as nat).unwrap();
            lemma_labels_valid_from(buf, pos + 1 + n, limit, budget - n, (fuel - 1) as nat);
            let tail = labels_of(buf, rest.labels);
            assert(all.skip(1) =~= tail);
            assert(all[0] == label_bytes(buf, pos));
            assert(label_bytes(buf, pos).len() == n);
            assert forall|k: int| 0 <= k < all.len() implies 1 <= (#[trigger] all[k]).len()
                <= 63 by {
                if k > 0 {
                    assert(all[k] == tail[k - 1]);
                }
            }
        },
        Some(LabelType::Pointer(t)) => {
            lemma_labels_valid_from(buf, t as int, t as int, budget, (fuel - 1) as nat);
        },
        _ => {
            assert(all =~= Seq::<Seq<u8>>::empty());
        },
    }
}

} // verus!
