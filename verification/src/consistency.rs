//! Why a well formed message stays well formed when records are added to it.

use vstd::prelude::*;
use crate::error::Error;
use crate::lemmas::{
    lemma_answer_bounds, lemma_answers_bounds, lemma_decode_bounds, lemma_decode_relax,
    lemma_names_match_step, lemma_question_bounds, lemma_questions_bounds, lemma_with_name_len,
    lemma_with_name_unfold,
};
use crate::wire::{
    answer_at, answer_count, answer_tail, answers_end, answers_from, answers_hop_into, be16,
    be16_bytes, be32, be32_bytes, consistent, decode_from, decode_name, Decoded, depth,
    find_pointer, has_question_named, HEADER_SIZE, hops_into, label_at, label_bytes, labels_fit,
    labels_of, LabelType, max_int, MAX_LABEL_READS, MAX_NAME_LEN, MAX_POINTER, name_hops_into,
    name_labels, name_len, name_pointer, names_match, pointer_among, pointer_bytes,
    pointer_in_questions, question_at, question_count, question_named, questions_above,
    questions_depth, questions_end, questions_from, questions_ok, questions_settled, questions_span,
    records_ok, splice, stays_above, u16_at, u32_at, valid_labels, well_formed, wire_len,
    with_answer, with_name, with_question, with_u16,
};

verus! {

/// Whether two buffers hold the same bytes from offset `lo` up to `hi`.
pub open spec fn agree(a: Seq<u8>, b: Seq<u8>, lo: int, hi: int) -> bool {
    &&& 0 <= lo
    &&& hi <= a.len()
    &&& hi <= b.len()
    &&& forall|x: int| lo <= x < hi ==> a[x] == b[x]
}


/// What holds of an offset `p` that the search for a pointer found: a pointer
/// can express it, and the name that decodes there matches `target`, takes at
/// most `reads` reads, visits nothing below `lo` and reaches at most to `hi`.
pub open spec fn pointer_leads(
    buf: Seq<u8>,
    p: int,
    target: Seq<Seq<u8>>,
    lo: int,
    hi: int,
    reads: int,
) -> bool {
    &&& lo <= p <= MAX_POINTER
    &&& decode_name(buf, p) matches Ok(d)
    &&& names_match(labels_of(buf, d.labels), target)
    &&& d.visited.len() <= reads
    &&& d.reach <= hi
    &&& stays_above(d, lo)
}


/// What holds of the decoding `d` of a name that was written for `target`
/// so that it ends at offset `end`: it ends and reaches there, visits nothing
/// in the header, takes at most `reads` reads and finds labels that match
/// `target`.
pub open spec fn written_ok(
    buf: Seq<u8>,
    d: Decoded,
    target: Seq<Seq<u8>>,
    end: int,
    reads: int,
) -> bool {
    &&& d.end == end
    &&& d.reach == end
    &&& stays_above(d, HEADER_SIZE as int)
    &&& names_match(labels_of(buf, d.labels), target)
    &&& d.visited.len() <= reads
}

/// A name decodes in the same way, to the same labels, in two buffers that
/// agree on all that the decoding visits and reaches.
pub(crate) proof fn lemma_decode_agree(
    a: Seq<u8>,
    b: Seq<u8>,
    lo: int,
    hi: int,
    pos: int,
    limit: int,
    budget: int,
    fuel: nat,
)
    requires
        decode_from(a, pos, limit, budget, fuel) is Ok,
        stays_above(decode_from(a, pos, limit, budget, fuel).unwrap(), lo),
        decode_from(a, pos, limit, budget, fuel).unwrap().reach <= hi,
        agree(a, b, lo, hi),
    ensures
        decode_from(b, pos, limit, budget, fuel) == decode_from(a, pos, limit, budget, fuel),
        labels_of(b, decode_from(a, pos, limit, budget, fuel).unwrap().labels) == labels_of(
            a,
            decode_from(a, pos, limit, budget, fuel).unwrap().labels,
        ),
    decreases fuel,
{
    let d = decode_from(a, pos, limit, budget, fuel).unwrap();
    lemma_decode_bounds(a, pos, limit, budget, fuel);
    assert(d.visited[0] == pos);
    match label_at(a, pos) {
        Some(LabelType::Part(n)) => {
            let rest = decode_from(a, pos + 1 + n, limit, budget - n, (fuel - 1) as nat).unwrap();
            lemma_decode_bounds(a, pos + 1 + n, limit, budget - n, (fuel - 1) as nat);
            assert forall|k: int| 0 <= k < rest.visited.len() implies #[trigger] rest.visited[k]
                >= lo by {
                assert(d.visited[k + 1] == rest.visited[k]);
            }
            lemma_decode_agree(a, b, lo, hi, pos + 1 + n, limit, budget - n, (fuel - 1) as nat);
            assert(label_bytes(a, pos) =~= label_bytes(b, pos));
            assert forall|k: int| 0 <= k < d.labels.len() implies labels_of(b, d.labels)[k]
                == labels_of(a, d.labels)[k] by {
                if k > 0 {
                    assert(d.labels[k] == rest.labels[k - 1]);
                    assert(labels_of(b, rest.labels)[k - 1] == labels_of(a, rest.labels)[k - 1]);
                }
            }
            assert(labels_of(b, d.labels) =~= labels_of(a, d.labels));
        },
        Some(LabelType::Pointer(t)) => {
            let rest = decode_from(a, t as int, t as int, budget, (fuel - 1) as nat).unwrap();
            assert forall|k: int| 0 <= k < rest.visited.len() implies #[trigger] rest.visited[k]
                >= lo by {
                assert(d.visited[k + 1] == rest.visited[k]);
            }
            lemma_decode_agree(a, b, lo, hi, t as int, t as int, budget, (fuel - 1) as nat);
        },
        _ => {
            assert(labels_of(b, d.labels) =~= labels_of(a, d.labels));
        },
    }
}

/// A question reads in the same way in two buffers that agree on all that
/// it visits and reaches.
pub(crate) proof fn lemma_question_agree(a: Seq<u8>, b: Seq<u8>, lo: int, hi: int, i: int)
    requires
        question_at(a, i) is Ok,
        stays_above(decode_name(a, i).unwrap(), lo),
        question_at(a, i).unwrap().reach <= hi,
        agree(a, b, lo, hi),
    ensures
        question_at(b, i) == question_at(a, i),
        decode_name(b, i) == decode_name(a, i),
        labels_of(b, decode_name(a, i).unwrap().labels) == labels_of(
            a,
            decode_name(a, i).unwrap().labels,
        ),
{
    let d = decode_name(a, i).unwrap();
    lemma_question_bounds(a, i);
    lemma_decode_bounds(a, i, i, MAX_NAME_LEN as int, MAX_LABEL_READS as nat);
    assert(d.visited[0] == i);
    lemma_decode_agree(a, b, lo, hi, i, i, MAX_NAME_LEN as int, MAX_LABEL_READS as nat);
}

/// Questions read in the same way, stay as far above and go as deep in two
/// buffers that agree on all that they visit and reach.
pub(crate) proof fn lemma_questions_agree(a: Seq<u8>, b: Seq<u8>, lo: int, hi: int, i: int, n: nat)
    requires
        questions_from(a, i, n) is Ok,
        questions_above(a, i, n, lo),
        questions_from(a, i, n).unwrap().reach <= hi,
        agree(a, b, lo, hi),
    ensures
        questions_from(b, i, n) == questions_from(a, i, n),
        questions_above(b, i, n, lo),
        questions_depth(b, i, n) == questions_depth(a, i, n),
    decreases n,
{
    if n > 0 {
        let q = question_at(a, i).unwrap();
        lemma_questions_bounds(a, q.end, (n - 1) as nat);
        lemma_question_agree(a, b, lo, hi, i);
        lemma_questions_agree(a, b, lo, hi, q.end, (n - 1) as nat);
    }
}

/// The decoding that goes on behind a visited place stays as far above as
/// the whole.
pub(crate) proof fn lemma_rest_stays_above(d: Decoded, rest: Decoded, lo: int)
    requires
        stays_above(d, lo),
        d.visited == seq![d.visited[0]] + rest.visited,
    ensures
        stays_above(rest, lo),
        rest.visited.len() + 1 == d.visited.len(),
{
    assert forall|k: int| 0 <= k < rest.visited.len() implies #[trigger] rest.visited[k]
        >= lo by {
        assert(d.visited[k + 1] == rest.visited[k]);
    }
}

/// Where the search among the label boundaries of a name finds an offset,
/// the name that decodes there is a suffix of that name that matches the
/// target.
pub(crate) proof fn lemma_pointer_among_leads(
    buf: Seq<u8>,
    pos: int,
    limit: int,
    budget: int,
    fuel: nat,
    target: Seq<Seq<u8>>,
    lo: int,
)
    requires
        decode_from(buf, pos, limit, budget, fuel) is Ok,
        limit <= pos,
        budget <= MAX_NAME_LEN,
        fuel <= MAX_LABEL_READS,
        stays_above(decode_from(buf, pos, limit, budget, fuel).unwrap(), lo),
        pointer_among(
            buf,
            pos,
            decode_from(buf, pos, limit, budget, fuel).unwrap().labels,
            target,
        ) is Some,
    ensures
        pointer_leads(
            buf,
            pointer_among(
                buf,
                pos,
                decode_from(buf, pos, limit, budget, fuel).unwrap().labels,
                target,
            ).unwrap(),
            target,
            lo,
            decode_from(buf, pos, limit, budget, fuel).unwrap().reach,
            decode_from(buf, pos, limit, budget, fuel).unwrap().visited.len() as int,
        ),
    decreases fuel, 1int,
{
    let d = decode_from(buf, pos, limit, budget, fuel).unwrap();
    lemma_decode_bounds(buf, pos, limit, budget, fuel);
    if pos <= MAX_POINTER && names_match(labels_of(buf, d.labels), target) {
        lemma_decode_relax(
            buf,
            pos,
            limit,
            budget,
            fuel,
            pos,
            MAX_NAME_LEN as int,
            MAX_LABEL_READS as nat,
        );
        assert(d.visited[0] == pos);
    } else {
        lemma_pointer_behind_leads(buf, pos, limit, budget, fuel, target, lo);
    }
}

/// The same of an offset found behind the first label that is still to come.
pub(crate) proof fn lemma_pointer_behind_leads(
    buf: Seq<u8>,
    pos: int,
    limit: int,
    budget: int,
    fuel: nat,
    target: Seq<Seq<u8>>,
    lo: int,
)
    requires
        decode_from(buf, pos, limit, budget, fuel) is Ok,
        limit <= pos,
        budget <= MAX_NAME_LEN,
        fuel <= MAX_LABEL_READS,
        stays_above(decode_from(buf, pos, limit, budget, fuel).unwrap(), lo),
        decode_from(buf, pos, limit, budget, fuel).unwrap().labels.len() > 0,
        pointer_among(
            buf,
            decode_from(buf, pos, limit, budget, fuel).unwrap().labels[0] + 1 + buf[decode_from(
                buf,
                pos,
                limit,
                budget,
                fuel,
            ).unwrap().labels[0]] as int,
            decode_from(buf, pos, limit, budget, fuel).unwrap().labels.skip(1),
            target,
        ) is Some,
    ensures
        pointer_leads(
            buf,
            pointer_among(
                buf,
                decode_from(buf, pos, limit, budget, fuel).unwrap().labels[0] + 1
                    + buf[decode_from(buf, pos, limit, budget, fuel).unwrap().labels[0]] as int,
                decode_from(buf, pos, limit, budget, fuel).unwrap().labels.skip(1),
                target,
            ).unwrap(),
            target,
            lo,
            decode_from(buf, pos, limit, budget, fuel).unwrap().reach,
            decode_from(buf, pos, limit, budget, fuel).unwrap().visited.len() as int,
        ),
    decreases fuel, 0int,
{
    let d = decode_from(buf, pos, limit, budget, fuel).unwrap();
    match label_at(buf, pos) {
        Some(LabelType::Part(n)) => {
            let rest = decode_from(buf, pos + 1 + n, limit, budget - n, (fuel - 1) as nat).unwrap();
            lemma_rest_stays_above(d, rest, lo);
            assert(d.labels.skip(1) =~= rest.labels);
            assert(d.labels[0] == pos);
            lemma_pointer_among_leads(
                buf,
                pos + 1 + n,
                limit,
                budget - n,
                (fuel - 1) as nat,
                target,
                lo,
            );
        },
        Some(LabelType::Pointer(t)) => {
            let rest = decode_from(buf, t as int, t as int, budget, (fuel - 1) as nat).unwrap();
            lemma_rest_stays_above(d, rest, lo);
            lemma_pointer_behind_leads(buf, t as int, t as int, budget, (fuel - 1) as nat, target, lo);
        },
        _ => {},
    }
}

/// Where the search among the questions finds an offset, the name that
/// decodes there matches the target, stays as far above as the names of the
/// questions, reaches no further and takes no more reads.
pub(crate) proof fn lemma_found_pointer_leads(buf: Seq<u8>, i: int, n: nat, target: Seq<Seq<u8>>, lo: int)
    requires
        questions_from(buf, i, n) is Ok,
        questions_above(buf, i, n, lo),
        pointer_in_questions(buf, i, n, target) is Some,
    ensures
        pointer_leads(
            buf,
            pointer_in_questions(buf, i, n, target).unwrap(),
            target,
            lo,
            questions_from(buf, i, n).unwrap().reach,
            questions_depth(buf, i, n),
        ),
    decreases n,
{
    if n > 0 {
        let q = question_at(buf, i).unwrap();
        lemma_questions_bounds(buf, q.end, (n - 1) as nat);
        if name_pointer(buf, i, target) is Some {
            lemma_pointer_among_leads(
                buf,
                i,
                i,
                MAX_NAME_LEN as int,
                MAX_LABEL_READS as nat,
                target,
                lo,
            );
        } else {
            lemma_found_pointer_leads(buf, q.end, (n - 1) as nat, target, lo);
        }
    }
}

/// Names that match have labels of the same lengths.
pub(crate) proof fn lemma_match_same_len(a: Seq<Seq<u8>>, b: Seq<Seq<u8>>)
    requires
        names_match(a, b),
    ensures
        name_len(a) == name_len(b),
    decreases a.len(),
{
    if a.len() > 0 {
        lemma_names_match_step(a, b);
        lemma_match_same_len(a.skip(1), b.skip(1));
    }
}

/// A decoding that succeeds needs no more budget than the bytes of the
/// labels it finds, and no more fuel than the reads it takes.
pub(crate) proof fn lemma_decode_tight(
    buf: Seq<u8>,
    pos: int,
    limit: int,
    budget: int,
    fuel: nat,
    budget2: int,
    fuel2: nat,
)
    requires
        decode_from(buf, pos, limit, budget, fuel) is Ok,
        name_len(labels_of(buf, decode_from(buf, pos, limit, budget, fuel).unwrap().labels))
            <= budget2,
        decode_from(buf, pos, limit, budget, fuel).unwrap().visited.len() <= fuel2,
    ensures
        decode_from(buf, pos, limit, budget2, fuel2) == decode_from(buf, pos, limit, budget, fuel),
    decreases fuel,
{
    let d = decode_from(buf, pos, limit, budget, fuel).unwrap();
    match label_at(buf, pos) {
        Some(LabelType::Part(n)) => {
            let rest = decode_from(buf, pos + 1 + n, limit, budget - n, (fuel - 1) as nat).unwrap();
            assert(labels_of(buf, d.labels).skip(1) =~= labels_of(buf, rest.labels));
            assert(labels_of(buf, d.labels)[0] == label_bytes(buf, pos));
            assert(label_bytes(buf, pos).len() == n);
            lemma_name_len_min(labels_of(buf, rest.labels));
            lemma_decode_tight(
                buf,
                pos + 1 + n,
                limit,
                budget - n,
                (fuel - 1) as nat,
                budget2 - n,
                (fuel2 - 1) as nat,
            );
        },
        Some(LabelType::Pointer(t)) => {
            lemma_decode_tight(
                buf,
                t as int,
                t as int,
                budget,
                (fuel - 1) as nat,
                budget2,
                (fuel2 - 1) as nat,
            );
        },
        _ => {},
    }
}

/// The summed lengths of labels are not negative.
pub(crate) proof fn lemma_name_len_min(labels: Seq<Seq<u8>>)
    ensures
        name_len(labels) >= 0,
    decreases labels.len(),
{
    if labels.len() > 0 {
        lemma_name_len_min(labels.skip(1));
    }
}

/// A change behind what the questions of a message reach leaves the
/// questions as they are.
pub(crate) proof fn lemma_settled_extends(m: Seq<u8>, g: Seq<u8>, hi: int)
    requires
        questions_settled(m, hi),
        hi <= g.len(),
        g.take(hi) == m.take(hi),
    ensures
        questions_settled(g, hi),
        question_count(g) == question_count(m),
        questions_span(g) == questions_span(m),
        depth(g) == depth(m),
{
    assert forall|x: int| 0 <= x < hi implies m[x] == g[x] by {
        assert(g[x] == g.take(hi)[x]);
        assert(m[x] == m.take(hi)[x]);
    }
    assert(g[4] == m[4] && g[5] == m[5]);
    lemma_questions_agree(
        m,
        g,
        HEADER_SIZE as int,
        hi,
        HEADER_SIZE as int,
        question_count(m),
    );
}

/// The pointer bytes of an offset that a pointer can express read as a
/// pointer to that offset.
pub(crate) proof fn lemma_pointer_bytes_read(buf: Seq<u8>, at: int, p: int)
    requires
        0 <= p <= MAX_POINTER,
        0 <= at,
        at + 2 <= buf.len(),
        buf[at] == pointer_bytes(p)[0],
        buf[at + 1] == pointer_bytes(p)[1],
    ensures
        label_at(buf, at) == Some(LabelType::Pointer(p as u16)),
{
    assert(p / 256 <= 63);
    assert((p / 256) * 256 + p % 256 == p);
}

/// Where the bytes of a buffer with `bytes` inserted at offset `at` come
/// from.
pub(crate) proof fn lemma_splice_bytes(m: Seq<u8>, at: int, bytes: Seq<u8>)
    requires
        0 <= at <= m.len(),
    ensures
        splice(m, at, bytes).len() == m.len() + bytes.len(),
        splice(m, at, bytes).take(at) == m.take(at),
        forall|x: int| 0 <= x < at ==> splice(m, at, bytes)[x] == m[x],
        forall|x: int| 0 <= x < bytes.len() ==> splice(m, at, bytes)[at + x] == bytes[x],
        forall|x: int| at <= x < m.len() ==> splice(m, at, bytes)[x + bytes.len()] == m[x],
{
    assert(splice(m, at, bytes).take(at) =~= m.take(at));
}

/// The decoding of a name that was written as a pointer.
pub(crate) proof fn lemma_written_pointer(
    m: Seq<u8>,
    r: Seq<u8>,
    at: int,
    hi: int,
    limit: int,
    budget: int,
    fuel: nat,
    t: Seq<Seq<u8>>,
    p: int,
)
    requires
        questions_settled(m, hi),
        hi <= limit <= at <= m.len(),
        name_len(t) <= budget <= MAX_NAME_LEN,
        1 + depth(m) <= fuel <= MAX_LABEL_READS,
        find_pointer(m, t) == Some(p),
        r.len() == m.len() + 2,
        at + 2 <= r.len(),
        forall|x: int| 0 <= x < at ==> r[x] == m[x],
        r[at] == pointer_bytes(p)[0],
        r[at + 1] == pointer_bytes(p)[1],
    ensures
        decode_from(r, at, limit, budget, fuel) is Ok,
        written_ok(r, decode_from(r, at, limit, budget, fuel).unwrap(), t, at + 2, 1 + depth(m)),
        hops_into(r, at, limit, budget, fuel, HEADER_SIZE as int, hi),
{
    let qc = question_count(m);
    lemma_found_pointer_leads(m, HEADER_SIZE as int, qc, t, HEADER_SIZE as int);
    let dp = decode_name(m, p).unwrap();
    lemma_decode_bounds(m, p, p, MAX_NAME_LEN as int, MAX_LABEL_READS as nat);
    assert(agree(m, r, HEADER_SIZE as int, hi));
    lemma_decode_agree(
        m,
        r,
        HEADER_SIZE as int,
        hi,
        p,
        p,
        MAX_NAME_LEN as int,
        MAX_LABEL_READS as nat,
    );
    lemma_match_same_len(labels_of(m, dp.labels), t);
    lemma_decode_tight(
        r,
        p,
        p,
        MAX_NAME_LEN as int,
        MAX_LABEL_READS as nat,
        budget,
        (fuel - 1) as nat,
    );
    lemma_pointer_bytes_read(r, at, p);
    let d = decode_from(r, at, limit, budget, fuel).unwrap();
    assert(d.visited == seq![at] + dp.visited);
    assert(stays_above(d, HEADER_SIZE as int)) by {
        assert forall|k: int| 0 <= k < d.visited.len() implies #[trigger] d.visited[k]
            >= HEADER_SIZE by {
            if k > 0 {
                assert(d.visited[k] == dp.visited[k - 1]);
            }
        }
    }
}

/// The decoding of a name whose first label was written out, where the rest
/// of the name decodes behind it.
pub(crate) proof fn lemma_written_label(
    r: Seq<u8>,
    at: int,
    hi: int,
    limit: int,
    budget: int,
    fuel: nat,
    t: Seq<Seq<u8>>,
    end: int,
    reads: int,
)
    requires
        HEADER_SIZE <= hi <= limit <= at,
        t.len() > 0,
        1 <= t[0].len() <= 63,
        0 <= name_len(t.skip(1)),
        name_len(t) <= budget,
        fuel >= 1,
        at + 1 + t[0].len() < r.len(),
        r[at] == t[0].len() as u8,
        forall|x: int| 0 <= x < t[0].len() ==> r[at + 1 + x] == t[0][x],
        decode_from(
            r,
            at + 1 + t[0].len(),
            limit,
            budget - t[0].len(),
            (fuel - 1) as nat,
        ) is Ok,
        written_ok(
            r,
            decode_from(
                r,
                at + 1 + t[0].len(),
                limit,
                budget - t[0].len(),
                (fuel - 1) as nat,
            ).unwrap(),
            t.skip(1),
            end,
            reads - 1,
        ),
        hops_into(
            r,
            at + 1 + t[0].len(),
            limit,
            budget - t[0].len(),
            (fuel - 1) as nat,
            HEADER_SIZE as int,
            hi,
        ),
    ensures
        decode_from(r, at, limit, budget, fuel) is Ok,
        written_ok(r, decode_from(r, at, limit, budget, fuel).unwrap(), t, end, reads),
        hops_into(r, at, limit, budget, fuel, HEADER_SIZE as int, hi),
{
    let l = t[0].len() as int;
    let next = at + 1 + l;
    let rest = decode_from(r, next, limit, budget - l, (fuel - 1) as nat).unwrap();
    assert(label_at(r, at) == Some(LabelType::Part(l as u8)));
    let d = decode_from(r, at, limit, budget, fuel).unwrap();
    assert(d.visited == seq![at] + rest.visited);
    assert(d.labels == seq![at] + rest.labels);
    assert(label_bytes(r, at) =~= t[0]);
    assert(labels_of(r, d.labels)[0] == t[0]);
    assert(labels_of(r, d.labels).skip(1) =~= labels_of(r, rest.labels));
    lemma_names_match_step(labels_of(r, d.labels), t);
    assert(stays_above(d, HEADER_SIZE as int)) by {
        assert forall|k: int| 0 <= k < d.visited.len() implies #[trigger] d.visited[k]
            >= HEADER_SIZE by {
            if k > 0 {
                assert(d.visited[k] == rest.visited[k - 1]);
            }
        }
    }
}

/// A name that was written into a message behind what its questions reach
/// decodes where it was written: to labels that match the name, up to the end
/// of what was written, and without a visit to the header or to anything
/// behind it.
///
/// `hi` bounds what the questions of the message reach, and `limit`, `budget`
/// and `fuel` are the state of the decoding as it arrives at `at`.
pub(crate) proof fn lemma_written_name_decodes(
    m: Seq<u8>,
    at: int,
    hi: int,
    limit: int,
    budget: int,
    fuel: nat,
    t: Seq<Seq<u8>>,
)
    requires
        questions_settled(m, hi),
        hi <= limit <= at <= m.len(),
        labels_fit(t),
        name_len(t) <= budget <= MAX_NAME_LEN,
        t.len() + 1 + depth(m) <= fuel <= MAX_LABEL_READS,
    ensures
        with_name(m, at, t).take(at) == m.take(at),
        decode_from(with_name(m, at, t), at, limit, budget, fuel) is Ok,
        written_ok(
            with_name(m, at, t),
            decode_from(with_name(m, at, t), at, limit, budget, fuel).unwrap(),
            t,
            at + with_name(m, at, t).len() - m.len(),
            t.len() + 1 + depth(m),
        ),
        hops_into(with_name(m, at, t), at, limit, budget, fuel, HEADER_SIZE as int, hi),
    decreases t.len(),
{
    let r = with_name(m, at, t);
    lemma_with_name_unfold(m, at, t);
    lemma_with_name_len(m, at, t);
    lemma_questions_depth_min(m, HEADER_SIZE as int, question_count(m));
    match find_pointer(m, t) {
        Some(p) => {
            lemma_splice_bytes(m, at, pointer_bytes(p));
            lemma_written_pointer(m, r, at, hi, limit, budget, fuel, t, p);
        },
        None => {
            if t.len() == 0 {
                lemma_splice_bytes(m, at, seq![0u8]);
                assert(label_at(r, at) == Some(LabelType::End));
                let d = decode_from(r, at, limit, budget, fuel).unwrap();
                assert(labels_of(r, d.labels) =~= t);
            } else {
                let l = t[0].len() as int;
                let g = splice(m, at, seq![l as u8] + t[0]);
                let next = at + 1 + l;
                lemma_splice_bytes(m, at, seq![l as u8] + t[0]);
                assert(g.take(hi) =~= m.take(hi));
                lemma_settled_extends(m, g, hi);
                lemma_name_len_min(t.skip(1));
                lemma_written_name_decodes(
                    g,
                    next,
                    hi,
                    limit,
                    budget - l,
                    (fuel - 1) as nat,
                    t.skip(1),
                );
                lemma_decode_bounds(r, next, limit, budget - l, (fuel - 1) as nat);
                assert forall|x: int| 0 <= x < next implies r[x] == g[x] by {
                    assert(r[x] == r.take(next)[x]);
                    assert(g[x] == g.take(next)[x]);
                }
                assert(r[at] == l as u8) by {
                    assert(g[at + 0] == (seq![l as u8] + t[0])[0]);
                }
                assert forall|x: int| 0 <= x < l implies r[at + 1 + x] == t[0][x] by {
                    assert(g[at + (1 + x)] == (seq![l as u8] + t[0])[1 + x]);
                }
                lemma_written_label(
                    r,
                    at,
                    hi,
                    limit,
                    budget,
                    fuel,
                    t,
                    next + r.len() - g.len(),
                    t.len() + 1 + depth(m),
                );
                assert(r.take(at) =~= m.take(at)) by {
                    assert forall|x: int| 0 <= x < at implies r[x] == m[x] by {
                        assert(r[x] == g[x]);
                    }
                }
            }
        },
    }
}

/// No message has a negative depth.
pub(crate) proof fn lemma_questions_depth_min(buf: Seq<u8>, i: int, n: nat)
    ensures
        questions_depth(buf, i, n) >= 0,
    decreases n,
{
    if n > 0 && question_at(buf, i) is Ok {
        lemma_questions_depth_min(buf, question_at(buf, i).unwrap().end, (n - 1) as nat);
    }
}

/// Two pairs of bytes that denote the same number are the same bytes.
pub(crate) proof fn lemma_be16_injective(a: u8, b: u8, c: u8, d: u8)
    requires
        be16(a, b) == be16(c, d),
    ensures
        a == c,
        b == d,
{
}

/// A number below 65536 is read back from the two bytes it is written as.
pub(crate) proof fn lemma_be16_round_trip(v: int)
    requires
        0 <= v < 65536,
    ensures
        be16(be16_bytes(v)[0], be16_bytes(v)[1]) == v,
        be16_bytes(v).len() == 2,
{
}

/// A number below 2^32 is read back from the four bytes it is written as.
pub(crate) proof fn lemma_be32_round_trip(v: int)
    requires
        0 <= v < 4294967296,
    ensures
        be32(be32_bytes(v)[0], be32_bytes(v)[1], be32_bytes(v)[2], be32_bytes(v)[3]) == v,
        be32_bytes(v).len() == 4,
{
}

/// A question that can be read behind a row of questions makes the row one
/// longer.
pub(crate) proof fn lemma_questions_snoc(buf: Seq<u8>, i: int, n: nat, lo: int, target: Seq<Seq<u8>>)
    requires
        questions_from(buf, i, n) is Ok,
        question_at(buf, questions_from(buf, i, n).unwrap().end) is Ok,
    ensures
        questions_from(buf, i, n + 1) is Ok,
        questions_from(buf, i, n + 1).unwrap().end == question_at(
            buf,
            questions_from(buf, i, n).unwrap().end,
        ).unwrap().end,
        questions_from(buf, i, n + 1).unwrap().reach == max_int(
            questions_from(buf, i, n).unwrap().reach,
            question_at(buf, questions_from(buf, i, n).unwrap().end).unwrap().reach,
        ),
        questions_above(buf, i, n, lo) && stays_above(
            decode_name(buf, questions_from(buf, i, n).unwrap().end).unwrap(),
            lo,
        ) ==> questions_above(buf, i, n + 1, lo),
        questions_depth(buf, i, n + 1) == max_int(
            questions_depth(buf, i, n),
            decode_name(buf, questions_from(buf, i, n).unwrap().end).unwrap().visited.len() as int,
        ),
        names_match(name_labels(buf, questions_from(buf, i, n).unwrap().end), target)
            ==> question_named(buf, i, n + 1, target),
    decreases n,
{
    let s = questions_from(buf, i, n).unwrap();
    lemma_question_bounds(buf, s.end);
    let m = (n + 1) as nat;
    if n > 0 {
        let q0 = question_at(buf, i).unwrap();
        lemma_questions_snoc(buf, q0.end, (n - 1) as nat, lo, target);
        assert((m - 1) as nat == n);
        assert(questions_from(buf, q0.end, (m - 1) as nat) == questions_from(buf, q0.end, n));
        assert(questions_depth(buf, q0.end, (m - 1) as nat) == questions_depth(buf, q0.end, n));
        if questions_above(buf, i, n, lo) && stays_above(decode_name(buf, s.end).unwrap(), lo) {
            assert(questions_above(buf, q0.end, (n - 1) as nat, lo));
            assert(questions_above(buf, q0.end, (m - 1) as nat, lo));
            assert(questions_above(buf, i, m, lo));
        }
        assert(questions_depth(buf, i, m) == max_int(
            decode_name(buf, i).unwrap().visited.len() as int,
            questions_depth(buf, q0.end, (m - 1) as nat),
        ));
    } else {
        let q = question_at(buf, i).unwrap();
        assert((m - 1) as nat == 0);
        assert(questions_from(buf, q.end, 0) is Ok);
        assert(questions_above(buf, q.end, 0, lo));
        assert(questions_depth(buf, q.end, 0) == 0);
        assert(questions_depth(buf, i, m) == max_int(
            decode_name(buf, i).unwrap().visited.len() as int,
            questions_depth(buf, q.end, (m - 1) as nat),
        ));
        if stays_above(decode_name(buf, s.end).unwrap(), lo) {
            assert(questions_above(buf, i, m, lo));
        }
    }
}

/// An answer that can be read behind a row of answers makes the row one
/// longer.
pub(crate) proof fn lemma_answers_snoc(buf: Seq<u8>, i: int, n: nat)
    requires
        answers_from(buf, i, n) is Ok,
        answer_at(buf, answers_from(buf, i, n).unwrap().end) is Ok,
    ensures
        answers_from(buf, i, n + 1) is Ok,
        answers_from(buf, i, n + 1).unwrap().end == answer_at(
            buf,
            answers_from(buf, i, n).unwrap().end,
        ).unwrap().end,
    decreases n,
{
    let s = answers_from(buf, i, n).unwrap();
    lemma_answer_bounds(buf, s.end);
    let m = (n + 1) as nat;
    if n > 0 {
        let a0 = answer_at(buf, i).unwrap();
        lemma_answers_snoc(buf, a0.end, (n - 1) as nat);
        assert((m - 1) as nat == n);
        assert(answers_from(buf, a0.end, (m - 1) as nat) == answers_from(buf, a0.end, n));
    } else {
        let a = answer_at(buf, i).unwrap();
        assert((m - 1) as nat == 0);
        assert(answers_from(buf, a.end, 0) is Ok);
    }
}

/// A name that leaves its record only for places from `lo` up to `hi`
/// decodes, without a visit below `lo`.
pub(crate) proof fn lemma_hops_decode(
    buf: Seq<u8>,
    pos: int,
    limit: int,
    budget: int,
    fuel: nat,
    lo: int,
    hi: int,
)
    requires
        hops_into(buf, pos, limit, budget, fuel, lo, hi),
        lo <= pos,
    ensures
        decode_from(buf, pos, limit, budget, fuel) is Ok,
        stays_above(decode_from(buf, pos, limit, budget, fuel).unwrap(), lo),
        decode_from(buf, pos, limit, budget, fuel).unwrap().reach <= max_int(
            decode_from(buf, pos, limit, budget, fuel).unwrap().end,
            hi,
        ),
    decreases fuel,
{
    match label_at(buf, pos) {
        Some(LabelType::Part(n)) => {
            lemma_hops_decode(buf, pos + 1 + n, limit, budget - n, (fuel - 1) as nat, lo, hi);
            let d = decode_from(buf, pos, limit, budget, fuel).unwrap();
            let rest = decode_from(buf, pos + 1 + n, limit, budget - n, (fuel - 1) as nat).unwrap();
            assert forall|k: int| 0 <= k < d.visited.len() implies #[trigger] d.visited[k]
                >= lo by {
                if k > 0 {
                    assert(d.visited[k] == rest.visited[k - 1]);
                }
            }
        },
        Some(LabelType::Pointer(t)) => {
            let d = decode_from(buf, pos, limit, budget, fuel).unwrap();
            let rest = decode_from(buf, t as int, t as int, budget, (fuel - 1) as nat).unwrap();
            assert forall|k: int| 0 <= k < d.visited.len() implies #[trigger] d.visited[k]
                >= lo by {
                if k > 0 {
                    assert(d.visited[k] == rest.visited[k - 1]);
                }
            }
        },
        _ => {},
    }
}

/// A name that leaves its record only for places from `lo` up to `hi`
/// decodes in the same way when its record has moved back by `shift` bytes and
/// the places from `lo` up to `hi` are as they were.
pub(crate) proof fn lemma_decode_shift(
    a: Seq<u8>,
    b: Seq<u8>,
    shift: int,
    pos: int,
    limit: int,
    budget: int,
    fuel: nat,
    lo: int,
    hi: int,
)
    requires
        hops_into(a, pos, limit, budget, fuel, lo, hi),
        lo <= hi <= limit <= pos,
        0 <= shift,
        agree(a, b, lo, hi),
        decode_from(a, pos, limit, budget, fuel) is Ok,
        decode_from(a, pos, limit, budget, fuel).unwrap().end + shift <= b.len(),
        forall|x: int|
            pos <= x < decode_from(a, pos, limit, budget, fuel).unwrap().end ==> b[x + shift]
                == a[x],
    ensures
        decode_from(b, pos + shift, limit + shift, budget, fuel) is Ok,
        decode_from(b, pos + shift, limit + shift, budget, fuel).unwrap().end == decode_from(
            a,
            pos,
            limit,
            budget,
            fuel,
        ).unwrap().end + shift,
        decode_from(b, pos + shift, limit + shift, budget, fuel).unwrap().visited.len()
            == decode_from(a, pos, limit, budget, fuel).unwrap().visited.len(),
        labels_of(b, decode_from(b, pos + shift, limit + shift, budget, fuel).unwrap().labels)
            == labels_of(a, decode_from(a, pos, limit, budget, fuel).unwrap().labels),
        hops_into(b, pos + shift, limit + shift, budget, fuel, lo, hi),
    decreases fuel,
{
    let d = decode_from(a, pos, limit, budget, fuel).unwrap();
    lemma_decode_bounds(a, pos, limit, budget, fuel);
    assert(b[pos + shift] == a[pos]);
    match label_at(a, pos) {
        Some(LabelType::Part(n)) => {
            let rest = decode_from(a, pos + 1 + n, limit, budget - n, (fuel - 1) as nat).unwrap();
            lemma_decode_bounds(a, pos + 1 + n, limit, budget - n, (fuel - 1) as nat);
            lemma_decode_shift(
                a,
                b,
                shift,
                pos + 1 + n,
                limit,
                budget - n,
                (fuel - 1) as nat,
                lo,
                hi,
            );
            assert(label_at(b, pos + shift) == Some(LabelType::Part(n)));
            let d2 = decode_from(b, pos + shift, limit + shift, budget, fuel).unwrap();
            let rest2 = decode_from(
                b,
                (pos + 1 + n) + shift,
                limit + shift,
                budget - n,
                (fuel - 1) as nat,
            ).unwrap();
            assert((pos + 1 + n) + shift == pos + shift + 1 + n);
            assert(label_bytes(b, pos + shift) =~= label_bytes(a, pos)) by {
                assert forall|x: int| 0 <= x < n implies #[trigger] label_bytes(b, pos + shift)[x]
                    == label_bytes(a, pos)[x] by {
                    assert(b[(pos + 1 + x) + shift] == a[pos + 1 + x]);
                }
            }
            assert(d2.labels == seq![pos + shift] + rest2.labels);
            assert(d.labels == seq![pos] + rest.labels);
            assert(labels_of(b, rest2.labels).len() == labels_of(a, rest.labels).len());
            assert(labels_of(b, d2.labels) =~= labels_of(a, d.labels)) by {
                assert forall|k: int| 0 <= k < d.labels.len() implies labels_of(b, d2.labels)[k]
                    == labels_of(a, d.labels)[k] by {
                    if k > 0 {
                        assert(d2.labels[k] == rest2.labels[k - 1]);
                        assert(d.labels[k] == rest.labels[k - 1]);
                        assert(labels_of(b, rest2.labels)[k - 1] == labels_of(a, rest.labels)[k
                            - 1]);
                    }
                }
            }
        },
        Some(LabelType::Pointer(t)) => {
            assert(b[(pos + 1) + shift] == a[pos + 1]);
            assert(label_at(b, pos + shift) == Some(LabelType::Pointer(t)));
            lemma_decode_agree(a, b, lo, hi, t as int, t as int, budget, (fuel - 1) as nat);
        },
        _ => {
            assert(label_at(b, pos + shift) == Some(LabelType::End));
            let d2 = decode_from(b, pos + shift, limit + shift, budget, fuel).unwrap();
            assert(labels_of(b, d2.labels) =~= labels_of(a, d.labels));
        },
    }
}

/// An answer whose name leaves it only for places from `lo` up to `hi` reads
/// in the same way when it has moved back by `shift` bytes and those places
/// are as they were.
pub(crate) proof fn lemma_answer_shift(
    a: Seq<u8>,
    b: Seq<u8>,
    shift: int,
    i: int,
    lo: int,
    hi: int,
)
    requires
        answer_at(a, i) is Ok,
        name_hops_into(a, i, lo, hi),
        lo <= hi <= i,
        0 <= shift,
        agree(a, b, lo, hi),
        answer_at(a, i).unwrap().end + shift <= b.len(),
        forall|x: int| i <= x < answer_at(a, i).unwrap().end ==> b[x + shift] == a[x],
    ensures
        answer_at(b, i + shift) is Ok,
        answer_at(b, i + shift).unwrap().end == answer_at(a, i).unwrap().end + shift,
        answer_at(b, i + shift).unwrap().kind == answer_at(a, i).unwrap().kind,
        answer_at(b, i + shift).unwrap().class == answer_at(a, i).unwrap().class,
        answer_at(b, i + shift).unwrap().ttl == answer_at(a, i).unwrap().ttl,
        answer_at(b, i + shift).unwrap().rdata_len == answer_at(a, i).unwrap().rdata_len,
        answer_at(b, i + shift).unwrap().rdata_at == answer_at(a, i).unwrap().rdata_at + shift,
        name_labels(b, i + shift) == name_labels(a, i),
        name_hops_into(b, i + shift, lo, hi),
{
    let d = decode_name(a, i).unwrap();
    let r = answer_at(a, i).unwrap();
    lemma_answer_bounds(a, i);
    lemma_decode_bounds(a, i, i, MAX_NAME_LEN as int, MAX_LABEL_READS as nat);
    lemma_decode_shift(
        a,
        b,
        shift,
        i,
        i,
        MAX_NAME_LEN as int,
        MAX_LABEL_READS as nat,
        lo,
        hi,
    );
    let e = d.end;
    assert(b[(e + 0) + shift] == a[e + 0] && b[(e + 1) + shift] == a[e + 1] && b[(e + 2) + shift]
        == a[e + 2] && b[(e + 3) + shift] == a[e + 3] && b[(e + 4) + shift] == a[e + 4] && b[(e
        + 5) + shift] == a[e + 5] && b[(e + 6) + shift] == a[e + 6] && b[(e + 7) + shift] == a[e
        + 7] && b[(e + 8) + shift] == a[e + 8] && b[(e + 9) + shift] == a[e + 9]);
}

/// Answers whose names leave them only for places from `lo` up to `hi` read
/// in the same way when they have moved back by `shift` bytes and those
/// places are as they were.
pub(crate) proof fn lemma_answers_shift(
    a: Seq<u8>,
    b: Seq<u8>,
    shift: int,
    i: int,
    n: nat,
    lo: int,
    hi: int,
)
    requires
        answers_from(a, i, n) is Ok,
        answers_hop_into(a, i, n, lo, hi),
        lo <= hi <= i,
        0 <= shift,
        agree(a, b, lo, hi),
        answers_from(a, i, n).unwrap().end + shift <= b.len(),
        forall|x: int| i <= x < answers_from(a, i, n).unwrap().end ==> b[x + shift] == a[x],
    ensures
        answers_from(b, i + shift, n) is Ok,
        answers_from(b, i + shift, n).unwrap().end == answers_from(a, i, n).unwrap().end + shift,
        answers_hop_into(b, i + shift, n, lo, hi),
    decreases n,
{
    if n > 0 {
        let r = answer_at(a, i).unwrap();
        lemma_answer_bounds(a, i);
        lemma_answers_bounds(a, r.end, (n - 1) as nat);
        lemma_answer_shift(a, b, shift, i, lo, hi);
        lemma_answers_shift(a, b, shift, r.end, (n - 1) as nat, lo, hi);
    }
}

/// An answer that can be read behind a row of answers whose names leave them
/// only for places from `lo` up to `hi`, and whose own name does so, makes the
/// row one longer.
pub(crate) proof fn lemma_answers_hop_snoc(buf: Seq<u8>, i: int, n: nat, lo: int, hi: int)
    requires
        answers_from(buf, i, n) is Ok,
        answers_hop_into(buf, i, n, lo, hi),
        answer_at(buf, answers_from(buf, i, n).unwrap().end) is Ok,
        name_hops_into(buf, answers_from(buf, i, n).unwrap().end, lo, hi),
    ensures
        answers_hop_into(buf, i, n + 1, lo, hi),
    decreases n,
{
    let m = (n + 1) as nat;
    if n > 0 {
        let a0 = answer_at(buf, i).unwrap();
        lemma_answers_hop_snoc(buf, a0.end, (n - 1) as nat, lo, hi);
        assert((m - 1) as nat == n);
        assert(answers_hop_into(buf, a0.end, (m - 1) as nat, lo, hi));
    } else {
        let a = answer_at(buf, i).unwrap();
        assert((m - 1) as nat == 0);
        assert(answers_hop_into(buf, a.end, 0, lo, hi));
    }
}

/// The fields of an answer are read back from the bytes they were written
/// as.
pub(crate) proof fn lemma_tail_reads(r: Seq<u8>, e: int, kind: u16, class: u16, ttl: u32, rdata: Seq<u8>)
    requires
        0 <= e,
        rdata.len() <= 65535,
        r.len() == e + 10 + rdata.len(),
        forall|x: int|
            0 <= x < 10 + rdata.len() ==> r[e + x] == #[trigger] answer_tail(
                kind,
                class,
                ttl,
                rdata,
            )[x],
    ensures
        u16_at(r, e) == Ok::<int, Error>(kind as int),
        u16_at(r, e + 2) == Ok::<int, Error>(class as int),
        u32_at(r, e + 4) == Ok::<int, Error>(ttl as int),
        u16_at(r, e + 8) == Ok::<int, Error>(rdata.len() as int),
        r.subrange(e + 10, r.len() as int) == rdata,
        answer_tail(kind, class, ttl, rdata).len() == 10 + rdata.len(),
{
    let tail = answer_tail(kind, class, ttl, rdata);
    lemma_be16_round_trip(kind as int);
    lemma_be16_round_trip(class as int);
    lemma_be32_round_trip(ttl as int);
    lemma_be16_round_trip(rdata.len() as int);
    let k = be16_bytes(kind as int);
    let c = be16_bytes(class as int);
    let t = be32_bytes(ttl as int);
    let n = be16_bytes(rdata.len() as int % 65536);
    assert(tail.len() == 10 + rdata.len());
    assert(tail[0] == k[0] && tail[1] == k[1]);
    assert(tail[2] == c[0] && tail[3] == c[1]);
    assert(tail[4] == t[0] && tail[5] == t[1] && tail[6] == t[2] && tail[7] == t[3]);
    assert(tail[8] == n[0] && tail[9] == n[1]);
    assert(r[e + 0] == tail[0] && r[e + 1] == tail[1] && r[e + 2] == tail[2] && r[e + 3]
        == tail[3] && r[e + 4] == tail[4] && r[e + 5] == tail[5] && r[e + 6] == tail[6] && r[e
        + 7] == tail[7] && r[e + 8] == tail[8] && r[e + 9] == tail[9]);
    assert(r.subrange(e + 10, r.len() as int) =~= rdata) by {
        assert forall|x: int| 0 <= x < rdata.len() implies r[e + 10 + x] == rdata[x] by {
            assert(tail[10 + x] == rdata[x]);
            assert(r[e + (10 + x)] == tail[10 + x]);
        }
    }
}

/// The answer behind a name that decodes, where the fields of an answer were
/// written behind the name and fill the rest of the buffer.
pub(crate) proof fn lemma_appended_answer_reads(
    r: Seq<u8>,
    at: int,
    kind: u16,
    class: u16,
    ttl: u32,
    rdata: Seq<u8>,
)
    requires
        decode_name(r, at) is Ok,
        decode_name(r, at).unwrap().reach <= r.len(),
        0 <= decode_name(r, at).unwrap().end,
        rdata.len() <= 65535,
        r.len() == decode_name(r, at).unwrap().end + 10 + rdata.len(),
        forall|x: int|
            0 <= x < 10 + rdata.len() ==> r[decode_name(r, at).unwrap().end + x]
                == #[trigger] answer_tail(kind, class, ttl, rdata)[x],
    ensures
        answer_at(r, at) matches Ok(a) && a.kind == kind && a.class == class && a.ttl == ttl
            && a.rdata_len == rdata.len() && a.end == r.len() && a.reach == r.len()
            && a.rdata_at == decode_name(r, at).unwrap().end + 10,
        r.subrange(decode_name(r, at).unwrap().end + 10, r.len() as int) == rdata,
{
    lemma_tail_reads(r, decode_name(r, at).unwrap().end, kind, class, ttl, rdata);
}

/// A name that leaves its record only for places up to `hi` leaves it only
/// for places up to any later `hi2`.
pub(crate) proof fn lemma_hops_widen(
    buf: Seq<u8>,
    pos: int,
    limit: int,
    budget: int,
    fuel: nat,
    lo: int,
    hi: int,
    hi2: int,
)
    requires
        hops_into(buf, pos, limit, budget, fuel, lo, hi),
        hi <= hi2,
    ensures
        hops_into(buf, pos, limit, budget, fuel, lo, hi2),
    decreases fuel,
{
    match label_at(buf, pos) {
        Some(LabelType::Part(n)) => {
            lemma_hops_widen(buf, pos + 1 + n, limit, budget - n, (fuel - 1) as nat, lo, hi, hi2);
        },
        _ => {},
    }
}

/// The same of the names of answers in a row.
pub(crate) proof fn lemma_answers_hop_widen(buf: Seq<u8>, i: int, n: nat, lo: int, hi: int, hi2: int)
    requires
        answers_hop_into(buf, i, n, lo, hi),
        hi <= hi2,
    ensures
        answers_hop_into(buf, i, n, lo, hi2),
    decreases n,
{
    if n > 0 {
        lemma_hops_widen(
            buf,
            i,
            i,
            MAX_NAME_LEN as int,
            MAX_LABEL_READS as nat,
            lo,
            hi,
            hi2,
        );
        lemma_answers_hop_widen(buf, answer_at(buf, i).unwrap().end, (n - 1) as nat, lo, hi, hi2);
    }
}

/// Where the bytes of a message come from into which a name and the rest
/// of a record were inserted at offset `at`, and whose header was given a
/// new count: `named` is the message with the name, of `size` bytes.
pub(crate) proof fn lemma_inserted_bytes(
    msg: Seq<u8>,
    named: Seq<u8>,
    at: int,
    size: int,
    tail: Seq<u8>,
    count_at: int,
    count: int,
)
    requires
        HEADER_SIZE <= at <= msg.len(),
        0 <= size,
        named.len() == msg.len() + size,
        named.take(at) == msg.take(at),
        named.skip(at + size) == msg.skip(at),
        count_at == 4 || count_at == 6,
    ensures
        ({
            let r = with_u16(splice(named, at + size, tail), count_at, count);
            &&& r.len() == msg.len() + size + tail.len()
            &&& forall|x: int| 0 <= x < tail.len() ==> r[at + size + x] == #[trigger] tail[x]
            &&& agree(msg, r, HEADER_SIZE as int, at)
            &&& agree(named, r, HEADER_SIZE as int, at + size)
            &&& forall|x: int|
                at <= x < msg.len() ==> r[x + size + tail.len()] == #[trigger] msg[x]
            &&& r[count_at] == be16_bytes(count)[0]
            &&& r[count_at + 1] == be16_bytes(count)[1]
            &&& forall|x: int|
                4 <= x < 8 && x != count_at && x != count_at + 1 ==> r[x] == #[trigger] msg[x]
        }),
{
    let body = splice(named, at + size, tail);
    lemma_splice_bytes(named, at + size, tail);
    let r = with_u16(body, count_at, count);
    assert forall|x: int| 0 <= x < at implies named[x] == msg[x] by {
        assert(named.take(at)[x] == named[x]);
        assert(msg.take(at)[x] == msg[x]);
    }
    assert forall|x: int| at <= x < msg.len() implies r[x + size + tail.len()]
        == #[trigger] msg[x] by {
        assert(named.skip(at + size)[x - at] == msg.skip(at)[x - at]);
        assert(body[(x + size) + tail.len()] == named[x + size]);
    }
}

/// What a record looks like that was inserted into a message behind what
/// its questions reach: the name decodes where it was written, the rest of
/// the record follows it, the header holds the new count, what stood in
/// front of the record is untouched and what stood behind it has moved back.
#[verifier::rlimit(30)]
pub(crate) proof fn lemma_record_inserted(
    msg: Seq<u8>,
    at: int,
    hi: int,
    target: Seq<Seq<u8>>,
    tail: Seq<u8>,
    count_at: int,
    count: int,
)
    requires
        questions_settled(msg, hi),
        hi <= at <= msg.len(),
        labels_fit(target),
        name_len(target) <= MAX_NAME_LEN,
        target.len() + 1 + depth(msg) <= MAX_LABEL_READS,
        count_at == 4 || count_at == 6,
    ensures
        ({
            let named = with_name(msg, at, target);
            let size = named.len() - msg.len();
            let r = with_u16(splice(named, at + size, tail), count_at, count);
            &&& r.len() == msg.len() + size + tail.len()
            &&& 1 <= size <= wire_len(target)
            &&& decode_name(r, at) matches Ok(d)
            &&& d.end == at + size
            &&& d.reach == at + size
            &&& stays_above(d, HEADER_SIZE as int)
            &&& names_match(labels_of(r, d.labels), target)
            &&& d.visited.len() <= target.len() + 1 + depth(msg)
            &&& name_hops_into(r, at, HEADER_SIZE as int, hi)
            &&& forall|x: int| 0 <= x < tail.len() ==> r[at + size + x] == #[trigger] tail[x]
            &&& agree(msg, r, HEADER_SIZE as int, at)
            &&& forall|x: int|
                at <= x < msg.len() ==> r[x + size + tail.len()] == #[trigger] msg[x]
            &&& r[count_at] == be16_bytes(count)[0]
            &&& r[count_at + 1] == be16_bytes(count)[1]
            &&& forall|x: int|
                4 <= x < 8 && x != count_at && x != count_at + 1 ==> r[x] == #[trigger] msg[x]
        }),
{
    let named = with_name(msg, at, target);
    let size = named.len() - msg.len();
    lemma_written_name_decodes(
        msg,
        at,
        hi,
        at,
        MAX_NAME_LEN as int,
        MAX_LABEL_READS as nat,
        target,
    );
    lemma_with_name_len(msg, at, target);
    lemma_inserted_bytes(msg, named, at, size, tail, count_at, count);
    let r = with_u16(splice(named, at + size, tail), count_at, count);
    lemma_decode_written(named, r, at, hi, at + size);
}

/// The decoding of a name that was written so that it ends at `end`, in a
/// buffer that holds the same bytes up to there.
pub(crate) proof fn lemma_decode_written(named: Seq<u8>, r: Seq<u8>, at: int, hi: int, end: int)
    requires
        HEADER_SIZE <= hi <= at,
        decode_name(named, at) is Ok,
        decode_name(named, at).unwrap().end == end,
        name_hops_into(named, at, HEADER_SIZE as int, hi),
        agree(named, r, HEADER_SIZE as int, end),
    ensures
        decode_name(r, at) matches Ok(d) && d.end == end && d.reach == end && stays_above(
            d,
            HEADER_SIZE as int,
        ) && d.visited.len() == decode_name(named, at).unwrap().visited.len() && labels_of(
            r,
            d.labels,
        ) == labels_of(named, decode_name(named, at).unwrap().labels),
        name_hops_into(r, at, HEADER_SIZE as int, hi),
{
    lemma_decode_bounds(named, at, at, MAX_NAME_LEN as int, MAX_LABEL_READS as nat);
    lemma_decode_shift(
        named,
        r,
        0,
        at,
        at,
        MAX_NAME_LEN as int,
        MAX_LABEL_READS as nat,
        HEADER_SIZE as int,
        hi,
    );
    lemma_hops_decode(
        r,
        at,
        at,
        MAX_NAME_LEN as int,
        MAX_LABEL_READS as nat,
        HEADER_SIZE as int,
        hi,
    );
    lemma_decode_bounds(r, at, at, MAX_NAME_LEN as int, MAX_LABEL_READS as nat);
}

/// The fields of a question are read back from the bytes they were written
/// as.
pub(crate) proof fn lemma_inserted_question_reads(r: Seq<u8>, at: int, kind: u16, class: u16)
    requires
        decode_name(r, at) is Ok,
        0 <= decode_name(r, at).unwrap().end,
        decode_name(r, at).unwrap().end + 4 <= r.len(),
        forall|x: int|
            0 <= x < 4 ==> r[decode_name(r, at).unwrap().end + x] == #[trigger] (be16_bytes(
                kind as int,
            ) + be16_bytes(class as int))[x],
    ensures
        question_at(r, at) matches Ok(q) && q.kind == kind && q.class == class && q.end
            == decode_name(r, at).unwrap().end + 4 && q.reach == max_int(
            decode_name(r, at).unwrap().reach,
            decode_name(r, at).unwrap().end + 4,
        ),
{
    let e = decode_name(r, at).unwrap().end;
    let tail = be16_bytes(kind as int) + be16_bytes(class as int);
    lemma_be16_round_trip(kind as int);
    lemma_be16_round_trip(class as int);
    assert(tail[0] == be16_bytes(kind as int)[0] && tail[1] == be16_bytes(kind as int)[1]);
    assert(tail[2] == be16_bytes(class as int)[0] && tail[3] == be16_bytes(class as int)[1]);
    assert(r[e + 0] == tail[0] && r[e + 1] == tail[1] && r[e + 2] == tail[2] && r[e + 3]
        == tail[3]);
}

/// The records of a message into which a question was inserted behind the
/// questions: the questions that were there, the new question, and the
/// answers that were there, moved back.
pub(crate) proof fn lemma_records_with_question(
    msg: Seq<u8>,
    r: Seq<u8>,
    shift: int,
    target: Seq<Seq<u8>>,
)
    requires
        well_formed(msg),
        1 <= shift,
        r.len() == msg.len() + shift,
        agree(msg, r, HEADER_SIZE as int, questions_end(msg)),
        forall|x: int| questions_end(msg) <= x < msg.len() ==> r[x + shift] == #[trigger] msg[x],
        question_count(r) == question_count(msg) + 1,
        r[6] == msg[6],
        r[7] == msg[7],
        question_at(r, questions_end(msg)) is Ok,
        question_at(r, questions_end(msg)).unwrap().end == questions_end(msg) + shift,
        question_at(r, questions_end(msg)).unwrap().reach == questions_end(msg) + shift,
        stays_above(decode_name(r, questions_end(msg)).unwrap(), HEADER_SIZE as int),
        names_match(name_labels(r, questions_end(msg)), target),
    ensures
        well_formed(r),
        questions_end(r) == questions_end(msg) + shift,
        questions_from(r, HEADER_SIZE as int, question_count(msg)) == questions_span(msg),
        depth(r) == max_int(
            depth(msg),
            decode_name(r, questions_end(msg)).unwrap().visited.len() as int,
        ),
        has_question_named(r, target),
{
    let lo = HEADER_SIZE as int;
    let qc = question_count(msg);
    let ac = answer_count(msg);
    let qs = questions_span(msg).unwrap();
    let qe = qs.end;
    lemma_questions_bounds(msg, lo, qc);
    lemma_answers_bounds(msg, qe, ac);
    lemma_questions_agree(msg, r, lo, qe, lo, qc);
    lemma_questions_snoc(r, lo, qc, lo, target);
    lemma_answers_shift(msg, r, shift, qe, ac, lo, qe);
    lemma_answers_hop_widen(r, qe + shift, ac, lo, qe, qe + shift);
    assert(answer_count(r) == ac);
}

/// The records of a message to which an answer was added at the end: the
/// questions and the answers that were there, and the new answer.
pub(crate) proof fn lemma_records_with_answer(msg: Seq<u8>, r: Seq<u8>)
    requires
        well_formed(msg),
        agree(msg, r, HEADER_SIZE as int, msg.len() as int),
        r[4] == msg[4],
        r[5] == msg[5],
        answer_count(r) == answer_count(msg) + 1,
        answer_at(r, msg.len() as int) is Ok,
        answer_at(r, msg.len() as int).unwrap().end == r.len(),
        name_hops_into(r, msg.len() as int, HEADER_SIZE as int, questions_end(msg)),
    ensures
        well_formed(r),
        question_count(r) == question_count(msg),
        questions_span(r) == questions_span(msg),
        depth(r) == depth(msg),
{
    let lo = HEADER_SIZE as int;
    let n0 = msg.len() as int;
    let qc = question_count(msg);
    let ac = answer_count(msg);
    let qs = questions_span(msg).unwrap();
    lemma_questions_bounds(msg, lo, qc);
    lemma_answers_bounds(msg, qs.end, ac);
    lemma_answer_bounds(r, n0);
    lemma_questions_agree(msg, r, lo, qs.end, lo, qc);
    lemma_answers_shift(msg, r, 0, qs.end, ac, lo, qs.end);
    lemma_answers_snoc(r, qs.end, ac);
    lemma_answers_hop_snoc(r, qs.end, ac, lo, qs.end);
}

/// A message that is a header alone, with no questions and no answers
/// announced, is well formed and has depth zero.
pub proof fn lemma_empty_well_formed(msg: Seq<u8>)
    requires
        msg.len() == HEADER_SIZE,
        question_count(msg) == 0,
        answer_count(msg) == 0,
    ensures
        well_formed(msg),
        depth(msg) == 0,
{
}

/// A well formed message stays well formed, with the same records, when its
/// header is replaced by one that announces the same numbers of questions
/// and answers.
pub proof fn lemma_with_header_well_formed(msg: Seq<u8>, header: Seq<u8>)
    requires
        well_formed(msg),
        header.len() == HEADER_SIZE,
        header[4] == msg[4],
        header[5] == msg[5],
        header[6] == msg[6],
        header[7] == msg[7],
    ensures
        well_formed(header + msg.skip(HEADER_SIZE as int)),
        depth(header + msg.skip(HEADER_SIZE as int)) == depth(msg),
        questions_span(header + msg.skip(HEADER_SIZE as int)) == questions_span(msg),
{
    let lo = HEADER_SIZE as int;
    let r = header + msg.skip(lo);
    let qs = questions_span(msg).unwrap();
    lemma_questions_bounds(msg, lo, question_count(msg));
    lemma_answers_bounds(msg, qs.end, answer_count(msg));
    assert(r.len() == msg.len());
    assert forall|x: int| lo <= x < msg.len() implies r[x] == msg[x] by {
        assert(r[x] == msg.skip(lo)[x - lo]);
    }
    assert(r[4] == header[4] && r[5] == header[5] && r[6] == header[6] && r[7] == header[7]);
    lemma_questions_agree(msg, r, lo, qs.end, lo, question_count(msg));
    lemma_answers_shift(msg, r, 0, qs.end, answer_count(msg), lo, qs.end);
}

/// [`with_question`] adds the name and four bytes to a message whose
/// questions can be read: at least five bytes, and at most four more than
/// the name takes without pointers.
pub proof fn lemma_with_question_len(msg: Seq<u8>, target: Seq<Seq<u8>>, kind: u16, class: u16)
    requires
        questions_ok(msg),
    ensures
        msg.len() + 5 <= with_question(msg, target, kind, class).len() <= msg.len() + wire_len(
            target,
        ) + 4,
        with_question(msg, target, kind, class).len() == with_name(
            msg,
            questions_end(msg),
            target,
        ).len() + 4,
{
    lemma_questions_bounds(msg, HEADER_SIZE as int, question_count(msg));
    lemma_with_name_len(msg, questions_end(msg), target);
    lemma_be16_round_trip(kind as int);
    lemma_be16_round_trip(class as int);
}

/// [`with_answer`] adds the name, ten bytes and the data to a message whose
/// records can be read: at most ten bytes and the data more than the name
/// takes without pointers.
pub proof fn lemma_with_answer_len(
    msg: Seq<u8>,
    target: Seq<Seq<u8>>,
    kind: u16,
    class: u16,
    ttl: u32,
    rdata: Seq<u8>,
)
    requires
        records_ok(msg),
    ensures
        msg.len() + 11 + rdata.len() <= with_answer(msg, target, kind, class, ttl, rdata).len()
            <= msg.len() + wire_len(target) + 10 + rdata.len(),
        with_answer(msg, target, kind, class, ttl, rdata).len() == with_name(
            msg,
            answers_end(msg),
            target,
        ).len() + 10 + rdata.len(),
{
    let qs = questions_span(msg).unwrap();
    lemma_questions_bounds(msg, HEADER_SIZE as int, question_count(msg));
    lemma_answers_bounds(msg, qs.end, answer_count(msg));
    lemma_with_name_len(msg, answers_end(msg), target);
    lemma_be16_round_trip(kind as int);
    lemma_be16_round_trip(class as int);
    lemma_be32_round_trip(ttl as int);
    lemma_be16_round_trip(rdata.len() as int % 65536);
}

/// Where the answers of a message end at its end, [`with_answer`] writes the
/// name and the fields of the answer behind the message and raises the
/// header's number of answers.
pub(crate) proof fn lemma_with_answer_shape(
    msg: Seq<u8>,
    target: Seq<Seq<u8>>,
    kind: u16,
    class: u16,
    ttl: u32,
    rdata: Seq<u8>,
)
    requires
        consistent(msg),
    ensures
        with_answer(msg, target, kind, class, ttl, rdata) == with_u16(
            splice(
                with_name(msg, msg.len() as int, target),
                with_name(msg, msg.len() as int, target).len() as int,
                answer_tail(kind, class, ttl, rdata),
            ),
            6,
            answer_count(msg) as int + 1,
        ),
{
    assert(answers_end(msg) == msg.len());
}

/// A well formed message stays well formed when [`with_answer`] adds an
/// answer to it, as long as the answer's data fits a 16-bit length and the
/// name can be read back within the bound on reads.
///
/// The questions stay as they were, and the new answer reads as what was
/// added: a name that matches `target`, and the kind, class, time to live and
/// data given.
#[verifier::rlimit(30)]
pub proof fn lemma_with_answer_well_formed(
    msg: Seq<u8>,
    target: Seq<Seq<u8>>,
    kind: u16,
    class: u16,
    ttl: u32,
    rdata: Seq<u8>,
)
    requires
        well_formed(msg),
        valid_labels(target),
        answer_count(msg) < 65535,
        rdata.len() <= 65535,
        target.len() + 1 + depth(msg) <= MAX_LABEL_READS,
    ensures
        ({
            let r = with_answer(msg, target, kind, class, ttl, rdata);
            &&& well_formed(r)
            &&& r.len() <= msg.len() + wire_len(target) + 10 + rdata.len()
            &&& question_count(r) == question_count(msg)
            &&& answer_count(r) == answer_count(msg) + 1
            &&& questions_span(r) == questions_span(msg)
            &&& depth(r) == depth(msg)
            &&& answer_at(r, msg.len() as int) matches Ok(a)
            &&& names_match(name_labels(r, msg.len() as int), target)
            &&& a.kind == kind
            &&& a.class == class
            &&& a.ttl == ttl
            &&& a.rdata_len == rdata.len()
            &&& r.subrange(a.rdata_at, r.len() as int) == rdata
            &&& a.end == r.len()
        }),
{
    let n0 = msg.len() as int;
    let ac = answer_count(msg);
    let tail = answer_tail(kind, class, ttl, rdata);
    let named = with_name(msg, n0, target);
    let r = with_u16(splice(named, named.len() as int, tail), 6, ac as int + 1);
    lemma_with_answer_shape(msg, target, kind, class, ttl, rdata);
    lemma_questions_bounds(msg, HEADER_SIZE as int, question_count(msg));
    lemma_answers_bounds(msg, questions_end(msg), ac);
    lemma_record_inserted(msg, n0, questions_end(msg), target, tail, 6, ac as int + 1);
    assert(tail.len() == 10 + rdata.len()) by {
        lemma_be16_round_trip(kind as int);
        lemma_be16_round_trip(class as int);
        lemma_be32_round_trip(ttl as int);
        lemma_be16_round_trip(rdata.len() as int);
    }
    lemma_appended_answer_reads(r, n0, kind, class, ttl, rdata);
    lemma_be16_round_trip(ac as int + 1);
    assert(answer_count(r) == ac + 1);
    lemma_records_with_answer(msg, r);
}

/// A well formed message stays well formed when [`with_question`] adds a
/// question to it, as long as the name can be read back within the bound on
/// reads.
///
/// The questions that were there are followed by the new one, which reads as
/// what was added: a name that matches `target`, and the kind and class
/// given. The answers that were there follow it. The message then holds a
/// question that asks for `target`.
pub proof fn lemma_with_question_well_formed(
    msg: Seq<u8>,
    target: Seq<Seq<u8>>,
    kind: u16,
    class: u16,
)
    requires
        well_formed(msg),
        valid_labels(target),
        question_count(msg) < 65535,
        target.len() + 1 + depth(msg) <= MAX_LABEL_READS,
    ensures
        ({
            let r = with_question(msg, target, kind, class);
            &&& well_formed(r)
            &&& r.len() <= msg.len() + wire_len(target) + 4
            &&& question_count(r) == question_count(msg) + 1
            &&& answer_count(r) == answer_count(msg)
            &&& questions_from(r, HEADER_SIZE as int, question_count(msg)) == questions_span(msg)
            &&& depth(msg) <= depth(r) <= target.len() + 1 + depth(msg)
            &&& question_at(r, questions_end(msg)) matches Ok(q)
            &&& names_match(name_labels(r, questions_end(msg)), target)
            &&& q.kind == kind
            &&& q.class == class
            &&& q.end == questions_end(r)
            &&& has_question_named(r, target)
        }),
{
    let qc = question_count(msg);
    let qe = questions_end(msg);
    let tail = be16_bytes(kind as int) + be16_bytes(class as int);
    let named = with_name(msg, qe, target);
    let size = named.len() - msg.len();
    let r = with_u16(splice(named, qe + size, tail), 4, qc as int + 1);
    assert(r == with_question(msg, target, kind, class));
    lemma_questions_bounds(msg, HEADER_SIZE as int, qc);
    lemma_record_inserted(msg, qe, qe, target, tail, 4, qc as int + 1);
    lemma_be16_round_trip(kind as int);
    lemma_be16_round_trip(class as int);
    lemma_be16_round_trip(qc as int + 1);
    assert(tail.len() == 4);
    lemma_inserted_question_reads(r, qe, kind, class);
    assert(question_count(r) == qc + 1);
    lemma_questions_depth_min(msg, HEADER_SIZE as int, qc);
    lemma_records_with_question(msg, r, size + 4, target);
}

/// A name that was added as a question to a well formed message is
/// written as the two bytes of a pointer when it is written again,
/// whatever the case of its letters, which is fewer bytes than the name takes
/// without pointers.
///
/// This holds of every name with at least one label, as long as pointers can
/// reach all of the message.
pub proof fn lemma_second_time_is_pointer(
    msg: Seq<u8>,
    target: Seq<Seq<u8>>,
    kind: u16,
    class: u16,
    at: int,
)
    requires
        well_formed(msg),
        valid_labels(target),
        target.len() > 0,
        question_count(msg) < 65535,
        target.len() + 1 + depth(msg) <= MAX_LABEL_READS,
        with_question(msg, target, kind, class).len() <= MAX_POINTER + 1,
        0 <= at <= with_question(msg, target, kind, class).len(),
    ensures
        find_pointer(with_question(msg, target, kind, class), target) is Some,
        with_name(with_question(msg, target, kind, class), at, target).len() == with_question(
            msg,
            target,
            kind,
            class,
        ).len() + 2,
        2 < wire_len(target),
{
    lemma_with_question_well_formed(msg, target, kind, class);
    crate::lemmas::lemma_full_match_compresses(
        with_question(msg, target, kind, class),
        at,
        target,
    );
}

} // verus!
