//! A minimal DNS: builds the query for the address of a name, and finds the address in a reply.
//!
//! A message is a header of twelve bytes (an identifier, flags, the number of records in each
//! section), then the sections. A name is a sequence of labels, each preceded by its length, and
//! ends with a zero; in replies it may end with a pointer of two bytes to a name further up.

use crate::util;
use vstd::prelude::*;
use vstd::string::StringSliceAdditionalSpecFns;

verus! {

/// Type of a record that holds an IPv4 address.
pub const QTYPE_A: u16 = 1;

/// Class of records for the Internet.
pub const QCLASS_IN: u16 = 1;

/// Longest label of a name.
pub const LABEL_MAX: usize = 63;

/// The byte between the labels of a written name.
pub const DOT: u8 = 0x2E;

/// Index of the first dot from `i` on; the length if there is none.
pub open spec fn dot_from(s: Seq<u8>, i: int) -> int
    decreases s.len() - i,
{
    if i >= s.len() {
        s.len() as int
    } else if s[i] == DOT {
        i
    } else {
        dot_from(s, i + 1)
    }
}

/// A name without the dot that may end it.
pub open spec fn without_root(s: Seq<u8>) -> Seq<u8> {
    if s.len() > 0 && s.last() == DOT {
        s.drop_last()
    } else {
        s
    }
}

/// The labels of a name from byte `i` on.
pub open spec fn labels_from(s: Seq<u8>, i: int) -> Seq<Seq<u8>>
    decreases s.len() - i,
{
    if i > s.len() {
        Seq::empty()
    } else {
        let e = dot_from(s, i);
        if e < i || e >= s.len() {
            seq![s.subrange(i, s.len() as int)]
        } else {
            seq![s.subrange(i, e)] + labels_from(s, e + 1)
        }
    }
}

/// Whether a label can be sent.
pub open spec fn label_ok(l: Seq<u8>) -> bool {
    0 < l.len() <= LABEL_MAX
}

/// Whether all labels can be sent.
pub open spec fn all_ok(labels: Seq<Seq<u8>>) -> bool {
    forall|i: int| 0 <= i < labels.len() ==> label_ok(#[trigger] labels[i])
}

/// Labels as they are sent, each preceded by its length.
pub open spec fn labels_encoded(labels: Seq<Seq<u8>>) -> Seq<u8>
    decreases labels.len(),
{
    if labels.len() == 0 {
        Seq::empty()
    } else {
        seq![labels[0].len() as u8] + labels[0] + labels_encoded(labels.skip(1))
    }
}

/// A number of 16 bits, high byte first.
pub open spec fn be(x: u16) -> Seq<u8> {
    seq![(x / 0x100) as u8, (x % 0x100) as u8]
}

/// The header of a query with one question.
pub open spec fn query_header(id: u16) -> Seq<u8> {
    be(id) + seq![1u8, 0, 0, 1, 0, 0, 0, 0, 0, 0]
}

/// The query for the address of a name. None for a name with a label that is empty or too long.
pub open spec fn query(id: u16, name: Seq<u8>) -> Option<Seq<u8>> {
    let labels = labels_from(without_root(name), 0);
    if all_ok(labels) {
        Some(
            query_header(id) + labels_encoded(labels) + seq![0u8] + be(QTYPE_A) + be(QCLASS_IN),
        )
    } else {
        None
    }
}

/// The pieces that end a query: the end of the name, type and class.
pub open spec fn tail_pieces() -> Seq<Seq<u8>> {
    seq![seq![0u8], be(QTYPE_A), be(QCLASS_IN)]
}

/// The pieces of a query from its labels on, up to a label that cannot be sent.
pub open spec fn body_pieces(labels: Seq<Seq<u8>>) -> Seq<Seq<u8>>
    decreases labels.len(),
{
    if labels.len() == 0 {
        tail_pieces()
    } else if !label_ok(labels[0]) {
        Seq::empty()
    } else {
        seq![seq![labels[0].len() as u8], labels[0]] + body_pieces(labels.skip(1))
    }
}

/// The pieces in which a query is written.
pub open spec fn query_pieces(id: u16, name: Seq<u8>) -> Seq<Seq<u8>> {
    head_pieces(id) + body_pieces(labels_from(without_root(name), 0))
}

/// The first pieces, as long as they fit into `room`, one behind the other.
pub open spec fn emitted(pieces: Seq<Seq<u8>>, room: int) -> Seq<u8>
    decreases pieces.len(),
{
    if pieces.len() == 0 || pieces[0].len() > room {
        Seq::empty()
    } else {
        pieces[0] + emitted(pieces.skip(1), room - pieces[0].len())
    }
}

/// The first piece, if it fits, and the others behind it.
proof fn lemma_emitted_cons(p: Seq<u8>, rest: Seq<Seq<u8>>, room: int)
    ensures
        emitted(seq![p] + rest, room) == (if p.len() > room {
            Seq::empty()
        } else {
            p + emitted(rest, room - p.len())
        }),
{
    assert((seq![p] + rest).skip(1) =~= rest);
    assert((seq![p] + rest)[0] == p);
}

/// Writes `bytes` at `pos` and moves `pos` behind them. None where they do not fit.
fn write(out: &mut [u8], pos: &mut usize, bytes: &[u8]) -> (r: Option<()>)
    requires
        *old(pos) <= old(out)@.len(),
    ensures
        final(out)@.len() == old(out)@.len(),
        r is Some == (*old(pos) + bytes@.len() <= old(out)@.len()),
        r is Some ==> *final(pos) == *old(pos) + bytes@.len() && final(out)@.take(
            *final(pos) as int,
        ) == old(out)@.take(*old(pos) as int) + bytes@ && final(out)@.skip(*final(pos) as int)
            == old(out)@.skip(*final(pos) as int),
        r is None ==> *final(pos) == *old(pos) && final(out)@ == old(out)@,
{
    if bytes.len() > out.len() - *pos {
        return None;
    }
    let ghost before = out@;
    let at = *pos;
    util::copy_into(out, at, bytes);
    *pos = at + bytes.len();
    assert(out@.take(*pos as int) =~= before.take(at as int) + bytes@);
    assert(out@.skip(*pos as int) =~= before.skip(*pos as int));
    Some(())
}

/// Where the next dot is.
proof fn lemma_dot_from(s: Seq<u8>, i: int, at: int)
    requires
        0 <= i <= at <= s.len(),
        forall|j: int| i <= j < at ==> s[j] != DOT,
        at < s.len() ==> s[at] == DOT,
    ensures
        dot_from(s, i) == at,
    decreases at - i,
{
    if i < at {
        lemma_dot_from(s, i + 1, at);
    }
}

/// Writes the next piece of a message: what is there already and what the other pieces add make
/// up the message.
fn write_piece(
    out: &mut [u8],
    pos: &mut usize,
    piece: &[u8],
    Ghost(rest): Ghost<Seq<Seq<u8>>>,
    Ghost(start): Ghost<Seq<u8>>,
) -> (r: bool)
    requires
        *old(pos) <= old(out)@.len(),
        start.len() == old(out)@.len(),
        old(out)@.skip(*old(pos) as int) == start.skip(*old(pos) as int),
    ensures
        final(out)@.len() == old(out)@.len(),
        *final(pos) <= final(out)@.len(),
        *final(pos) == *old(pos) + (if r {
            piece@.len()
        } else {
            0
        }),
        r == (*old(pos) + piece@.len() <= old(out)@.len()),
        final(out)@.skip(*final(pos) as int) == start.skip(*final(pos) as int),
        r ==> final(out)@.take(*final(pos) as int) + emitted(rest, final(out)@.len() - *final(pos))
            == old(out)@.take(*old(pos) as int) + emitted(
            seq![piece@] + rest,
            old(out)@.len() - *old(pos),
        ),
        !r ==> final(out)@ == old(out)@ && emitted(
            seq![piece@] + rest,
            old(out)@.len() - *old(pos),
        ) == Seq::<u8>::empty(),
        r ==> *final(pos) + rest.flatten().len() == *old(pos) + (seq![piece@]
            + rest).flatten().len(),
        !r ==> *old(pos) + (seq![piece@] + rest).flatten().len() > old(out)@.len(),
{
    let ghost o0 = out@;
    let ghost p0 = *pos as int;
    proof {
        lemma_emitted_cons(piece@, rest, o0.len() - p0);
        assert((seq![piece@] + rest).drop_first() =~= rest);
        assert((seq![piece@] + rest).flatten() == piece@ + rest.flatten());
    }
    if write(out, pos, piece).is_none() {
        return false;
    }
    assert forall|j: int| *pos <= j < start.len() implies out@[j] == start[j] by {
        assert(out@.skip(*pos as int)[j - *pos] == o0.skip(*pos as int)[j - *pos]);
        assert(o0.skip(p0)[j - p0] == start.skip(p0)[j - p0]);
    }
    assert(out@.skip(*pos as int) =~= start.skip(*pos as int));
    assert(o0.take(p0) + piece@ + emitted(rest, o0.len() - *pos) =~= o0.take(p0) + (piece@
        + emitted(rest, o0.len() - *pos)));
    true
}

/// The header of a query in pieces.
pub open spec fn head_pieces(id: u16) -> Seq<Seq<u8>> {
    seq![be(id), seq![1u8, 0], seq![0u8, 1], seq![0u8, 0, 0, 0, 0, 0]]
}

/// Writes the header of a query.
fn write_head(
    out: &mut [u8],
    pos: &mut usize,
    id: u16,
    Ghost(rest): Ghost<Seq<Seq<u8>>>,
    Ghost(start): Ghost<Seq<u8>>,
) -> (r: bool)
    requires
        *old(pos) <= old(out)@.len(),
        start.len() == old(out)@.len(),
        old(out)@.skip(*old(pos) as int) == start.skip(*old(pos) as int),
    ensures
        final(out)@.len() == old(out)@.len(),
        *final(pos) <= final(out)@.len(),
        final(out)@.skip(*final(pos) as int) == start.skip(*final(pos) as int),
        final(out)@.take(*final(pos) as int) + (if r {
            emitted(rest, final(out)@.len() - *final(pos))
        } else {
            Seq::empty()
        }) == old(out)@.take(*old(pos) as int) + emitted(
            head_pieces(id) + rest,
            old(out)@.len() - *old(pos),
        ),
        r ==> *final(pos) + rest.flatten().len() == *old(pos) + (head_pieces(id)
            + rest).flatten().len(),
        !r ==> *old(pos) + (head_pieces(id) + rest).flatten().len() > old(out)@.len(),
{
    let p0 = [(id / 0x100) as u8, (id % 0x100) as u8];
    let p1 = [1u8, 0];
    let p2 = [0u8, 1];
    let p3 = [0u8, 0, 0, 0, 0, 0];
    let ghost r2 = seq![p3@] + rest;
    let ghost r1 = seq![p2@] + r2;
    let ghost r0 = seq![p1@] + r1;
    proof {
        assert(p0@ =~= be(id));
        assert(p1@ =~= seq![1u8, 0]);
        assert(p2@ =~= seq![0u8, 1]);
        assert(p3@ =~= seq![0u8, 0, 0, 0, 0, 0]);
        assert(head_pieces(id) + rest =~= seq![p0@] + r0);
    }
    if !write_piece(out, pos, &p0, Ghost(r0), Ghost(start)) {
        return false;
    }
    if !write_piece(out, pos, &p1, Ghost(r1), Ghost(start)) {
        return false;
    }
    if !write_piece(out, pos, &p2, Ghost(r2), Ghost(start)) {
        return false;
    }
    write_piece(out, pos, &p3, Ghost(rest), Ghost(start))
}

/// Writes a label of a name.
fn write_label(
    out: &mut [u8],
    pos: &mut usize,
    label: &Vec<u8>,
    Ghost(rest): Ghost<Seq<Seq<u8>>>,
    Ghost(start): Ghost<Seq<u8>>,
) -> (r: bool)
    requires
        *old(pos) <= old(out)@.len(),
        start.len() == old(out)@.len(),
        old(out)@.skip(*old(pos) as int) == start.skip(*old(pos) as int),
    ensures
        final(out)@.len() == old(out)@.len(),
        *final(pos) <= final(out)@.len(),
        final(out)@.skip(*final(pos) as int) == start.skip(*final(pos) as int),
        final(out)@.take(*final(pos) as int) + (if r {
            emitted(rest, final(out)@.len() - *final(pos))
        } else {
            Seq::empty()
        }) == old(out)@.take(*old(pos) as int) + emitted(
            seq![seq![label@.len() as u8], label@] + rest,
            old(out)@.len() - *old(pos),
        ),
        r ==> *final(pos) + rest.flatten().len() == *old(pos) + (seq![seq![label@.len() as u8], label@]
            + rest).flatten().len(),
        !r ==> *old(pos) + (seq![seq![label@.len() as u8], label@] + rest).flatten().len() > old(out)@.len(),
{
    let n = [label.len() as u8];
    let ghost after = seq![label@] + rest;
    proof {
        assert(n@ =~= seq![label@.len() as u8]);
        assert(seq![seq![label@.len() as u8], label@] + rest =~= seq![n@] + after);
    }
    if !write_piece(out, pos, &n, Ghost(after), Ghost(start)) {
        return false;
    }
    write_piece(out, pos, label.as_slice(), Ghost(rest), Ghost(start))
}

/// Writes the end of a query.
fn write_tail(
    out: &mut [u8],
    pos: &mut usize,
    Ghost(rest): Ghost<Seq<Seq<u8>>>,
    Ghost(start): Ghost<Seq<u8>>,
) -> (r: bool)
    requires
        *old(pos) <= old(out)@.len(),
        start.len() == old(out)@.len(),
        old(out)@.skip(*old(pos) as int) == start.skip(*old(pos) as int),
    ensures
        final(out)@.len() == old(out)@.len(),
        *final(pos) <= final(out)@.len(),
        final(out)@.skip(*final(pos) as int) == start.skip(*final(pos) as int),
        final(out)@.take(*final(pos) as int) + (if r {
            emitted(rest, final(out)@.len() - *final(pos))
        } else {
            Seq::empty()
        }) == old(out)@.take(*old(pos) as int) + emitted(
            tail_pieces() + rest,
            old(out)@.len() - *old(pos),
        ),
        r ==> *final(pos) + rest.flatten().len() == *old(pos) + (tail_pieces()
            + rest).flatten().len(),
        !r ==> *old(pos) + (tail_pieces() + rest).flatten().len() > old(out)@.len(),
{
    let t0 = [0u8];
    let t1 = [0u8, 1];
    let t2 = [0u8, 1];
    let ghost q2 = seq![t2@] + rest;
    let ghost q1 = seq![t1@] + q2;
    proof {
        assert(t0@ =~= seq![0u8]);
        assert(t1@ =~= be(QTYPE_A));
        assert(t2@ =~= be(QCLASS_IN));
        assert(tail_pieces() + rest =~= seq![t0@] + q1);
    }
    if !write_piece(out, pos, &t0, Ghost(q1), Ghost(start)) {
        return false;
    }
    if !write_piece(out, pos, &t1, Ghost(q2), Ghost(start)) {
        return false;
    }
    write_piece(out, pos, &t2, Ghost(rest), Ghost(start))
}

/// Pieces that all fit are all written; else what is written is shorter than they are.
proof fn lemma_emitted_flat(pieces: Seq<Seq<u8>>, room: int)
    requires
        room >= 0,
    ensures
        room >= pieces.flatten().len() ==> emitted(pieces, room) == pieces.flatten(),
        room < pieces.flatten().len() ==> emitted(pieces, room).len() < pieces.flatten().len(),
    decreases pieces.len(),
{
    if pieces.len() > 0 {
        assert(pieces.drop_first() =~= pieces.skip(1));
        if pieces[0].len() <= room {
            lemma_emitted_flat(pieces.skip(1), room - pieces[0].len());
        }
    }
}

/// The first label of what is left of a name.
proof fn lemma_first_label(name: Seq<u8>, bytes: Seq<u8>, i: int, e: int, end: int)
    requires
        0 <= i <= e <= end <= bytes.len(),
        name == bytes.take(end),
        forall|j: int| i <= j < e ==> bytes[j] != DOT,
        e < end ==> bytes[e] == DOT,
    ensures
        labels_from(name, i) == seq![name.subrange(i, e)] + (if e < end {
            labels_from(name, e + 1)
        } else {
            Seq::empty()
        }),
{
    assert forall|j: int| i <= j < e implies name[j] != DOT by {
        assert(name[j] == bytes[j]);
    }
    assert(e < end ==> name[e] == bytes[e]);
    lemma_dot_from(name, i, e);
    if e == end {
        assert(labels_from(name, i) =~= seq![name.subrange(i, e)] + Seq::empty());
    }
}

/// All labels can be sent where the first can and the others can.
proof fn lemma_all_ok(labels: Seq<Seq<u8>>)
    requires
        labels.len() > 0,
    ensures
        all_ok(labels) == (label_ok(labels[0]) && all_ok(labels.skip(1))),
{
    if all_ok(labels) {
        assert forall|i: int| 0 <= i < labels.skip(1).len() implies label_ok(
            #[trigger] labels.skip(1)[i],
        ) by {
            assert(labels.skip(1)[i] == labels[i + 1]);
        }
    }
    if label_ok(labels[0]) && all_ok(labels.skip(1)) {
        assert forall|i: int| 0 <= i < labels.len() implies label_ok(#[trigger] labels[i]) by {
            if i > 0 {
                assert(labels.skip(1)[i - 1] == labels[i]);
            }
        }
    }
}

/// The pieces of labels that can be sent are the labels as they are sent.
proof fn lemma_body_flat(labels: Seq<Seq<u8>>)
    requires
        all_ok(labels),
    ensures
        body_pieces(labels).flatten() == labels_encoded(labels) + seq![0u8] + be(QTYPE_A) + be(
            QCLASS_IN,
        ),
    decreases labels.len(),
{
    let tail = seq![0u8] + be(QTYPE_A) + be(QCLASS_IN);
    if labels.len() == 0 {
        let t = tail_pieces();
        assert(t.drop_first() =~= seq![be(QTYPE_A), be(QCLASS_IN)]);
        assert(seq![be(QTYPE_A), be(QCLASS_IN)].drop_first() =~= seq![be(QCLASS_IN)]);
        assert(seq![be(QCLASS_IN)].drop_first() =~= Seq::<Seq<u8>>::empty());
        reveal_with_fuel(Seq::<_>::flatten, 5);
        assert(t.flatten() =~= tail);
        assert(labels_encoded(labels) + seq![0u8] + be(QTYPE_A) + be(QCLASS_IN) =~= tail);
    } else {
        let rest = labels.skip(1);
        lemma_all_ok(labels);
        lemma_body_flat(rest);
        let b = body_pieces(rest);
        let l = labels[0];
        let n = seq![l.len() as u8];
        let all = seq![n, l] + b;
        assert(all.drop_first() =~= seq![l] + b);
        assert((seq![l] + b).drop_first() =~= b);
        assert(all.flatten() == n + (seq![l] + b).flatten());
        assert((seq![l] + b).flatten() == l + b.flatten());
        assert(all.flatten() =~= n + l + labels_encoded(rest) + seq![0u8] + be(QTYPE_A) + be(
            QCLASS_IN,
        ));
    }
}

/// The pieces of a query make up the query.
proof fn lemma_query_flat(id: u16, name: Seq<u8>)
    ensures
        query(id, name) matches Some(q) ==> query_pieces(id, name).flatten() == q,
{
    let labels = labels_from(without_root(name), 0);
    if query(id, name) is Some {
        lemma_body_flat(labels);
        let b = body_pieces(labels);
        let (p0, p1, p2, p3) = (be(id), seq![1u8, 0], seq![0u8, 1], seq![0u8, 0, 0, 0, 0, 0]);
        let all = query_pieces(id, name);
        assert(all.drop_first() =~= seq![p1, p2, p3] + b);
        assert((seq![p1, p2, p3] + b).drop_first() =~= seq![p2, p3] + b);
        assert((seq![p2, p3] + b).drop_first() =~= seq![p3] + b);
        assert((seq![p3] + b).drop_first() =~= b);
        assert((seq![p3] + b).flatten() == p3 + b.flatten());
        assert((seq![p2, p3] + b).flatten() == p2 + (seq![p3] + b).flatten());
        assert((seq![p1, p2, p3] + b).flatten() == p1 + (seq![p2, p3] + b).flatten());
        assert(all.flatten() == p0 + (seq![p1, p2, p3] + b).flatten());
        assert(all.flatten() =~= query(id, name)->0);
    }
}

/// Encodes the query for the address of `hostname` into `out`. Returns its length, none where the
/// name cannot be sent or the buffer is too small; the pieces before that are written. A dot at
/// the end of the name is the same name; other empty labels are refused.
pub fn build_query(id: u16, hostname: &str, out: &mut [u8]) -> (r: Option<usize>)
    ensures
        match query(id, hostname.spec_bytes()) {
            Some(q) => if q.len() <= old(out)@.len() {
                r matches Some(n) && n == q.len() && final(out)@ == q + old(out)@.skip(
                    q.len() as int,
                )
            } else {
                r is None
            },
            None => r is None,
        },
        ({
            let e = emitted(
                query_pieces(id, hostname.spec_bytes()),
                old(out)@.len() as int,
            );
            final(out)@ == e + old(out)@.skip(e.len() as int)
        }),
{
    let bytes = hostname.as_bytes();
    let ghost pieces = query_pieces(id, bytes@);
    let ghost whole = emitted(pieces, out@.len() as int);
    let ghost start = out@;
    let mut end: usize = bytes.len();
    if end > 0 && bytes[end - 1] == DOT {
        end -= 1;
    }
    let ghost name = without_root(bytes@);
    assert(name =~= bytes@.take(end as int));
    let ghost labels = labels_from(name, 0);
    let ghost body = body_pieces(labels);
    proof {
        lemma_query_flat(id, bytes@);
        lemma_emitted_flat(pieces, start.len() as int);
    }
    let mut pos: usize = 0;
    assert(start.take(0) + whole =~= whole);
    if !write_head(out, &mut pos, id, Ghost(body), Ghost(start)) {
        assert(out@ =~= whole + start.skip(whole.len() as int));
        return None;
    }
    let mut i: usize = 0;
    let mut done = false;
    let ghost mut left = labels;
    while !done
        invariant
            bytes@ == hostname.spec_bytes(),
            name == bytes@.take(end as int),
            end <= bytes@.len(),
            start == old(out)@,
            start.len() == out@.len(),
            pos <= out@.len(),
            pieces == query_pieces(id, bytes@),
            whole == emitted(pieces, start.len() as int),
            !done ==> i <= end && left == labels_from(name, i as int),
            done ==> left == Seq::<Seq<u8>>::empty(),
            whole == out@.take(pos as int) + emitted(body_pieces(left), out@.len() - pos),
            out@.skip(pos as int) == start.skip(pos as int),
            pieces.flatten().len() == pos + body_pieces(left).flatten().len(),
            all_ok(left) == query(id, bytes@) is Some,
            query(id, bytes@) matches Some(q) ==> q == pieces.flatten(),
        decreases end + 1 - i, (if done { 0int } else { 1int }),
    {
        let mut e: usize = i;
        while e < end && bytes[e] != DOT
            invariant
                i <= e <= end <= bytes@.len(),
                forall|j: int| i <= j < e ==> bytes@[j] != DOT,
            decreases end - e,
        {
            e += 1;
        }
        let ghost l = name.subrange(i as int, e as int);
        let ghost rest = if e < end {
            labels_from(name, e + 1)
        } else {
            Seq::empty()
        };
        proof {
            lemma_first_label(name, bytes@, i as int, e as int, end as int);
            assert(left[0] == l);
            assert(left.skip(1) =~= rest);
            lemma_all_ok(left);
        }
        let len = e - i;
        if len == 0 || len > LABEL_MAX {
            assert(body_pieces(left) == Seq::<Seq<u8>>::empty());
            assert(out@ =~= whole + start.skip(whole.len() as int));
            return None;
        }
        let label = util::slice_to_vec(bytes, i, e);
        assert(label@ =~= l);
        if !write_label(out, &mut pos, &label, Ghost(body_pieces(rest)), Ghost(start)) {
            assert(out@ =~= whole + start.skip(whole.len() as int));
            return None;
        }
        proof {
            left = rest;
        }
        if e < end {
            i = e + 1;
        } else {
            done = true;
        }
    }
    let ghost none = Seq::<Seq<u8>>::empty();
    assert(body_pieces(left) =~= tail_pieces() + none);
    if !write_tail(out, &mut pos, Ghost(none), Ghost(start)) {
        assert(out@ =~= whole + start.skip(whole.len() as int));
        return None;
    }
    assert(whole =~= out@.take(pos as int));
    assert(out@ =~= whole + start.skip(whole.len() as int));
    Some(pos)
}

// ---------------------------------------------------------------------------------------------
// Replies
// ---------------------------------------------------------------------------------------------

/// What a message is to the one who waits for a reply.
#[derive(Debug, Clone, Copy, PartialEq, Eq)]
pub enum Answer {
    /// The reply, with this address.
    Ipv4([u8; 4]),
    /// The reply, and it holds no address. None will come.
    NoIpv4,
    /// Not the reply to this query.
    Ignore,
}

/// Position behind the name at `pos`. None where the name runs over the end of the message.
pub open spec fn name_end(msg: Seq<u8>, pos: int) -> Option<int>
    decreases msg.len() - pos,
{
    if pos >= msg.len() {
        None
    } else {
        let n = msg[pos];
        if n & 0xc0 == 0xc0 {
            if pos + 1 < msg.len() {
                Some(pos + 2)
            } else {
                None
            }
        } else if n == 0 {
            Some(pos + 1)
        } else if pos + 1 + n >= msg.len() {
            None
        } else {
            name_end(msg, pos + 1 + n)
        }
    }
}

/// Position behind `n` questions at `pos`: a name, a type and a class each.
pub open spec fn questions_end(msg: Seq<u8>, pos: int, n: int) -> Option<int>
    decreases n,
{
    if n <= 0 {
        Some(pos)
    } else {
        match name_end(msg, pos) {
            None => None,
            Some(p) => questions_end(msg, p + 4, n - 1),
        }
    }
}

/// The first address among `n` records at `pos`. None where there is none before a record that
/// runs over the end of the message.
pub open spec fn first_address(msg: Seq<u8>, pos: int, n: int) -> Option<Seq<u8>>
    decreases n,
{
    if n <= 0 {
        None
    } else {
        match name_end(msg, pos) {
            None => None,
            Some(p) => if p + 10 > msg.len() {
                None
            } else {
                let len = util::be16(msg, p + 8);
                if p + 10 + len > msg.len() {
                    None
                } else if util::be16(msg, p) == QTYPE_A && util::be16(msg, p + 2) == QCLASS_IN
                    && len == 4 {
                    Some(msg.subrange(p + 10, p + 14))
                } else {
                    first_address(msg, p + 10 + len, n - 1)
                }
            },
        }
    }
}

/// The address in a reply. None where the server reports an error or there is no address.
pub open spec fn address_in(msg: Seq<u8>) -> Option<Seq<u8>> {
    if msg[3] & 0x0f != 0 {
        None
    } else {
        match questions_end(msg, 12, util::be16(msg, 4) as int) {
            None => None,
            Some(p) => first_address(msg, p, util::be16(msg, 6) as int),
        }
    }
}

/// Whether a message is the reply to the query `id`.
pub open spec fn replies_to(id: u16, msg: Seq<u8>) -> bool {
    msg.len() >= 12 && util::be16(msg, 0) == id
}

/// Steps over the name at `pos`. A pointer ends it; where it points is of no interest.
fn skip_name(msg: &[u8], pos: usize) -> (r: Option<usize>)
    ensures
        match name_end(msg@, pos as int) {
            Some(p) => r matches Some(q) && q == p && p <= msg@.len(),
            None => r is None,
        },
{
    let mut at = pos;
    while at < msg.len()
        invariant
            name_end(msg@, pos as int) == name_end(msg@, at as int),
        decreases msg@.len() - at,
    {
        let n = msg[at];
        if n & 0xc0 == 0xc0 {
            if at + 1 >= msg.len() {
                return None;
            }
            return Some(at + 2);
        }
        if n == 0 {
            return Some(at + 1);
        }
        if n as usize >= msg.len() - at {
            return None;
        }
        at = at + 1 + n as usize;
    }
    None
}

/// Finds the first address in a reply. A message that is cut short holds none.
fn find_a(msg: &[u8]) -> (r: Option<[u8; 4]>)
    requires
        msg@.len() >= 12,
    ensures
        match address_in(msg@) {
            Some(a) => r matches Some(b) && b@ == a,
            None => r is None,
        },
{
    if msg[3] & 0x0f != 0 {
        return None;
    }
    let qdcount = util::get_be16(msg, 4);
    let ancount = util::get_be16(msg, 6);
    let mut pos: usize = 12;
    let mut i: u16 = 0;
    while i < qdcount
        invariant
            msg@.len() >= 12,
            i <= qdcount,
            address_in(msg@) == (match questions_end(msg@, pos as int, qdcount - i) {
                None => None,
                Some(p) => first_address(msg@, p, ancount as int),
            }),
        decreases qdcount - i,
    {
        match skip_name(msg, pos) {
            None => {
                return None;
            },
            Some(p) => {
                match p.checked_add(4) {
                    Some(q) => {
                        pos = q;
                    },
                    None => {
                        proof {
                            assert(msg.len() == msg@.len());
                            lemma_past_end(msg@, p + 4, (qdcount - i - 1) as int, ancount as int);
                        }
                        return None;
                    },
                }
            },
        }
        i += 1;
    }
    let mut j: u16 = 0;
    while j < ancount
        invariant
            j <= ancount,
            address_in(msg@) == first_address(msg@, pos as int, ancount - j),
        decreases ancount - j,
    {
        let p = match skip_name(msg, pos) {
            None => {
                return None;
            },
            Some(p) => p,
        };
        if msg.len() - p < 10 {
            return None;
        }
        let rtype = util::get_be16(msg, p);
        let rclass = util::get_be16(msg, p + 2);
        let len = util::get_be16(msg, p + 8) as usize;
        let rdata = p + 10;
        if len > msg.len() - rdata {
            return None;
        }
        if rtype == QTYPE_A && rclass == QCLASS_IN && len == 4 {
            let a = [msg[rdata], msg[rdata + 1], msg[rdata + 2], msg[rdata + 3]];
            assert(a@ =~= msg@.subrange(p + 10, p + 14));
            return Some(a);
        }
        pos = rdata + len;
        j += 1;
    }
    None
}

/// Nothing is found beyond the end of a message.
proof fn lemma_past_end(msg: Seq<u8>, pos: int, n: int, m: int)
    requires
        pos >= msg.len(),
        n >= 0,
    ensures
        n > 0 ==> questions_end(msg, pos, n) is None,
        n == 0 ==> questions_end(msg, pos, n) == Some(pos),
        first_address(msg, pos, m) is None,
{
}

/// What the message `msg` is to the one who waits for the reply to the query `id`.
pub fn parse_answer(id: u16, msg: &[u8]) -> (r: Answer)
    ensures
        !replies_to(id, msg@) ==> r is Ignore,
        replies_to(id, msg@) ==> match address_in(msg@) {
            Some(a) => r matches Answer::Ipv4(b) && b@ == a,
            None => r is NoIpv4,
        },
{
    if msg.len() < 12 || util::get_be16(msg, 0) != id {
        return Answer::Ignore;
    }
    match find_a(msg) {
        Some(a) => Answer::Ipv4(a),
        None => Answer::NoIpv4,
    }
}

// ---------------------------------------------------------------------------------------------
// Laws
// ---------------------------------------------------------------------------------------------

/// A name is stepped over label by label.
proof fn lemma_name_skipped(msg: Seq<u8>, pos: int, labels: Seq<Seq<u8>>)
    requires
        0 <= pos,
        all_ok(labels),
        pos + labels_encoded(labels).len() as int + 1 <= msg.len(),
        msg.subrange(pos, pos + labels_encoded(labels).len() as int) == labels_encoded(labels),
        msg[pos + labels_encoded(labels).len() as int] == 0,
    ensures
        name_end(msg, pos) == Some(pos + labels_encoded(labels).len() as int + 1),
    decreases labels.len(),
{
    let e = labels_encoded(labels);
    if labels.len() == 0 {
        let n = msg[pos];
        assert(n & 0xc0 == 0) by (bit_vector)
            requires
                n == 0,
        ;
    } else {
        lemma_all_ok(labels);
        let rest = labels.skip(1);
        let r = labels_encoded(rest);
        let n = msg[pos];
        assert(msg.subrange(pos, pos + e.len() as int)[0] == e[0]);
        assert(n == labels[0].len());
        assert(n & 0xc0 != 0xc0) by (bit_vector)
            requires
                n <= 63,
        ;
        let p = pos + 1 + n;
        assert(msg.subrange(p, p + r.len() as int) =~= r) by {
            assert forall|j: int| 0 <= j < r.len() implies msg[p + j] == r[j] by {
                assert(msg.subrange(pos, pos + e.len() as int)[1 + n + j] == e[1 + n + j]);
            }
        }
        lemma_name_skipped(msg, p, rest);
    }
}

/// The record of an address, its name a pointer to the question.
pub open spec fn address_record(ttl: Seq<u8>, addr: Seq<u8>) -> Seq<u8> {
    seq![0xC0u8, 0x0C] + be(QTYPE_A) + be(QCLASS_IN) + ttl + seq![0u8, 4] + addr
}

/// The reply of a server to a query is understood: a message with the identifier of the query, no
/// error, the question of the query and one record with the address yields that address.
pub proof fn law_reply_to_a_query_is_found(
    id: u16,
    name: Seq<u8>,
    flags: Seq<u8>,
    ttl: Seq<u8>,
    addr: Seq<u8>,
)
    requires
        query(id, name) is Some,
        flags.len() == 2,
        flags[1] & 0x0f == 0,
        ttl.len() == 4,
        addr.len() == 4,
    ensures
        ({
            let q = query(id, name)->0;
            let msg = be(id) + flags + seq![0u8, 1, 0, 1, 0, 0, 0, 0] + q.skip(12)
                + address_record(ttl, addr);
            &&& replies_to(id, msg)
            &&& address_in(msg) == Some(addr)
        }),
{
    let q = query(id, name)->0;
    let labels = labels_from(without_root(name), 0);
    let e = labels_encoded(labels);
    let rec = address_record(ttl, addr);
    let head = be(id) + flags + seq![0u8, 1, 0, 1, 0, 0, 0, 0];
    let question = e + seq![0u8, 0, 1, 0, 1];
    assert(q.skip(12) =~= question);
    let msg = head + question + rec;
    assert(msg =~= be(id) + flags + seq![0u8, 1, 0, 1, 0, 0, 0, 0] + q.skip(12) + rec);
    assert(head.len() == 12);
    assert(msg[0] == be(id)[0] && msg[1] == be(id)[1]);
    assert(util::be16(msg, 0) == id);
    assert(msg[3] == flags[1]);
    assert(util::be16(msg, 4) == 1);
    assert(util::be16(msg, 6) == 1);
    assert(msg.subrange(12, 12 + e.len() as int) =~= e);
    assert(msg[12 + e.len() as int] == question[e.len() as int]);
    lemma_name_skipped(msg, 12, labels);
    let p = 12 + e.len() as int + 5;
    assert(questions_end(msg, 12, 1) == Some(p)) by {
        reveal_with_fuel(questions_end, 2);
    }
    assert forall|j: int| 0 <= j < rec.len() implies msg[p + j] == rec[j] by {}
    assert(rec.len() == 16);
    assert(msg[p] == 0xC0);
    assert(0xC0u8 & 0xc0u8 == 0xc0u8) by (bit_vector);
    assert(name_end(msg, p) == Some(p + 2));
    let d = p + 2;
    assert(msg[d] == rec[2] && msg[d + 1] == rec[3] && msg[d + 2] == rec[4] && msg[d + 3]
        == rec[5]);
    assert(msg[d + 8] == rec[10] && msg[d + 9] == rec[11]);
    assert(util::be16(msg, d) == QTYPE_A);
    assert(util::be16(msg, d + 2) == QCLASS_IN);
    assert(util::be16(msg, d + 8) == 4);
    assert(msg.subrange(d + 10, d + 14) =~= addr);
    assert(first_address(msg, p, 1) == Some(addr));
}

/// A dot at the end of a name asks for the same name, unless the name ends in a dot already.
pub proof fn law_trailing_dot_is_the_same_name(id: u16, name: Seq<u8>)
    requires
        name.len() == 0 || name.last() != DOT,
    ensures
        query(id, name.push(DOT)) == query(id, name),
{
    assert(name.push(DOT).drop_last() =~= name);
}

} // verus!
