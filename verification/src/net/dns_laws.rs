//! What is found in a reply of a name server, whatever else it holds.

use crate::net::dns;
use crate::util;
use vstd::prelude::*;

verus! {

/// A record of a message: a name as it stands there, a type, a class, four bytes that say how long
/// it is valid, and data.
pub struct Record {
    pub name: Seq<u8>,
    pub rtype: u16,
    pub class: u16,
    pub ttl: Seq<u8>,
    pub data: Seq<u8>,
}

/// A number in two bytes, the high one first.
pub open spec fn two(x: u16) -> Seq<u8> {
    seq![(x / 256) as u8, (x % 256) as u8]
}

/// A name as it stands in a message: labels of 1 to 63 bytes, each with its length before it, and
/// then a zero or a pointer, two bytes of which the first is 0xC0 at least.
pub open spec fn is_name(n: Seq<u8>) -> bool
    decreases n.len(),
{
    ||| n == seq![0u8]
    ||| n.len() == 2 && n[0] >= 0xC0
    ||| n.len() > 0 && 1 <= n[0] <= 63 && n.len() > 1 + n[0] && is_name(n.skip(1 + n[0]))
}

/// A record that can be sent.
pub open spec fn is_record(r: Record) -> bool {
    is_name(r.name) && r.ttl.len() == 4 && r.data.len() <= u16::MAX
}

/// A record that holds an address of four bytes.
pub open spec fn holds_address(r: Record) -> bool {
    r.rtype == 1 && r.class == 1 && r.data.len() == 4
}

/// A record as it is sent.
pub open spec fn record_bytes(r: Record) -> Seq<u8> {
    r.name + (two(r.rtype) + two(r.class) + r.ttl + two(r.data.len() as u16) + r.data)
}

/// Records one behind the other.
pub open spec fn records_bytes(rs: Seq<Record>) -> Seq<u8>
    decreases rs.len(),
{
    if rs.len() == 0 {
        Seq::empty()
    } else {
        record_bytes(rs[0]) + records_bytes(rs.skip(1))
    }
}

/// Questions one behind the other: a name, and four bytes for its type and class.
pub open spec fn questions_bytes(qs: Seq<(Seq<u8>, Seq<u8>)>) -> Seq<u8>
    decreases qs.len(),
{
    if qs.len() == 0 {
        Seq::empty()
    } else {
        qs[0].0 + qs[0].1 + questions_bytes(qs.skip(1))
    }
}

/// A message: the identifier, two bytes of flags, how many questions and answers there are, four
/// bytes for the other counts, the questions, the answers, and what comes behind them.
pub open spec fn message(
    id: u16,
    flags: Seq<u8>,
    answers: u16,
    counts: Seq<u8>,
    qs: Seq<(Seq<u8>, Seq<u8>)>,
    rest: Seq<u8>,
) -> Seq<u8> {
    two(id) + flags + two(qs.len() as u16) + two(answers) + counts + questions_bytes(qs) + rest
}

/// `b` stands in `msg` at `pos`.
spec fn at(msg: Seq<u8>, pos: int, b: Seq<u8>) -> bool {
    &&& 0 <= pos
    &&& pos + b.len() <= msg.len()
    &&& forall|j: int| 0 <= j < b.len() ==> #[trigger] msg[pos + j] == b[j]
}

proof fn lemma_at(msg: Seq<u8>, pos: int, a: Seq<u8>, b: Seq<u8>)
    requires
        at(msg, pos, a + b),
    ensures
        at(msg, pos, a),
        at(msg, pos + a.len(), b),
{
    assert forall|j: int| 0 <= j < a.len() implies #[trigger] msg[pos + j] == a[j] by {
        assert(msg[pos + j] == (a + b)[j]);
    }
    assert forall|j: int| 0 <= j < b.len() implies #[trigger] msg[pos + a.len() + j] == b[j] by {
        assert(msg[pos + (a.len() + j)] == (a + b)[a.len() + j]);
    }
}

proof fn lemma_two(msg: Seq<u8>, pos: int, x: u16)
    requires
        at(msg, pos, two(x)),
    ensures
        util::be16(msg, pos) == x,
{
    assert(msg[pos + 0] == two(x)[0] && msg[pos + 1] == two(x)[1]);
}

/// A name is stepped over.
proof fn lemma_name(msg: Seq<u8>, pos: int, n: Seq<u8>)
    requires
        at(msg, pos, n),
        is_name(n),
    ensures
        dns::name_end(msg, pos) == Some(pos + n.len()),
    decreases n.len(),
{
    let b = n[0];
    assert(msg[pos + 0] == b);
    if n == seq![0u8] {
        assert(0u8 & 0xc0 == 0) by (bit_vector);
    } else if n.len() == 2 && b >= 0xC0 {
        assert(b & 0xc0 == 0xc0) by (bit_vector)
            requires
                b >= 0xC0u8,
        ;
    } else {
        assert(b & 0xc0 != 0xc0) by (bit_vector)
            requires
                b <= 63u8,
        ;
        let rest = n.skip(1 + b);
        assert forall|j: int| 0 <= j < rest.len() implies #[trigger] msg[pos + 1 + b + j] == rest[j] by {
            assert(msg[pos + (1 + b + j)] == n[1 + b + j]);
        }
        lemma_name(msg, pos + 1 + b, rest);
    }
}

/// One record.
proof fn lemma_record(msg: Seq<u8>, pos: int, r: Record, n: int)
    requires
        at(msg, pos, record_bytes(r)),
        is_record(r),
        n > 0,
    ensures
        holds_address(r) ==> dns::first_address(msg, pos, n) == Some(r.data),
        !holds_address(r) ==> dns::first_address(msg, pos, n) == dns::first_address(
            msg,
            pos + record_bytes(r).len(),
            n - 1,
        ),
{
    let len = two(r.data.len() as u16);
    let a = two(r.rtype) + two(r.class) + r.ttl + len;
    let p = pos + r.name.len();
    lemma_at(msg, pos, r.name, a + r.data);
    lemma_name(msg, pos, r.name);
    lemma_at(msg, p, a, r.data);
    lemma_at(msg, p, two(r.rtype) + two(r.class) + r.ttl, len);
    lemma_at(msg, p, two(r.rtype) + two(r.class), r.ttl);
    lemma_at(msg, p, two(r.rtype), two(r.class));
    lemma_two(msg, p, r.rtype);
    lemma_two(msg, p + 2, r.class);
    lemma_two(msg, p + 8, r.data.len() as u16);
    assert(record_bytes(r).len() == r.name.len() + 10 + r.data.len());
    if holds_address(r) {
        assert forall|j: int| 0 <= j < 4 implies #[trigger] msg.subrange(p + 10, p + 14)[j]
            == r.data[j] by {
            assert(msg[p + 10 + j] == r.data[j]);
        }
        assert(msg.subrange(p + 10, p + 14) =~= r.data);
    }
}

/// Records that hold no address are stepped over.
proof fn lemma_records(msg: Seq<u8>, pos: int, rs: Seq<Record>, n: int)
    requires
        at(msg, pos, records_bytes(rs)),
        forall|j: int| 0 <= j < rs.len() ==> is_record(#[trigger] rs[j]) && !holds_address(rs[j]),
        n >= rs.len(),
    ensures
        dns::first_address(msg, pos, n) == dns::first_address(
            msg,
            pos + records_bytes(rs).len(),
            n - rs.len(),
        ),
    decreases rs.len(),
{
    if rs.len() > 0 {
        let rest = rs.skip(1);
        lemma_at(msg, pos, record_bytes(rs[0]), records_bytes(rest));
        assert(is_record(rs[0]) && !holds_address(rs[0]));
        lemma_record(msg, pos, rs[0], n);
        assert forall|j: int| 0 <= j < rest.len() implies is_record(#[trigger] rest[j])
            && !holds_address(rest[j]) by {
            assert(rest[j] == rs[j + 1]);
        }
        lemma_records(msg, pos + record_bytes(rs[0]).len(), rest, n - 1);
    }
}

/// Questions are stepped over.
proof fn lemma_questions(msg: Seq<u8>, pos: int, qs: Seq<(Seq<u8>, Seq<u8>)>)
    requires
        at(msg, pos, questions_bytes(qs)),
        forall|j: int| 0 <= j < qs.len() ==> is_name((#[trigger] qs[j]).0) && qs[j].1.len() == 4,
    ensures
        dns::questions_end(msg, pos, qs.len() as int) == Some(pos + questions_bytes(qs).len()),
    decreases qs.len(),
{
    if qs.len() > 0 {
        let rest = qs.skip(1);
        assert(is_name(qs[0].0) && qs[0].1.len() == 4);
        lemma_at(msg, pos, qs[0].0 + qs[0].1, questions_bytes(rest));
        lemma_at(msg, pos, qs[0].0, qs[0].1);
        lemma_name(msg, pos, qs[0].0);
        assert forall|j: int| 0 <= j < rest.len() implies is_name((#[trigger] rest[j]).0)
            && rest[j].1.len() == 4 by {
            assert(rest[j] == qs[j + 1]);
        }
        lemma_questions(msg, pos + qs[0].0.len() + 4, rest);
    }
}

/// The parts of a message.
proof fn lemma_message(
    id: u16,
    flags: Seq<u8>,
    answers: u16,
    counts: Seq<u8>,
    qs: Seq<(Seq<u8>, Seq<u8>)>,
    rest: Seq<u8>,
)
    requires
        flags.len() == 2,
        counts.len() == 4,
        qs.len() <= u16::MAX,
        forall|j: int| 0 <= j < qs.len() ==> is_name((#[trigger] qs[j]).0) && qs[j].1.len() == 4,
    ensures
        ({
            let msg = message(id, flags, answers, counts, qs, rest);
            let p = 12 + questions_bytes(qs).len() as int;
            &&& msg.len() >= 12
            &&& util::be16(msg, 0) == id
            &&& msg[3] == flags[1]
            &&& util::be16(msg, 4) == qs.len()
            &&& util::be16(msg, 6) == answers
            &&& dns::questions_end(msg, 12, qs.len() as int) == Some(p)
            &&& at(msg, p, rest)
        }),
{
    let msg = message(id, flags, answers, counts, qs, rest);
    let q = questions_bytes(qs);
    assert(at(msg, 0, msg));
    let a1 = two(id) + flags;
    let a2 = a1 + two(qs.len() as u16);
    let a3 = a2 + two(answers);
    let a4 = a3 + counts;
    lemma_at(msg, 0, a4 + q, rest);
    lemma_at(msg, 0, a4, q);
    lemma_at(msg, 0, a3, counts);
    lemma_at(msg, 0, a2, two(answers));
    lemma_at(msg, 0, a1, two(qs.len() as u16));
    lemma_at(msg, 0, two(id), flags);
    lemma_two(msg, 0, id);
    lemma_two(msg, 4, qs.len() as u16);
    lemma_two(msg, 6, answers);
    assert(msg[two(id).len() as int + 1] == flags[1]);
    lemma_questions(msg, 12, qs);
}

/// The first address in a reply is found, whatever questions it repeats, whatever records stand
/// before the address (aliases, addresses of another kind), and whatever comes behind it.
pub proof fn law_first_address_is_found(
    id: u16,
    flags: Seq<u8>,
    answers: u16,
    counts: Seq<u8>,
    qs: Seq<(Seq<u8>, Seq<u8>)>,
    before: Seq<Record>,
    r: Record,
    rest: Seq<u8>,
)
    requires
        flags.len() == 2,
        flags[1] % 16 == 0,
        counts.len() == 4,
        qs.len() <= u16::MAX,
        before.len() < answers,
        forall|j: int| 0 <= j < qs.len() ==> is_name((#[trigger] qs[j]).0) && qs[j].1.len() == 4,
        forall|j: int|
            0 <= j < before.len() ==> is_record(#[trigger] before[j]) && !holds_address(before[j]),
        is_record(r),
        holds_address(r),
    ensures
        ({
            let msg = message(
                id,
                flags,
                answers,
                counts,
                qs,
                records_bytes(before) + (record_bytes(r) + rest),
            );
            dns::replies_to(id, msg) && dns::address_in(msg) == Some(r.data)
        }),
{
    let tail = records_bytes(before) + (record_bytes(r) + rest);
    let msg = message(id, flags, answers, counts, qs, tail);
    let p = 12 + questions_bytes(qs).len();
    lemma_message(id, flags, answers, counts, qs, tail);
    let f = flags[1];
    assert(f & 0x0f == 0) by (bit_vector)
        requires
            f % 16 == 0u8,
    ;
    lemma_at(msg, p as int, records_bytes(before), record_bytes(r) + rest);
    let e = p + records_bytes(before).len();
    lemma_at(msg, e as int, record_bytes(r), rest);
    lemma_records(msg, p as int, before, answers as int);
    lemma_record(msg, e as int, r, answers - before.len());
}

/// A reply whose records hold no address yields none, and one that reports an error yields none
/// either. It is the reply all the same.
pub proof fn law_reply_without_address_yields_none(
    id: u16,
    flags: Seq<u8>,
    counts: Seq<u8>,
    qs: Seq<(Seq<u8>, Seq<u8>)>,
    rs: Seq<Record>,
    rest: Seq<u8>,
)
    requires
        flags.len() == 2,
        counts.len() == 4,
        qs.len() <= u16::MAX,
        rs.len() <= u16::MAX,
        forall|j: int| 0 <= j < qs.len() ==> is_name((#[trigger] qs[j]).0) && qs[j].1.len() == 4,
        flags[1] % 16 != 0 || forall|j: int|
            0 <= j < rs.len() ==> is_record(#[trigger] rs[j]) && !holds_address(rs[j]),
    ensures
        ({
            let msg = message(id, flags, rs.len() as u16, counts, qs, records_bytes(rs) + rest);
            dns::replies_to(id, msg) && dns::address_in(msg) is None
        }),
{
    let tail = records_bytes(rs) + rest;
    let msg = message(id, flags, rs.len() as u16, counts, qs, tail);
    let p = 12 + questions_bytes(qs).len();
    lemma_message(id, flags, rs.len() as u16, counts, qs, tail);
    let f = flags[1];
    assert(f % 16 != 0 ==> f & 0x0f != 0) by (bit_vector);
    assert(f % 16 == 0 ==> f & 0x0f == 0) by (bit_vector);
    lemma_at(msg, p as int, records_bytes(rs), rest);
    if flags[1] % 16 == 0 {
        lemma_records(msg, p as int, rs, rs.len() as int);
    }
}

/// Only a message of twelve bytes at least that starts with the identifier of the query is the
/// reply to it.
pub proof fn law_reply_bears_the_identifier(id: u16, msg: Seq<u8>)
    ensures
        dns::replies_to(id, msg) == (msg.len() >= 12 && msg[0] == id / 256 && msg[1] == id % 256),
{
}

/// An address that is found stands in the message, behind the length 4.
pub proof fn law_found_address_stands_in_the_message(msg: Seq<u8>)
    requires
        msg.len() >= 12,
        dns::address_in(msg) is Some,
    ensures
        dns::address_in(msg)->0.len() == 4,
        exists|p: int|
            #![trigger msg[p]]
            10 <= p <= msg.len() - 4 && msg[p - 2] == 0 && msg[p - 1] == 4
                && dns::address_in(msg)->0 == seq![msg[p], msg[p + 1], msg[p + 2], msg[p + 3]],
{
    let p = dns::questions_end(msg, 12, util::be16(msg, 4) as int)->0;
    lemma_questions_end(msg, 12, util::be16(msg, 4) as int);
    lemma_stands(msg, p, util::be16(msg, 6) as int);
}

proof fn lemma_name_end(msg: Seq<u8>, pos: int)
    ensures
        dns::name_end(msg, pos) matches Some(p) ==> p > pos,
    decreases msg.len() - pos,
{
    if pos < msg.len() && msg[pos] & 0xc0 != 0xc0 && msg[pos] != 0 && pos + 1 + msg[pos] < msg.len() {
        lemma_name_end(msg, pos + 1 + msg[pos]);
    }
}

proof fn lemma_questions_end(msg: Seq<u8>, pos: int, n: int)
    ensures
        dns::questions_end(msg, pos, n) matches Some(p) ==> p >= pos,
    decreases n,
{
    if n > 0 {
        lemma_name_end(msg, pos);
        if let Some(p) = dns::name_end(msg, pos) {
            lemma_questions_end(msg, p + 4, n - 1);
        }
    }
}

proof fn lemma_stands(msg: Seq<u8>, pos: int, n: int)
    requires
        0 <= pos,
        dns::first_address(msg, pos, n) is Some,
    ensures
        dns::first_address(msg, pos, n)->0.len() == 4,
        exists|p: int|
            #![trigger msg[p]]
            10 <= p <= msg.len() - 4 && msg[p - 2] == 0 && msg[p - 1] == 4
                && dns::first_address(msg, pos, n)->0 == seq![
                msg[p],
                msg[p + 1],
                msg[p + 2],
                msg[p + 3],
            ],
    decreases n,
{
    lemma_name_end(msg, pos);
    let p = dns::name_end(msg, pos)->0;
    let len = util::be16(msg, p + 8);
    if util::be16(msg, p) == 1 && util::be16(msg, p + 2) == 1 && len == 4 {
        let q = p + 10;
        assert(msg.subrange(q, q + 4) =~= seq![msg[q], msg[q + 1], msg[q + 2], msg[q + 3]]);
        assert(msg[q - 2] == 0 && msg[q - 1] == 4);
    } else {
        lemma_stands(msg, p + 10 + len, n - 1);
    }
}

/// Where the label that starts at `i` ends.
proof fn lemma_label_end(s: Seq<u8>, i: int)
    requires
        0 <= i <= s.len(),
    ensures
        i <= dns::dot_from(s, i) <= s.len(),
        forall|j: int| i <= j < dns::dot_from(s, i) ==> s[j] != 0x2E,
        dns::dot_from(s, i) < s.len() ==> s[dns::dot_from(s, i)] == 0x2E,
    decreases s.len() - i,
{
    if i < s.len() && s[i] != 0x2E {
        lemma_label_end(s, i + 1);
    }
}

/// Whether `n` is the length of the label that starts at `i`, and can be sent.
pub open spec fn label_length(s: Seq<u8>, i: int, n: int) -> bool {
    &&& 1 <= n <= 63
    &&& i + n <= s.len()
    &&& forall|j: int| i <= j < i + n ==> s[j] != 0x2E
    &&& i + n < s.len() ==> s[i + n] == 0x2E
}

/// Whether a label that can be sent starts at `i`.
pub open spec fn label_fits(s: Seq<u8>, i: int) -> bool {
    exists|n: int| label_length(s, i, n)
}

/// The labels from `i` on as they are sent.
proof fn lemma_labels_spelled(s: Seq<u8>, i: int)
    requires
        0 <= i <= s.len(),
        dns::all_ok(dns::labels_from(s, i)),
    ensures
        ({
            let e = dns::labels_encoded(dns::labels_from(s, i));
            &&& e.len() == s.len() - i + 1
            &&& label_length(s, i, e[0] as int)
            &&& forall|j: int|
                i <= j < s.len() ==> if s[j] == 0x2E {
                    label_length(s, j + 1, #[trigger] e[j + 1 - i] as int)
                } else {
                    e[j + 1 - i] == s[j]
                }
        }),
    decreases s.len() - i,
{
    let ls = dns::labels_from(s, i);
    let e = dns::labels_encoded(ls);
    let p = dns::dot_from(s, i);
    lemma_label_end(s, i);
    assert(dns::label_ok(ls[0]));
    assert(ls[0] == s.subrange(i, p));
    if p < s.len() {
        assert(ls.skip(1) =~= dns::labels_from(s, p + 1));
        assert forall|m: int| 0 <= m < ls.skip(1).len() implies dns::label_ok(
            #[trigger] ls.skip(1)[m],
        ) by {
            assert(dns::label_ok(ls[m + 1]));
        }
        lemma_labels_spelled(s, p + 1);
        let rest = dns::labels_encoded(ls.skip(1));
        assert(e == seq![ls[0].len() as u8] + ls[0] + rest);
        assert forall|j: int| i <= j < s.len() implies if s[j] == 0x2E {
            label_length(s, j + 1, #[trigger] e[j + 1 - i] as int)
        } else {
            e[j + 1 - i] == s[j]
        } by {
            if j == p {
                assert(e[j + 1 - i] == rest[0]);
            } else if j > p {
                assert(e[j + 1 - i] == rest[j + 1 - (p + 1)]);
            } else {
                assert(e[j + 1 - i] == ls[0][j - i]);
            }
        }
    } else {
        assert(ls.skip(1) =~= Seq::<Seq<u8>>::empty());
        assert(dns::labels_encoded(ls.skip(1)) == Seq::<u8>::empty());
        assert(e =~= seq![ls[0].len() as u8] + ls[0]);
    }
}

/// Labels of right lengths can be sent.
proof fn lemma_labels_sendable(s: Seq<u8>, i: int)
    requires
        0 <= i <= s.len(),
        label_fits(s, i),
        forall|j: int|
            i <= j < s.len() && s[j] == 0x2E ==> #[trigger] label_fits(s, j + 1),
    ensures
        dns::all_ok(dns::labels_from(s, i)),
    decreases s.len() - i,
{
    let p = dns::dot_from(s, i);
    let ls = dns::labels_from(s, i);
    lemma_label_end(s, i);
    let n = choose|n: int| label_length(s, i, n);
    if p < i + n {
        assert(s[p] != 0x2E);
    } else if p > i + n {
        assert(s[i + n] != 0x2E);
    }
    if p < s.len() {
        assert(label_fits(s, p + 1));
        lemma_labels_sendable(s, p + 1);
        let rest = dns::labels_from(s, p + 1);
        assert(ls == seq![s.subrange(i, p)] + rest);
        assert forall|m: int| 0 <= m < ls.len() implies dns::label_ok(#[trigger] ls[m]) by {
            if m > 0 {
                assert(ls[m] == rest[m - 1]);
            }
        }
    }
}

/// A query is twelve bytes of header, with the identifier, the wish for recursion and one question,
/// then the name and five bytes: the end of the name, the type of an address record and the class.
/// The name stands there byte for byte, but that each dot, and the place before the name, holds the
/// length of the label behind it.
pub proof fn law_query_spells_the_name(id: u16, name: Seq<u8>)
    requires
        name.len() > 0,
        name.last() != 0x2E,
    ensures
        dns::query(id, name) matches Some(q) ==> {
            let n = name.len() as int;
            &&& q.len() == n + 18
            &&& q[0] == id / 256 && q[1] == id % 256
            &&& q[2] == 1 && q[3] == 0 && q[4] == 0 && q[5] == 1
            &&& forall|j: int| 6 <= j < 12 ==> #[trigger] q[j] == 0
            &&& label_length(name, 0, q[12] as int)
            &&& forall|j: int|
                0 <= j < n ==> if name[j] == 0x2E {
                    label_length(name, j + 1, #[trigger] q[j + 13] as int)
                } else {
                    q[j + 13] == name[j]
                }
            &&& q[n + 13] == 0 && q[n + 14] == 0 && q[n + 15] == 1 && q[n + 16] == 0 && q[n + 17] == 1
        },
{
    if let Some(q) = dns::query(id, name) {
        let e = dns::labels_encoded(dns::labels_from(name, 0));
        let n = name.len() as int;
        lemma_labels_spelled(name, 0);
        assert(dns::query_header(id).len() == 12);
        assert(q[12] == e[0]);
        assert forall|j: int| 0 <= j < n implies if name[j] == 0x2E {
            label_length(name, j + 1, #[trigger] q[j + 13] as int)
        } else {
            q[j + 13] == name[j]
        } by {
            assert(q[j + 13] == e[j + 1 - 0]);
        }
    }
}

/// A name can be asked for where each of its labels has 1 to 63 bytes.
pub proof fn law_names_of_right_labels_can_be_asked_for(id: u16, name: Seq<u8>)
    requires
        name.len() > 0,
        name.last() != 0x2E,
        label_fits(name, 0),
        forall|j: int|
            0 <= j < name.len() && name[j] == 0x2E ==> #[trigger] label_fits(name, j + 1),
    ensures
        dns::query(id, name) is Some,
{
    lemma_labels_sendable(name, 0);
}

} // verus!
