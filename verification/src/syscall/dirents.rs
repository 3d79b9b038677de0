//! Directory listings as `getdents64` hands them out: one record after the other, each with a
//! number, the offset of the next record, its own length, a type and a name that a zero ends.

use crate::fs::fat_dir::{self, DirItem, ItemView};
use crate::util;
use vstd::prelude::*;

verus! {

/// Type of a directory in a directory record.
pub const DT_DIR: u8 = 4;

/// Type of a file in a directory record.
pub const DT_REG: u8 = 8;

/// Bytes of a directory record before the name.
pub const DIRENT_HEADER: usize = 19;

/// Longest name of a directory entry: eight characters, a dot and an extension of three.
pub const NAME_MAX: usize = 12;

/// Length of the record for a name: header, name and a zero, rounded up to a multiple of eight.
pub open spec fn record_len(name_len: nat) -> nat {
    ((DIRENT_HEADER + name_len + 1 + 7) / 8 * 8) as nat
}

/// The record of the entry number `i`, at offset `start` of a listing.
pub open spec fn record(i: int, start: int, item: ItemView) -> Seq<u8> {
    let n = record_len(item.name.len());
    util::enc64((i + 1) as u64) + util::enc64((start + n) as u64) + util::enc16(n as u16) + seq![
        if item.is_dir {
            DT_DIR
        } else {
            DT_REG
        },
    ] + item.name + Seq::new((n - DIRENT_HEADER - item.name.len()) as nat, |j: int| 0u8)
}

/// The records of a list of entries.
pub open spec fn dirents(items: Seq<ItemView>) -> Seq<u8>
    decreases items.len(),
{
    if items.len() == 0 {
        Seq::empty()
    } else {
        let before = dirents(items.drop_last());
        before + record(items.len() - 1, before.len() as int, items.last())
    }
}

/// How many bytes of whole records, behind the `span` bytes from `off` that were taken already,
/// fit into `count`. None where what stands there are no records.
pub open spec fn dents_span(data: Seq<u8>, off: int, span: int, count: int) -> Option<int>
    decreases data.len() - off - span,
{
    if off + span >= data.len() {
        Some(span)
    } else if off + span + 18 > data.len() {
        None
    } else {
        let n = util::le16(data, off + span + 16);
        if span + n > count {
            Some(span)
        } else if n == 0 || off + span + n > data.len() {
            None
        } else {
            dents_span(data, off, span + n, count)
        }
    }
}

/// Appends bytes.
fn push_bytes(out: &mut Vec<u8>, bytes: &[u8])
    ensures
        final(out)@ == old(out)@ + bytes@,
{
    out.extend_from_slice(bytes);
}

/// Appends the record of entry number `i`.
fn push_record(out: &mut Vec<u8>, i: usize, item: &DirItem)
    requires
        i < usize::MAX,
    ensures
        final(out)@ == old(out)@ + record(i as int, old(out)@.len() as int, item@),
{
    let ghost before = out@;
    let ghost iv = item@;
    let ghost n = record_len(iv.name.len());
    let len = item.name.len() as u128;
    let reclen: u128 = (len + 27) / 8 * 8;
    let next: u128 = out.len() as u128 + reclen;
    assert(reclen == n);
    let mut head = [0u8;19];
    util::put_u64(&mut head, 0, i as u64 + 1);
    util::put_u64(&mut head, 8, next as u64);
    util::put_u16(&mut head, 16, reclen as u16);
    head[18] = if item.is_dir { DT_DIR } else { DT_REG };
    let ghost front = util::enc64((i + 1) as u64) + util::enc64((before.len() + n) as u64)
        + util::enc16(n as u16) + seq![
        if iv.is_dir {
            DT_DIR
        } else {
            DT_REG
        },
    ];
    assert(head@ =~= front);
    push_bytes(out, &head);
    push_bytes(out, item.name.as_slice());
    let pad = (reclen - 19 - len) as usize;
    let mut j: usize = 0;
    let ghost named = out@;
    assert(named == before + front + iv.name);
    while j < pad
        invariant
            j <= pad,
            out@ =~= named + Seq::new(j as nat, |x: int| 0u8),
        decreases pad - j,
    {
        out.push(0);
        j += 1;
    }
    let ghost zeros = Seq::new(pad as nat, |x: int| 0u8);
    assert(record(i as int, before.len() as int, iv) == front + iv.name + zeros);
    assert(before + front + iv.name + zeros =~= before + (front + iv.name + zeros));
}

/// The records of a list of entries.
pub fn serialize_dirents(items: &Vec<DirItem>) -> (out: Vec<u8>)
    ensures
        out@ == dirents(fat_dir::item_views(items@)),
{
    let ghost all = fat_dir::item_views(items@);
    let mut out: Vec<u8> = Vec::new();
    let mut i: usize = 0;
    assert(all.take(0) =~= Seq::<ItemView>::empty());
    while i < items.len()
        invariant
            all == fat_dir::item_views(items@),
            i <= items@.len(),
            out@ == dirents(all.take(i as int)),
        decreases items@.len() - i,
    {
        assert(all.take(i + 1).drop_last() =~= all.take(i as int));
        assert(all.take(i + 1).last() == items@[i as int]@);
        push_record(&mut out, i, &items[i]);
        i += 1;
    }
    assert(all.take(i as int) =~= all);
    out
}

/// How many bytes of whole records from `off` on fit into `count`, none where what stands there
/// are no records.
pub fn whole_records(data: &[u8], off: u64, count: u64) -> (r: Option<usize>)
    ensures
        match dents_span(data@, off as int, 0, count as int) {
            Some(n) => r matches Some(m) && m == n && (n > 0 ==> off + n <= data@.len()),
            None => r is None,
        },
{
    let len = data.len();
    if off >= len as u64 {
        return Some(0);
    }
    let at = off as usize;
    let mut span: usize = 0;
    while span < len - at
        invariant
            at == off,
            len == data@.len(),
            at < len,
            span <= len - at,
            dents_span(data@, off as int, 0, count as int) == dents_span(
                data@,
                off as int,
                span as int,
                count as int,
            ),
        decreases len - at - span,
    {
        let rec = at + span;
        if len - rec < 18 {
            return None;
        }
        let n = util::get_u16(data, rec + 16) as usize;
        if n as u64 > count || span as u64 > count - n as u64 {
            return Some(span);
        }
        if n == 0 || n > len - rec {
            return None;
        }
        span += n;
    }
    Some(span)
}

/// A record is as long as it says, and says what it is long.
pub proof fn lemma_record(i: int, start: int, item: ItemView)
    requires
        item.name.len() <= NAME_MAX,
    ensures
        record(i, start, item).len() == record_len(item.name.len()),
        util::le16(record(i, start, item), 16) == record_len(item.name.len()),
        record_len(item.name.len()) >= 24,
        record_len(item.name.len()) <= 32,
{
    let n = record_len(item.name.len()) as u16;
    let r = record(i, start, item);
    util::lemma_le16_enc16(n);
    assert(r[16] == util::enc16(n)[0]);
    assert(r[17] == util::enc16(n)[1]);
}

/// All names in a list of entries are as short as those of a volume.
pub open spec fn short_names(items: Seq<ItemView>) -> bool {
    forall|j: int| 0 <= j < items.len() ==> (#[trigger] items[j]).name.len() <= NAME_MAX
}

/// Where the record of entry `j` starts.
pub open spec fn record_start(items: Seq<ItemView>, j: int) -> int {
    dirents(items.take(j)).len() as int
}

/// Each record of a listing stands where the records before it end.
pub proof fn lemma_record_at(items: Seq<ItemView>, j: int)
    requires
        short_names(items),
        0 <= j < items.len(),
    ensures
        record_start(items, j) + record_len(items[j].name.len()) == record_start(items, j + 1),
        record_start(items, j + 1) <= dirents(items).len(),
        dirents(items).subrange(record_start(items, j), record_start(items, j + 1)) == record(
            j,
            record_start(items, j),
            items[j],
        ),
    decreases items.len(),
{
    let init = items.drop_last();
    if j == items.len() - 1 {
        assert(items.take(j) =~= init);
        assert(items.take(j + 1) =~= items);
        lemma_record(j, record_start(items, j), items[j]);
        let s = record_start(items, j);
        assert(dirents(items).subrange(s, dirents(items).len() as int) =~= record(
            j,
            s,
            items[j],
        ));
    } else {
        assert(short_names(init)) by {
            assert forall|x: int| 0 <= x < init.len() implies (#[trigger] init[x]).name.len()
                <= NAME_MAX by {
                assert(init[x] == items[x]);
            }
        }
        lemma_record_at(init, j);
        assert(init.take(j) =~= items.take(j));
        assert(init.take(j + 1) =~= items.take(j + 1));
        let s = record_start(items, j);
        let e = record_start(items, j + 1);
        assert(dirents(items).subrange(s, e) =~= dirents(init).subrange(s, e));
    }
}

/// What the record of entry `m` says of its length.
proof fn lemma_length_at(items: Seq<ItemView>, m: int)
    requires
        short_names(items),
        0 <= m < items.len(),
    ensures
        ({
            let s = record_start(items, m);
            let n = util::le16(dirents(items), s + 16);
            &&& n >= 24
            &&& s + n == record_start(items, m + 1)
            &&& record_start(items, m + 1) <= dirents(items).len()
        }),
{
    let data = dirents(items);
    let s = record_start(items, m);
    let n = record_len(items[m].name.len()) as int;
    let rec = record(m, s, items[m]);
    lemma_record_at(items, m);
    lemma_record(m, s, items[m]);
    lemma_length_within(data, s, s + n, rec);
}

/// A number that stands in a part of bytes.
proof fn lemma_length_within(data: Seq<u8>, s: int, e: int, part: Seq<u8>)
    requires
        0 <= s,
        s + 18 <= e <= data.len(),
        data.subrange(s, e) == part,
    ensures
        util::le16(data, s + 16) == util::le16(part, 16),
{
    assert(data.subrange(s, e)[16] == data[s + 16]);
    assert(data.subrange(s, e)[17] == data[s + 17]);
}

/// The whole records from entry `j` on that fit into `count` go up to some entry, found from `m`.
proof fn lemma_span(items: Seq<ItemView>, j: int, m: int, count: int) -> (e: int)
    requires
        short_names(items),
        0 <= j <= m <= items.len(),
        record_start(items, m) - record_start(items, j) <= count,
    ensures
        m <= e <= items.len(),
        dents_span(
            dirents(items),
            record_start(items, j),
            record_start(items, m) - record_start(items, j),
            count,
        ) == Some(record_start(items, e) - record_start(items, j)),
        record_start(items, e) - record_start(items, j) <= count,
        e < items.len() ==> record_start(items, e + 1) - record_start(items, j) > count,
    decreases items.len() - m,
{
    let data = dirents(items);
    let off = record_start(items, j);
    let span = record_start(items, m) - off;
    if m == items.len() {
        assert(items.take(items.len() as int) =~= items);
        m
    } else {
        lemma_length_at(items, m);
        if record_start(items, m + 1) - off > count {
            m
        } else {
            lemma_span(items, j, m + 1, count)
        }
    }
}

/// The record of an entry is as long as its name asks, and no longer than the longest name asks.
pub proof fn lemma_record_starts(items: Seq<ItemView>, j: int)
    requires
        short_names(items),
        0 <= j < items.len(),
    ensures
        record_start(items, j) + record_len(items[j].name.len()) == record_start(items, j + 1),
        record_start(items, j + 1) <= dirents(items).len(),
        24 <= record_len(items[j].name.len()) <= 32,
{
    assert(record_start(items, j) + record_len(items[j].name.len()) == record_start(items, j + 1)
        && record_start(items, j + 1) <= dirents(items).len()) by {
        lemma_record_at(items, j);
    }
    lemma_record_len(items[j].name.len());
}

/// How long records are.
proof fn lemma_record_len(n: nat)
    requires
        n <= NAME_MAX,
    ensures
        24 <= record_len(n) <= 32,
{
}

/// Records stand in the order of their entries.
pub proof fn lemma_starts_grow(items: Seq<ItemView>, j: int, e: int)
    requires
        short_names(items),
        0 <= j <= e <= items.len(),
    ensures
        record_start(items, j) <= record_start(items, e),
        j < e ==> record_start(items, j) < record_start(items, e),
    decreases e - j,
{
    if j < e {
        lemma_record_starts(items, e - 1);
        lemma_starts_grow(items, j, e - 1);
    }
}

/// A listing can be read from the start of any of its records on, however much is asked for: what
/// is handed out are whole records, from entry `j` up to some entry `e`, as many as fit.
pub proof fn law_listing_is_handed_out_by_records(items: Seq<ItemView>, j: int, count: int)
    requires
        short_names(items),
        0 <= j <= items.len(),
        0 <= count,
    ensures
        exists|e: int|
            {
                &&& j <= e <= items.len()
                &&& #[trigger] record_start(items, e) - record_start(items, j) <= count
                &&& dents_span(dirents(items), record_start(items, j), 0, count) == Some(
                    record_start(items, e) - record_start(items, j),
                )
                &&& e < items.len() ==> record_start(items, e + 1) - record_start(items, j) > count
            },
        record_start(items, items.len() as int) == dirents(items).len(),
        forall|m: int|
            0 <= m < items.len() ==> dirents(items).subrange(
                #[trigger] record_start(items, m),
                record_start(items, m + 1),
            ) == record(m, record_start(items, m), items[m]),
{
    assert(items.take(items.len() as int) =~= items);
    let e = lemma_span(items, j, j, count);
    assert(record_start(items, e) - record_start(items, j) <= count);
    assert forall|m: int| 0 <= m < items.len() implies dirents(items).subrange(
        #[trigger] record_start(items, m),
        record_start(items, m + 1),
    ) == record(m, record_start(items, m), items[m]) by {
        lemma_record_at(items, m);
    }
}

} // verus!
