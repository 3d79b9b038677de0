//! What the records of a directory say, byte by byte.

use crate::fs::fat_dir::ItemView;
use crate::syscall::dirents::{self, dirents, record, record_len, record_start, short_names};
use crate::syscall::file_laws;
use crate::util;
use vstd::prelude::*;

verus! {

/// The record of an entry: its number counted from 1, where the next record starts, how long it is,
/// its type (4 of a directory, 8 of a file), its name and a zero behind it. A record takes up a
/// multiple of eight bytes, and no more than needed.
pub proof fn law_record_says_what_an_entry_is(items: Seq<ItemView>, j: int)
    requires
        short_names(items),
        0 <= j < items.len(),
        items.len() <= u32::MAX,
    ensures
        ({
            let start = record_start(items, j);
            let end = record_start(items, j + 1);
            let r = dirents(items).subrange(start, end);
            let n = items[j].name.len();
            &&& 0 <= start < end <= dirents(items).len()
            &&& r.len() % 8 == 0
            &&& 20 + n <= r.len() < 28 + n
            &&& util::le64(r, 0) == j + 1
            &&& util::le64(r, 8) == end
            &&& util::le16(r, 16) == r.len()
            &&& r[18] == (if items[j].is_dir {
                4int
            } else {
                8int
            })
            &&& r.subrange(19, 19 + n as int) == items[j].name
            &&& r[19 + n as int] == 0
        }),
{
    dirents::lemma_record_at(items, j);
    dirents::lemma_record_starts(items, j);
    lemma_start_bound(items, j);
    lemma_record_fields(j, record_start(items, j), items[j]);
}

/// The fields of a record.
proof fn lemma_record_fields(i: int, start: int, item: ItemView)
    requires
        item.name.len() <= dirents::NAME_MAX,
        0 <= i < u32::MAX,
        0 <= start <= 32 * i,
    ensures
        ({
            let r = record(i, start, item);
            let n = item.name.len();
            &&& r.len() == record_len(n)
            &&& r.len() % 8 == 0
            &&& 20 + n <= r.len() < 28 + n
            &&& util::le64(r, 0) == i + 1
            &&& util::le64(r, 8) == start + r.len()
            &&& util::le16(r, 16) == r.len()
            &&& r[18] == (if item.is_dir {
                4int
            } else {
                8int
            })
            &&& r.subrange(19, 19 + n as int) == item.name
            &&& r[19 + n as int] == 0
        }),
{
    let n = record_len(item.name.len());
    let a = util::enc64((i + 1) as u64);
    let b = util::enc64((start + n) as u64);
    let c = util::enc16(n as u16);
    let t = seq![
        if item.is_dir {
            dirents::DT_DIR
        } else {
            dirents::DT_REG
        },
    ];
    let z = Seq::new((n - 19 - item.name.len()) as nat, |k: int| 0u8);
    let r = record(i, start, item);
    util::lemma_le64_enc64((i + 1) as u64);
    util::lemma_le64_enc64((start + n) as u64);
    util::lemma_le16_enc16(n as u16);
    assert(r == a + b + c + t + item.name + z);
    assert(r.subrange(0, 8) =~= a);
    file_laws::lemma_word(r, 0, (i + 1) as u64);
    assert(r.subrange(8, 16) =~= b);
    file_laws::lemma_word(r, 8, (start + n) as u64);
    assert(r[16] == c[0] && r[17] == c[1]);
    assert(r[18] == t[0]);
    assert(r.subrange(19, 19 + item.name.len() as int) =~= item.name);
    assert(r[19 + item.name.len() as int] == z[0]);
}

/// Records take up at most 32 bytes each.
proof fn lemma_start_bound(items: Seq<ItemView>, j: int)
    requires
        short_names(items),
        0 <= j <= items.len(),
    ensures
        record_start(items, j) <= 32 * j,
    decreases j,
{
    if j > 0 {
        dirents::lemma_record_starts(items, j - 1);
        lemma_start_bound(items, j - 1);
    } else {
        assert(items.take(0) =~= Seq::empty());
    }
}

} // verus!
