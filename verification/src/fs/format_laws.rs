//! How a FAT32 volume lies on a disk, byte by byte: the fields of sector 0, the places of the FATs
//! and of the clusters, the fields of directory entries.

use crate::drivers::virtio_blk::DiskView;
use crate::fs::fat::{self, DirEntry, DirHit, Fat32, FatError};
use crate::fs::fat_dir::{self, ItemView};
use crate::fs::path;
use crate::util;
use vstd::prelude::*;

verus! {

/// Byte `a` of a disk, counted from its start.
pub open spec fn disk_byte(d: DiskView, a: int) -> u8 {
    d.data[a / 512][a % 512]
}

/// The number in two bytes of a disk, the low one first.
pub open spec fn disk_u16(d: DiskView, a: int) -> int {
    disk_byte(d, a) + 256 * disk_byte(d, a + 1)
}

/// The number in four bytes of a disk, the low one first.
pub open spec fn disk_u32(d: DiskView, a: int) -> int {
    disk_u16(d, a) + 65536 * disk_u16(d, a + 2)
}

/// A volume is mounted exactly where sector 0 can be read and describes FAT32 in sectors of 512
/// bytes: no root directory of fixed size, no 16-bit FAT size, and neither an empty FAT nor empty
/// clusters nor no FAT at all.
pub proof fn law_volumes_that_are_mounted(d: DiskView)
    requires
        d.wf(),
    ensures
        d.read(0) matches Err(e) ==> fat::mounted(d) == Err::<Fat32, FatError>(FatError::Block(e)),
        d.read(0) is Ok && disk_u16(d, 11) != 512 ==> fat::mounted(d) == Err::<Fat32, FatError>(
            FatError::UnsupportedSectorSize,
        ),
        d.read(0) is Ok && disk_u16(d, 11) == 512 ==> {
            let good = disk_u16(d, 17) == 0 && disk_u16(d, 22) == 0 && disk_u32(d, 36) != 0
                && disk_byte(d, 13) != 0 && disk_byte(d, 16) != 0;
            &&& good ==> fat::mounted(d) is Ok
            &&& !good ==> fat::mounted(d) == Err::<Fat32, FatError>(FatError::NotFat32)
        },
{
}

/// A mounted volume is what sector 0 says, field by field. Its FATs start right behind the reserved
/// sectors, one behind the other, and its data area right behind them; it has as many clusters as
/// fit whole into what is left of the volume.
pub proof fn law_mounted_volume_lies_behind_its_fats(d: DiskView)
    requires
        d.wf(),
        fat::mounted(d) is Ok,
        disk_u16(d, 14) + disk_byte(d, 16) * disk_u32(d, 36) <= u32::MAX,
    ensures
        ({
            let v = fat::mounted(d)->Ok_0;
            let left = disk_u32(d, 32) - v.data_start_sector;
            &&& v.sectors_per_cluster == disk_byte(d, 13)
            &&& v.fat_start_sector == disk_u16(d, 14)
            &&& v.num_fats == disk_byte(d, 16)
            &&& v.fat_size == disk_u32(d, 36)
            &&& v.root_cluster == disk_u32(d, 44)
            &&& v.data_start_sector == v.fat_start_sector + v.num_fats * v.fat_size
            &&& left < 0 ==> v.cluster_count == 0
            &&& left >= 0 ==> v.cluster_count * v.sectors_per_cluster <= left < (v.cluster_count
                + 1) * v.sectors_per_cluster
        }),
{
    let b = d.data[0];
    assert(fat::fetched(d, 0) == Ok::<Seq<u8>, FatError>(b));
    assert(util::le32(b, 36) == disk_u32(d, 36));
    assert(util::le32(b, 32) == disk_u32(d, 32));
    assert(util::le32(b, 44) == disk_u32(d, 44));
    assert(util::le16(b, 14) == disk_u16(d, 14));
    let v = fat::mounted(d)->Ok_0;
    let per = b[13] as int;
    let start = fat::boot_data_start(b);
    assert(b[16] * util::le32(b, 36) >= 0) by (nonlinear_arith);
    let total = util::le32(b, 32) as int;
    if total >= start {
        let left = total - start;
        vstd::arithmetic::div_mod::lemma_fundamental_div_mod(left, per);
        vstd::arithmetic::div_mod::lemma_mod_bound(left, per);
        let q = left / per;
        vstd::arithmetic::div_mod::lemma_div_pos_is_pos(left, per);
        vstd::arithmetic::div_mod::lemma_div_is_ordered_by_denominator(left, 1, per);
        assert(q <= left);
        assert(v.cluster_count == q);
        assert(per * q == q * per) by (nonlinear_arith);
        assert((q + 1) * per == q * per + per) by (nonlinear_arith);
    }
}

/// The entry of a cluster in the FAT: 28 bits of the four bytes at four times its number, counted
/// from the start of the first FAT. It can be read where its sector can.
pub proof fn law_fat_entry_is_at_four_times_the_cluster(v: Fat32, d: DiskView, c: u32)
    requires
        d.wf(),
    ensures
        ({
            let at = 512 * v.fat_start_sector + 4 * c;
            match d.read(at / 512) {
                Ok(_) => v.next(d, c) matches Ok(n) && n == disk_u32(d, at) % 0x1000_0000,
                Err(e) => v.next(d, c) == Err::<u32, FatError>(FatError::Block(e)),
            }
        }),
{
    let at = 512 * v.fat_start_sector + 4 * c;
    let sector = v.fat_sector(0, c);
    assert(0 * v.fat_size == 0);
    assert(at / 512 == sector);
    assert(at % 512 == Fat32::fat_offset(c));
    if let Ok(buf) = d.read(sector) {
        let off = Fat32::fat_offset(c);
        let x = util::le32(buf, off);
        assert((at + 1) / 512 == sector && (at + 2) / 512 == sector && (at + 3) / 512 == sector);
        assert((at + 1) % 512 == off + 1 && (at + 2) % 512 == off + 2 && (at + 3) % 512 == off + 3);
        assert(x == disk_u32(d, at));
        assert(x & 0x0FFF_FFFFu32 == x % 0x1000_0000u32) by (bit_vector);
    }
}

/// First byte of cluster `c`: cluster 2 stands at the start of the data area, and the others follow
/// one behind the other.
pub open spec fn cluster_byte(v: Fat32, c: u32) -> int {
    512 * (v.data_start_sector + (c - 2) * v.sectors_per_cluster)
}

/// Number of bytes in a cluster.
pub open spec fn cluster_len(v: Fat32) -> int {
    512 * v.sectors_per_cluster
}

/// What a cluster yields is what stands there.
proof fn lemma_cluster_bytes(v: Fat32, d: DiskView, c: u32, s: int, len: nat, i: int)
    requires
        v.wf(),
        d.wf(),
        v.valid(c),
        0 <= s <= v.sectors_per_cluster,
        v.cluster_data(d, c, s, len) is Ok,
        0 <= i < v.cluster_data(d, c, s, len)->Ok_0.len(),
    ensures
        v.cluster_data(d, c, s, len)->Ok_0[i] == disk_byte(d, cluster_byte(v, c) + 512 * s + i),
    decreases v.sectors_per_cluster - s,
{
    if s < v.sectors_per_cluster && len > 0 {
        let buf = fat::fetched(d, v.sector_of(c, s))->Ok_0;
        let take = util::min_nat(len, 512);
        let at = cluster_byte(v, c) + 512 * s + i;
        v.lemma_sector_bound(c, s);
        if i < take {
            assert(at == 512 * v.sector_of(c, s) + i);
            assert(at / 512 == v.sector_of(c, s) && at % 512 == i);
        } else {
            lemma_cluster_bytes(v, d, c, s + 1, (len - take) as nat, i - take);
        }
    }
}

/// How much a cluster yields.
proof fn lemma_cluster_len(v: Fat32, d: DiskView, c: u32, s: int, len: nat)
    requires
        v.wf(),
        d.wf(),
        v.valid(c),
        0 <= s <= v.sectors_per_cluster,
        v.cluster_data(d, c, s, len) is Ok,
    ensures
        v.cluster_data(d, c, s, len)->Ok_0.len() == util::min_nat(
            len,
            (512 * (v.sectors_per_cluster - s)) as nat,
        ),
    decreases v.sectors_per_cluster - s,
{
    if s < v.sectors_per_cluster && len > 0 {
        let take = util::min_nat(len, 512);
        v.lemma_sector_bound(c, s);
        lemma_cluster_len(v, d, c, s + 1, (len - take) as nat);
    }
}

/// The clusters that are reached from the second cluster of a chain.
proof fn lemma_hop_on(v: Fat32, d: DiskView, c: u32, n: u32, k: nat)
    requires
        v.valid(c),
        v.next(d, c) == Ok::<u32, FatError>(n),
    ensures
        v.hop(d, n, k) == v.hop(d, c, k + 1),
    decreases k,
{
    if k > 0 {
        lemma_hop_on(v, d, c, n, (k - 1) as nat);
    } else {
        assert(v.hop(d, c, 0) == Some(c));
        assert(v.hop(d, c, 1) == if v.valid(n) { Some(n) } else { None::<u32> });
    }
}

/// A chain yields its clusters one behind the other: byte `i` is byte `i % n` of the cluster that
/// is reached in `i / n` steps, `n` being the number of bytes in a cluster.
proof fn lemma_chain_bytes(v: Fat32, d: DiskView, first: u32, len: nat, i: int)
    requires
        v.wf(),
        d.wf(),
        v.chain_data(d, first, len) is Ok,
        0 <= i < len,
    ensures
        ({
            let n = cluster_len(v);
            let data = v.chain_data(d, first, len)->Ok_0;
            &&& data.len() == len
            &&& v.hop(d, first, (i / n) as nat) matches Some(c) && data[i] == disk_byte(
                d,
                cluster_byte(v, c) + i % n,
            )
        }),
    decreases len,
{
    let n = cluster_len(v);
    let part = v.cluster_data(d, first, 0, len)->Ok_0;
    lemma_cluster_len(v, d, first, 0, len);
    let take = util::min_nat(len, v.cluster_bytes());
    assert(part.len() == take);
    let second = v.next(d, first)->Ok_0;
    v.lemma_chain_data_len(d, first, len);
    v.lemma_chain_data_len(d, second, (len - take) as nat);
    if i < take {
        assert(i / n == 0 && i % n == i) by {
            vstd::arithmetic::div_mod::lemma_basic_div(i, n);
            vstd::arithmetic::div_mod::lemma_small_mod(i as nat, n as nat);
        }
        lemma_cluster_bytes(v, d, first, 0, len, i);
        assert(v.hop(d, first, 0) == Some(first));
    } else {
        assert(take == n);
        lemma_chain_bytes(v, d, second, (len - take) as nat, i - n);
        assert((i - n) / n == i / n - 1 && (i - n) % n == i % n) by {
            vstd::arithmetic::div_mod::lemma_fundamental_div_mod(i - n, n);
            vstd::arithmetic::div_mod::lemma_mod_bound(i - n, n);
            let q = (i - n) / n;
            assert(n * (q + 1) == n * q + n) by (nonlinear_arith);
            vstd::arithmetic::div_mod::lemma_fundamental_div_mod_converse(
                i,
                n,
                q + 1,
                (i - n) % n,
            );
        }
        assert((i - n) / n >= 0) by {
            vstd::arithmetic::div_mod::lemma_div_pos_is_pos(i - n, n);
        }
        lemma_hop_on(v, d, first, second, ((i - n) / n) as nat);
    }
}

/// A file is read from the clusters of its chain, as many bytes as its entry says, and nothing else
/// is read for a file. A directory is no file, and a path that leads nowhere is none either.
pub proof fn law_file_is_read_from_its_chain(v: Fat32, d: DiskView, path: Seq<u8>, i: int)
    requires
        v.wf(),
        d.wf(),
    ensures
        v.entry_of(d, path) matches Err(e) ==> v.file_read(d, path) == Err::<Seq<u8>, FatError>(e),
        v.entry_of(d, path) matches Ok(e) ==> e.is_dir ==> v.file_read(d, path) == Err::<
            Seq<u8>,
            FatError,
        >(FatError::IsADirectory),
        v.file_read(d, path) matches Ok(data) ==> {
            &&& v.entry_of(d, path) matches Ok(e) && !e.is_dir && data.len() == e.size && (0 <= i
                < data.len() ==> (v.hop(d, e.first_cluster, (i / cluster_len(v)) as nat) matches Some(c)
                && data[i] == disk_byte(d, cluster_byte(v, c) + i % cluster_len(v))))
        },
{
    if let Ok(e) = v.entry_of(d, path) {
        if !e.is_dir && v.chain_data(d, e.first_cluster, e.size as nat) is Ok {
            v.lemma_chain_data_len(d, e.first_cluster, e.size as nat);
            if 0 <= i < e.size {
                lemma_chain_bytes(v, d, e.first_cluster, e.size as nat, i);
            }
        }
    }
}

// ---------------------------------------------------------------------------------------------
// Directories
// ---------------------------------------------------------------------------------------------

/// Number of directory entries in a cluster: one for each 32 bytes.
pub open spec fn entries_per_cluster(v: Fat32) -> int {
    16 * v.sectors_per_cluster
}

/// Where on the disk entry `n` of a directory starts, if its chain is long enough.
pub open spec fn entry_place(v: Fat32, d: DiskView, dir: u32, n: int) -> Option<int> {
    let per = entries_per_cluster(v);
    match v.hop(d, dir, (n / per) as nat) {
        Some(c) => Some(cluster_byte(v, c) + 32 * (n % per)),
        None => None,
    }
}

/// The entry at byte `a` ends its directory: it starts with a zero.
pub open spec fn ends_at(d: DiskView, a: int) -> bool {
    disk_byte(d, a) == 0
}

/// The entry at byte `a` is in use and has a name of its own: it is not deleted, no part of a long
/// name, and no label.
pub open spec fn named_at(d: DiskView, a: int) -> bool {
    let attr = disk_byte(d, a + 11);
    disk_byte(d, a) != 0 && disk_byte(d, a) != 0xE5 && attr % 16 != 15 && attr / 8 % 2 == 0
}

/// The entry at byte `a` bears the 8.3 name `target`.
pub open spec fn bears_at(d: DiskView, a: int, target: Seq<u8>) -> bool {
    named_at(d, a) && forall|i: int| 0 <= i < 11 ==> disk_byte(d, a + i) == #[trigger] target[i]
}

/// What the entry at byte `a` says: the cluster in bytes 20, 21, 26 and 27, the size in the last
/// four, and whether it is a directory in the attributes.
pub open spec fn says_at(d: DiskView, a: int, e: DirEntry) -> bool {
    &&& e.first_cluster == disk_u16(d, a + 26) + 65536 * disk_u16(d, a + 20)
    &&& e.size == disk_u32(d, a + 28)
    &&& e.is_dir == (disk_byte(d, a + 11) / 16 % 2 == 1)
}

/// Neither end nor name stands among the first `n` entries.
pub open spec fn none_before(v: Fat32, d: DiskView, dir: u32, n: int, target: Seq<u8>) -> bool {
    forall|m: int| 0 <= m < n ==> ((#[trigger] entry_place(v, d, dir, m)) matches Some(a) && !ends_at(
        d,
        a,
    ) && !bears_at(d, a, target))
}

proof fn lemma_attr(attr: u8)
    ensures
        fat::attr_skipped(attr) == (attr % 16 == 15 || attr / 8 % 2 == 1),
        (attr & fat::ATTR_DIRECTORY != 0) == (attr / 16 % 2 == 1),
{
    assert((attr & 0x0Fu8 == 0x0Fu8) == (attr % 16 == 15)) by (bit_vector);
    assert((attr & 0x08u8 != 0) == (attr / 8 % 2 == 1)) by (bit_vector);
    assert((attr & 0x10u8 != 0) == (attr / 16 % 2 == 1)) by (bit_vector);
}

/// The byte `j` of entry `i` of a sector.
proof fn lemma_slot_byte(v: Fat32, d: DiskView, c: u32, s: int, i: int, j: int)
    requires
        v.wf(),
        v.valid(c),
        0 <= s < v.sectors_per_cluster,
        0 <= i < 16,
        0 <= j < 32,
        fat::fetched(d, v.sector_of(c, s)) is Ok,
    ensures
        disk_byte(d, cluster_byte(v, c) + 512 * s + 32 * i + j) == fat::fetched(
            d,
            v.sector_of(c, s),
        )->Ok_0[32 * i + j],
{
    let a = cluster_byte(v, c) + 512 * s + 32 * i + j;
    v.lemma_sector_bound(c, s);
    assert(a == 512 * v.sector_of(c, s) + (32 * i + j));
    assert(a / 512 == v.sector_of(c, s) && a % 512 == 32 * i + j);
}

/// What entry `i` of a sector says.
proof fn lemma_slot(v: Fat32, d: DiskView, c: u32, s: int, i: int, target: Seq<u8>)
    requires
        v.wf(),
        d.wf(),
        v.valid(c),
        0 <= s < v.sectors_per_cluster,
        0 <= i < 16,
        target.len() == 11,
        fat::fetched(d, v.sector_of(c, s)) is Ok,
    ensures
        ({
            let a = cluster_byte(v, c) + 512 * s + 32 * i;
            let buf = fat::fetched(d, v.sector_of(c, s))->Ok_0;
            &&& fat::slot_ends(buf, i) == ends_at(d, a)
            &&& fat::slot_matches(buf, i, target) == bears_at(d, a, target)
            &&& says_at(d, a, fat::slot_entry(buf, i))
        }),
{
    let a = cluster_byte(v, c) + 512 * s + 32 * i;
    let buf = fat::fetched(d, v.sector_of(c, s))->Ok_0;
    v.lemma_sector_bound(c, s);
    assert(buf.len() == 512);
    assert forall|j: int| 0 <= j < 32 implies disk_byte(d, a + j) == #[trigger] buf[32 * i + j] by {
        lemma_slot_byte(v, d, c, s, i, j);
    }
    assert(disk_byte(d, a + 0) == buf[32 * i + 0]);
    assert(disk_byte(d, a + 11) == buf[32 * i + 11]);
    lemma_attr(buf[32 * i + 11]);
    assert(disk_byte(d, a + 20) == buf[32 * i + 20] && disk_byte(d, a + 21) == buf[32 * i + 21]);
    assert(disk_byte(d, a + 26) == buf[32 * i + 26] && disk_byte(d, a + 27) == buf[32 * i + 27]);
    assert(disk_byte(d, a + 28) == buf[32 * i + 28] && disk_byte(d, a + 29) == buf[32 * i + 29]);
    assert(disk_byte(d, a + 30) == buf[32 * i + 30] && disk_byte(d, a + 31) == buf[32 * i + 31]);
    let name = fat::slot_name(buf, i);
    assert forall|j: int| 0 <= j < 11 implies name[j] == #[trigger] disk_byte(d, a + j) by {
        assert(buf[32 * i + j] == disk_byte(d, a + j));
    }
    if name == target {
        assert forall|j: int| 0 <= j < 11 implies disk_byte(d, a + j) == #[trigger] target[j] by {
            assert(name[j] == disk_byte(d, a + j));
        }
    }
    if forall|j: int| 0 <= j < 11 ==> disk_byte(d, a + j) == #[trigger] target[j] {
        assert forall|j: int| 0 <= j < 11 implies name[j] == #[trigger] target[j] by {
            assert(disk_byte(d, a + j) == target[j]);
        }
        assert(name =~= target);
    }
}

/// The place of an entry from its cluster, its sector and its number there.
proof fn lemma_place(v: Fat32, d: DiskView, dir: u32, k: nat, c: u32, s: int, i: int)
    requires
        v.wf(),
        v.hop(d, dir, k) == Some(c),
        0 <= s < v.sectors_per_cluster,
        0 <= i < 16,
    ensures
        entry_place(v, d, dir, k * entries_per_cluster(v) + 16 * s + i) == Some(
            cluster_byte(v, c) + 512 * s + 32 * i,
        ),
{
    let per = entries_per_cluster(v);
    let n = k * per + 16 * s + i;
    assert(per * k == k * per) by (nonlinear_arith);
    vstd::arithmetic::div_mod::lemma_fundamental_div_mod_converse(n, per, k as int, 16 * s + i);
}

/// The search of a sector.
proof fn lemma_stop(buf: Seq<u8>, target: Seq<u8>, k: int)
    requires
        0 <= k <= 16,
    ensures
        ({
            let e = fat::stop_index(buf, target, k);
            &&& k <= e <= 16
            &&& e < 16 ==> fat::slot_ends(buf, e) || fat::slot_matches(buf, e, target)
            &&& forall|j: int|
                k <= j < e ==> !#[trigger] fat::slot_ends(buf, j) && !fat::slot_matches(
                    buf,
                    j,
                    target,
                )
        }),
    decreases 16 - k,
{
    if k < 16 && !fat::slot_ends(buf, k) && !fat::slot_matches(buf, k, target) {
        lemma_stop(buf, target, k + 1);
    }
}

/// Entries of one more sector without end or name.
proof fn lemma_none_on(
    v: Fat32,
    d: DiskView,
    dir: u32,
    k: nat,
    c: u32,
    s: int,
    upto: int,
    target: Seq<u8>,
)
    requires
        v.wf(),
        d.wf(),
        v.valid(c),
        v.hop(d, dir, k) == Some(c),
        0 <= s < v.sectors_per_cluster,
        0 <= upto <= 16,
        target.len() == 11,
        fat::fetched(d, v.sector_of(c, s)) is Ok,
        upto <= fat::stop_index(fat::fetched(d, v.sector_of(c, s))->Ok_0, target, 0),
        none_before(v, d, dir, k * entries_per_cluster(v) + 16 * s, target),
    ensures
        none_before(v, d, dir, k * entries_per_cluster(v) + 16 * s + upto, target),
{
    let base = k * entries_per_cluster(v) + 16 * s;
    let buf = fat::fetched(d, v.sector_of(c, s))->Ok_0;
    lemma_stop(buf, target, 0);
    assert forall|m: int| 0 <= m < base + upto implies ((#[trigger] entry_place(v, d, dir, m)) matches Some(
        a,
    ) && !ends_at(d, a) && !bears_at(d, a, target)) by {
        if m >= base {
            let i = m - base;
            lemma_place(v, d, dir, k, c, s, i);
            lemma_slot(v, d, c, s, i, target);
            assert(!fat::slot_ends(buf, i));
        }
    }
}

/// Where the search of a directory stops, entry by entry.
proof fn lemma_scan_places(
    v: Fat32,
    d: DiskView,
    dir: u32,
    k: nat,
    c: u32,
    s: int,
    steps: nat,
    target: Seq<u8>,
    free: Option<(u32, usize)>,
)
    requires
        v.wf(),
        d.wf(),
        v.valid(c),
        v.hop(d, dir, k) == Some(c),
        0 <= s <= v.sectors_per_cluster,
        target.len() == 11,
        k + 1 + steps == v.cluster_count,
        none_before(v, d, dir, k * entries_per_cluster(v) + 16 * s, target),
    ensures
        v.scan(d, c, s, steps, target, free) matches Ok((hit, _)) ==> match hit {
            DirHit::Found { entry, .. } => exists|n: int|
                0 <= n && none_before(v, d, dir, n, target) && (#[trigger] entry_place(v, d, dir, n)
                    matches Some(a) && bears_at(d, a, target) && says_at(d, a, entry)),
            DirHit::End { .. } => exists|n: int|
                0 <= n && none_before(v, d, dir, n, target) && (#[trigger] entry_place(v, d, dir, n)
                    matches Some(a) && ends_at(d, a)),
            DirHit::Exhausted => exists|n: nat|
                n <= v.cluster_count && none_before(
                    v,
                    d,
                    dir,
                    n * entries_per_cluster(v),
                    target,
                ) && (n == v.cluster_count || (#[trigger] v.hop(d, dir, n)) is None),
        },
    decreases steps, v.sectors_per_cluster - s,
{
    let per = entries_per_cluster(v);
    if s < v.sectors_per_cluster {
        if let Ok(buf) = fat::fetched(d, v.sector_of(c, s)) {
            let stop = fat::stop_index(buf, target, 0);
            let gone = fat::deleted_index(buf, 0, stop);
            lemma_stop(buf, target, 0);
            let free2 = if free is None && gone < stop {
                Some((v.sector_of(c, s) as u32, gone as usize))
            } else {
                free
            };
            lemma_none_on(v, d, dir, k, c, s, stop, target);
            if stop >= 16 {
                assert(k * per + 16 * s + 16 == k * per + 16 * (s + 1));
                lemma_scan_places(v, d, dir, k, c, s + 1, steps, target, free2);
            } else {
                let n = k * per + 16 * s + stop;
                assert(k * per >= 0) by (nonlinear_arith)
                    requires
                        k >= 0,
                        per >= 0,
                ;
                lemma_place(v, d, dir, k, c, s, stop);
                lemma_slot(v, d, c, s, stop, target);
                assert(entry_place(v, d, dir, n) is Some);
            }
        }
    } else {
        assert((k + 1) * per == k * per + per) by (nonlinear_arith);
        if let Ok(n) = v.next(d, c) {
            if v.valid(n) && steps > 0 {
                assert(v.hop(d, dir, k + 1) == Some(n));
                lemma_scan_places(v, d, dir, k + 1, n, 0, (steps - 1) as nat, target, free);
            } else {
                let e = k + 1;
                assert(none_before(v, d, dir, e * per, target));
                assert(v.valid(n) || v.hop(d, dir, e) is None);
                if v.valid(n) {
                    assert(e == v.cluster_count);
                    let h = v.hop(d, dir, e);
                }
            }
        }
    }
}

/// A name is found in a directory where an entry bears it and stands before the end of the
/// directory; what is found is what the first such entry says.
pub proof fn law_found_entry_is_the_first_of_its_name(v: Fat32, d: DiskView, dir: u32, name: Seq<u8>)
    requires
        v.wf(),
        d.wf(),
        v.found_in_dir(d, dir, name) matches Ok(Some(_)),
    ensures
        exists|n: int|
            0 <= n && none_before(v, d, dir, n, fat::name_83(name)) && (#[trigger] entry_place(
                v,
                d,
                dir,
                n,
            ) matches Some(a) && bears_at(d, a, fat::name_83(name)) && says_at(
                d,
                a,
                v.found_in_dir(d, dir, name)->Ok_0->0,
            )),
{
    assert(v.hop(d, dir, 0) == Some(dir));
    assert(0 * entries_per_cluster(v) == 0);
    lemma_scan_places(
        v,
        d,
        dir,
        0,
        dir,
        0,
        (v.cluster_count - 1) as nat,
        fat::name_83(name),
        None,
    );
}

/// A name is missed in a directory only where no entry before the end of the directory bears it.
pub proof fn law_missed_name_is_not_there(v: Fat32, d: DiskView, dir: u32, name: Seq<u8>, m: int)
    requires
        v.wf(),
        d.wf(),
        v.found_in_dir(d, dir, name) matches Ok(None),
        0 <= m < v.cluster_count * entries_per_cluster(v),
        forall|j: int|
            0 <= j < m ==> ((#[trigger] entry_place(v, d, dir, j)) matches Some(a) && !ends_at(d, a)),
    ensures
        entry_place(v, d, dir, m) matches Some(a) ==> !bears_at(d, a, fat::name_83(name)),
{
    let target = fat::name_83(name);
    let per = entries_per_cluster(v);
    if v.valid(dir) {
        assert(v.hop(d, dir, 0) == Some(dir));
        assert(0 * per == 0);
        lemma_scan_places(v, d, dir, 0, dir, 0, (v.cluster_count - 1) as nat, target, None);
        let r = v.scan(d, dir, 0, (v.cluster_count - 1) as nat, target, None)->Ok_0;
        if r.0 is End {
            let n = choose|n: int|
                0 <= n && none_before(v, d, dir, n, target) && (#[trigger] entry_place(v, d, dir, n)
                    matches Some(a) && ends_at(d, a));
            if m > n {
                assert(entry_place(v, d, dir, n) is Some);
            } else if m < n {
                assert(entry_place(v, d, dir, m) is Some);
            }
        } else {
            let n = choose|n: nat|
                n <= v.cluster_count && none_before(v, d, dir, n * per, target) && (n
                    == v.cluster_count || (#[trigger] v.hop(d, dir, n)) is None);
            if m < n * per {
                assert(entry_place(v, d, dir, m) is Some);
            } else {
                let q = m / per;
                assert(q >= n) by {
                    vstd::arithmetic::div_mod::lemma_div_is_ordered(n * per, m, per);
                    vstd::arithmetic::div_mod::lemma_div_multiples_vanish(n as int, per);
                    assert(per * n == n * per) by (nonlinear_arith);
                }
                lemma_hop_stops(v, d, dir, n, q as nat);
            }
        }
    } else {
        lemma_hop_none(v, d, dir, (m / entries_per_cluster(v)) as nat);
    }
}

/// A chain that has ended stays ended.
proof fn lemma_hop_stops(v: Fat32, d: DiskView, dir: u32, n: nat, q: nat)
    requires
        v.hop(d, dir, n) is None,
        n <= q,
    ensures
        v.hop(d, dir, q) is None,
    decreases q,
{
    if n < q {
        lemma_hop_stops(v, d, dir, n, (q - 1) as nat);
    }
}

proof fn lemma_hop_none(v: Fat32, d: DiskView, dir: u32, q: nat)
    requires
        !v.valid(dir),
    ensures
        v.hop(d, dir, q) is None,
    decreases q,
{
    if q > 0 {
        lemma_hop_none(v, d, dir, (q - 1) as nat);
    }
}

/// A chain is followed from cluster to cluster as the FAT says, among the clusters that the volume
/// has, which are numbered from 2 on.
pub proof fn law_chain_is_followed(v: Fat32, d: DiskView, c: u32, k: nat)
    ensures
        v.hop(d, c, 0) == (if 2 <= c < 2 + v.cluster_count {
            Some(c)
        } else {
            None
        }),
        v.hop(d, c, k + 1) == (match v.hop(d, c, k) {
            Some(x) => match v.next(d, x) {
                Ok(n) => if 2 <= n < 2 + v.cluster_count {
                    Some(n)
                } else {
                    None
                },
                Err(_) => None,
            },
            None => None,
        }),
{
}

/// A path is looked up component by component, from the root directory on: what stands in the last
/// directory is what the path names. On the way there must be directories only.
pub proof fn law_path_is_looked_up_by_components(v: Fat32, d: DiskView, p: Seq<u8>, q: Seq<u8>, name: Seq<u8>)
    requires
        path::components(q) == path::components(p).push(name),
    ensures
        path::components(p).len() == 0 ==> v.entry_of(d, q) == (match v.found_in_dir(
            d,
            v.root_cluster,
            name,
        ) {
            Ok(Some(e)) => Ok(e),
            Ok(None) => Err(FatError::NotFound),
            Err(e) => Err(e),
        }),
        path::components(p).len() > 0 ==> (match v.entry_of(d, p) {
            Err(e) => v.entry_of(d, q) == Err::<DirEntry, FatError>(e),
            Ok(e) => if e.is_dir {
                v.entry_of(d, q) == (match v.found_in_dir(d, e.first_cluster, name) {
                    Ok(Some(x)) => Ok(x),
                    Ok(None) => Err(FatError::NotFound),
                    Err(x) => Err(x),
                })
            } else {
                v.entry_of(d, q) == Err::<DirEntry, FatError>(FatError::NotADirectory)
            },
        }),
{
    let a = path::components(p);
    let b = path::components(q);
    assert(b.drop_last() =~= a);
    assert(b.last() == name);
    if a.len() > 0 {
        lemma_descend_last(v, d, v.root_cluster, a);
    }
}

/// The last step of a descent.
proof fn lemma_descend_last(v: Fat32, d: DiskView, c: u32, comps: Seq<Seq<u8>>)
    requires
        comps.len() > 0,
    ensures
        v.descend(d, c, comps) == (match v.descend(d, c, comps.drop_last()) {
            Err(e) => Err(e),
            Ok(dir) => match v.found_in_dir(d, dir, comps.last()) {
                Err(e) => Err(e),
                Ok(None) => Err(FatError::NotFound),
                Ok(Some(entry)) => if entry.is_dir {
                    Ok(entry.first_cluster)
                } else {
                    Err(FatError::NotADirectory)
                },
            },
        }),
    decreases comps.len(),
{
    if comps.len() == 1 {
        assert(comps.skip(1) =~= Seq::empty());
        assert(comps.drop_last() =~= Seq::empty());
        reveal_with_fuel(Fat32::descend, 3);
    } else {
        let rest = comps.skip(1);
        assert(rest.drop_last() =~= comps.drop_last().skip(1));
        assert(rest.last() == comps.last());
        if let Ok(Some(entry)) = v.found_in_dir(d, c, comps[0]) {
            if entry.is_dir {
                lemma_descend_last(v, d, entry.first_cluster, rest);
            }
        }
    }
}

// ---------------------------------------------------------------------------------------------
// Listings
// ---------------------------------------------------------------------------------------------

/// What a listing says of the entry at byte `a`.
pub open spec fn item_at(d: DiskView, a: int) -> ItemView {
    ItemView {
        name: fat_dir::display_name(Seq::new(11, |i: int| disk_byte(d, a + i))),
        is_dir: disk_byte(d, a + 11) / 16 % 2 == 1,
    }
}

/// What a listing says of the first `n` entries of a directory: those that have a name.
pub open spec fn listing(v: Fat32, d: DiskView, dir: u32, n: int) -> Seq<ItemView>
    decreases n,
{
    if n <= 0 {
        Seq::empty()
    } else {
        let before = listing(v, d, dir, n - 1);
        match entry_place(v, d, dir, n - 1) {
            Some(a) => if named_at(d, a) {
                before.push(item_at(d, a))
            } else {
                before
            },
            None => before,
        }
    }
}

/// No end stands among the first `n` entries.
pub open spec fn no_end_before(v: Fat32, d: DiskView, dir: u32, n: int) -> bool {
    forall|m: int| 0 <= m < n ==> ((#[trigger] entry_place(v, d, dir, m)) matches Some(a) && !ends_at(
        d,
        a,
    ))
}

proof fn lemma_end(buf: Seq<u8>, k: int)
    requires
        0 <= k <= 16,
    ensures
        ({
            let e = fat_dir::end_index(buf, k);
            &&& k <= e <= 16
            &&& e < 16 ==> fat::slot_ends(buf, e)
            &&& forall|j: int| k <= j < e ==> !#[trigger] fat::slot_ends(buf, j)
        }),
    decreases 16 - k,
{
    if k < 16 && !fat::slot_ends(buf, k) {
        lemma_end(buf, k + 1);
    }
}

/// The entries of one more sector.
proof fn lemma_listing_on(v: Fat32, d: DiskView, dir: u32, k: nat, c: u32, s: int, upto: int)
    requires
        v.wf(),
        d.wf(),
        v.valid(c),
        v.hop(d, dir, k) == Some(c),
        0 <= s < v.sectors_per_cluster,
        0 <= upto <= 16,
        fat::fetched(d, v.sector_of(c, s)) is Ok,
        upto <= fat_dir::end_index(fat::fetched(d, v.sector_of(c, s))->Ok_0, 0),
        no_end_before(v, d, dir, k * entries_per_cluster(v) + 16 * s),
    ensures
        ({
            let base = k * entries_per_cluster(v) + 16 * s;
            let buf = fat::fetched(d, v.sector_of(c, s))->Ok_0;
            &&& listing(v, d, dir, base + upto) == listing(v, d, dir, base) + fat_dir::sector_items(
                buf,
                upto,
            )
            &&& no_end_before(v, d, dir, base + upto)
        }),
    decreases upto,
{
    let base = k * entries_per_cluster(v) + 16 * s;
    let buf = fat::fetched(d, v.sector_of(c, s))->Ok_0;
    v.lemma_sector_bound(c, s);
    assert(k * entries_per_cluster(v) >= 0) by (nonlinear_arith)
        requires
            k >= 0,
            entries_per_cluster(v) >= 0,
    ;
    if upto == 0 {
        assert(listing(v, d, dir, base) + Seq::<ItemView>::empty() =~= listing(v, d, dir, base));
    } else {
        let i = upto - 1;
        lemma_listing_on(v, d, dir, k, c, s, i);
        lemma_end(buf, 0);
        lemma_place(v, d, dir, k, c, s, i);
        let a = cluster_byte(v, c) + 512 * s + 32 * i;
        let blank = Seq::new(11, |j: int| 0u8);
        lemma_slot(v, d, c, s, i, blank);
        assert(!fat::slot_ends(buf, i));
        assert forall|j: int| 0 <= j < 32 implies disk_byte(d, a + j) == #[trigger] buf[32 * i + j] by {
            lemma_slot_byte(v, d, c, s, i, j);
        }
        assert(disk_byte(d, a + 0) == buf[32 * i + 0]);
        assert(disk_byte(d, a + 11) == buf[32 * i + 11]);
        lemma_attr(buf[32 * i + 11]);
        assert(named_at(d, a) == fat::slot_named(buf, i));
        let raw = Seq::new(11, |j: int| disk_byte(d, a + j));
        assert forall|j: int| 0 <= j < 11 implies #[trigger] raw[j] == fat::slot_name(buf, i)[j] by {
            assert(disk_byte(d, a + j) == buf[32 * i + j]);
        }
        assert(raw =~= fat::slot_name(buf, i));
        assert(item_at(d, a) == fat_dir::slot_item(buf, i));
        let before = listing(v, d, dir, base);
        let items = fat_dir::sector_items(buf, i);
        assert((before + items).push(item_at(d, a)) =~= before + items.push(item_at(d, a)));
        assert forall|m: int| 0 <= m < base + upto implies ((#[trigger] entry_place(v, d, dir, m))
            matches Some(b) && !ends_at(d, b)) by {
            if m == base + i {
                assert(!ends_at(d, a));
            }
        }
    }
}

/// Where a listing stops.
spec fn stops(v: Fat32, d: DiskView, dir: u32, n: int) -> bool {
    ||| entry_place(v, d, dir, n) matches Some(a) && ends_at(d, a)
    ||| entry_place(v, d, dir, n) is None
    ||| n == v.cluster_count * entries_per_cluster(v)
}

proof fn lemma_listed_places(v: Fat32, d: DiskView, dir: u32, k: nat, c: u32, s: int, steps: nat)
    requires
        v.wf(),
        d.wf(),
        v.valid(c),
        v.hop(d, dir, k) == Some(c),
        0 <= s <= v.sectors_per_cluster,
        k + 1 + steps == v.cluster_count,
        no_end_before(v, d, dir, k * entries_per_cluster(v) + 16 * s),
    ensures
        v.listed(d, c, s, steps) matches Ok(items) ==> exists|n: int|
            0 <= n && #[trigger] stops(v, d, dir, n) && no_end_before(v, d, dir, n) && listing(
                v,
                d,
                dir,
                n,
            ) == listing(v, d, dir, k * entries_per_cluster(v) + 16 * s) + items,
    decreases steps, v.sectors_per_cluster - s,
{
    let per = entries_per_cluster(v);
    let base = k * per + 16 * s;
    assert(k * per >= 0) by (nonlinear_arith)
        requires
            k >= 0,
            per >= 0,
    ;
    if s < v.sectors_per_cluster {
        if let Ok(buf) = fat::fetched(d, v.sector_of(c, s)) {
            let e = fat_dir::end_index(buf, 0);
            lemma_end(buf, 0);
            lemma_listing_on(v, d, dir, k, c, s, e);
            let here = fat_dir::sector_items(buf, e);
            if e < 16 {
                lemma_place(v, d, dir, k, c, s, e);
                lemma_slot(v, d, c, s, e, Seq::new(11, |j: int| 0u8));
                assert(stops(v, d, dir, base + e));
            } else {
                assert(base + 16 == k * per + 16 * (s + 1));
                lemma_listed_places(v, d, dir, k, c, s + 1, steps);
                if let Ok(rest) = v.listed(d, c, s + 1, steps) {
                    let n = choose|n: int|
                        0 <= n && #[trigger] stops(v, d, dir, n) && no_end_before(v, d, dir, n)
                            && listing(v, d, dir, n) == listing(v, d, dir, k * per + 16 * (s + 1))
                            + rest;
                    assert(listing(v, d, dir, base) + here + rest =~= listing(v, d, dir, base) + (here
                        + rest));
                    assert(stops(v, d, dir, n));
                }
            }
        }
    } else {
        assert((k + 1) * per == k * per + per) by (nonlinear_arith);
        assert(base == (k + 1) * per);
        if let Ok(n) = v.next(d, c) {
            if v.valid(n) && steps > 0 {
                assert(v.hop(d, dir, k + 1) == Some(n));
                assert((k + 1) * per + 16 * 0 == base);
                lemma_listed_places(v, d, dir, k + 1, n, 0, (steps - 1) as nat);
            } else {
                if !v.valid(n) {
                    assert(v.hop(d, dir, k + 1) is None);
                    vstd::arithmetic::div_mod::lemma_div_multiples_vanish((k + 1) as int, per);
                    assert(per * (k + 1) == base) by (nonlinear_arith)
                        requires
                            base == (k + 1) * per,
                    ;
                    assert(base / per == k + 1);
                }
                assert(stops(v, d, dir, base));
                assert(listing(v, d, dir, base) + Seq::<ItemView>::empty() =~= listing(
                    v,
                    d,
                    dir,
                    base,
                ));
            }
        }
    }
}

/// A directory is listed entry by entry, up to its end: each that has a name is in the listing, in
/// order, and nothing else is. The end is an entry that starts with a zero, or that of its chain.
pub proof fn law_directory_is_listed_to_its_end(v: Fat32, d: DiskView, dir: u32)
    requires
        v.wf(),
        d.wf(),
        v.valid(dir),
        v.dir_items(d, dir) is Ok,
    ensures
        exists|n: int|
            0 <= n && no_end_before(v, d, dir, n) && v.dir_items(d, dir) == Ok::<
                Seq<ItemView>,
                FatError,
            >(listing(v, d, dir, n)) && (match #[trigger] entry_place(v, d, dir, n) {
                Some(a) => ends_at(d, a) || n == v.cluster_count * entries_per_cluster(v),
                None => true,
            }),
{
    assert(v.hop(d, dir, 0) == Some(dir));
    assert(0 * entries_per_cluster(v) == 0);
    lemma_listed_places(v, d, dir, 0, dir, 0, (v.cluster_count - 1) as nat);
    let items = v.dir_items(d, dir)->Ok_0;
    let n = choose|n: int|
        0 <= n && #[trigger] stops(v, d, dir, n) && no_end_before(v, d, dir, n) && listing(
            v,
            d,
            dir,
            n,
        ) == listing(v, d, dir, 0) + items;
    assert(listing(v, d, dir, 0) + items =~= items);
    let at = entry_place(v, d, dir, n);
}

/// A name that is shown is what stands before the blanks of its eight places, and behind a dot what
/// stands before those of its three, if anything does.
pub proof fn law_shown_name_has_no_blanks(base: Seq<u8>, ext: Seq<u8>, name: Seq<u8>)
    requires
        base.len() <= 8,
        ext.len() <= 3,
        base.len() > 0 ==> base.last() != 0x20,
        ext.len() > 0 ==> ext.last() != 0x20,
        name.len() == 11,
        forall|i: int|
            0 <= i < 8 ==> #[trigger] name[i] == (if i < base.len() {
                base[i]
            } else {
                0x20
            }),
        forall|i: int|
            8 <= i < 11 ==> #[trigger] name[i] == (if i - 8 < ext.len() {
                ext[i - 8]
            } else {
                0x20
            }),
    ensures
        fat_dir::display_name(name) == (if ext.len() == 0 {
            base
        } else {
            base.push(0x2E) + ext
        }),
{
    lemma_trimmed(name.take(8), base);
    lemma_trimmed(name.subrange(8, 11), ext);
}

proof fn lemma_trimmed(s: Seq<u8>, t: Seq<u8>)
    requires
        t.len() <= s.len(),
        t.len() > 0 ==> t.last() != 0x20,
        forall|i: int| 0 <= i < t.len() ==> #[trigger] s[i] == t[i],
        forall|i: int| t.len() <= i < s.len() ==> #[trigger] s[i] == 0x20,
    ensures
        fat_dir::trimmed(s) == t,
    decreases s.len(),
{
    if s.len() > t.len() {
        assert(s[s.len() - 1] == 0x20);
        lemma_trimmed(s.drop_last(), t);
    } else {
        assert(s =~= t);
        if t.len() > 0 {
            assert(s[s.len() - 1] == t[t.len() - 1]);
        }
    }
}

/// The two entries that a new directory starts with: one named by a dot, for itself, and one named
/// by two, for the directory that it is in, with 0 where that is the root. Both are directories,
/// and nothing but zeros stands behind them.
pub proof fn law_new_directory_starts_with_dots(v: Fat32, c: u32, parent: u32, i: int)
    requires
        0 <= i < 512,
    ensures
        ({
            let b = v.fresh_dir_sector(c, parent);
            let up = if parent == v.root_cluster {
                0u32
            } else {
                parent
            };
            &&& b.len() == 512
            &&& b[0] == 0x2E && b[32] == 0x2E && b[33] == 0x2E
            &&& 1 <= i < 11 || 34 <= i < 43 ==> b[i] == 0x20
            &&& b[11] == 0x10 && b[43] == 0x10
            &&& util::le16(b, 26) + 65536 * util::le16(b, 20) == c
            &&& util::le16(b, 58) + 65536 * util::le16(b, 52) == up
            &&& 12 <= i < 20 || 22 <= i < 26 || 28 <= i < 32 ==> b[i] == 0
            &&& 44 <= i < 52 || 54 <= i < 58 || 60 <= i < 512 ==> b[i] == 0
        }),
{
    let up = if parent == v.root_cluster {
        0u32
    } else {
        parent
    };
    let e1 = fat::entry_bytes(crate::fs::fat_write::dot_name(), 0x10, c, 0);
    let e2 = fat::entry_bytes(crate::fs::fat_write::dotdot_name(), 0x10, up, 0);
    lemma_entry_layout(crate::fs::fat_write::dot_name(), 0x10, c, 0);
    lemma_entry_layout(crate::fs::fat_write::dotdot_name(), 0x10, up, 0);
    let b = v.fresh_dir_sector(c, parent);
    assert forall|j: int| 0 <= j < 32 implies b[j] == #[trigger] e1[j] by {}
    assert forall|j: int| 0 <= j < 32 implies b[32 + j] == #[trigger] e2[j] by {}
    assert(b[26] == e1[26] && b[27] == e1[27] && b[20] == e1[20] && b[21] == e1[21]);
    assert(b[58] == e2[26] && b[59] == e2[27] && b[52] == e2[20] && b[53] == e2[21]);
    assert(b[0] == e1[0] && b[11] == e1[11] && b[32] == e2[0] && b[33] == e2[1] && b[43] == e2[11]);
    if i < 32 {
        assert(b[i] == e1[i]);
    } else if i < 64 {
        assert(b[32 + (i - 32)] == e2[i - 32]);
    }
}

/// A directory entry: the name in its first eleven bytes, then the attributes, the cluster in bytes
/// 20, 21, 26 and 27, and the size in the last four; zeros elsewhere.
pub proof fn lemma_entry_layout(name: Seq<u8>, attr: u8, first: u32, size: u32)
    requires
        name.len() == 11,
    ensures
        ({
            let e = fat::entry_bytes(name, attr, first, size);
            &&& e.len() == 32
            &&& forall|i: int| 0 <= i < 11 ==> #[trigger] e[i] == name[i]
            &&& e[11] == attr
            &&& forall|i: int| (12 <= i < 20 || 22 <= i < 26) ==> #[trigger] e[i] == 0
            &&& util::le16(e, 26) + 65536 * util::le16(e, 20) == first
            &&& util::le32(e, 28) == size
        }),
{
    let e = fat::entry_bytes(name, attr, first, size);
    let hi = (first / 0x1_0000) as u16;
    let lo = (first % 0x1_0000) as u16;
    util::lemma_le16_enc16(hi);
    util::lemma_le16_enc16(lo);
    util::lemma_le32_enc32(size);
    assert(e[20] == util::enc16(hi)[0] && e[21] == util::enc16(hi)[1]);
    assert(e[26] == util::enc16(lo)[0] && e[27] == util::enc16(lo)[1]);
    let z = util::enc32(size);
    assert(e[28] == z[0] && e[29] == z[1] && e[30] == z[2] && e[31] == z[3]);
}

/// A deleted entry once met is kept in mind.
proof fn lemma_scan_keeps(
    v: Fat32,
    d: DiskView,
    c: u32,
    s: int,
    steps: nat,
    target: Seq<u8>,
    free: Option<(u32, usize)>,
)
    requires
        free is Some,
    ensures
        v.scan(d, c, s, steps, target, free) matches Ok((_, f)) ==> f is Some,
    decreases steps, v.sectors_per_cluster - s,
{
    if s < v.sectors_per_cluster {
        lemma_scan_keeps(v, d, c, s + 1, steps, target, free);
    } else if let Ok(n) = v.next(d, c) {
        if v.valid(n) && steps > 0 {
            lemma_scan_keeps(v, d, n, 0, (steps - 1) as nat, target, free);
        }
    }
}

proof fn lemma_deleted(buf: Seq<u8>, k: int, limit: int, i: int)
    requires
        k <= i < limit,
        fat::slot_deleted(buf, i),
    ensures
        fat::deleted_index(buf, k, limit) <= i,
    decreases limit - k,
{
    if !fat::slot_deleted(buf, k) {
        lemma_deleted(buf, k + 1, limit, i);
    }
}

proof fn lemma_stop_first(buf: Seq<u8>, target: Seq<u8>, k: int, i: int)
    requires
        k <= i < 16,
        fat::slot_ends(buf, i),
    ensures
        fat::stop_index(buf, target, k) <= i,
    decreases 16 - k,
{
    if k < i {
        lemma_stop_first(buf, target, k + 1, i);
    }
}

/// A search does not run out where an unused entry lies ahead.
proof fn lemma_scan_unused(
    v: Fat32,
    d: DiskView,
    dir: u32,
    k: nat,
    c: u32,
    s: int,
    steps: nat,
    target: Seq<u8>,
    free: Option<(u32, usize)>,
    q: nat,
    x: u32,
    t: int,
    i: int,
)
    requires
        v.hop(d, dir, k) == Some(c),
        v.hop(d, dir, q) == Some(x),
        k + 1 + steps == v.cluster_count,
        q < v.cluster_count,
        0 <= s <= v.sectors_per_cluster,
        0 <= t < v.sectors_per_cluster,
        k < q || k == q && s <= t,
        0 <= i < 16,
        fat::fetched(d, v.sector_of(x, t)) matches Ok(buf) ==> fat::slot_ends(buf, i)
            || fat::slot_deleted(buf, i),
    ensures
        v.scan(d, c, s, steps, target, free) matches Ok((hit, f)) ==> hit !is Exhausted || f is Some,
    decreases steps, v.sectors_per_cluster - s,
{
    if s < v.sectors_per_cluster {
        if let Ok(buf) = fat::fetched(d, v.sector_of(c, s)) {
            let stop = fat::stop_index(buf, target, 0);
            let gone = fat::deleted_index(buf, 0, stop);
            let free2 = if free is None && gone < stop {
                Some((v.sector_of(c, s) as u32, gone as usize))
            } else {
                free
            };
            if stop >= 16 {
                lemma_stop_bound(buf, target, 0);
                if k == q && s == t {
                    if fat::slot_ends(buf, i) {
                        lemma_stop_first(buf, target, 0, i);
                    } else {
                        lemma_deleted(buf, 0, stop, i);
                    }
                    lemma_scan_keeps(v, d, c, s + 1, steps, target, free2);
                } else {
                    lemma_scan_unused(v, d, dir, k, c, s + 1, steps, target, free2, q, x, t, i);
                }
            }
        }
    } else if let Ok(n) = v.next(d, c) {
        if v.hop(d, dir, k + 1) is None {
            lemma_hop_stops(v, d, dir, k + 1, q);
        }
        assert(v.hop(d, dir, k + 1) == Some(n));
        lemma_scan_unused(v, d, dir, k + 1, n, 0, (steps - 1) as nat, target, free, q, x, t, i);
    }
}

proof fn lemma_stop_bound(buf: Seq<u8>, target: Seq<u8>, k: int)
    requires
        0 <= k <= 16,
    ensures
        k <= fat::stop_index(buf, target, k) <= 16,
    decreases 16 - k,
{
    if k < 16 {
        lemma_stop_bound(buf, target, k + 1);
    }
}

/// A directory that can be searched is not full as long as one entry in its clusters is unused: its
/// first byte is zero or 0xE5.
pub proof fn law_directory_with_an_unused_entry_is_not_full(
    v: Fat32,
    d: DiskView,
    dir: u32,
    target: Seq<u8>,
    q: nat,
    t: int,
    i: int,
)
    requires
        v.wf(),
        d.wf(),
        q < v.cluster_count,
        0 <= t < v.sectors_per_cluster,
        0 <= i < 16,
        v.hop(d, dir, q) matches Some(x) && {
            let first = disk_byte(d, cluster_byte(v, x) + 512 * t + 32 * i);
            first == 0 || first == 0xE5
        },
    ensures
        v.scan_dir(d, dir, target) is Ok ==> v.slot_for(d, dir, target) is Ok,
{
    let x = v.hop(d, dir, q)->0;
    if v.hop(d, dir, 0) is None {
        lemma_hop_stops(v, d, dir, 0, q);
    }
    if fat::fetched(d, v.sector_of(x, t)) is Ok {
        lemma_slot_byte(v, d, x, t, i, 0);
    }
    lemma_scan_unused(
        v,
        d,
        dir,
        0,
        dir,
        0,
        (v.cluster_count - 1) as nat,
        target,
        None,
        q,
        x,
        t,
        i,
    );
}

} // verus!
