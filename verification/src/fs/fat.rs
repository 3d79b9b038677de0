//! Reading and writing FAT32 on a block device.
//!
//! A volume is `[ reserved sectors | FAT x N | data area, clusters from 2 on ]`. For each cluster
//! the FAT holds the number of the next cluster of the same file, or an end mark. A directory is
//! a chain of clusters made of 32-byte entries: an 8.3 name, attributes, a first cluster, a size.
//!
//! Every operation is described by a function on what the disk holds: reads give the value read
//! or the error, writes give the disk that results together with the answer. The exact order of
//! sector accesses shows in these functions, since each access may fail.

use crate::drivers::virtio_blk::{self, BlkError, Disk, DiskView, SECTOR_SIZE};
use crate::fs::path;
use crate::util;
use vstd::prelude::*;
use vstd::string::StringSliceAdditionalSpecFns;

verus! {

/// FAT32 entries per sector, four bytes each.
pub const FAT_ENTRIES_PER_SECTOR: u32 = 128;

/// The significant bits of a FAT32 entry; the upper four are reserved.
pub const FAT32_ENTRY_MASK: u32 = 0x0FFF_FFFF;

/// The end mark that is written into the last cluster of a chain.
pub const FAT32_EOC: u32 = 0x0FFF_FFFF;

/// The first real data cluster: 0 and 1 are reserved.
pub const FIRST_DATA_CLUSTER: u32 = 2;

/// Size of a directory entry in bytes.
pub const DIR_ENTRY_SIZE: usize = 32;

/// Directory entries per sector.
pub const ENTRIES_PER_SECTOR: usize = 16;

/// Attribute of a part of a long name; such entries are skipped.
pub const ATTR_LONG_NAME: u8 = 0x0F;

/// Attribute of a volume label; skipped as well.
pub const ATTR_VOLUME_ID: u8 = 0x08;

/// Attribute of a directory.
pub const ATTR_DIRECTORY: u8 = 0x10;

/// Attribute of an ordinary file.
pub const ATTR_ARCHIVE: u8 = 0x20;

/// First byte of the entry that ends a directory.
pub const SLOT_END: u8 = 0x00;

/// First byte of a deleted entry.
pub const SLOT_DELETED: u8 = 0xE5;

/// Why an operation on a FAT volume failed.
#[derive(Debug, Clone, Copy, PartialEq, Eq, Structural)]
pub enum FatError {
    /// The block device failed.
    Block(BlkError),
    /// The sector size of the volume is not 512.
    UnsupportedSectorSize,
    /// The volume does not look like FAT32.
    NotFat32,
    /// No such file.
    NotFound,
    /// No free cluster is left on the volume.
    NoSpace,
    /// The directory has no free entry.
    DirFull,
    /// An intermediate component of the path is not a directory.
    NotADirectory,
    /// The path names a directory where a file was expected.
    IsADirectory,
    /// An entry of that name exists already.
    AlreadyExists,
    /// The directory to be removed still has entries.
    NotEmpty,
    /// The chain of a file ends before the size that its entry says.
    BrokenChain,
}

impl From<BlkError> for FatError {
    fn from(e: BlkError) -> (r: Self) {
        FatError::Block(e)
    }
}

impl vstd::std_specs::convert::FromSpecImpl<BlkError> for FatError {
    open spec fn obeys_from_spec() -> bool {
        true
    }

    open spec fn from_spec(e: BlkError) -> Self {
        FatError::Block(e)
    }
}

/// A mounted FAT32 volume: what is needed to address it.
#[derive(Debug, Clone, Copy)]
pub struct Fat32 {
    /// Sectors per cluster.
    pub sectors_per_cluster: u32,
    /// Sector at which the first FAT starts.
    pub fat_start_sector: u32,
    /// Sector at which the data area (cluster 2) starts.
    pub data_start_sector: u32,
    /// First cluster of the root directory.
    pub root_cluster: u32,
    /// Number of data clusters: the valid numbers are `2 .. 2 + cluster_count`.
    pub cluster_count: u32,
    /// Number of copies of the FAT. Writes go to all of them, reads to the first.
    pub num_fats: u32,
    /// Size of one FAT in sectors.
    pub fat_size: u32,
}

/// What a directory entry says.
#[derive(Debug, Clone, Copy, PartialEq, Eq, Structural)]
pub struct DirEntry {
    pub first_cluster: u32,
    pub size: u32,
    pub is_dir: bool,
}

/// Where the search for a name in a directory stopped.
#[derive(Debug, Clone, Copy)]
pub enum DirHit {
    /// The entry of that name.
    Found { sector: u32, index: usize, entry: DirEntry },
    /// The entry that ends the directory.
    End { sector: u32, index: usize },
    /// The chain of the directory ran out.
    Exhausted,
}

/// What a search of a directory yields: where it stopped, and the sector and index of the first
/// deleted entry that it met before that.
pub type DirScan = (DirHit, Option<(u32, usize)>);

// ---------------------------------------------------------------------------------------------
// Sectors
// ---------------------------------------------------------------------------------------------

/// What reading sector `lba` yields.
pub open spec fn fetched(d: DiskView, lba: int) -> Result<Seq<u8>, FatError> {
    match d.read(lba) {
        Ok(bytes) => Ok(bytes),
        Err(e) => Err(FatError::Block(e)),
    }
}

/// What overwriting sector `lba` by `bytes` does.
pub open spec fn stored(d: DiskView, lba: int, bytes: Seq<u8>) -> (DiskView, Result<(), FatError>) {
    match d.write(lba, bytes) {
        (d2, Ok(_)) => (d2, Ok(())),
        (d2, Err(e)) => (d2, Err(FatError::Block(e))),
    }
}

pub(crate) fn fetch(disk: &Disk, sector: u32, buf: &mut [u8; SECTOR_SIZE]) -> (r: Result<(), FatError>)
    requires
        disk.wf(),
    ensures
        match fetched(disk@, sector as int) {
            Ok(bytes) => r == Ok::<(), FatError>(()) && final(buf)@ == bytes,
            Err(e) => r == Err::<(), FatError>(e),
        },
{
    match virtio_blk::read_sector(disk, sector as u64, buf) {
        Ok(_) => Ok(()),
        Err(e) => Err(FatError::from(e)),
    }
}

pub(crate) fn store(disk: &mut Disk, sector: u32, buf: &[u8; SECTOR_SIZE]) -> (r: Result<(), FatError>)
    requires
        old(disk).wf(),
    ensures
        final(disk).wf(),
        (final(disk)@, r) == stored(old(disk)@, sector as int, buf@),
{
    match virtio_blk::write_sector(disk, sector as u64, buf) {
        Ok(_) => Ok(()),
        Err(e) => Err(FatError::from(e)),
    }
}

// ---------------------------------------------------------------------------------------------
// Names and directory entries
// ---------------------------------------------------------------------------------------------

/// The upper-case form of an ASCII letter; any other byte as it is.
pub open spec fn upper(b: u8) -> u8 {
    if 0x61 <= b <= 0x7A {
        (b - 0x20) as u8
    } else {
        b
    }
}

/// What stands before the first dot of `name`.
pub open spec fn base_of(name: Seq<u8>) -> Seq<u8> {
    path::pieces(name, path::DOT)[0]
}

/// What stands after the first dot of `name`.
pub open spec fn ext_of(name: Seq<u8>) -> Seq<u8> {
    if base_of(name).len() < name.len() {
        name.skip(base_of(name).len() as int + 1)
    } else {
        Seq::empty()
    }
}

/// The 11-byte 8.3 form of a name: eight bytes of base and three of extension, upper case,
/// padded with blanks.
pub open spec fn name_83(name: Seq<u8>) -> Seq<u8> {
    Seq::new(
        11,
        |i: int|
            if i < 8 {
                if i < base_of(name).len() {
                    upper(base_of(name)[i])
                } else {
                    0x20
                }
            } else {
                if i - 8 < ext_of(name).len() {
                    upper(ext_of(name)[i - 8])
                } else {
                    0x20
                }
            },
    )
}

/// The 32-byte directory entry with the given fields; times and dates are zero.
pub open spec fn entry_bytes(name: Seq<u8>, attr: u8, first_cluster: u32, size: u32) -> Seq<u8> {
    name + seq![attr] + seq![0u8, 0u8, 0u8, 0u8, 0u8, 0u8, 0u8, 0u8] + util::enc16(
        (first_cluster / 0x1_0000) as u16,
    ) + seq![0u8, 0u8, 0u8, 0u8] + util::enc16((first_cluster % 0x1_0000) as u16) + util::enc32(size)
}

/// The attribute byte of entry `k` of a directory sector.
pub open spec fn slot_attr(buf: Seq<u8>, k: int) -> u8 {
    buf[32 * k + 11]
}

/// Whether attributes mark a part of a long name or a volume label.
pub open spec fn attr_skipped(attr: u8) -> bool {
    attr & ATTR_LONG_NAME == ATTR_LONG_NAME || attr & ATTR_VOLUME_ID != 0
}

/// Whether entry `k` ends the directory.
pub open spec fn slot_ends(buf: Seq<u8>, k: int) -> bool {
    buf[32 * k] == SLOT_END
}

/// Whether entry `k` is deleted.
pub open spec fn slot_deleted(buf: Seq<u8>, k: int) -> bool {
    buf[32 * k] == SLOT_DELETED
}

/// Whether entry `k` carries a name: it is in use and no part of a long name or label.
pub open spec fn slot_named(buf: Seq<u8>, k: int) -> bool {
    !slot_ends(buf, k) && !slot_deleted(buf, k) && !attr_skipped(slot_attr(buf, k))
}

/// The 8.3 name of entry `k`.
pub open spec fn slot_name(buf: Seq<u8>, k: int) -> Seq<u8> {
    buf.subrange(32 * k, 32 * k + 11)
}

/// Whether entry `k` is the one of the 8.3 name `target`.
pub open spec fn slot_matches(buf: Seq<u8>, k: int, target: Seq<u8>) -> bool {
    slot_named(buf, k) && slot_name(buf, k) == target
}

/// What entry `k` says.
pub open spec fn slot_entry(buf: Seq<u8>, k: int) -> DirEntry {
    DirEntry {
        first_cluster: (util::le16(buf, 32 * k + 20) * 0x1_0000 + util::le16(
            buf,
            32 * k + 26,
        )) as u32,
        size: util::le32(buf, 32 * k + 28),
        is_dir: slot_attr(buf, k) & ATTR_DIRECTORY != 0,
    }
}

/// Index of the first entry from `k` on that ends the directory or matches, 16 if there is none.
pub open spec fn stop_index(buf: Seq<u8>, target: Seq<u8>, k: int) -> int
    decreases 16 - k,
{
    if k >= 16 {
        16
    } else if slot_ends(buf, k) || slot_matches(buf, k, target) {
        k
    } else {
        stop_index(buf, target, k + 1)
    }
}

/// Index of the first deleted entry among `k .. limit`, `limit` if there is none.
pub open spec fn deleted_index(buf: Seq<u8>, k: int, limit: int) -> int
    decreases limit - k,
{
    if k >= limit || slot_deleted(buf, k) {
        k
    } else {
        deleted_index(buf, k + 1, limit)
    }
}

fn first_dot(name: &[u8]) -> (i: usize)
    ensures
        i == base_of(name@).len(),
        i <= name@.len(),
        base_of(name@) == name@.take(i as int),
{
    let mut i: usize = 0;
    while i < name.len() && name[i] != path::DOT
        invariant
            i <= name@.len(),
            forall|j: int| 0 <= j < i ==> name@[j] != path::DOT,
        decreases name@.len() - i,
    {
        i += 1;
    }
    proof {
        lemma_first_piece(name@, i as int);
    }
    i
}

/// The first piece of a name reaches up to its first dot.
proof fn lemma_first_piece(name: Seq<u8>, i: int)
    requires
        0 <= i <= name.len(),
        forall|j: int| 0 <= j < i ==> name[j] != path::DOT,
        i < name.len() ==> name[i] == path::DOT,
    ensures
        base_of(name) == name.take(i),
    decreases name.len(),
{
    path::lemma_pieces_nonempty(name, path::DOT);
    if name.len() == 0 {
        assert(name.take(i) =~= Seq::<u8>::empty());
    } else {
        let init = name.drop_last();
        path::lemma_pieces_nonempty(init, path::DOT);
        let before = path::pieces(init, path::DOT);
        if i < name.len() {
            lemma_first_piece(init, i);
            assert(init.take(i) =~= name.take(i));
            if i < init.len() {
                lemma_more_pieces(init, i);
            } else {
                assert(name.last() == path::DOT);
            }
        } else {
            lemma_first_piece(init, init.len() as int);
            lemma_one_piece(init);
            assert(init.take(init.len() as int).push(name.last()) =~= name.take(i));
        }
    }
}

/// A name without a dot is one piece.
proof fn lemma_one_piece(name: Seq<u8>)
    requires
        forall|j: int| 0 <= j < name.len() ==> name[j] != path::DOT,
    ensures
        path::pieces(name, path::DOT).len() == 1,
    decreases name.len(),
{
    if name.len() > 0 {
        lemma_one_piece(name.drop_last());
    }
}

/// A name with a dot has more than one piece.
proof fn lemma_more_pieces(name: Seq<u8>, i: int)
    requires
        0 <= i < name.len(),
        name[i] == path::DOT,
    ensures
        path::pieces(name, path::DOT).len() > 1,
    decreases name.len(),
{
    path::lemma_pieces_nonempty(name.drop_last(), path::DOT);
    if i < name.len() - 1 {
        lemma_more_pieces(name.drop_last(), i);
    }
}

fn to_upper(b: u8) -> (r: u8)
    ensures
        r == upper(b),
{
    if 0x61 <= b && b <= 0x7A {
        b - 0x20
    } else {
        b
    }
}

/// The 8.3 form of `name`, the way names stand in directory entries: `HELLO.TXT` becomes
/// `HELLO   TXT`.
pub fn short_name_83(name: &[u8]) -> (r: [u8; 11])
    ensures
        r@ == name_83(name@),
{
    let dot = first_dot(name);
    let mut out = [0x20u8; 11];
    let mut i: usize = 0;
    while i < 8 && i < dot
        invariant
            i <= 8,
            i <= dot <= name@.len(),
            base_of(name@) == name@.take(dot as int),
            forall|j: int| 0 <= j < i ==> out@[j] == upper(name@[j]),
            forall|j: int| i <= j < 11 ==> out@[j] == 0x20,
        decreases 8 - i,
    {
        out[i] = to_upper(name[i]);
        i += 1;
    }
    let ghost base_len = i as int;
    let mut k: usize = 0;
    while k < 3 && dot < name.len() && k < name.len() - dot - 1
        invariant
            k <= 3,
            dot <= name@.len(),
            dot < name@.len() ==> k <= name@.len() - dot - 1,
            dot == name@.len() ==> k == 0,
            base_of(name@) == name@.take(dot as int),
            base_len == (if dot < 8 { dot as int } else { 8 }),
            forall|j: int| 0 <= j < base_len ==> out@[j] == upper(name@[j]),
            forall|j: int| base_len <= j < 8 ==> out@[j] == 0x20,
            forall|j: int| 8 <= j < 8 + k ==> out@[j] == upper(name@[dot + 1 + j - 8]),
            forall|j: int| 8 + k <= j < 11 ==> out@[j] == 0x20,
        decreases 3 - k,
    {
        out[8 + k] = to_upper(name[dot + 1 + k]);
        k += 1;
    }
    assert(out@ =~= name_83(name@));
    out
}

/// Fills the 32 bytes of `entry` with a directory entry.
pub fn fill_dir_entry(entry: &mut [u8], name: &[u8; 11], attr: u8, first_cluster: u32, size: u32)
    requires
        old(entry)@.len() == DIR_ENTRY_SIZE,
    ensures
        final(entry)@ == entry_bytes(name@, attr, first_cluster, size),
{
    util::copy_into(entry, 0, name);
    entry[11] = attr;
    util::copy_into(entry, 12, &[0u8, 0u8, 0u8, 0u8, 0u8, 0u8, 0u8, 0u8]);
    util::put_u16(entry, 20, (first_cluster / 0x1_0000) as u16);
    util::copy_into(entry, 22, &[0u8, 0u8, 0u8, 0u8]);
    util::put_u16(entry, 26, (first_cluster % 0x1_0000) as u16);
    util::put_u32(entry, 28, size);
    assert(entry@ =~= entry_bytes(name@, attr, first_cluster, size));
}

/// The bytes of a directory entry.
pub(crate) fn make_dir_entry(name: &[u8; 11], attr: u8, first_cluster: u32, size: u32) -> (r: [u8; 32])
    ensures
        r@ == entry_bytes(name@, attr, first_cluster, size),
{
    let mut entry = [0u8; 32];
    fill_dir_entry(&mut entry, name, attr, first_cluster, size);
    entry
}

/// Whether the 11 bytes of entry `k` are `target`.
fn name_at(buf: &[u8; SECTOR_SIZE], k: usize, target: &[u8; 11]) -> (r: bool)
    requires
        k < 16,
    ensures
        r == (slot_name(buf@, k as int) == target@),
{
    let mut i: usize = 0;
    while i < 11
        invariant
            i <= 11,
            k < 16,
            forall|j: int| 0 <= j < i ==> buf@[32 * k + j] == target@[j],
        decreases 11 - i,
    {
        if buf[32 * k + i] != target[i] {
            assert(slot_name(buf@, k as int)[i as int] != target@[i as int]);
            return false;
        }
        i += 1;
    }
    assert(slot_name(buf@, k as int) =~= target@);
    true
}

/// What entry `k` of a directory sector says.
pub fn read_slot(buf: &[u8; SECTOR_SIZE], k: usize) -> (e: DirEntry)
    requires
        k < 16,
    ensures
        e == slot_entry(buf@, k as int),
{
    let hi = util::get_u16(buf, 32 * k + 20) as u32;
    let lo = util::get_u16(buf, 32 * k + 26) as u32;
    DirEntry {
        first_cluster: hi * 0x1_0000 + lo,
        size: util::get_u32(buf, 32 * k + 28),
        is_dir: buf[32 * k + 11] & ATTR_DIRECTORY != 0,
    }
}

/// Index of the first entry that ends the directory or matches `target` (16 if there is none),
/// and of the first deleted entry before it.
fn scan_sector(buf: &[u8; SECTOR_SIZE], target: &[u8; 11]) -> (r: (usize, Option<usize>))
    ensures
        r.0 == stop_index(buf@, target@, 0),
        r.0 <= 16,
        r.0 < 16 ==> slot_ends(buf@, r.0 as int) || slot_matches(buf@, r.0 as int, target@),
        match r.1 {
            Some(k) => k < r.0 && k == deleted_index(buf@, 0, r.0 as int),
            None => deleted_index(buf@, 0, r.0 as int) == r.0,
        },
{
    let mut free: Option<usize> = None;
    let mut k: usize = 0;
    while k < 16
        invariant
            k <= 16,
            stop_index(buf@, target@, 0) == stop_index(buf@, target@, k as int),
            match free {
                Some(f) => f < k && forall|limit: int|
                    limit >= k ==> #[trigger] deleted_index(buf@, 0, limit) == f,
                None => forall|limit: int|
                    limit >= k ==> #[trigger] deleted_index(buf@, 0, limit) == deleted_index(
                        buf@,
                        k as int,
                        limit,
                    ),
            },
        decreases 16 - k,
    {
        let head = buf[32 * k];
        if head == SLOT_END {
            return (k, free);
        }
        if head == SLOT_DELETED {
            if free.is_none() {
                free = Some(k);
            }
        } else {
            let attr = buf[32 * k + 11];
            let skipped = attr & ATTR_LONG_NAME == ATTR_LONG_NAME || attr & ATTR_VOLUME_ID != 0;
            if !skipped && name_at(buf, k, target) {
                return (k, free);
            }
        }
        k += 1;
    }
    (16, free)
}


// ---------------------------------------------------------------------------------------------
// The volume
// ---------------------------------------------------------------------------------------------

/// Whether sector 0 describes a FAT32 volume at all.
pub open spec fn boot_is_fat32(boot: Seq<u8>) -> bool {
    &&& util::le16(boot, 17) == 0
    &&& util::le16(boot, 22) == 0
    &&& util::le32(boot, 36) != 0
    &&& boot[13] != 0
    &&& boot[16] != 0
}

/// First sector of the data area that sector 0 describes.
pub open spec fn boot_data_start(boot: Seq<u8>) -> int {
    util::le16(boot, 14) + boot[16] * util::le32(boot, 36)
}

/// The volume that sector 0 describes.
pub open spec fn boot_volume(boot: Seq<u8>) -> Fat32 {
    let data_start = boot_data_start(boot);
    let total = util::le32(boot, 32);
    Fat32 {
        sectors_per_cluster: boot[13] as u32,
        fat_start_sector: util::le16(boot, 14) as u32,
        data_start_sector: data_start as u32,
        root_cluster: util::le32(boot, 44),
        cluster_count: (if total >= data_start {
            (total - data_start) / (boot[13] as int)
        } else {
            0
        }) as u32,
        num_fats: boot[16] as u32,
        fat_size: util::le32(boot, 36),
    }
}

/// What mounting yields.
pub open spec fn mounted(d: DiskView) -> Result<Fat32, FatError> {
    match fetched(d, 0) {
        Err(e) => Err(e),
        Ok(boot) => if util::le16(boot, 11) != SECTOR_SIZE {
            Err(FatError::UnsupportedSectorSize)
        } else if !boot_is_fat32(boot) {
            Err(FatError::NotFat32)
        } else {
            Ok(boot_volume(boot))
        },
    }
}

/// Whether the start of the data area that sector 0 describes is a 32-bit sector number.
pub fn data_start_fits(disk: &Disk) -> (r: bool)
    requires
        disk.wf(),
    ensures
        r == match fetched(disk@, 0) {
            Ok(boot) => boot_data_start(boot) <= u32::MAX,
            Err(_) => true,
        },
{
    let mut boot = [0u8; SECTOR_SIZE];
    match fetch(disk, 0, &mut boot) {
        Err(_) => true,
        Ok(_) => {
            let copies = boot[16] as u64;
            let size = util::get_u32(&boot, 36) as u64;
            assert(copies * size <= 0xFF * 0xFFFF_FFFF) by (nonlinear_arith)
                requires
                    copies <= 0xFF,
                    size <= 0xFFFF_FFFF,
            ;
            util::get_u16(&boot, 14) as u64 + copies * size <= 0xFFFF_FFFF
        },
    }
}

impl Fat32 {
    /// The volume can be addressed: clusters are not empty, and every FAT entry and every sector
    /// of a valid cluster has a 32-bit number.
    pub open spec fn wf(self) -> bool {
        &&& 1 <= self.sectors_per_cluster <= 0xFF
        &&& 1 <= self.num_fats <= 0xFF
        &&& self.cluster_count <= 0x3FFF_FFFD
        &&& self.data_start_sector + self.cluster_count * self.sectors_per_cluster <= u32::MAX
        &&& self.fat_start_sector + self.num_fats * self.fat_size + self.cluster_count / 128 + 1
            <= u32::MAX
    }

    /// Whether `c` is the number of a data cluster of the volume.
    pub open spec fn valid(self, c: u32) -> bool {
        FIRST_DATA_CLUSTER <= c < FIRST_DATA_CLUSTER + self.cluster_count
    }

    /// Number of bytes in a cluster.
    pub open spec fn cluster_bytes(self) -> nat {
        (self.sectors_per_cluster * 512) as nat
    }

    /// Sector `s` of cluster `c`.
    pub open spec fn sector_of(self, c: u32, s: int) -> int {
        self.data_start_sector + (c - FIRST_DATA_CLUSTER) * self.sectors_per_cluster + s
    }

    /// The sector that holds the entry of cluster `c` in one copy of the FAT.
    pub open spec fn fat_sector(self, copy: int, c: u32) -> int {
        self.fat_start_sector + copy * self.fat_size + c / 128
    }

    /// Where in its sector the entry of cluster `c` stands.
    pub open spec fn fat_offset(c: u32) -> int {
        (c % 128) * 4
    }

    /// What the FAT says follows cluster `c`.
    pub open spec fn next(self, d: DiskView, c: u32) -> Result<u32, FatError> {
        match fetched(d, self.fat_sector(0, c)) {
            Err(e) => Err(e),
            Ok(buf) => Ok(util::le32(buf, Self::fat_offset(c)) & FAT32_ENTRY_MASK),
        }
    }

    /// Searches a directory from sector `s` of cluster `c` on for the 8.3 name `target`. At most
    /// `steps` more clusters are entered after `c`; `free` is the first deleted entry met before.
    pub open spec fn scan(
        self,
        d: DiskView,
        c: u32,
        s: int,
        steps: nat,
        target: Seq<u8>,
        free: Option<(u32, usize)>,
    ) -> Result<DirScan, FatError>
        decreases steps, self.sectors_per_cluster - s,
    {
        if s < self.sectors_per_cluster {
            match fetched(d, self.sector_of(c, s)) {
                Err(e) => Err(e),
                Ok(buf) => {
                    let stop = stop_index(buf, target, 0);
                    let gone = deleted_index(buf, 0, stop);
                    let sector = self.sector_of(c, s) as u32;
                    let free2 = if free is None && gone < stop {
                        Some((sector, gone as usize))
                    } else {
                        free
                    };
                    if stop >= 16 {
                        self.scan(d, c, s + 1, steps, target, free2)
                    } else if slot_ends(buf, stop) {
                        Ok((DirHit::End { sector, index: stop as usize }, free2))
                    } else {
                        Ok(
                            (
                                DirHit::Found {
                                    sector,
                                    index: stop as usize,
                                    entry: slot_entry(buf, stop),
                                },
                                free2,
                            ),
                        )
                    }
                },
            }
        } else {
            match self.next(d, c) {
                Err(e) => Err(e),
                Ok(n) => if self.valid(n) && steps > 0 {
                    self.scan(d, n, 0, (steps - 1) as nat, target, free)
                } else {
                    Ok((DirHit::Exhausted, free))
                },
            }
        }
    }

    /// Searches the directory that starts at cluster `dir` for the 8.3 name `target`. A chain is
    /// never followed for more clusters than the volume has.
    pub open spec fn scan_dir(self, d: DiskView, dir: u32, target: Seq<u8>) -> Result<
        DirScan,
        FatError,
    > {
        if self.valid(dir) {
            self.scan(d, dir, 0, (self.cluster_count - 1) as nat, target, None)
        } else {
            Ok((DirHit::Exhausted, None))
        }
    }

    /// The entry named `name` in the directory that starts at cluster `dir`.
    pub open spec fn found_in_dir(self, d: DiskView, dir: u32, name: Seq<u8>) -> Result<
        Option<DirEntry>,
        FatError,
    > {
        match self.scan_dir(d, dir, name_83(name)) {
            Err(e) => Err(e),
            Ok((DirHit::Found { entry, .. }, _)) => Ok(Some(entry)),
            Ok(_) => Ok(None),
        }
    }

    /// The first cluster of the directory that the components `comps` lead to from cluster `c`.
    pub open spec fn descend(self, d: DiskView, c: u32, comps: Seq<Seq<u8>>) -> Result<u32, FatError>
        decreases comps.len(),
    {
        if comps.len() == 0 {
            Ok(c)
        } else {
            match self.found_in_dir(d, c, comps[0]) {
                Err(e) => Err(e),
                Ok(None) => Err(FatError::NotFound),
                Ok(Some(entry)) => if entry.is_dir {
                    self.descend(d, entry.first_cluster, comps.skip(1))
                } else {
                    Err(FatError::NotADirectory)
                },
            }
        }
    }

    /// The first cluster of the directory in which a path's last component stands.
    pub open spec fn parent_of(self, d: DiskView, path: Seq<u8>) -> Result<u32, FatError> {
        let comps = path::components(path);
        if comps.len() == 0 {
            Err(FatError::NotFound)
        } else {
            self.descend(d, self.root_cluster, comps.drop_last())
        }
    }

    /// The directory entry of a path.
    pub open spec fn entry_of(self, d: DiskView, path: Seq<u8>) -> Result<DirEntry, FatError> {
        match self.parent_of(d, path) {
            Err(e) => Err(e),
            Ok(dir) => match self.found_in_dir(d, dir, path::components(path).last()) {
                Err(e) => Err(e),
                Ok(None) => Err(FatError::NotFound),
                Ok(Some(entry)) => Ok(entry),
            },
        }
    }

    /// The first `len` bytes that stand in cluster `c` from its sector `s` on.
    pub open spec fn cluster_data(self, d: DiskView, c: u32, s: int, len: nat) -> Result<
        Seq<u8>,
        FatError,
    >
        decreases self.sectors_per_cluster - s,
    {
        if s >= self.sectors_per_cluster || len == 0 {
            Ok(Seq::empty())
        } else {
            match fetched(d, self.sector_of(c, s)) {
                Err(e) => Err(e),
                Ok(buf) => {
                    let take = util::min_nat(len, 512);
                    match self.cluster_data(d, c, s + 1, (len - take) as nat) {
                        Err(e) => Err(e),
                        Ok(rest) => Ok(buf.take(take as int) + rest),
                    }
                },
            }
        }
    }

    /// The first `len` bytes of the chain that starts at cluster `c`. One that ends before is broken.
    pub open spec fn chain_data(self, d: DiskView, c: u32, len: nat) -> Result<Seq<u8>, FatError>
        decreases len,
        when self.sectors_per_cluster >= 1
    {
        if len == 0 {
            Ok(Seq::empty())
        } else if !self.valid(c) {
            Err(FatError::BrokenChain)
        } else {
            match self.cluster_data(d, c, 0, len) {
                Err(e) => Err(e),
                Ok(part) => match self.next(d, c) {
                    Err(e) => Err(e),
                    Ok(n) => match self.chain_data(
                        d,
                        n,
                        (len - util::min_nat(len, self.cluster_bytes())) as nat,
                    ) {
                        Err(e) => Err(e),
                        Ok(rest) => Ok(part + rest),
                    },
                },
            }
        }
    }

    /// What reading the file at `path` yields.
    pub open spec fn file_read(self, d: DiskView, path: Seq<u8>) -> Result<Seq<u8>, FatError> {
        match self.entry_of(d, path) {
            Err(e) => Err(e),
            Ok(entry) => if entry.is_dir {
                Err(FatError::IsADirectory)
            } else {
                self.chain_data(d, entry.first_cluster, entry.size as nat)
            },
        }
    }

    /// Reads sector 0 and returns the volume that it describes.
    pub fn mount(disk: &Disk) -> (r: Result<Fat32, FatError>)
        requires
            disk.wf(),
            fetched(disk@, 0) matches Ok(boot) ==> util::le16(boot, 11) == SECTOR_SIZE
                ==> boot_is_fat32(boot) ==> boot_data_start(boot) <= u32::MAX,
        ensures
            r == mounted(disk@),
            r matches Ok(v) ==> 1 <= v.sectors_per_cluster <= 0xFF && 1 <= v.num_fats <= 0xFF
                && v.data_start_sector + v.cluster_count * v.sectors_per_cluster <= u32::MAX,
    {
        let mut boot = [0u8; SECTOR_SIZE];
        fetch(disk, 0, &mut boot)?;
        let bytes_per_sector = util::get_u16(&boot, 11);
        if bytes_per_sector as usize != SECTOR_SIZE {
            return Err(FatError::UnsupportedSectorSize);
        }
        let sectors_per_cluster = boot[13] as u32;
        let reserved_sectors = util::get_u16(&boot, 14) as u32;
        let num_fats = boot[16] as u32;
        let root_entry_count = util::get_u16(&boot, 17);
        let fat_size_16 = util::get_u16(&boot, 22);
        let total_sectors = util::get_u32(&boot, 32);
        let fat_size_32 = util::get_u32(&boot, 36);
        let root_cluster = util::get_u32(&boot, 44);
        if root_entry_count != 0 || fat_size_16 != 0 || fat_size_32 == 0 || sectors_per_cluster == 0
            || num_fats == 0 {
            return Err(FatError::NotFat32);
        }
        assert(num_fats * fat_size_32 >= 0) by (nonlinear_arith);
        let data_start_sector = reserved_sectors + num_fats * fat_size_32;
        let data_sectors = if total_sectors >= data_start_sector {
            total_sectors - data_start_sector
        } else {
            0
        };
        let cluster_count = data_sectors / sectors_per_cluster;
        assert(cluster_count * sectors_per_cluster <= data_sectors) by (nonlinear_arith)
            requires
                cluster_count == data_sectors / sectors_per_cluster,
                sectors_per_cluster > 0,
        ;
        assert(0int / (sectors_per_cluster as int) == 0) by (nonlinear_arith)
            requires
                sectors_per_cluster > 0,
        ;
        Ok(
            Fat32 {
                sectors_per_cluster,
                fat_start_sector: reserved_sectors,
                data_start_sector,
                root_cluster,
                cluster_count,
                num_fats,
                fat_size: fat_size_32,
            },
        )
    }

    /// Whether every FAT entry and every data sector of the volume has a 32-bit number.
    pub fn is_addressable(&self) -> (r: bool)
        requires
            1 <= self.sectors_per_cluster <= 0xFF,
            1 <= self.num_fats <= 0xFF,
        ensures
            r == self.wf(),
    {
        let count = self.cluster_count as u64;
        let per = self.sectors_per_cluster as u64;
        let copies = self.num_fats as u64;
        let size = self.fat_size as u64;
        assert(count * per <= 0xFFFF_FFFF * 0xFF) by (nonlinear_arith)
            requires
                count <= 0xFFFF_FFFF,
                per <= 0xFF,
        ;
        assert(copies * size <= 0xFF * 0xFFFF_FFFF) by (nonlinear_arith)
            requires
                size <= 0xFFFF_FFFF,
                copies <= 0xFF,
        ;
        count <= 0x3FFF_FFFD && self.data_start_sector as u64 + count * per <= 0xFFFF_FFFF
            && self.fat_start_sector as u64 + copies * size + count / 128 + 1 <= 0xFFFF_FFFF
    }

    /// Whether `cluster` is the number of a data cluster: 0, 1, end marks and whatever else a
    /// damaged FAT may hold are not.
    pub fn valid_cluster(&self, cluster: u32) -> (r: bool)
        requires
            self.wf(),
        ensures
            r == self.valid(cluster),
    {
        cluster >= FIRST_DATA_CLUSTER && cluster < FIRST_DATA_CLUSTER + self.cluster_count
    }

    /// All sectors of a valid cluster have 32-bit numbers.
    pub proof fn lemma_sector_bound(self, c: u32, s: int)
        requires
            self.wf(),
            self.valid(c),
            0 <= s < self.sectors_per_cluster,
        ensures
            0 <= self.sector_of(c, 0) <= self.sector_of(c, s) < self.data_start_sector
                + self.cluster_count * self.sectors_per_cluster,
            (c - FIRST_DATA_CLUSTER) * self.sectors_per_cluster >= 0,
    {
        let k = c - FIRST_DATA_CLUSTER;
        let n = self.cluster_count as int;
        let per = self.sectors_per_cluster as int;
        assert(0 <= k * per && k * per + per <= n * per) by (nonlinear_arith)
            requires
                0 <= k < n,
                per >= 0,
        ;
    }

    /// The sectors of the FAT entries of valid clusters have 32-bit numbers.
    pub proof fn lemma_fat_bound(self, copy: int, c: u32)
        requires
            self.wf(),
            self.valid(c),
            0 <= copy < self.num_fats,
        ensures
            0 <= copy * self.fat_size,
            0 <= self.fat_sector(copy, c) <= u32::MAX,
    {
        let n = self.num_fats as int;
        let size = self.fat_size as int;
        assert(0 <= copy * size <= n * size) by (nonlinear_arith)
            requires
                0 <= copy < n,
                size >= 0,
        ;
    }

    /// First sector of a cluster.
    pub(crate) fn first_sector_of_cluster(&self, cluster: u32) -> (r: u32)
        requires
            self.wf(),
            self.valid(cluster),
        ensures
            r == self.sector_of(cluster, 0),
    {
        proof {
            self.lemma_sector_bound(cluster, 0);
        }
        self.data_start_sector + (cluster - FIRST_DATA_CLUSTER) * self.sectors_per_cluster
    }

    /// The cluster that follows `cluster` in its chain; an invalid number ends the chain.
    pub(crate) fn next_cluster(&self, disk: &Disk, cluster: u32) -> (r: Result<u32, FatError>)
        requires
            self.wf(),
            disk.wf(),
            self.valid(cluster),
        ensures
            r == self.next(disk@, cluster),
    {
        proof {
            self.lemma_fat_bound(0, cluster);
        }
        let fat_offset = cluster * 4;
        let sector = self.fat_start_sector + fat_offset / 512;
        let offset = (fat_offset % 512) as usize;
        let mut buf = [0u8; SECTOR_SIZE];
        fetch(disk, sector, &mut buf)?;
        Ok(util::get_u32(&buf, offset) & FAT32_ENTRY_MASK)
    }

    /// Searches the directory that starts at cluster `start` for the 8.3 name `target`.
    pub(crate) fn search_dir(&self, disk: &Disk, start: u32, target: &[u8; 11]) -> (r: Result<DirScan, FatError>)
        requires
            self.wf(),
            disk.wf(),
        ensures
            r == self.scan_dir(disk@, start, target@),
    {
        let mut free: Option<(u32, usize)> = None;
        let mut cluster = start;
        let mut steps_left = self.cluster_count;
        while self.valid_cluster(cluster) && steps_left > 0
            invariant
                self.wf(),
                disk.wf(),
                steps_left == 0 ==> self.scan_dir(disk@, start, target@) == Ok::<DirScan, FatError>(
                    (DirHit::Exhausted, free),
                ),
                steps_left > 0 ==> self.scan_dir(disk@, start, target@) == if self.valid(cluster) {
                    self.scan(disk@, cluster, 0, (steps_left - 1) as nat, target@, free)
                } else {
                    Ok::<DirScan, FatError>((DirHit::Exhausted, free))
                },
            decreases steps_left,
        {
            steps_left -= 1;
            let first = self.first_sector_of_cluster(cluster);
            let mut s: u32 = 0;
            while s < self.sectors_per_cluster
                invariant
                    self.wf(),
                    disk.wf(),
                    self.valid(cluster),
                    s <= self.sectors_per_cluster,
                    first == self.sector_of(cluster, 0),
                    self.scan_dir(disk@, start, target@) == self.scan(
                        disk@,
                        cluster,
                        s as int,
                        steps_left as nat,
                        target@,
                        free,
                    ),
                decreases self.sectors_per_cluster - s,
            {
                proof {
                    self.lemma_sector_bound(cluster, s as int);
                }
                let sector = first + s;
                let mut buf = [0u8; SECTOR_SIZE];
                fetch(disk, sector, &mut buf)?;
                let (stop, gone) = scan_sector(&buf, target);
                if free.is_none() {
                    if let Some(k) = gone {
                        free = Some((sector, k));
                    }
                }
                if stop < 16 {
                    if buf[32 * stop] == SLOT_END {
                        return Ok((DirHit::End { sector, index: stop }, free));
                    }
                    return Ok(
                        (DirHit::Found { sector, index: stop, entry: read_slot(&buf, stop) }, free),
                    );
                }
                s += 1;
            }
            cluster = self.next_cluster(disk, cluster)?;
        }
        Ok((DirHit::Exhausted, free))
    }

    /// The entry named `name` in the directory that starts at cluster `start_cluster`.
    pub fn find_in_dir(&self, disk: &Disk, start_cluster: u32, name: &[u8]) -> (r: Result<
        Option<DirEntry>,
        FatError,
    >)
        requires
            self.wf(),
            disk.wf(),
        ensures
            r == self.found_in_dir(disk@, start_cluster, name@),
    {
        let target = short_name_83(name);
        let (hit, _free) = self.search_dir(disk, start_cluster, &target)?;
        match hit {
            DirHit::Found { sector: _, index: _, entry } => Ok(Some(entry)),
            _ => Ok(None),
        }
    }

    /// Splits a path into the first cluster of the directory in which its last component stands
    /// and that component.
    pub(crate) fn resolve_parent(&self, disk: &Disk, path: &[u8]) -> (r: Result<(u32, Vec<u8>), FatError>)
        requires
            self.wf(),
            disk.wf(),
        ensures
            match self.parent_of(disk@, path@) {
                Err(e) => r == Err::<(u32, Vec<u8>), FatError>(e),
                Ok(dir) => r matches Ok(p) && p.0 == dir && p.1@ == path::components(path@).last(),
            },
            r is Ok ==> path::components(path@).len() > 0,
    {
        let mut comps = path::path_components(path);
        let ghost all = path::components(path@);
        if comps.len() == 0 {
            return Err(FatError::NotFound);
        }
        let ghost inner = all.drop_last();
        let mut cluster = self.root_cluster;
        let mut i: usize = 0;
        assert(inner.skip(0) =~= inner);
        while i < comps.len() - 1
            invariant
                self.wf(),
                disk.wf(),
                all == path::components(path@),
                path::views(comps@) == all,
                comps@.len() >= 1,
                i <= comps@.len() - 1,
                inner == all.drop_last(),
                self.descend(disk@, self.root_cluster, inner) == self.descend(
                    disk@,
                    cluster,
                    inner.skip(i as int),
                ),
            decreases comps@.len() - i,
        {
            assert(inner.skip(i as int)[0] == comps@[i as int]@);
            assert(inner.skip(i as int).skip(1) =~= inner.skip(i + 1));
            match self.find_in_dir(disk, cluster, comps[i].as_slice())? {
                None => {
                    return Err(FatError::NotFound);
                },
                Some(entry) => {
                    if !entry.is_dir {
                        return Err(FatError::NotADirectory);
                    }
                    cluster = entry.first_cluster;
                },
            }
            i += 1;
        }
        let ghost last = comps@.last()@;
        assert(last == all.last());
        match comps.pop() {
            Some(name) => Ok((cluster, name)),
            None => Err(FatError::NotFound),
        }
    }

    /// The directory entry of the path `path`.
    pub fn lookup_entry(&self, disk: &Disk, path: &[u8]) -> (r: Result<DirEntry, FatError>)
        requires
            self.wf(),
            disk.wf(),
        ensures
            r == self.entry_of(disk@, path@),
    {
        let (dir, name) = self.resolve_parent(disk, path)?;
        match self.find_in_dir(disk, dir, name.as_slice())? {
            None => Err(FatError::NotFound),
            Some(entry) => Ok(entry),
        }
    }

    /// Appends to `data` the first `remaining` bytes of a cluster, or all of it.
    fn read_cluster(&self, disk: &Disk, cluster: u32, remaining: usize, data: &mut Vec<u8>) -> (r:
        Result<usize, FatError>)
        requires
            self.wf(),
            disk.wf(),
            self.valid(cluster),
        ensures
            match self.cluster_data(disk@, cluster, 0, remaining as nat) {
                Err(e) => r == Err::<usize, FatError>(e),
                Ok(part) => final(data)@ == old(data)@ + part && r == Ok::<usize, FatError>(
                    (remaining - util::min_nat(remaining as nat, self.cluster_bytes())) as usize,
                ),
            },
    {
        let first = self.first_sector_of_cluster(cluster);
        let ghost base = data@;
        let ghost whole = self.cluster_data(disk@, cluster, 0, remaining as nat);
        let mut left = remaining;
        let mut s: u32 = 0;
        assert(data@ =~= base + Seq::<u8>::empty());
        let ghost mut got = Seq::<u8>::empty();
        while s < self.sectors_per_cluster && left > 0
            invariant
                self.wf(),
                disk.wf(),
                self.valid(cluster),
                s <= self.sectors_per_cluster,
                first == self.sector_of(cluster, 0),
                left <= remaining,
                remaining - left == util::min_nat(remaining as nat, (s * 512) as nat),
                data@ == base + got,
                whole == self.cluster_data(disk@, cluster, 0, remaining as nat),
                match self.cluster_data(disk@, cluster, s as int, left as nat) {
                    Err(e) => whole == Err::<Seq<u8>, FatError>(e),
                    Ok(rest) => whole == Ok::<Seq<u8>, FatError>(got + rest),
                },
            decreases self.sectors_per_cluster - s,
        {
            proof {
                self.lemma_sector_bound(cluster, s as int);
            }
            let mut buf = [0u8; SECTOR_SIZE];
            fetch(disk, first + s, &mut buf)?;
            let take = if left < SECTOR_SIZE { left } else { SECTOR_SIZE };
            let chunk = vstd::slice::slice_subrange(buf.as_slice(), 0, take);
            data.extend_from_slice(chunk);
            proof {
                assert(chunk@ =~= buf@.take(take as int));
                assert(data@ =~= base + (got + buf@.take(take as int)));
                let ghost rest = self.cluster_data(disk@, cluster, s + 1, (left - take) as nat);
                if rest is Ok {
                    assert(got + (buf@.take(take as int) + rest->Ok_0) =~= (got + buf@.take(
                        take as int,
                    )) + rest->Ok_0);
                }
                got = got + buf@.take(take as int);
            }
            left -= take;
            s += 1;
        }
        proof {
            assert(got + Seq::<u8>::empty() =~= got);
            assert(self.cluster_data(disk@, cluster, s as int, left as nat) == Ok::<
                Seq<u8>,
                FatError,
            >(Seq::empty()));
        }
        Ok(left)
    }

    /// As many bytes are read of a cluster as it holds, or as are asked for.
    proof fn lemma_cluster_data_len(self, d: DiskView, c: u32, s: int, len: nat)
        requires
            self.wf(),
            d.wf(),
            self.valid(c),
            0 <= s <= self.sectors_per_cluster,
        ensures
            self.cluster_data(d, c, s, len) matches Ok(b) ==> b.len() == util::min_nat(
                len,
                ((self.sectors_per_cluster - s) * 512) as nat,
            ),
        decreases self.sectors_per_cluster - s,
    {
        if s < self.sectors_per_cluster && len > 0 {
            let take = util::min_nat(len, 512);
            if let Ok(buf) = fetched(d, self.sector_of(c, s)) {
                self.lemma_sector_bound(c, s);
                assert(buf.len() == 512);
                self.lemma_cluster_data_len(d, c, s + 1, (len - take) as nat);
            }
        }
    }

    /// What is read of a chain has the length that was asked for.
    pub proof fn lemma_chain_data_len(self, d: DiskView, c: u32, len: nat)
        requires
            self.wf(),
            d.wf(),
        ensures
            self.chain_data(d, c, len) matches Ok(b) ==> b.len() == len,
        decreases len,
    {
        if len > 0 && self.valid(c) {
            self.lemma_cluster_data_len(d, c, 0, len);
            if let Ok(n) = self.next(d, c) {
                self.lemma_chain_data_len(
                    d,
                    n,
                    (len - util::min_nat(len, self.cluster_bytes())) as nat,
                );
            }
        }
    }

    /// Reads `size` bytes of the chain that starts at `first`.
    pub fn read_chain(&self, disk: &Disk, first: u32, size: u32) -> (r: Result<Vec<u8>, FatError>)
        requires
            self.wf(),
            disk.wf(),
        ensures
            r matches Ok(v) ==> v@.len() == size,
            match self.chain_data(disk@, first, size as nat) {
                Err(e) => r == Err::<Vec<u8>, FatError>(e),
                Ok(bytes) => r matches Ok(v) && v@ == bytes,
            },
    {
        let mut data: Vec<u8> = Vec::new();
        let mut remaining = size as usize;
        let mut cluster = first;
        let ghost whole = self.chain_data(disk@, first, size as nat);
        proof {
            if let Ok(rest) = whole {
                assert(Seq::<u8>::empty() + rest =~= rest);
            }
        }
        while remaining > 0 && self.valid_cluster(cluster)
            invariant
                self.wf(),
                disk.wf(),
                whole == self.chain_data(disk@, first, size as nat),
                match self.chain_data(disk@, cluster, remaining as nat) {
                    Err(e) => whole == Err::<Seq<u8>, FatError>(e),
                    Ok(rest) => whole == Ok::<Seq<u8>, FatError>(data@ + rest),
                },
            decreases remaining,
        {
            let ghost before = data@;
            let ghost part = self.cluster_data(disk@, cluster, 0, remaining as nat)->Ok_0;
            remaining = self.read_cluster(disk, cluster, remaining, &mut data)?;
            cluster = self.next_cluster(disk, cluster)?;
            proof {
                if let Ok(rest) = self.chain_data(disk@, cluster, remaining as nat) {
                    assert(before + (part + rest) =~= data@ + rest);
                }
            }
        }
        if remaining > 0 {
            return Err(FatError::BrokenChain);
        }
        assert(data@ + Seq::<u8>::empty() =~= data@);
        proof {
            self.lemma_chain_data_len(disk@, first, size as nat);
        }
        Ok(data)
    }

    /// Reads the file at the byte-string path `path`.
    pub fn read_path(&self, disk: &Disk, path: &[u8]) -> (r: Result<Vec<u8>, FatError>)
        requires
            self.wf(),
            disk.wf(),
        ensures
            r matches Ok(v) ==> self.entry_of(disk@, path@) matches Ok(entry) && v@.len()
                == entry.size,
            match self.file_read(disk@, path@) {
                Err(e) => r == Err::<Vec<u8>, FatError>(e),
                Ok(bytes) => r matches Ok(v) && v@ == bytes,
            },
    {
        let entry = self.lookup_entry(disk, path)?;
        if entry.is_dir {
            return Err(FatError::IsADirectory);
        }
        self.read_chain(disk, entry.first_cluster, entry.size)
    }

    /// Reads the file at `path`: exactly as many bytes as its entry says. One whose chain holds
    /// fewer is not read.
    pub fn read_file(&self, disk: &Disk, path: &str) -> (r: Result<Vec<u8>, FatError>)
        requires
            self.wf(),
            disk.wf(),
        ensures
            r matches Ok(v) ==> self.entry_of(disk@, path.spec_bytes()) matches Ok(entry) && v@.len()
                == entry.size,
            match self.file_read(disk@, path.spec_bytes()) {
                Err(e) => r == Err::<Vec<u8>, FatError>(e),
                Ok(bytes) => r matches Ok(v) && v@ == bytes,
            },
    {
        self.read_path(disk, path.as_bytes())
    }
}

/// The 8.3 form of a name: eight places for what stands before its first dot and three for what
/// stands behind it, in capitals, blanks where nothing stands. What does not fit is left out.
pub proof fn law_short_name_has_eight_and_three_places(base: Seq<u8>, ext: Seq<u8>, i: int)
    requires
        forall|j: int| 0 <= j < base.len() ==> base[j] != 0x2E,
        0 <= i < 11,
    ensures
        ({
            let part = if i < 8 {
                base
            } else {
                ext
            };
            let at = if i < 8 {
                i
            } else {
                i - 8
            };
            let c = if at >= part.len() {
                0x20
            } else if 0x61 <= part[at] <= 0x7A {
                part[at] - 0x20
            } else {
                part[at] as int
            };
            &&& name_83(base.push(0x2E) + ext).len() == 11
            &&& name_83(base.push(0x2E) + ext)[i] == c
            &&& i < 8 ==> name_83(base)[i] == c
            &&& i >= 8 ==> name_83(base)[i] == 0x20
        }),
{
    let name = base.push(0x2E) + ext;
    lemma_first_piece(name, base.len() as int);
    assert(name.take(base.len() as int) =~= base);
    assert(name.skip(base.len() as int + 1) =~= ext);
    lemma_first_piece(base, base.len() as int);
    assert(base.take(base.len() as int) =~= base);
}

} // verus!
