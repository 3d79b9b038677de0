//! Writing to a FAT32 volume: the FAT itself, chains, directory entries, files, directories.

use crate::drivers::virtio_blk::{Disk, DiskView, SECTOR_SIZE};
use crate::fs::fat::{
    self, fetch, make_dir_entry, short_name_83, store, DirHit, DirScan, Fat32, FatError,
    ATTR_ARCHIVE, ATTR_DIRECTORY, DIR_ENTRY_SIZE, FAT32_ENTRY_MASK, FAT32_EOC,
    FAT_ENTRIES_PER_SECTOR, FIRST_DATA_CLUSTER,
};
use crate::fs::fat_laws;
use crate::fs::path;
use crate::util;
use vstd::prelude::*;
use vstd::string::StringSliceAdditionalSpecFns;

verus! {

/// A FAT entry with its 28 significant bits replaced by those of `value`.
pub open spec fn merged(before: u32, value: u32) -> u32 {
    (before & !FAT32_ENTRY_MASK) | (value & FAT32_ENTRY_MASK)
}

/// The 11 bytes of the entry `.`.
pub open spec fn dot_name() -> Seq<u8> {
    seq![0x2Eu8, 0x20, 0x20, 0x20, 0x20, 0x20, 0x20, 0x20, 0x20, 0x20, 0x20]
}

/// The 11 bytes of the entry `..`.
pub open spec fn dotdot_name() -> Seq<u8> {
    seq![0x2Eu8, 0x2E, 0x20, 0x20, 0x20, 0x20, 0x20, 0x20, 0x20, 0x20, 0x20]
}

/// A sector of zeros.
pub open spec fn zero_sector() -> Seq<u8> {
    Seq::new(512, |i: int| 0u8)
}

/// The number of clusters that `len` bytes take.
pub open spec fn clusters_for(len: nat, cluster_bytes: nat) -> nat {
    (len + cluster_bytes - 1) as nat / cluster_bytes
}

/// Where a directory has room for a name: sector, byte offset and, where the name is taken, the
/// first cluster of what bears it.
pub type Slot = (u32, usize, Option<u32>);

/// Whether the positions that a search of a directory reports are entries of their sectors.
pub open spec fn scan_in_range(scan: DirScan) -> bool {
    &&& match scan.0 {
        DirHit::Found { index, .. } => index < 16,
        DirHit::End { index, .. } => index < 16,
        DirHit::Exhausted => true,
    }
    &&& scan.1 matches Some((_, index)) ==> index < 16
}

/// The entry at which the search of a sector stops is one of its entries, or there is none.
pub proof fn lemma_stop_index(buf: Seq<u8>, target: Seq<u8>, k: int)
    requires
        0 <= k <= 16,
    ensures
        k <= fat::stop_index(buf, target, k) <= 16,
    decreases 16 - k,
{
    if k < 16 && !fat::slot_ends(buf, k) && !fat::slot_matches(buf, k, target) {
        lemma_stop_index(buf, target, k + 1);
    }
}

/// The first deleted entry lies where it is searched.
pub proof fn lemma_deleted_index(buf: Seq<u8>, k: int, limit: int)
    requires
        0 <= k <= limit,
    ensures
        k <= fat::deleted_index(buf, k, limit) <= limit,
    decreases limit - k,
{
    if k < limit && !fat::slot_deleted(buf, k) {
        lemma_deleted_index(buf, k + 1, limit);
    }
}

impl Fat32 {
    /// A search reports entries of their sectors.
    proof fn lemma_scan_indices(
        self,
        d: DiskView,
        c: u32,
        s: int,
        steps: nat,
        target: Seq<u8>,
        free: Option<(u32, usize)>,
    )
        requires
            free matches Some((_, index)) ==> index < 16,
        ensures
            self.scan(d, c, s, steps, target, free) matches Ok(r) ==> scan_in_range(r),
        decreases steps, self.sectors_per_cluster - s,
    {
        if s < self.sectors_per_cluster {
            if let Ok(buf) = fat::fetched(d, self.sector_of(c, s)) {
                lemma_stop_index(buf, target, 0);
                let stop = fat::stop_index(buf, target, 0);
                lemma_deleted_index(buf, 0, stop);
                let gone = fat::deleted_index(buf, 0, stop);
                let free2 = if free is None && gone < stop {
                    Some((self.sector_of(c, s) as u32, gone as usize))
                } else {
                    free
                };
                if stop >= 16 {
                    self.lemma_scan_indices(d, c, s + 1, steps, target, free2);
                }
            }
        } else if let Ok(n) = self.next(d, c) {
            if self.valid(n) && steps > 0 {
                self.lemma_scan_indices(d, n, 0, (steps - 1) as nat, target, free);
            }
        }
    }

    /// A search of a directory reports entries of their sectors.
    pub proof fn lemma_scan_dir_indices(self, d: DiskView, dir: u32, target: Seq<u8>)
        ensures
            self.scan_dir(d, dir, target) matches Ok(r) ==> scan_in_range(r),
    {
        if self.valid(dir) {
            self.lemma_scan_indices(d, dir, 0, (self.cluster_count - 1) as nat, target, None);
        }
    }

    /// Sets the entry of cluster `c` to `value` in one copy of the FAT.
    pub open spec fn copy_set(self, d: DiskView, c: u32, value: u32, copy: int) -> (
        DiskView,
        Result<(), FatError>,
    ) {
        let sector = self.fat_sector(copy, c);
        match fat::fetched(d, sector) {
            Err(e) => (d, Err(e)),
            Ok(buf) => {
                let off = Self::fat_offset(c);
                let entry = merged(util::le32(buf, off), value);
                fat::stored(d, sector, util::splice(buf, off, util::enc32(entry)))
            },
        }
    }

    /// Sets the entry of cluster `c` to `value` in the copies of the FAT from `copy` on. Where one
    /// of them fails those before it are put back.
    pub open spec fn entry_set(self, d: DiskView, c: u32, value: u32, copy: int) -> (
        DiskView,
        Result<(), FatError>,
    )
        decreases self.num_fats - copy,
    {
        if copy >= self.num_fats {
            (d, Ok(()))
        } else {
            let sector = self.fat_sector(copy, c);
            match self.copy_set(d, c, value, copy) {
                (d2, Err(e)) => (d2, Err(e)),
                (d2, Ok(_)) => match self.entry_set(d2, c, value, copy + 1) {
                    (d3, Err(e)) => (
                        fat::stored(d3, sector, fat::fetched(d, sector)->Ok_0).0,
                        Err(e),
                    ),
                    (d3, Ok(_)) => (d3, Ok(())),
                },
            }
        }
    }

    /// The disk after the sectors `saved` were put back, the last first, each into its copy of the
    /// FAT, where the entry of cluster `c` stands in them.
    pub open spec fn put_back(self, d: DiskView, c: u32, saved: Seq<[u8; 512]>) -> DiskView
        decreases saved.len(),
    {
        if saved.len() == 0 {
            d
        } else {
            self.put_back(
                fat::stored(d, self.fat_sector(saved.len() - 1, c), saved.last()@).0,
                c,
                saved.drop_last(),
            )
        }
    }

    /// The first free cluster from `c` on.
    pub open spec fn first_free(self, d: DiskView, c: int) -> Result<u32, FatError>
        decreases FIRST_DATA_CLUSTER + self.cluster_count - c,
    {
        if c >= FIRST_DATA_CLUSTER + self.cluster_count {
            Err(FatError::NoSpace)
        } else {
            match self.next(d, c as u32) {
                Err(e) => Err(e),
                Ok(v) => if v == 0 {
                    Ok(c as u32)
                } else {
                    self.first_free(d, c + 1)
                },
            }
        }
    }

    /// Takes the first free cluster and marks it as the end of a chain.
    pub open spec fn cluster_taken(self, d: DiskView) -> (DiskView, Result<u32, FatError>) {
        match self.first_free(d, FIRST_DATA_CLUSTER as int) {
            Err(e) => (d, Err(e)),
            Ok(c) => match self.entry_set(d, c, FAT32_EOC, 0) {
                (d2, Err(e)) => (d2, Err(e)),
                (d2, Ok(_)) => (d2, Ok(c)),
            },
        }
    }

    /// Frees the clusters of the chain that starts at `c`, at most `steps` of them.
    pub open spec fn freed(self, d: DiskView, c: u32, steps: nat) -> (
        DiskView,
        Result<(), FatError>,
    )
        decreases steps,
    {
        if !self.valid(c) || steps == 0 {
            (d, Ok(()))
        } else {
            match self.next(d, c) {
                Err(e) => (d, Err(e)),
                Ok(n) => match self.entry_set(d, c, 0, 0) {
                    (d2, Err(e)) => (d2, Err(e)),
                    (d2, Ok(_)) => self.freed(d2, n, (steps - 1) as nat),
                },
            }
        }
    }

    /// Frees the whole chain that starts at `c`.
    pub open spec fn chain_freed(self, d: DiskView, c: u32) -> (DiskView, Result<(), FatError>) {
        self.freed(d, c, self.cluster_count as nat)
    }

    /// Takes `n` more clusters and appends them to the chain that starts at `first` and ends at
    /// `prev` (0 where there is none yet). Where no cluster can be taken or linked all are freed.
    pub open spec fn chain_grown(self, d: DiskView, n: nat, first: u32, prev: u32) -> (
        DiskView,
        Result<u32, FatError>,
    )
        decreases n,
    {
        if n == 0 {
            (d, Ok(first))
        } else {
            match self.cluster_taken(d) {
                (d1, Err(e)) => (
                    if first != 0 {
                        self.chain_freed(d1, first).0
                    } else {
                        d1
                    },
                    Err(e),
                ),
                (d1, Ok(c)) => if first == 0 {
                    self.chain_grown(d1, (n - 1) as nat, c, c)
                } else {
                    match self.entry_set(d1, prev, c, 0) {
                        (d2, Err(e)) => (
                            self.chain_freed(self.chain_freed(d2, c).0, first).0,
                            Err(e),
                        ),
                        (d2, Ok(_)) => self.chain_grown(d2, (n - 1) as nat, first, c),
                    }
                },
            }
        }
    }

    /// Takes a chain of `n` clusters.
    pub open spec fn chain_taken(self, d: DiskView, n: nat) -> (DiskView, Result<u32, FatError>) {
        self.chain_grown(d, n, 0, 0)
    }

    /// Writes `data` into cluster `c` from its sector `s` on, as far as it fits. The last sector
    /// is padded with zeros.
    pub open spec fn cluster_written(self, d: DiskView, c: u32, s: int, data: Seq<u8>) -> (
        DiskView,
        Result<(), FatError>,
    )
        decreases self.sectors_per_cluster - s,
    {
        if s >= self.sectors_per_cluster || data.len() == 0 {
            (d, Ok(()))
        } else {
            let take = util::min_nat(data.len(), 512) as int;
            match fat::stored(d, self.sector_of(c, s), util::splice(zero_sector(), 0, data.take(take))) {
                (d2, Err(e)) => (d2, Err(e)),
                (d2, Ok(_)) => self.cluster_written(d2, c, s + 1, data.skip(take)),
            }
        }
    }

    /// Writes `data` along the chain that starts at `c`.
    pub open spec fn data_written(self, d: DiskView, c: u32, data: Seq<u8>, steps: nat) -> (
        DiskView,
        Result<(), FatError>,
    )
        decreases steps,
    {
        if data.len() == 0 || !self.valid(c) || steps == 0 {
            (d, Ok(()))
        } else {
            match self.cluster_written(d, c, 0, data) {
                (d2, Err(e)) => (d2, Err(e)),
                (d2, Ok(_)) => match self.next(d2, c) {
                    Err(e) => (d2, Err(e)),
                    Ok(n) => self.data_written(
                        d2,
                        n,
                        data.skip(util::min_nat(data.len(), self.cluster_bytes()) as int),
                        (steps - 1) as nat,
                    ),
                },
            }
        }
    }

    /// Writes `data` along the whole chain that starts at `c`.
    pub open spec fn chain_written(self, d: DiskView, c: u32, data: Seq<u8>) -> (
        DiskView,
        Result<(), FatError>,
    ) {
        self.data_written(d, c, data, self.cluster_count as nat)
    }

    /// Where the directory at cluster `dir` has the entry `target`, or room for it: the first
    /// deleted entry, else the one that ends the directory.
    pub open spec fn slot_for(self, d: DiskView, dir: u32, target: Seq<u8>) -> Result<
        Slot,
        FatError,
    > {
        match self.scan_dir(d, dir, target) {
            Err(e) => Err(e),
            Ok((DirHit::Found { sector, index, entry }, _)) => Ok(
                (sector, (32 * index) as usize, Some(entry.first_cluster)),
            ),
            Ok((_, Some((sector, index)))) => Ok((sector, (32 * index) as usize, None)),
            Ok((DirHit::End { sector, index }, None)) => Ok((sector, (32 * index) as usize, None)),
            Ok((DirHit::Exhausted, None)) => Err(FatError::DirFull),
        }
    }

    /// Overwrites 32 bytes of a directory sector by `entry`.
    pub open spec fn dir_entry_written(d: DiskView, sector: u32, offset: int, entry: Seq<u8>) -> (
        DiskView,
        Result<(), FatError>,
    ) {
        match fat::fetched(d, sector as int) {
            Err(e) => (d, Err(e)),
            Ok(buf) => fat::stored(d, sector as int, util::splice(buf, offset, entry)),
        }
    }

    /// Takes a chain for `data` and fills it; nothing is taken for empty data. A chain that
    /// cannot be filled is freed.
    pub open spec fn content_stored(self, d: DiskView, data: Seq<u8>) -> (
        DiskView,
        Result<u32, FatError>,
    ) {
        if data.len() == 0 {
            (d, Ok(0))
        } else {
            let n = clusters_for(data.len(), self.cluster_bytes()) as u32;
            match self.chain_taken(d, n as nat) {
                (d1, Err(e)) => (d1, Err(e)),
                (d1, Ok(first)) => match self.chain_written(d1, first, data) {
                    (d2, Err(e)) => (self.chain_freed(d2, first).0, Err(e)),
                    (d2, Ok(_)) => (d2, Ok(first)),
                },
            }
        }
    }

    /// Gives the directory at cluster `dir` an entry for a file of the 8.3 name `target` that
    /// holds `data`, in place of what bore the name before.
    pub open spec fn file_put(self, d: DiskView, dir: u32, target: Seq<u8>, data: Seq<u8>) -> (
        DiskView,
        Result<(), FatError>,
    ) {
        match self.slot_for(d, dir, target) {
            Err(e) => (d, Err(e)),
            Ok((sector, offset, old_first)) => match self.content_stored(d, data) {
                (d1, Err(e)) => (d1, Err(e)),
                (d1, Ok(first)) => match Self::dir_entry_written(
                    d1,
                    sector,
                    offset as int,
                    fat::entry_bytes(target, ATTR_ARCHIVE, first, data.len() as u32),
                ) {
                    (d2, Err(e)) => (
                        if first != 0 {
                            self.chain_freed(d2, first).0
                        } else {
                            d2
                        },
                        Err(e),
                    ),
                    (d2, Ok(_)) => match old_first {
                        Some(c) => (self.chain_freed(d2, c).0, Ok(())),
                        None => (d2, Ok(())),
                    },
                },
            },
        }
    }

    /// What writing `data` to the file at `path` does.
    pub open spec fn file_written(self, d: DiskView, path: Seq<u8>, data: Seq<u8>) -> (
        DiskView,
        Result<(), FatError>,
    ) {
        match self.parent_of(d, path) {
            Err(e) => (d, Err(e)),
            Ok(dir) => self.file_put(d, dir, fat::name_83(path::components(path).last()), data),
        }
    }

    /// The first sector of a new directory at cluster `c` in the directory at `parent`: `.` and
    /// `..`, the latter 0 where the parent is the root.
    pub open spec fn fresh_dir_sector(self, c: u32, parent: u32) -> Seq<u8> {
        let up = if parent == self.root_cluster {
            0
        } else {
            parent
        };
        util::splice(
            util::splice(zero_sector(), 0, fat::entry_bytes(dot_name(), ATTR_DIRECTORY, c, 0)),
            32,
            fat::entry_bytes(dotdot_name(), ATTR_DIRECTORY, up, 0),
        )
    }

    /// Zeroes the sectors of cluster `c` from `s` on.
    pub open spec fn cluster_zeroed(self, d: DiskView, c: u32, s: int) -> (
        DiskView,
        Result<(), FatError>,
    )
        decreases self.sectors_per_cluster - s,
    {
        if s >= self.sectors_per_cluster {
            (d, Ok(()))
        } else {
            match fat::stored(d, self.sector_of(c, s), zero_sector()) {
                (d2, Err(e)) => (d2, Err(e)),
                (d2, Ok(_)) => self.cluster_zeroed(d2, c, s + 1),
            }
        }
    }

    /// Makes cluster `c` an empty directory in the directory at `parent`.
    pub open spec fn dir_cluster_made(self, d: DiskView, c: u32, parent: u32) -> (
        DiskView,
        Result<(), FatError>,
    ) {
        match fat::stored(d, self.sector_of(c, 0), self.fresh_dir_sector(c, parent)) {
            (d2, Err(e)) => (d2, Err(e)),
            (d2, Ok(_)) => self.cluster_zeroed(d2, c, 1),
        }
    }

    /// Gives the directory at cluster `parent` a new empty directory of the 8.3 name `target`.
    pub open spec fn dir_put(self, d: DiskView, parent: u32, target: Seq<u8>) -> (
        DiskView,
        Result<(), FatError>,
    ) {
        match self.slot_for(d, parent, target) {
            Err(e) => (d, Err(e)),
            Ok((_, _, Some(_))) => (d, Err(FatError::AlreadyExists)),
            Ok((sector, offset, None)) => match self.cluster_taken(d) {
                (d1, Err(e)) => (d1, Err(e)),
                (d1, Ok(c)) => match self.dir_cluster_made(d1, c, parent) {
                    (d2, Err(e)) => (self.chain_freed(d2, c).0, Err(e)),
                    (d2, Ok(_)) => match Self::dir_entry_written(
                        d2,
                        sector,
                        offset as int,
                        fat::entry_bytes(target, ATTR_DIRECTORY, c, 0),
                    ) {
                        (d3, Err(e)) => (self.chain_freed(d3, c).0, Err(e)),
                        (d3, Ok(_)) => (d3, Ok(())),
                    },
                },
            },
        }
    }

    /// What making a directory at `path` does.
    pub open spec fn dir_made(self, d: DiskView, path: Seq<u8>) -> (
        DiskView,
        Result<(), FatError>,
    ) {
        match self.parent_of(d, path) {
            Err(e) => (d, Err(e)),
            Ok(parent) => self.dir_put(d, parent, fat::name_83(path::components(path).last())),
        }
    }

    /// Puts sectors of the FAT back that were saved before they were changed.
    fn restore_fat(&self, disk: &mut Disk, cluster: u32, saved: Vec<[u8; 512]>)
        requires
            self.wf(),
            old(disk).wf(),
            self.valid(cluster),
            saved@.len() <= self.num_fats,
        ensures
            final(disk).wf(),
            final(disk)@ == self.put_back(old(disk)@, cluster, saved@),
    {
        let ghost d0 = disk@;
        let ghost all = saved@;
        let mut saved = saved;
        while saved.len() > 0
            invariant
                self.wf(),
                disk.wf(),
                self.valid(cluster),
                saved@.len() <= self.num_fats,
                self.put_back(disk@, cluster, saved@) == self.put_back(d0, cluster, all),
            decreases saved@.len(),
        {
            let ghost before = saved@;
            let fat = (saved.len() - 1) as u32;
            match saved.pop() {
                None => {},
                Some(buf) => {
                    proof {
                        assert(saved@ =~= before.drop_last());
                        self.lemma_fat_bound(fat as int, cluster);
                        let n = self.num_fats as int;
                        let size = self.fat_size as int;
                        assert(fat * size <= n * size) by (nonlinear_arith)
                            requires
                                fat < n,
                                size >= 0,
                        ;
                    }
                    let sector = self.fat_start_sector + fat * self.fat_size + cluster / 128;
                    let _ = store(disk, sector, &buf);
                },
            }
        }
    }

    /// Sets the FAT entry of `cluster` to `value` in every copy of the FAT. The four reserved
    /// bits of an entry are kept. Where a copy cannot be changed those before it are put back.
    pub fn write_fat_entry(&self, disk: &mut Disk, cluster: u32, value: u32) -> (r: Result<
        (),
        FatError,
    >)
        requires
            self.wf(),
            old(disk).wf(),
            self.valid(cluster),
        ensures
            final(disk).wf(),
            (final(disk)@, r) == self.entry_set(old(disk)@, cluster, value, 0),
    {
        let ghost d0 = disk@;
        let within = cluster / 128;
        let offset = (cluster % 128) as usize * 4;
        let mut saved: Vec<[u8; 512]> = Vec::new();
        let mut fat: u32 = 0;
        while fat < self.num_fats
            invariant
                self.wf(),
                d0 == old(disk)@,
                disk.wf(),
                self.valid(cluster),
                fat <= self.num_fats,
                saved@.len() == fat,
                within == cluster / 128,
                offset == Self::fat_offset(cluster),
                self.entry_set(d0, cluster, value, 0) == (match self.entry_set(
                    disk@,
                    cluster,
                    value,
                    fat as int,
                ) {
                    (d, Err(e)) => (self.put_back(d, cluster, saved@), Err(e)),
                    (d, Ok(_)) => (d, Ok(())),
                }),
            decreases self.num_fats - fat,
        {
            proof {
                self.lemma_fat_bound(fat as int, cluster);
                let n = self.num_fats as int;
                let size = self.fat_size as int;
                assert(fat * size <= n * size) by (nonlinear_arith)
                    requires
                        fat < n,
                        size >= 0,
                ;
            }
            let sector = self.fat_start_sector + fat * self.fat_size + within;
            let mut buf = [0u8; SECTOR_SIZE];
            if let Err(e) = fetch(disk, sector, &mut buf) {
                self.restore_fat(disk, cluster, saved);
                return Err(e);
            }
            let ghost before = saved@;
            let old_buf = buf;
            let old_entry = util::get_u32(&buf, offset);
            let entry = (old_entry & !FAT32_ENTRY_MASK) | (value & FAT32_ENTRY_MASK);
            util::put_u32(&mut buf, offset, entry);
            if let Err(e) = store(disk, sector, &buf) {
                self.restore_fat(disk, cluster, saved);
                return Err(e);
            }
            saved.push(old_buf);
            assert(saved@.drop_last() =~= before);
            fat += 1;
        }
        Ok(())
    }

    /// Finds the first free cluster, marks it as the end of a chain and returns its number.
    pub fn alloc_cluster(&self, disk: &mut Disk) -> (r: Result<u32, FatError>)
        requires
            self.wf(),
            old(disk).wf(),
        ensures
            final(disk).wf(),
            (final(disk)@, r) == self.cluster_taken(old(disk)@),
            r matches Ok(c) ==> self.valid(c),
    {
        let ghost d0 = disk@;
        let last = FIRST_DATA_CLUSTER + self.cluster_count;
        let mut cluster = FIRST_DATA_CLUSTER;
        while cluster < last
            invariant
                self.wf(),
                d0 == old(disk)@,
                disk.wf(),
                disk@ == d0,
                last == FIRST_DATA_CLUSTER + self.cluster_count,
                FIRST_DATA_CLUSTER <= cluster <= last,
                self.first_free(d0, FIRST_DATA_CLUSTER as int) == self.first_free(d0, cluster as int),
            decreases last - cluster,
        {
            proof {
                self.lemma_fat_bound(0, cluster);
            }
            let index = cluster / FAT_ENTRIES_PER_SECTOR;
            let sector = self.fat_start_sector + index;
            let mut buf = [0u8; SECTOR_SIZE];
            fetch(disk, sector, &mut buf)?;
            let ghost start = cluster;
            while cluster < last && cluster / FAT_ENTRIES_PER_SECTOR == index
                invariant
                    self.wf(),
                    d0 == old(disk)@,
                    disk.wf(),
                    disk@ == d0,
                    last == FIRST_DATA_CLUSTER + self.cluster_count,
                    FIRST_DATA_CLUSTER <= start <= cluster <= last,
                    start < last,
                    index == start / FAT_ENTRIES_PER_SECTOR,
                    sector == self.fat_start_sector + index,
                    fat::fetched(d0, sector as int) == Ok::<Seq<u8>, FatError>(buf@),
                    self.first_free(d0, FIRST_DATA_CLUSTER as int) == self.first_free(d0, cluster as int),
                ensures
                    cluster > start,
                decreases last - cluster,
            {
                let off = (cluster % FAT_ENTRIES_PER_SECTOR) as usize * 4;
                if util::get_u32(&buf, off) & FAT32_ENTRY_MASK == 0 {
                    self.write_fat_entry(disk, cluster, FAT32_EOC)?;
                    return Ok(cluster);
                }
                cluster += 1;
            }
        }
        Err(FatError::NoSpace)
    }

    /// Frees the chain that starts at `first`. No more clusters are freed than the volume has.
    pub fn free_chain(&self, disk: &mut Disk, first: u32) -> (r: Result<(), FatError>)
        requires
            self.wf(),
            old(disk).wf(),
        ensures
            final(disk).wf(),
            (final(disk)@, r) == self.chain_freed(old(disk)@, first),
    {
        let ghost d0 = disk@;
        let mut cluster = first;
        let mut steps_left = self.cluster_count;
        while self.valid_cluster(cluster) && steps_left > 0
            invariant
                self.wf(),
                d0 == old(disk)@,
                disk.wf(),
                self.chain_freed(d0, first) == self.freed(disk@, cluster, steps_left as nat),
            decreases steps_left,
        {
            steps_left -= 1;
            let next = self.next_cluster(disk, cluster)?;
            self.write_fat_entry(disk, cluster, 0)?;
            cluster = next;
        }
        Ok(())
    }

    /// Takes a chain of `n` clusters and returns its first. Where the clusters do not suffice or
    /// cannot be linked, those taken so far are freed.
    pub fn alloc_chain(&self, disk: &mut Disk, n: u32) -> (r: Result<u32, FatError>)
        requires
            self.wf(),
            old(disk).wf(),
        ensures
            final(disk).wf(),
            (final(disk)@, r) == self.chain_taken(old(disk)@, n as nat),
    {
        let ghost d0 = disk@;
        let mut first: u32 = 0;
        let mut prev: u32 = 0;
        let mut left = n;
        while left > 0
            invariant
                self.wf(),
                d0 == old(disk)@,
                disk.wf(),
                first != 0 ==> self.valid(prev),
                self.chain_taken(d0, n as nat) == self.chain_grown(disk@, left as nat, first, prev),
            decreases left,
        {
            let c = match self.alloc_cluster(disk) {
                Ok(c) => c,
                Err(e) => {
                    if first != 0 {
                        let _ = self.free_chain(disk, first);
                    }
                    return Err(e);
                },
            };
            if first == 0 {
                first = c;
            } else {
                if let Err(e) = self.write_fat_entry(disk, prev, c) {
                    let _ = self.free_chain(disk, c);
                    let _ = self.free_chain(disk, first);
                    return Err(e);
                }
            }
            prev = c;
            left -= 1;
        }
        Ok(first)
    }

    /// Writes `data` from `written` on into the sectors of one cluster and returns how much of
    /// it is written then.
    fn write_cluster(&self, disk: &mut Disk, cluster: u32, data: &[u8], written: usize) -> (r:
        Result<usize, FatError>)
        requires
            self.wf(),
            old(disk).wf(),
            self.valid(cluster),
            written <= data@.len(),
        ensures
            final(disk).wf(),
            ({
                let (d, w) = self.cluster_written(
                    old(disk)@,
                    cluster,
                    0,
                    data@.skip(written as int),
                );
                &&& final(disk)@ == d
                &&& match w {
                    Err(e) => r == Err::<usize, FatError>(e),
                    Ok(_) => r matches Ok(n) && n == written + util::min_nat(
                        (data@.len() - written) as nat,
                        self.cluster_bytes(),
                    ),
                }
            }),
    {
        let ghost d0 = disk@;
        let first = self.first_sector_of_cluster(cluster);
        let mut at = written;
        let mut s: u32 = 0;
        while s < self.sectors_per_cluster && at < data.len()
            invariant
                self.wf(),
                d0 == old(disk)@,
                disk.wf(),
                self.valid(cluster),
                s <= self.sectors_per_cluster,
                first == self.sector_of(cluster, 0),
                written <= at <= data@.len(),
                at - written == util::min_nat((data@.len() - written) as nat, (s * 512) as nat),
                self.cluster_written(d0, cluster, 0, data@.skip(written as int))
                    == self.cluster_written(disk@, cluster, s as int, data@.skip(at as int)),
            decreases self.sectors_per_cluster - s,
        {
            proof {
                self.lemma_sector_bound(cluster, s as int);
            }
            let left = data.len() - at;
            let take = if left < SECTOR_SIZE { left } else { SECTOR_SIZE };
            let mut buf = [0u8; SECTOR_SIZE];
            let chunk = vstd::slice::slice_subrange(data, at, at + take);
            util::copy_into(&mut buf, 0, chunk);
            proof {
                let rest = data@.skip(at as int);
                assert(chunk@ =~= rest.take(take as int));
                assert(buf@ =~= util::splice(zero_sector(), 0, rest.take(take as int)));
                assert(rest.skip(take as int) =~= data@.skip(at + take));
            }
            store(disk, first + s, &buf)?;
            at += take;
            s += 1;
        }
        Ok(at)
    }

    /// Writes `data` along the chain that starts at `first`. The last sector is padded with
    /// zeros.
    pub fn write_chain(&self, disk: &mut Disk, first: u32, data: &[u8]) -> (r: Result<(), FatError>)
        requires
            self.wf(),
            old(disk).wf(),
        ensures
            final(disk).wf(),
            (final(disk)@, r) == self.chain_written(old(disk)@, first, data@),
    {
        let ghost d0 = disk@;
        let mut cluster = first;
        let mut written: usize = 0;
        let mut steps_left = self.cluster_count;
        assert(data@.skip(0) =~= data@);
        while written < data.len() && self.valid_cluster(cluster) && steps_left > 0
            invariant
                self.wf(),
                d0 == old(disk)@,
                disk.wf(),
                written <= data@.len(),
                self.chain_written(d0, first, data@) == self.data_written(
                    disk@,
                    cluster,
                    data@.skip(written as int),
                    steps_left as nat,
                ),
            decreases steps_left,
        {
            steps_left -= 1;
            let ghost before = written as int;
            written = self.write_cluster(disk, cluster, data, written)?;
            assert(data@.skip(before).skip(written - before) =~= data@.skip(written as int));
            cluster = self.next_cluster(disk, cluster)?;
        }
        Ok(())
    }

    /// Sector and byte offset at which the directory at cluster `dir_cluster` has the entry
    /// `target` (then with its first cluster), or a free entry for it.
    pub fn locate_or_free_slot(&self, disk: &Disk, dir_cluster: u32, target: &[u8; 11]) -> (r:
        Result<Slot, FatError>)
        requires
            self.wf(),
            disk.wf(),
        ensures
            r == self.slot_for(disk@, dir_cluster, target@),
            r matches Ok(slot) ==> slot.1 + DIR_ENTRY_SIZE <= SECTOR_SIZE,
    {
        proof {
            self.lemma_scan_dir_indices(disk@, dir_cluster, target@);
        }
        let (hit, free) = self.search_dir(disk, dir_cluster, target)?;
        match hit {
            DirHit::Found { sector, index, entry } => {
                Ok((sector, 32 * index, Some(entry.first_cluster)))
            },
            DirHit::End { sector, index } => {
                match free {
                    Some((sector, index)) => Ok((sector, 32 * index, None)),
                    None => Ok((sector, 32 * index, None)),
                }
            },
            DirHit::Exhausted => {
                match free {
                    Some((sector, index)) => Ok((sector, 32 * index, None)),
                    None => Err(FatError::DirFull),
                }
            },
        }
    }

    /// Overwrites the directory entry at `(sector, offset)`; the other entries of the sector are
    /// kept.
    pub fn write_dir_entry(
        &self,
        disk: &mut Disk,
        sector: u32,
        offset: usize,
        name: &[u8; 11],
        attr: u8,
        first_cluster: u32,
        size: u32,
    ) -> (r: Result<(), FatError>)
        requires
            old(disk).wf(),
            offset + DIR_ENTRY_SIZE <= SECTOR_SIZE,
        ensures
            final(disk).wf(),
            (final(disk)@, r) == Self::dir_entry_written(
                old(disk)@,
                sector,
                offset as int,
                fat::entry_bytes(name@, attr, first_cluster, size),
            ),
    {
        let mut buf = [0u8; SECTOR_SIZE];
        fetch(disk, sector, &mut buf)?;
        let entry = make_dir_entry(name, attr, first_cluster, size);
        util::copy_into(&mut buf, offset, &entry);
        store(disk, sector, &buf)?;
        Ok(())
    }

    /// Takes a chain for `data` and fills it; a chain that cannot be filled is freed again.
    fn store_content(&self, disk: &mut Disk, data: &[u8]) -> (r: Result<u32, FatError>)
        requires
            self.wf(),
            old(disk).wf(),
        ensures
            final(disk).wf(),
            (final(disk)@, r) == self.content_stored(old(disk)@, data@),
    {
        if data.len() == 0 {
            return Ok(0);
        }
        let cluster_bytes = self.sectors_per_cluster as usize * SECTOR_SIZE;
        let whole = data.len() / cluster_bytes;
        proof {
            vstd::arithmetic::div_mod::lemma_div_decreases(
                data@.len() as int,
                cluster_bytes as int,
            );
        }
        let n = if data.len() % cluster_bytes == 0 { whole } else { whole + 1 };
        proof {
            lemma_clusters_for(data@.len(), cluster_bytes as nat);
        }
        let first = self.alloc_chain(disk, n as u32)?;
        if let Err(e) = self.write_chain(disk, first, data) {
            let _ = self.free_chain(disk, first);
            return Err(e);
        }
        Ok(first)
    }

    /// Gives the directory at cluster `dir_cluster` an entry for a file that holds `data`. The
    /// new contents are built first, a single entry write then switches over to them, and only
    /// after that the old contents are freed.
    pub fn put_file(&self, disk: &mut Disk, dir_cluster: u32, target: &[u8; 11], data: &[u8]) -> (r:
        Result<(), FatError>)
        requires
            self.wf(),
            old(disk).wf(),
        ensures
            final(disk).wf(),
            (final(disk)@, r) == self.file_put(old(disk)@, dir_cluster, target@, data@),
    {
        let (slot_sector, slot_offset, old_first) = self.locate_or_free_slot(
            disk,
            dir_cluster,
            target,
        )?;
        let new_first = self.store_content(disk, data)?;
        if let Err(e) = self.write_dir_entry(
            disk,
            slot_sector,
            slot_offset,
            target,
            ATTR_ARCHIVE,
            new_first,
            data.len() as u32,
        ) {
            if new_first != 0 {
                let _ = self.free_chain(disk, new_first);
            }
            return Err(e);
        }
        if let Some(first) = old_first {
            let _ = self.free_chain(disk, first);
        }
        Ok(())
    }

    /// Writes `data` to the file at the byte-string path `path`.
    pub fn write_path(&self, disk: &mut Disk, path: &[u8], data: &[u8]) -> (r: Result<(), FatError>)
        requires
            self.wf(),
            old(disk).wf(),
        ensures
            final(disk).wf(),
            (final(disk)@, r) == self.file_written(old(disk)@, path@, data@),
    {
        let (dir_cluster, name) = self.resolve_parent(disk, path)?;
        let target = short_name_83(name.as_slice());
        self.put_file(disk, dir_cluster, &target, data)
    }

    /// Creates the file at `path`, or overwrites it, with the contents `data`. The directory in
    /// which it stands must exist. Where it fails no cluster is lost, unless the device then refuses
    /// a write that frees one.
    pub fn write_file(&self, disk: &mut Disk, path: &str, data: &[u8]) -> (r: Result<(), FatError>)
        requires
            self.wf(),
            old(disk).wf(),
        ensures
            final(disk).wf(),
            (final(disk)@, r) == self.file_written(old(disk)@, path.spec_bytes(), data@),
            self.sound() ==> (r matches Err(e) ==> self.recovers(old(disk)@, e)
                ==> self.free_clusters(final(disk)@) == self.free_clusters(old(disk)@)),
    {
        proof {
            if self.sound() {
                fat_laws::law_failed_write_leaks_nothing(*self, disk@, path.spec_bytes(), data@);
            }
        }
        self.write_path(disk, path.as_bytes(), data)
    }

    /// Makes `cluster` an empty directory in the directory at cluster `parent`.
    pub fn init_dir_cluster(&self, disk: &mut Disk, cluster: u32, parent: u32) -> (r: Result<
        (),
        FatError,
    >)
        requires
            self.wf(),
            old(disk).wf(),
            self.valid(cluster),
        ensures
            final(disk).wf(),
            (final(disk)@, r) == self.dir_cluster_made(old(disk)@, cluster, parent),
    {
        let ghost d0 = disk@;
        let first_sec = self.first_sector_of_cluster(cluster);
        let dot: [u8; 11] = [0x2E, 0x20, 0x20, 0x20, 0x20, 0x20, 0x20, 0x20, 0x20, 0x20, 0x20];
        let dotdot: [u8; 11] = [0x2E, 0x2E, 0x20, 0x20, 0x20, 0x20, 0x20, 0x20, 0x20, 0x20, 0x20];
        let up: u32 = if parent == self.root_cluster { 0 } else { parent };
        let mut buf = [0u8; SECTOR_SIZE];
        assert(dot@ =~= dot_name());
        assert(dotdot@ =~= dotdot_name());
        assert(buf@ =~= zero_sector());
        let self_entry = make_dir_entry(&dot, ATTR_DIRECTORY, cluster, 0);
        util::copy_into(&mut buf, 0, &self_entry);
        let up_entry = make_dir_entry(&dotdot, ATTR_DIRECTORY, up, 0);
        util::copy_into(&mut buf, DIR_ENTRY_SIZE, &up_entry);
        store(disk, first_sec, &buf)?;
        let zero = [0u8; SECTOR_SIZE];
        assert(zero@ =~= zero_sector());
        let mut s: u32 = 1;
        while s < self.sectors_per_cluster
            invariant
                self.wf(),
                d0 == old(disk)@,
                disk.wf(),
                self.valid(cluster),
                1 <= s <= self.sectors_per_cluster,
                first_sec == self.sector_of(cluster, 0),
                zero@ == zero_sector(),
                self.dir_cluster_made(d0, cluster, parent) == self.cluster_zeroed(
                    disk@,
                    cluster,
                    s as int,
                ),
            decreases self.sectors_per_cluster - s,
        {
            proof {
                self.lemma_sector_bound(cluster, s as int);
            }
            store(disk, first_sec + s, &zero)?;
            s += 1;
        }
        Ok(())
    }

    /// Gives the directory at cluster `parent_cluster` a new empty directory.
    pub fn put_dir(&self, disk: &mut Disk, parent_cluster: u32, target: &[u8; 11]) -> (r: Result<
        (),
        FatError,
    >)
        requires
            self.wf(),
            old(disk).wf(),
        ensures
            final(disk).wf(),
            (final(disk)@, r) == self.dir_put(old(disk)@, parent_cluster, target@),
    {
        let (slot_sector, slot_offset, existing) = self.locate_or_free_slot(
            disk,
            parent_cluster,
            target,
        )?;
        if existing.is_some() {
            return Err(FatError::AlreadyExists);
        }
        let new_cluster = self.alloc_cluster(disk)?;
        if let Err(e) = self.init_dir_cluster(disk, new_cluster, parent_cluster) {
            let _ = self.free_chain(disk, new_cluster);
            return Err(e);
        }
        if let Err(e) = self.write_dir_entry(
            disk,
            slot_sector,
            slot_offset,
            target,
            ATTR_DIRECTORY,
            new_cluster,
            0,
        ) {
            let _ = self.free_chain(disk, new_cluster);
            return Err(e);
        }
        Ok(())
    }

    /// Makes a directory at the byte-string path `path`.
    pub fn mkdir_path(&self, disk: &mut Disk, path: &[u8]) -> (r: Result<(), FatError>)
        requires
            self.wf(),
            old(disk).wf(),
        ensures
            final(disk).wf(),
            (final(disk)@, r) == self.dir_made(old(disk)@, path@),
    {
        let (parent_cluster, name) = self.resolve_parent(disk, path)?;
        let target = short_name_83(name.as_slice());
        self.put_dir(disk, parent_cluster, &target)
    }

    /// Makes a directory at `path`. The directory in which it stands must exist; a name that is
    /// taken already is refused. Where it fails no cluster is lost, unless the device then refuses
    /// a write that frees one.
    pub fn mkdir(&self, disk: &mut Disk, path: &str) -> (r: Result<(), FatError>)
        requires
            self.wf(),
            old(disk).wf(),
        ensures
            final(disk).wf(),
            (final(disk)@, r) == self.dir_made(old(disk)@, path.spec_bytes()),
            self.sound() ==> (r matches Err(e) ==> self.recovers(old(disk)@, e)
                ==> self.free_clusters(final(disk)@) == self.free_clusters(old(disk)@)),
    {
        proof {
            if self.sound() {
                let none = Seq::<u8>::empty();
                fat_laws::law_failed_write_leaks_nothing(*self, disk@, path.spec_bytes(), none);
            }
        }
        self.mkdir_path(disk, path.as_bytes())
    }
}

/// Division rounded up.
proof fn lemma_clusters_for(len: nat, cluster_bytes: nat)
    requires
        cluster_bytes > 0,
        len > 0,
    ensures
        clusters_for(len, cluster_bytes) == len / cluster_bytes + (if len % cluster_bytes == 0 {
            0int
        } else {
            1int
        }),
{
    let q = (len / cluster_bytes) as int;
    let r = len % cluster_bytes;
    let b = cluster_bytes as int;
    vstd::arithmetic::div_mod::lemma_fundamental_div_mod(len as int, b);
    let x = len + b - 1;
    if r == 0 {
        vstd::arithmetic::div_mod::lemma_fundamental_div_mod_converse(x, b, q, b - 1);
    } else {
        assert(b * (q + 1) == b * q + b) by (nonlinear_arith);
        vstd::arithmetic::div_mod::lemma_fundamental_div_mod_converse(x, b, q + 1, r - 1);
    }
}

} // verus!
