//! What holds of a FAT32 volume as a whole: a file that was written reads back, one that was
//! removed is gone, a write that fails leaves every file as it was, other files are untouched, and
//! no file is lost after any single sector of a write, whatever the device answers.

use crate::drivers::virtio_blk::{self, DiskView};
use crate::drivers::write_back;
use crate::fs::fat::{
    self, DirEntry, DirHit, Fat32, FatError, ATTR_ARCHIVE, ATTR_DIRECTORY, FAT32_ENTRY_MASK,
    FAT32_EOC, FIRST_DATA_CLUSTER, SLOT_DELETED,
};
use crate::fs::fat_write;
use crate::fs::path;
use crate::util;
use vstd::prelude::*;

verus! {

/// Two disks that answer alike; only the bytes of their sectors may differ.
pub open spec fn same_shape(d: DiskView, d2: DiskView) -> bool {
    &&& d2.online == d.online
    &&& d2.rstat == d.rstat
    &&& d2.wstat == d.wstat
    &&& d2.data.len() == d.data.len()
}

/// Every sector can be read.
pub open spec fn readable(d: DiskView) -> bool {
    forall|i: int| 0 <= i < d.rstat.len() ==> d.rstat[i] == 0
}

/// The bits of a merged FAT entry.
proof fn lemma_merged(before: u32, value: u32)
    ensures
        fat_write::merged(before, value) & FAT32_ENTRY_MASK == value & FAT32_ENTRY_MASK,
{
    assert(((before & !0x0FFF_FFFFu32) | (value & 0x0FFF_FFFFu32)) & 0x0FFF_FFFFu32 == value
        & 0x0FFF_FFFFu32) by (bit_vector);
}

impl Fat32 {
    /// The volume is laid out as FAT32 prescribes: the FATs end before the data area, each has an
    /// entry for every cluster, and the end mark is not the number of a cluster.
    pub open spec fn sound(self) -> bool {
        &&& self.wf()
        &&& self.fat_start_sector + self.num_fats * self.fat_size <= self.data_start_sector
        &&& (self.cluster_count + 1) / 128 < self.fat_size
        &&& self.cluster_count <= 0x0FFF_FFFD
    }

    /// Whether sector `i` belongs to a copy of the FAT.
    pub open spec fn in_fat(self, i: int) -> bool {
        self.fat_start_sector <= i < self.fat_start_sector + self.num_fats * self.fat_size
    }

    /// Two disks that differ at most in the FATs.
    pub open spec fn same_but_fat(self, d: DiskView, d2: DiskView) -> bool {
        &&& same_shape(d, d2)
        &&& forall|i: int|
            0 <= i < d.data.len() && !self.in_fat(i) ==> #[trigger] d2.data[i] == d.data[i]
    }

    /// The FAT sector of a cluster lies in its copy of the FAT.
    proof fn lemma_fat_sector_in(self, copy: int, c: u32)
        requires
            self.sound(),
            self.valid(c),
            0 <= copy < self.num_fats,
        ensures
            self.in_fat(self.fat_sector(copy, c)),
            copy > 0 ==> self.fat_sector(copy, c) >= self.fat_start_sector + self.fat_size,
            0 <= c / 128 < self.fat_size,
            self.fat_sector(0, c) == self.fat_start_sector + c / 128,
    {
        let n = self.num_fats as int;
        let size = self.fat_size as int;
        assert(0 <= copy * size && copy * size + size <= n * size) by (nonlinear_arith)
            requires
                0 <= copy < n,
                size >= 0,
        ;
        if copy > 0 {
            assert(copy * size >= size) by (nonlinear_arith)
                requires
                    copy >= 1,
                    size >= 0,
            ;
        }
    }

    /// `d2` came about from `d` by a change of the entry of cluster `c` in copies of the FAT.
    pub open spec fn entry_changed(self, d: DiskView, d2: DiskView, c: u32) -> bool {
        &&& d2.wf()
        &&& self.same_but_fat(d, d2)
        &&& forall|x: u32|
            self.valid(x) && x != c ==> #[trigger] self.next(d2, x) == self.next(d, x)
    }

    /// Setting an entry in one copy of the FAT touches that entry only.
    proof fn lemma_copy_set(self, d: DiskView, c: u32, v: u32, copy: int)
        requires
            self.sound(),
            d.wf(),
            self.valid(c),
            0 <= copy < self.num_fats,
            self.copy_set(d, c, v, copy).1 is Ok,
        ensures
            ({
                let d1 = self.copy_set(d, c, v, copy).0;
                &&& self.entry_changed(d, d1, c)
                &&& copy > 0 ==> self.next(d1, c) == self.next(d, c)
                &&& copy == 0 ==> self.next(d1, c) == Ok::<u32, FatError>(v & FAT32_ENTRY_MASK)
            }),
    {
        let sector = self.fat_sector(copy, c);
        self.lemma_fat_sector_in(copy, c);
        self.lemma_fat_sector_in(0, c);
        let buf = fat::fetched(d, sector)->Ok_0;
        let off = Self::fat_offset(c);
        let entry = fat_write::merged(util::le32(buf, off), v);
        lemma_merged(util::le32(buf, off), v);
        util::lemma_le32_enc32(entry);
        let buf2 = util::splice(buf, off, util::enc32(entry));
        let d1 = self.copy_set(d, c, v, copy).0;
        assert(buf.len() == 512);
        assert(d1.data =~= d.data.update(sector, buf2));
        assert(d1.wf());
        assert(util::le32(buf2, off) == entry) by {
            assert(buf2[off] == util::enc32(entry)[0]);
            assert(buf2[off + 1] == util::enc32(entry)[1]);
            assert(buf2[off + 2] == util::enc32(entry)[2]);
            assert(buf2[off + 3] == util::enc32(entry)[3]);
        }
        assert forall|x: u32| self.valid(x) && x != c implies #[trigger] self.next(d1, x)
            == self.next(d, x) by {
            self.lemma_fat_sector_in(0, x);
            if self.fat_sector(0, x) == sector {
                let o = Self::fat_offset(x);
                assert(copy == 0);
                assert(o + 4 <= off || off + 4 <= o);
                assert(util::le32(buf2, o) == util::le32(buf, o));
            }
        }
    }

    /// A disk without faults that holds the whole volume, but for the answers that are known.
    pub open spec fn healthy(self, d: DiskView) -> bool {
        &&& d.wf()
        &&& d.online
        &&& readable(d)
        &&& forall|i: int| 0 <= i < d.wstat.len() ==> d.wstat[i] == 0
        &&& d.data.len() >= self.data_start_sector + self.cluster_count * self.sectors_per_cluster
    }

    /// The device answers each write by the status of its sector, or accepts every one.
    pub open spec fn calm(self, d: DiskView) -> bool {
        d.by_sector() || (self.healthy(d) && forall|i: int|
            d.used <= i < d.answers.len() ==> d.answers[i] == 0)
    }

    /// The device is calm, or has no other fault than that it refuses the last of the writes whose
    /// answers are known.
    pub open spec fn fair(self, d: DiskView) -> bool {
        self.calm(d) || (self.healthy(d) && forall|i: int|
            d.used <= i < d.answers.len() - 1 ==> d.answers[i] == 0)
    }

    /// Once the error `e` has come up the device accepts what it has accepted before: it is calm,
    /// or the error is the one write that it refuses.
    pub open spec fn recovers(self, d: DiskView, e: FatError) -> bool {
        self.calm(d) || (self.fair(d) && e is Block)
    }

    /// How a write leaves the answers.
    proof fn lemma_stored_calm(self, d: DiskView, lba: int, bytes: Seq<u8>)
        requires
            d.wf(),
            0 <= lba,
            bytes.len() == 512,
        ensures
            ({
                let (d2, r) = fat::stored(d, lba, bytes);
                &&& d2.wf()
                &&& same_shape(d, d2)
                &&& self.calm(d) ==> self.calm(d2)
                &&& self.fair(d) && r is Ok ==> self.fair(d2)
                &&& self.fair(d) && r is Err && lba < d.data.len() ==> self.calm(d2)
                &&& self.fair(d) && r is Ok ==> d.wstat[lba] == 0
                &&& self.calm(d) && d.online && lba < d.data.len() && d.wstat[lba] == 0 ==> r is Ok
            }),
    {
        let (d2, r) = fat::stored(d, lba, bytes);
        if r is Ok {
            assert(d2.data =~= d.data.update(lba, bytes));
        }
        assert(d2.wf());
        if self.healthy(d) {
            assert(self.healthy(d2));
        }
    }

    /// A copy that was set and is put back holds what it held.
    proof fn lemma_copy_restored(self, d: DiskView, c: u32, v: u32, copy: int, d3: DiskView)
        requires
            d.wf(),
            d3.wf(),
            0 <= self.fat_sector(copy, c),
            self.fair(d),
            self.calm(d3),
            self.copy_set(d, c, v, copy).1 is Ok,
            self.copy_set(d, c, v, copy).0.alike(d3),
        ensures
            ({
                let sector = self.fat_sector(copy, c);
                let r = fat::stored(d3, sector, fat::fetched(d, sector)->Ok_0);
                r.1 is Ok && d.alike(r.0) && self.calm(r.0)
            }),
    {
        let sector = self.fat_sector(copy, c);
        let buf = fat::fetched(d, sector)->Ok_0;
        let off = Self::fat_offset(c);
        let entry = fat_write::merged(util::le32(buf, off), v);
        self.lemma_stored_calm(d, sector, util::splice(buf, off, util::enc32(entry)));
        self.lemma_stored_calm(d3, sector, buf);
        let d4 = fat::stored(d3, sector, buf).0;
        assert(d4.data =~= d.data);
    }

    /// Setting an entry touches that entry only; sectors of the copies before `copy` stay.
    pub proof fn lemma_entry_set(self, d: DiskView, c: u32, v: u32, copy: int)
        requires
            self.sound(),
            d.wf(),
            self.valid(c),
            0 <= copy <= self.num_fats,
        ensures
            ({
                let (d2, r) = self.entry_set(d, c, v, copy);
                &&& d2.wf()
                &&& self.same_but_fat(d, d2)
                &&& forall|i: int|
                    0 <= i < self.fat_start_sector + copy * self.fat_size && i < d.data.len()
                        ==> #[trigger] d2.data[i] == d.data[i]
                &&& forall|x: u32|
                    self.valid(x) && x != c ==> #[trigger] self.next(d2, x) == self.next(d, x)
                &&& copy > 0 ==> self.next(d2, c) == self.next(d, c)
                &&& copy == 0 && r is Ok ==> self.next(d2, c) == Ok::<u32, FatError>(
                    v & FAT32_ENTRY_MASK,
                )
                &&& self.next(d2, c) == self.next(d, c) || self.next(d2, c) == Ok::<u32, FatError>(
                    v & FAT32_ENTRY_MASK,
                )
            }),
        decreases self.num_fats - copy,
    {
        if copy < self.num_fats {
            let (d1, w) = self.copy_set(d, c, v, copy);
            self.lemma_fat_sector_in(copy, c);
            self.lemma_copy_order(copy, c);
            if w is Ok {
                self.lemma_copy_set(d, c, v, copy);
                self.lemma_entry_set(d1, c, v, copy + 1);
                let (d3, r) = self.entry_set(d1, c, v, copy + 1);
                if r is Err {
                    self.lemma_copy_put_back(d, c, v, copy, d3);
                } else {
                    assert forall|x: u32| self.valid(x) && x != c implies #[trigger] self.next(d3, x)
                        == self.next(d, x) by {
                        assert(self.next(d1, x) == self.next(d, x));
                    }
                }
            }
        }
    }

    /// Where the sectors of a copy of the FAT stand.
    proof fn lemma_copy_order(self, copy: int, c: u32)
        requires
            self.sound(),
            self.valid(c),
            0 <= copy < self.num_fats,
        ensures
            self.fat_start_sector + copy * self.fat_size <= self.fat_sector(copy, c)
                < self.fat_start_sector + (copy + 1) * self.fat_size,
            copy * self.fat_size <= (copy + 1) * self.fat_size,
    {
        self.lemma_fat_sector_in(copy, c);
        let size = self.fat_size as int;
        assert((copy + 1) * size == copy * size + size) by (nonlinear_arith);
    }

    /// A copy that is put back, or is not, since the device refuses.
    proof fn lemma_copy_put_back(self, d: DiskView, c: u32, v: u32, copy: int, d3: DiskView)
        requires
            self.sound(),
            d.wf(),
            self.valid(c),
            0 <= copy < self.num_fats,
            self.copy_set(d, c, v, copy).1 is Ok,
            ({
                let d1 = self.copy_set(d, c, v, copy).0;
                &&& self.entry_changed(d1, d3, c)
                &&& self.next(d3, c) == self.next(d1, c)
                &&& forall|i: int|
                    0 <= i < self.fat_start_sector + (copy + 1) * self.fat_size && i < d.data.len()
                        ==> #[trigger] d3.data[i] == d1.data[i]
            }),
        ensures
            ({
                let sector = self.fat_sector(copy, c);
                let d4 = fat::stored(d3, sector, fat::fetched(d, sector)->Ok_0).0;
                &&& self.entry_changed(d, d4, c)
                &&& self.entry_changed(d3, d4, c)
                &&& self.next(d4, c) == self.next(d, c) || self.next(d4, c) == self.next(d3, c)
                &&& copy > 0 ==> self.next(d4, c) == self.next(d, c)
                &&& forall|i: int|
                    0 <= i < self.fat_start_sector + copy * self.fat_size && i < d.data.len()
                        ==> #[trigger] d4.data[i] == d.data[i]
            }),
    {
        let sector = self.fat_sector(copy, c);
        let buf = fat::fetched(d, sector)->Ok_0;
        let d1 = self.copy_set(d, c, v, copy).0;
        let (d4, r) = fat::stored(d3, sector, buf);
        self.lemma_copy_set(d, c, v, copy);
        self.lemma_fat_sector_in(copy, c);
        self.lemma_copy_order(copy, c);
        assert(buf.len() == 512);
        assert(d4.wf()) by {
            if r is Ok {
                assert(d4.data =~= d3.data.update(sector, buf));
            }
        }
        assert forall|x: u32| self.valid(x) implies {
            &&& x != c ==> #[trigger] self.next(d4, x) == self.next(d, x)
            &&& x != c ==> self.next(d4, x) == self.next(d3, x)
            &&& x == c ==> self.next(d4, x) == self.next(d, x) || self.next(d4, x) == self.next(d3, x)
            &&& x == c && copy > 0 ==> self.next(d4, x) == self.next(d, x)
        } by {
            self.lemma_fat_sector_in(0, x);
            assert(x != c ==> self.next(d3, x) == self.next(d1, x));
            assert(x != c ==> self.next(d1, x) == self.next(d, x));
            if r is Ok && self.fat_sector(0, x) == sector {
                assert(copy == 0);
                assert(fat::fetched(d4, sector) == Ok::<Seq<u8>, FatError>(buf));
                assert(self.next(d4, x) == self.next(d, x));
            } else {
                assert(self.next(d4, x) == self.next(d3, x));
            }
        }
    }

    /// Where a device is fair, an entry that cannot be set leaves the disk as it was.
    proof fn lemma_entry_set_fair(self, d: DiskView, c: u32, v: u32, copy: int)
        requires
            self.sound(),
            d.wf(),
            self.valid(c),
            0 <= copy <= self.num_fats,
            self.fair(d),
        ensures
            ({
                let (d2, r) = self.entry_set(d, c, v, copy);
                &&& r is Err ==> d.alike(d2) && self.calm(d2) && r->Err_0 is Block
                &&& r is Ok ==> self.fair(d2)
                &&& self.calm(d) ==> self.calm(d2)
            }),
        decreases self.num_fats - copy,
    {
        if copy < self.num_fats {
            let (d1, w) = self.copy_set(d, c, v, copy);
            let sector = self.fat_sector(copy, c);
            self.lemma_fat_sector_in(copy, c);
            assert(self.cluster_count * self.sectors_per_cluster >= 0) by (nonlinear_arith)
                requires
                    self.cluster_count >= 0,
                    self.sectors_per_cluster >= 0,
            ;
            if let Ok(buf) = fat::fetched(d, sector) {
                let off = Self::fat_offset(c);
                let entry = fat_write::merged(util::le32(buf, off), v);
                self.lemma_stored_calm(d, sector, util::splice(buf, off, util::enc32(entry)));
            }
            if w is Ok {
                self.lemma_entry_set_fair(d1, c, v, copy + 1);
                self.lemma_entry_set(d1, c, v, copy + 1);
                let (d3, r) = self.entry_set(d1, c, v, copy + 1);
                if r is Err {
                    self.lemma_copy_restored(d, c, v, copy, d3);
                }
            }
        }
    }

    /// A cluster that two disks hold alike: its sectors and what follows it.
    pub open spec fn cluster_same(self, d: DiskView, d2: DiskView, x: u32) -> bool {
        &&& self.next(d2, x) == self.next(d, x)
        &&& forall|s: int|
            0 <= s < self.sectors_per_cluster ==> #[trigger] fat::fetched(d2, self.sector_of(x, s))
                == fat::fetched(d, self.sector_of(x, s))
    }

    /// Two disks that hold all clusters outside `xs` alike.
    pub open spec fn agree_off(self, d: DiskView, d2: DiskView, xs: Set<u32>) -> bool {
        &&& same_shape(d, d2)
        &&& forall|x: u32|
            self.valid(x) && !xs.contains(x) ==> #[trigger] self.cluster_same(d, d2, x)
    }

    /// A set of clusters that no chain leaves.
    pub open spec fn closed(self, d: DiskView, xs: Set<u32>) -> bool {
        forall|x: u32|
            #![trigger self.next(d, x)]
            xs.contains(x) && self.valid(x) ==> (self.next(d, x) matches Ok(n) ==> self.valid(n)
                ==> xs.contains(n))
    }

    /// The clusters that no chain has taken.
    pub open spec fn free_clusters(self, d: DiskView) -> Set<u32> {
        Set::new(|x: u32| self.valid(x) && self.next(d, x) == Ok::<u32, FatError>(0))
    }

    /// The cluster that is reached from `c` in `k` steps.
    pub open spec fn hop(self, d: DiskView, c: u32, k: nat) -> Option<u32>
        decreases k,
    {
        if k == 0 {
            if self.valid(c) {
                Some(c)
            } else {
                None
            }
        } else {
            match self.hop(d, c, (k - 1) as nat) {
                None => None,
                Some(x) => match self.next(d, x) {
                    Ok(n) => if self.valid(n) {
                        Some(n)
                    } else {
                        None
                    },
                    Err(_) => None,
                },
            }
        }
    }

    /// The clusters of the chain that starts at `c`.
    pub open spec fn chain_of(self, d: DiskView, c: u32) -> Set<u32> {
        Set::new(|x: u32| exists|k: nat| #[trigger] self.hop(d, c, k) == Some(x))
    }

    /// A chain does not leave its clusters.
    proof fn lemma_chain_of(self, d: DiskView, c: u32)
        ensures
            self.closed(d, self.chain_of(d, c)),
            self.valid(c) ==> self.chain_of(d, c).contains(c),
            forall|x: u32| self.chain_of(d, c).contains(x) ==> self.valid(x),
    {
        let xs = self.chain_of(d, c);
        if self.valid(c) {
            assert(self.hop(d, c, 0) == Some(c));
        }
        assert forall|x: u32| xs.contains(x) implies self.valid(x) by {
            let k = choose|k: nat| #[trigger] self.hop(d, c, k) == Some(x);
        }
        assert forall|x: u32|
            #![trigger self.next(d, x)]
            xs.contains(x) && self.valid(x) implies (self.next(d, x) matches Ok(n) ==> self.valid(n)
            ==> xs.contains(n)) by {
            let k = choose|k: nat| #[trigger] self.hop(d, c, k) == Some(x);
            if let Ok(n) = self.next(d, x) {
                if self.valid(n) {
                    assert(self.hop(d, c, k + 1) == Some(n));
                }
            }
        }
    }

    /// Reading along chains that two disks hold alike yields the same.
    proof fn lemma_scan_frame(
        self,
        d: DiskView,
        d2: DiskView,
        xs: Set<u32>,
        c: u32,
        s: int,
        steps: nat,
        target: Seq<u8>,
        free: Option<(u32, usize)>,
    )
        requires
            self.closed(d, xs),
            xs.contains(c),
            self.valid(c),
            0 <= s,
            forall|x: u32|
                xs.contains(x) && self.valid(x) ==> #[trigger] self.cluster_same(d, d2, x),
        ensures
            self.scan(d2, c, s, steps, target, free) == self.scan(d, c, s, steps, target, free),
        decreases steps, self.sectors_per_cluster - s,
    {
        assert(self.cluster_same(d, d2, c));
        if s < self.sectors_per_cluster {
            if let Ok(buf) = fat::fetched(d, self.sector_of(c, s)) {
                let stop = fat::stop_index(buf, target, 0);
                let gone = fat::deleted_index(buf, 0, stop);
                let free2 = if free is None && gone < stop {
                    Some((self.sector_of(c, s) as u32, gone as usize))
                } else {
                    free
                };
                if stop >= 16 {
                    self.lemma_scan_frame(d, d2, xs, c, s + 1, steps, target, free2);
                }
            }
        } else {
            if let Ok(n) = self.next(d, c) {
                if self.valid(n) && steps > 0 {
                    self.lemma_scan_frame(d, d2, xs, n, 0, (steps - 1) as nat, target, free);
                }
            }
        }
    }

    /// A directory whose chain two disks hold alike is searched alike.
    proof fn lemma_dir_frame(self, d: DiskView, d2: DiskView, xs: Set<u32>, dir: u32, target: Seq<u8>)
        requires
            self.agree_off(d, d2, xs),
            self.chain_of(d, dir).disjoint(xs),
        ensures
            self.scan_dir(d2, dir, target) == self.scan_dir(d, dir, target),
    {
        self.lemma_chain_of(d, dir);
        if self.valid(dir) {
            self.lemma_scan_frame(
                d,
                d2,
                self.chain_of(d, dir),
                dir,
                0,
                (self.cluster_count - 1) as nat,
                target,
                None,
            );
        }
    }

    /// A cluster that two disks hold alike reads alike.
    proof fn lemma_cluster_data_frame(self, d: DiskView, d2: DiskView, c: u32, s: int, len: nat)
        requires
            0 <= s,
            self.cluster_same(d, d2, c),
        ensures
            self.cluster_data(d2, c, s, len) == self.cluster_data(d, c, s, len),
        decreases self.sectors_per_cluster - s,
    {
        if s < self.sectors_per_cluster && len > 0 {
            assert(fat::fetched(d2, self.sector_of(c, s)) == fat::fetched(d, self.sector_of(c, s)));
            let take = util::min_nat(len, 512);
            self.lemma_cluster_data_frame(d, d2, c, s + 1, (len - take) as nat);
        }
    }

    /// A chain that two disks hold alike reads alike.
    proof fn lemma_chain_data_frame(self, d: DiskView, d2: DiskView, xs: Set<u32>, c: u32, len: nat)
        requires
            self.wf(),
            self.closed(d, xs),
            self.valid(c) ==> xs.contains(c),
            forall|x: u32|
                xs.contains(x) && self.valid(x) ==> #[trigger] self.cluster_same(d, d2, x),
        ensures
            self.chain_data(d2, c, len) == self.chain_data(d, c, len),
        decreases len,
    {
        if len > 0 && self.valid(c) {
            assert(self.cluster_same(d, d2, c));
            self.lemma_cluster_data_frame(d, d2, c, 0, len);
            if let Ok(n) = self.next(d, c) {
                self.lemma_chain_data_frame(
                    d,
                    d2,
                    xs,
                    n,
                    (len - util::min_nat(len, self.cluster_bytes())) as nat,
                );
            }
        }
    }

    /// The directories that are searched for the components `comps`, from cluster `c` on, keep
    /// clear of `xs`.
    pub open spec fn trail_clear(
        self,
        d: DiskView,
        c: u32,
        comps: Seq<Seq<u8>>,
        xs: Set<u32>,
    ) -> bool
        decreases comps.len(),
    {
        comps.len() > 0 ==> {
            &&& self.chain_of(d, c).disjoint(xs)
            &&& (self.found_in_dir(d, c, comps[0]) matches Ok(Some(entry)) ==> entry.is_dir
                ==> self.trail_clear(d, entry.first_cluster, comps.skip(1), xs))
        }
    }

    /// Everything that a read of `path` looks at keeps clear of the clusters `xs`: the
    /// directories that it passes and the chain of the file.
    pub open spec fn path_clear(self, d: DiskView, path: Seq<u8>, xs: Set<u32>) -> bool {
        &&& self.trail_clear(d, self.root_cluster, path::components(path), xs)
        &&& (self.entry_of(d, path) matches Ok(entry) ==> !entry.is_dir ==> self.chain_of(
            d,
            entry.first_cluster,
        ).disjoint(xs))
    }

    /// A trail that two disks hold alike leads to the same directory.
    proof fn lemma_descend_frame(
        self,
        d: DiskView,
        d2: DiskView,
        xs: Set<u32>,
        c: u32,
        comps: Seq<Seq<u8>>,
    )
        requires
            self.agree_off(d, d2, xs),
            comps.len() > 0,
            self.trail_clear(d, c, comps, xs),
        ensures
            self.descend(d2, c, comps.drop_last()) == self.descend(d, c, comps.drop_last()),
            self.descend(d, c, comps.drop_last()) matches Ok(dir) ==> self.chain_of(
                d,
                dir,
            ).disjoint(xs),
        decreases comps.len(),
    {
        let inner = comps.drop_last();
        if inner.len() > 0 {
            self.lemma_dir_frame(d, d2, xs, c, fat::name_83(comps[0]));
            if let Ok(Some(entry)) = self.found_in_dir(d, c, comps[0]) {
                if entry.is_dir {
                    assert(inner.skip(1) =~= comps.skip(1).drop_last());
                    self.lemma_descend_frame(d, d2, xs, entry.first_cluster, comps.skip(1));
                }
            }
        }
    }

    /// A path that keeps clear of what two disks may hold differently reads alike.
    proof fn lemma_read_frame(self, d: DiskView, d2: DiskView, xs: Set<u32>, path: Seq<u8>)
        requires
            self.wf(),
            self.agree_off(d, d2, xs),
            self.path_clear(d, path, xs),
        ensures
            self.file_read(d2, path) == self.file_read(d, path),
            self.entry_of(d2, path) == self.entry_of(d, path),
    {
        let comps = path::components(path);
        if comps.len() > 0 {
            self.lemma_descend_frame(d, d2, xs, self.root_cluster, comps);
            if let Ok(dir) = self.parent_of(d, path) {
                self.lemma_dir_frame(d, d2, xs, dir, fat::name_83(comps.last()));
                if let Ok(entry) = self.entry_of(d, path) {
                    if !entry.is_dir {
                        self.lemma_chain_of(d, entry.first_cluster);
                        self.lemma_chain_data_frame(
                            d,
                            d2,
                            self.chain_of(d, entry.first_cluster),
                            entry.first_cluster,
                            entry.size as nat,
                        );
                    }
                }
            }
        }
    }

    /// All paths keep clear of no clusters at all.
    proof fn lemma_all_clear(self, d: DiskView, c: u32, comps: Seq<Seq<u8>>)
        ensures
            self.trail_clear(d, c, comps, Set::empty()),
        decreases comps.len(),
    {
        if comps.len() > 0 {
            if let Ok(Some(entry)) = self.found_in_dir(d, c, comps[0]) {
                self.lemma_all_clear(d, entry.first_cluster, comps.skip(1));
            }
        }
    }

    /// Disks that are alike read alike.
    proof fn lemma_read_alike(self, d: DiskView, d2: DiskView, path: Seq<u8>)
        requires
            self.wf(),
            d.alike(d2),
        ensures
            self.file_read(d2, path) == self.file_read(d, path),
            self.entry_of(d2, path) == self.entry_of(d, path),
    {
        self.lemma_all_clear(d, self.root_cluster, path::components(path));
        self.lemma_read_frame(d, d2, Set::empty(), path);
    }

    // -----------------------------------------------------------------------------------------
    // What writes touch
    // -----------------------------------------------------------------------------------------

    /// `d2` holds all clusters outside `xs` as `d` does, and no chain leaves `xs`.
    pub open spec fn kept(self, d: DiskView, xs: Set<u32>, d2: DiskView) -> bool {
        &&& d2.wf()
        &&& self.agree_off(d, d2, xs)
        &&& self.closed(d2, xs)
    }

    /// The writes that made `d2` out of `d1` were all such that the disk was [`Self::kept`], before
    /// the first of them and after each.
    pub open spec fn keeps(self, d: DiskView, xs: Set<u32>, d1: DiskView, d2: DiskView) -> bool
        decreases d2.log.len(),
    {
        &&& self.kept(d, xs, d2)
        &&& if d2.log.len() <= d1.log.len() {
            d2.bare() == d1.bare()
        } else {
            d2.last_logged() && self.keeps(d, xs, d1, d2.undone())
        }
    }

    /// `d2` came about from `d` by writes to clusters that were free in `d`.
    pub open spec fn confined(self, d: DiskView, d2: DiskView) -> bool {
        self.kept(d, self.free_clusters(d), d2)
    }

    /// Writes that follow on writes.
    proof fn lemma_keeps_on(self, d: DiskView, xs: Set<u32>, d1: DiskView, d2: DiskView, d3: DiskView)
        requires
            self.keeps(d, xs, d1, d2),
            self.keeps(d, xs, d2, d3),
        ensures
            self.keeps(d, xs, d1, d3),
        decreases d3.log.len(),
    {
        if d3.log.len() > d2.log.len() {
            self.lemma_keeps_on(d, xs, d1, d2, d3.undone());
            self.lemma_keeps_grows(d, xs, d1, d2);
        } else {
            assert(d3.bare().log == d2.bare().log);
            assert(d3.undone() == d3.bare().undone());
            assert(d2.undone() == d2.bare().undone());
            assert(d3.last_logged() == d3.bare().last_logged());
            assert(d2.last_logged() == d2.bare().last_logged());
        }
    }

    /// No write is taken out of a log, and the first of the disks is kept too.
    proof fn lemma_keeps_grows(self, d: DiskView, xs: Set<u32>, d1: DiskView, d2: DiskView)
        requires
            self.keeps(d, xs, d1, d2),
        ensures
            d1.log.len() <= d2.log.len(),
            d1.wf() ==> self.kept(d, xs, d1),
        decreases d2.log.len(),
    {
        if d2.log.len() > d1.log.len() {
            self.lemma_keeps_grows(d, xs, d1, d2.undone());
        } else {
            assert(d2.bare().log == d1.bare().log);
            self.lemma_kept_alike(d, xs, d2, d2.bare());
            if d1.wf() {
                self.lemma_kept_alike(d, xs, d2.bare(), d1);
            }
        }
    }

    /// One write.
    proof fn lemma_keeps_one(self, d: DiskView, xs: Set<u32>, d1: DiskView, lba: int, bytes: Seq<u8>)
        requires
            0 <= lba,
            self.kept(d, xs, d1),
            self.kept(d, xs, fat::stored(d1, lba, bytes).0),
        ensures
            self.keeps(d, xs, d1, fat::stored(d1, lba, bytes).0),
    {
        let (d2, r) = fat::stored(d1, lba, bytes);
        if r is Ok {
            virtio_blk::lemma_write_undone(d1, lba, bytes);
            self.lemma_kept_alike(d, xs, d1, d1.bare());
            assert(d1.bare().bare() == d1.bare());
            assert(self.keeps(d, xs, d1, d1.bare()));
        }
    }

    /// A write that is refused.
    proof fn lemma_keeps_refused(self, d: DiskView, xs: Set<u32>, d1: DiskView, d2: DiskView)
        requires
            self.kept(d, xs, d1),
            d2.wf(),
            d2.bare() == d1.bare(),
        ensures
            self.keeps(d, xs, d1, d2),
    {
        assert(d2.bare().data == d1.bare().data);
        assert(d1.alike(d2)) by {
            assert(d2.bare().online == d1.bare().online);
            assert(d2.bare().rstat == d1.bare().rstat);
            assert(d2.bare().wstat == d1.bare().wstat);
        }
        assert(d2.bare().log == d1.bare().log);
        self.lemma_kept_alike(d, xs, d1, d2);
    }

    /// The writes are in the log.
    proof fn lemma_keeps_logged(self, d: DiskView, xs: Set<u32>, d1: DiskView, d2: DiskView)
        requires
            self.keeps(d, xs, d1, d2),
            d1.logged(),
        ensures
            d2.logged(),
        decreases d2.log.len(),
    {
        if d2.log.len() > d1.log.len() {
            self.lemma_keeps_logged(d, xs, d1, d2.undone());
        } else {
            assert(d2.bare().data == d1.bare().data);
            virtio_blk::lemma_logged_alike(d1, d1.bare());
            virtio_blk::lemma_logged_alike(d2, d2.bare());
        }
    }

    /// After every one of the writes the disk is kept.
    proof fn lemma_keeps_at(self, d: DiskView, xs: Set<u32>, d1: DiskView, d2: DiskView, k: int)
        requires
            self.keeps(d, xs, d1, d2),
            d1.log.len() <= k,
        ensures
            self.kept(d, xs, d2.at_step(k)),
        decreases d2.log.len(),
    {
        if d2.log.len() > k {
            self.lemma_keeps_at(d, xs, d1, d2.undone(), k);
        } else {
            self.lemma_kept_alike(d, xs, d2, d2.bare());
        }
    }

    /// What the disk was like before the first of the writes.
    proof fn lemma_keeps_from(self, d: DiskView, xs: Set<u32>, d1: DiskView, d2: DiskView, k: int)
        requires
            self.keeps(d, xs, d1, d2),
            0 <= k <= d1.log.len(),
        ensures
            d2.at_step(k) == d1.at_step(k),
        decreases d2.log.len(),
    {
        if d2.log.len() > d1.log.len() {
            self.lemma_keeps_from(d, xs, d1, d2.undone(), k);
        } else {
            assert(d2.bare().log == d1.bare().log);
            assert(d2.undone() == d2.bare().undone());
            assert(d1.undone() == d1.bare().undone());
        }
    }

    /// The sectors of a cluster lie in the data area, those of different clusters apart.
    proof fn lemma_sectors_apart(self, x: u32, s: int, y: u32, t: int)
        requires
            self.sound(),
            self.valid(x),
            self.valid(y),
            0 <= s < self.sectors_per_cluster,
            0 <= t < self.sectors_per_cluster,
        ensures
            self.sector_of(x, s) == self.sector_of(y, t) ==> x == y && s == t,
            !self.in_fat(self.sector_of(x, s)),
            0 <= self.sector_of(x, s) <= u32::MAX,
    {
        self.lemma_sector_bound(x, s);
        self.lemma_sector_bound(y, t);
        let per = self.sectors_per_cluster as int;
        let a = x - FIRST_DATA_CLUSTER;
        let b = y - FIRST_DATA_CLUSTER;
        if a < b {
            assert(a * per + per <= b * per) by (nonlinear_arith)
                requires
                    a + 1 <= b,
                    per >= 0,
            ;
        } else if b < a {
            assert(b * per + per <= a * per) by (nonlinear_arith)
                requires
                    b + 1 <= a,
                    per >= 0,
            ;
        }
    }

    /// A change outside the FATs leaves what they say.
    proof fn lemma_next_same(self, d: DiskView, d2: DiskView, x: u32)
        requires
            self.sound(),
            self.valid(x),
            same_shape(d, d2),
            forall|i: int| 0 <= i < d.data.len() && self.in_fat(i) ==> d2.data[i] == d.data[i],
        ensures
            self.next(d2, x) == self.next(d, x),
    {
        self.lemma_fat_sector_in(0, x);
    }

    /// A change of the FATs leaves the sectors of clusters.
    proof fn lemma_sectors_same(self, d: DiskView, d2: DiskView, x: u32)
        requires
            self.sound(),
            self.valid(x),
            self.same_but_fat(d, d2),
        ensures
            forall|s: int|
                0 <= s < self.sectors_per_cluster ==> #[trigger] fat::fetched(d2, self.sector_of(x, s))
                    == fat::fetched(d, self.sector_of(x, s)),
    {
        assert forall|s: int| 0 <= s < self.sectors_per_cluster implies #[trigger] fat::fetched(
            d2,
            self.sector_of(x, s),
        ) == fat::fetched(d, self.sector_of(x, s)) by {
            self.lemma_sectors_apart(x, s, x, s);
        }
    }

    /// A disk is confined to itself.
    proof fn lemma_confined_refl(self, d: DiskView)
        requires
            d.wf(),
        ensures
            self.confined(d, d),
    {
    }

    /// A cluster that is free now was free at the start.
    proof fn lemma_free_was_free(self, d: DiskView, d1: DiskView, c: u32)
        requires
            self.confined(d, d1),
            self.valid(c),
            self.next(d1, c) == Ok::<u32, FatError>(0),
        ensures
            self.free_clusters(d).contains(c),
    {
        if !self.free_clusters(d).contains(c) {
            assert(self.cluster_same(d, d1, c));
        }
    }

    /// A change of the entry of a cluster of `xs`, to an end mark or to such a cluster, keeps a
    /// disk.
    proof fn lemma_kept_entry(
        self,
        d: DiskView,
        xs: Set<u32>,
        d1: DiskView,
        d2: DiskView,
        c: u32,
        v: u32,
    )
        requires
            self.sound(),
            self.kept(d, xs, d1),
            xs.contains(c),
            self.valid(v & FAT32_ENTRY_MASK) ==> xs.contains(v & FAT32_ENTRY_MASK),
            self.entry_changed(d1, d2, c),
            self.next(d2, c) == self.next(d1, c) || self.next(d2, c) == Ok::<u32, FatError>(
                v & FAT32_ENTRY_MASK,
            ),
        ensures
            self.kept(d, xs, d2),
    {
        assert forall|x: u32| self.valid(x) && !xs.contains(x) implies #[trigger] self.cluster_same(
            d,
            d2,
            x,
        ) by {
            assert(self.cluster_same(d, d1, x));
            self.lemma_sectors_same(d1, d2, x);
            assert(self.next(d2, x) == self.next(d1, x));
        }
        assert forall|x: u32|
            #![trigger self.next(d2, x)]
            xs.contains(x) && self.valid(x) implies (self.next(d2, x) matches Ok(n) ==> self.valid(n)
            ==> xs.contains(n)) by {
            if x != c {
                assert(self.next(d2, x) == self.next(d1, x));
            } else {
                let old_next = self.next(d1, c);
            }
        }
    }

    /// A disk that is alike one that is kept is kept.
    proof fn lemma_kept_alike(self, d: DiskView, xs: Set<u32>, d1: DiskView, d2: DiskView)
        requires
            self.kept(d, xs, d1),
            d1.alike(d2),
            d2.wf(),
        ensures
            self.kept(d, xs, d2),
    {
        assert forall|x: u32| self.valid(x) && !xs.contains(x) implies #[trigger] self.cluster_same(
            d,
            d2,
            x,
        ) by {
            assert(self.cluster_same(d, d1, x));
            assert forall|t: int| 0 <= t < self.sectors_per_cluster implies #[trigger] fat::fetched(
                d2,
                self.sector_of(x, t),
            ) == fat::fetched(d, self.sector_of(x, t)) by {
                let there = fat::fetched(d1, self.sector_of(x, t));
            }
        }
        assert forall|x: u32|
            #![trigger self.next(d2, x)]
            xs.contains(x) && self.valid(x) implies (self.next(d2, x) matches Ok(n) ==> self.valid(n)
            ==> xs.contains(n)) by {
            let there = self.next(d1, x);
        }
    }

    /// Setting the entry of a cluster of `xs`, to an end mark or to such a cluster, keeps a disk at
    /// every step.
    proof fn lemma_keeps_entry_set(
        self,
        d: DiskView,
        xs: Set<u32>,
        d1: DiskView,
        c: u32,
        v: u32,
        copy: int,
    )
        requires
            self.sound(),
            self.kept(d, xs, d1),
            self.valid(c),
            xs.contains(c),
            self.valid(v & FAT32_ENTRY_MASK) ==> xs.contains(v & FAT32_ENTRY_MASK),
            0 <= copy <= self.num_fats,
        ensures
            self.keeps(d, xs, d1, self.entry_set(d1, c, v, copy).0),
        decreases self.num_fats - copy,
    {
        if copy < self.num_fats {
            let (d2, w) = self.copy_set(d1, c, v, copy);
            self.lemma_fat_sector_in(copy, c);
            if w is Ok {
                let sector = self.fat_sector(copy, c);
                let buf = fat::fetched(d1, sector)->Ok_0;
                self.lemma_copy_set(d1, c, v, copy);
                self.lemma_kept_entry(d, xs, d1, d2, c, v);
                let off = Self::fat_offset(c);
                let entry = fat_write::merged(util::le32(buf, off), v);
                self.lemma_keeps_one(
                    d,
                    xs,
                    d1,
                    sector,
                    util::splice(buf, off, util::enc32(entry)),
                );
                self.lemma_keeps_entry_set(d, xs, d2, c, v, copy + 1);
                let (d3, r) = self.entry_set(d2, c, v, copy + 1);
                self.lemma_keeps_on(d, xs, d1, d2, d3);
                if r is Err {
                    self.lemma_entry_set(d2, c, v, copy + 1);
                    self.lemma_copy_put_back(d1, c, v, copy, d3);
                    let d4 = fat::stored(d3, sector, buf).0;
                    self.lemma_kept_entry(d, xs, d1, d4, c, v);
                    self.lemma_keeps_one(d, xs, d3, sector, buf);
                    self.lemma_keeps_on(d, xs, d1, d3, d4);
                }
            } else {
                self.lemma_keeps_refused(d, xs, d1, d2);
            }
        }
    }

    /// Overwriting a sector of a cluster of `xs` keeps a disk.
    proof fn lemma_keeps_store(
        self,
        d: DiskView,
        xs: Set<u32>,
        d1: DiskView,
        c: u32,
        s: int,
        bytes: Seq<u8>,
    )
        requires
            self.sound(),
            self.kept(d, xs, d1),
            self.valid(c),
            xs.contains(c),
            0 <= s < self.sectors_per_cluster,
            bytes.len() == 512,
        ensures
            self.keeps(d, xs, d1, fat::stored(d1, self.sector_of(c, s), bytes).0),
    {
        let sector = self.sector_of(c, s);
        let (d2, r) = fat::stored(d1, sector, bytes);
        self.lemma_sectors_apart(c, s, c, s);
        if r is Ok {
            assert(d2.data =~= d1.data.update(sector, bytes));
            assert forall|x: u32|
                self.valid(x) && !xs.contains(x) implies #[trigger] self.cluster_same(d, d2, x) by {
                assert(self.cluster_same(d, d1, x));
                self.lemma_next_same(d1, d2, x);
                assert forall|t: int| 0 <= t < self.sectors_per_cluster implies #[trigger] fat::fetched(
                    d2,
                    self.sector_of(x, t),
                ) == fat::fetched(d, self.sector_of(x, t)) by {
                    self.lemma_sectors_apart(c, s, x, t);
                    assert(fat::fetched(d1, self.sector_of(x, t)) == fat::fetched(d, self.sector_of(x, t)));
                }
            }
            assert forall|x: u32|
                #![trigger self.next(d2, x)]
                xs.contains(x) && self.valid(x) implies (self.next(d2, x) matches Ok(n)
                ==> self.valid(n) ==> xs.contains(n)) by {
                self.lemma_next_same(d1, d2, x);
                let before = self.next(d1, x);
            }
        }
        if r is Err {
            self.lemma_kept_alike(d, xs, d1, d2);
        }
        self.lemma_keeps_one(d, xs, d1, sector, bytes);
    }

    /// Neither the end mark nor 0 is the number of a cluster.
    proof fn lemma_marks_invalid(self)
        requires
            self.sound(),
        ensures
            !self.valid(FAT32_EOC & FAT32_ENTRY_MASK),
            !self.valid(0u32 & FAT32_ENTRY_MASK),
            FAT32_EOC & FAT32_ENTRY_MASK == FAT32_EOC,
            0u32 & FAT32_ENTRY_MASK == 0,
    {
        assert(0x0FFF_FFFFu32 & 0x0FFF_FFFFu32 == 0x0FFF_FFFFu32) by (bit_vector);
        assert(0u32 & 0x0FFF_FFFFu32 == 0u32) by (bit_vector);
    }

    /// Cluster numbers fit the significant bits of an entry.
    proof fn lemma_valid_masked(self, c: u32)
        requires
            self.sound(),
            self.valid(c),
        ensures
            c & FAT32_ENTRY_MASK == c,
    {
        assert(c <= 0x0FFF_FFFF ==> c & 0x0FFF_FFFFu32 == c) by (bit_vector);
    }

    /// The first free cluster is free, and those before it are not.
    proof fn lemma_first_free(self, d: DiskView, c: int)
        requires
            self.sound(),
            FIRST_DATA_CLUSTER <= c,
        ensures
            self.first_free(d, c) matches Ok(f) ==> {
                &&& self.valid(f)
                &&& c <= f
                &&& self.next(d, f) == Ok::<u32, FatError>(0)
                &&& forall|x: u32|
                    c <= x < f ==> #[trigger] self.next(d, x) is Ok && self.next(d, x) != Ok::<
                        u32,
                        FatError,
                    >(0)
            },
        decreases FIRST_DATA_CLUSTER + self.cluster_count - c,
    {
        if c < FIRST_DATA_CLUSTER + self.cluster_count {
            if let Ok(v) = self.next(d, c as u32) {
                if v != 0 {
                    self.lemma_first_free(d, c + 1);
                    if let Ok(f) = self.first_free(d, c) {
                        assert forall|x: u32| c <= x < f implies #[trigger] self.next(d, x) is Ok
                            && self.next(d, x) != Ok::<u32, FatError>(0) by {
                            if x == c {
                                assert(x == c as u32);
                            }
                        }
                    }
                }
            }
        }
    }

    /// Taking a cluster stays confined, and the cluster was free.
    proof fn lemma_confined_taken(self, d: DiskView, d1: DiskView)
        requires
            self.sound(),
            self.confined(d, d1),
        ensures
            ({
                let (d2, r) = self.cluster_taken(d1);
                &&& self.keeps(d, self.free_clusters(d), d1, d2)
                &&& r matches Ok(c) ==> self.free_clusters(d).contains(c)
            }),
    {
        self.lemma_first_free(d1, FIRST_DATA_CLUSTER as int);
        self.lemma_marks_invalid();
        if let Ok(c) = self.first_free(d1, FIRST_DATA_CLUSTER as int) {
            self.lemma_free_was_free(d, d1, c);
            self.lemma_keeps_entry_set(d, self.free_clusters(d), d1, c, FAT32_EOC, 0);
        }
    }

    /// Freeing a chain of clusters of `xs` keeps a disk.
    proof fn lemma_keeps_freed(self, d: DiskView, xs: Set<u32>, d1: DiskView, c: u32, steps: nat)
        requires
            self.sound(),
            self.kept(d, xs, d1),
            self.valid(c) ==> xs.contains(c),
        ensures
            self.keeps(d, xs, d1, self.freed(d1, c, steps).0),
        decreases steps,
    {
        if self.valid(c) && steps > 0 {
            if let Ok(n) = self.next(d1, c) {
                self.lemma_marks_invalid();
                self.lemma_keeps_entry_set(d, xs, d1, c, 0, 0);
                let (d2, r) = self.entry_set(d1, c, 0, 0);
                if r is Ok {
                    self.lemma_keeps_freed(d, xs, d2, n, (steps - 1) as nat);
                    self.lemma_keeps_on(d, xs, d1, d2, self.freed(d2, n, (steps - 1) as nat).0);
                }
            }
        }
    }

    /// Building a chain stays confined.
    proof fn lemma_confined_grown(self, d: DiskView, d1: DiskView, n: nat, first: u32, prev: u32)
        requires
            self.sound(),
            self.confined(d, d1),
            first != 0 ==> self.free_clusters(d).contains(first) && self.free_clusters(d).contains(
                prev,
            ),
        ensures
            ({
                let (d2, r) = self.chain_grown(d1, n, first, prev);
                &&& self.keeps(d, self.free_clusters(d), d1, d2)
                &&& r matches Ok(f) ==> f != 0 ==> self.free_clusters(d).contains(f)
            }),
        decreases n,
    {
        if n > 0 {
            let xs = self.free_clusters(d);
            let last = self.chain_grown(d1, n, first, prev).0;
            let all = self.cluster_count as nat;
            self.lemma_confined_taken(d, d1);
            let (d2, r) = self.cluster_taken(d1);
            match r {
                Err(_) => {
                    if first != 0 {
                        self.lemma_keeps_freed(d, xs, d2, first, all);
                        self.lemma_keeps_on(d, xs, d1, d2, last);
                    }
                },
                Ok(c) => {
                    if first == 0 {
                        self.lemma_confined_grown(d, d2, (n - 1) as nat, c, c);
                    } else {
                        self.lemma_valid_masked(c);
                        self.lemma_keeps_entry_set(d, xs, d2, prev, c, 0);
                        let (d3, w) = self.entry_set(d2, prev, c, 0);
                        self.lemma_keeps_on(d, xs, d1, d2, d3);
                        if w is Ok {
                            self.lemma_confined_grown(d, d3, (n - 1) as nat, first, c);
                            self.lemma_keeps_on(d, xs, d1, d3, last);
                        } else {
                            let d4 = self.chain_freed(d3, c).0;
                            self.lemma_keeps_freed(d, xs, d3, c, all);
                            self.lemma_keeps_on(d, xs, d1, d3, d4);
                            self.lemma_keeps_freed(d, xs, d4, first, all);
                            self.lemma_keeps_on(d, xs, d1, d4, last);
                        }
                    }
                    if first == 0 {
                        self.lemma_keeps_on(d, xs, d1, d2, last);
                    }
                },
            }
        }
    }

    /// Filling a cluster of `xs` keeps a disk.
    proof fn lemma_keeps_cluster_written(
        self,
        d: DiskView,
        xs: Set<u32>,
        d1: DiskView,
        c: u32,
        s: int,
        data: Seq<u8>,
    )
        requires
            self.sound(),
            self.kept(d, xs, d1),
            self.valid(c),
            xs.contains(c),
            0 <= s,
        ensures
            self.keeps(d, xs, d1, self.cluster_written(d1, c, s, data).0),
        decreases self.sectors_per_cluster - s,
    {
        if s < self.sectors_per_cluster && data.len() > 0 {
            let take = util::min_nat(data.len(), 512) as int;
            let bytes = util::splice(fat_write::zero_sector(), 0, data.take(take));
            self.lemma_keeps_store(d, xs, d1, c, s, bytes);
            let (d2, r) = fat::stored(d1, self.sector_of(c, s), bytes);
            if r is Ok {
                self.lemma_keeps_cluster_written(d, xs, d2, c, s + 1, data.skip(take));
                let d3 = self.cluster_written(d2, c, s + 1, data.skip(take)).0;
                self.lemma_keeps_on(d, xs, d1, d2, d3);
            }
        }
    }

    /// Filling a chain of clusters of `xs` keeps a disk.
    proof fn lemma_keeps_data_written(
        self,
        d: DiskView,
        xs: Set<u32>,
        d1: DiskView,
        c: u32,
        data: Seq<u8>,
        steps: nat,
    )
        requires
            self.sound(),
            self.kept(d, xs, d1),
            self.valid(c) ==> xs.contains(c),
        ensures
            self.keeps(d, xs, d1, self.data_written(d1, c, data, steps).0),
        decreases steps,
    {
        if data.len() > 0 && self.valid(c) && steps > 0 {
            self.lemma_keeps_cluster_written(d, xs, d1, c, 0, data);
            let (d2, r) = self.cluster_written(d1, c, 0, data);
            if r is Ok {
                if let Ok(n) = self.next(d2, c) {
                    let rest = data.skip(util::min_nat(data.len(), self.cluster_bytes()) as int);
                    self.lemma_keeps_data_written(d, xs, d2, n, rest, (steps - 1) as nat);
                    let d3 = self.data_written(d2, n, rest, (steps - 1) as nat).0;
                    self.lemma_keeps_on(d, xs, d1, d2, d3);
                }
            }
        }
    }

    /// Storing contents stays confined.
    proof fn lemma_confined_content(self, d: DiskView, data: Seq<u8>)
        requires
            self.sound(),
            d.wf(),
        ensures
            ({
                let (d2, r) = self.content_stored(d, data);
                &&& self.confined(d, d2)
                &&& self.keeps(d, self.free_clusters(d), d, d2)
                &&& r matches Ok(f) ==> f != 0 ==> self.free_clusters(d).contains(f)
            }),
    {
        self.lemma_confined_refl(d);
        let xs = self.free_clusters(d);
        let all = self.cluster_count as nat;
        if data.len() > 0 {
            let n = fat_write::clusters_for(data.len(), self.cluster_bytes()) as u32;
            self.lemma_confined_grown(d, d, n as nat, 0, 0);
            let (d1, r) = self.chain_taken(d, n as nat);
            if let Ok(first) = r {
                self.lemma_keeps_data_written(d, xs, d1, first, data, all);
                let (d2, w) = self.chain_written(d1, first, data);
                self.lemma_keeps_on(d, xs, d, d1, d2);
                if w is Err {
                    self.lemma_keeps_freed(d, xs, d2, first, all);
                    self.lemma_keeps_on(d, xs, d, d2, self.chain_freed(d2, first).0);
                }
            }
        } else {
            assert(self.keeps(d, xs, d, d));
        }
    }

    /// A write that fails has touched free clusters only.
    proof fn lemma_failed_put(self, d: DiskView, dir: u32, target: Seq<u8>, data: Seq<u8>)
        requires
            self.sound(),
            d.wf(),
            self.file_put(d, dir, target, data).1 is Err,
        ensures
            self.confined(d, self.file_put(d, dir, target, data).0),
            self.keeps(d, self.free_clusters(d), d, self.file_put(d, dir, target, data).0),
    {
        self.lemma_confined_refl(d);
        self.lemma_confined_content(d, data);
        let xs = self.free_clusters(d);
        assert(self.keeps(d, xs, d, d));
        let (d1, r) = self.content_stored(d, data);
        if let Ok((sector, offset, _)) = self.slot_for(d, dir, target) {
            if let Ok(first) = r {
                let (d2, w) = Self::dir_entry_written(
                    d1,
                    sector,
                    offset as int,
                    fat::entry_bytes(target, ATTR_ARCHIVE, first, data.len() as u32),
                );
                if w is Err {
                    self.lemma_keeps_refused(d, xs, d1, d2);
                    self.lemma_keeps_on(d, xs, d, d1, d2);
                    if first != 0 {
                        self.lemma_keeps_freed(d, xs, d2, first, self.cluster_count as nat);
                        self.lemma_keeps_on(d, xs, d, d2, self.chain_freed(d2, first).0);
                    }
                }
            }
        }
    }
}

/// A write that fails leaves every file as it was, the one that was to be replaced included. The
/// volume must be in order as far as the file `other` goes: no chain that is read for it runs
/// into a cluster that the FAT calls free.
pub proof fn law_failed_write_keeps_files(
    v: Fat32,
    d: DiskView,
    path: Seq<u8>,
    data: Seq<u8>,
    other: Seq<u8>,
)
    requires
        v.sound(),
        d.wf(),
        v.file_written(d, path, data).1 is Err,
        v.path_clear(d, other, v.free_clusters(d)),
    ensures
        v.file_read(v.file_written(d, path, data).0, other) == v.file_read(d, other),
        v.entry_of(v.file_written(d, path, data).0, other) == v.entry_of(d, other),
{
    match v.parent_of(d, path) {
        Err(_) => {},
        Ok(dir) => {
            let target = fat::name_83(path::components(path).last());
            v.lemma_failed_put(d, dir, target, data);
            let d2 = v.file_put(d, dir, target, data).0;
            v.lemma_read_frame(d, d2, v.free_clusters(d), other);
        },
    }
}


// ---------------------------------------------------------------------------------------------
// Chains that were written
// ---------------------------------------------------------------------------------------------

/// The first cluster of a chain, 0 where there is none.
pub open spec fn first_of(cs: Seq<u32>) -> u32 {
    if cs.len() > 0 {
        cs[0]
    } else {
        0
    }
}

/// The last cluster of a chain, 0 where there is none.
pub open spec fn last_of(cs: Seq<u32>) -> u32 {
    if cs.len() > 0 {
        cs.last()
    } else {
        0
    }
}

impl Fat32 {
    /// `cs` are, in order, the clusters of a chain that ends with the end mark. Their numbers
    /// increase.
    pub open spec fn linked(self, d: DiskView, cs: Seq<u32>) -> bool {
        &&& cs.len() > 0
        &&& forall|i: int| 0 <= i < cs.len() ==> self.valid(#[trigger] cs[i])
        &&& forall|i: int, j: int| 0 <= i < j < cs.len() ==> cs[i] < cs[j]
        &&& forall|i: int|
            0 <= i < cs.len() ==> self.next(d, #[trigger] cs[i]) == Ok::<u32, FatError>(
                if i + 1 < cs.len() {
                    cs[i + 1]
                } else {
                    FAT32_EOC
                },
            )
    }

    /// What a chain under construction is: nothing yet, or linked, with no free cluster before
    /// its last.
    pub open spec fn growing(self, d: DiskView, cs: Seq<u32>) -> bool {
        cs.len() > 0 ==> {
            &&& self.linked(d, cs)
            &&& forall|x: u32|
                self.valid(x) && x <= cs.last() ==> #[trigger] self.next(d, x) != Ok::<
                    u32,
                    FatError,
                >(0)
        }
    }

    /// The disk after cluster `c` was taken and appended to the chain `cs`.
    pub open spec fn appended(self, d: DiskView, cs: Seq<u32>, c: u32) -> DiskView {
        let d1 = self.entry_set(d, c, FAT32_EOC, 0).0;
        if cs.len() == 0 {
            d1
        } else {
            self.entry_set(d1, cs.last(), c, 0).0
        }
    }

    /// Appending the first free cluster keeps a chain linked and touches two entries only.
    proof fn lemma_appended(self, d: DiskView, cs: Seq<u32>, c: u32)
        requires
            self.sound(),
            d.wf(),
            self.growing(d, cs),
            self.first_free(d, FIRST_DATA_CLUSTER as int) == Ok::<u32, FatError>(c),
            self.entry_set(d, c, FAT32_EOC, 0).1 is Ok,
            cs.len() > 0 ==> self.entry_set(
                self.entry_set(d, c, FAT32_EOC, 0).0,
                cs.last(),
                c,
                0,
            ).1 is Ok,
        ensures
            self.appended(d, cs, c).wf(),
            self.growing(self.appended(d, cs, c), cs.push(c)),
            self.same_but_fat(d, self.appended(d, cs, c)),
            self.valid(c),
            self.next(d, c) == Ok::<u32, FatError>(0),
            !cs.contains(c),
            forall|x: u32|
                self.valid(x) && x != c && !cs.contains(x) ==> #[trigger] self.next(
                    self.appended(d, cs, c),
                    x,
                ) == self.next(d, x),
    {
        self.lemma_marks_invalid();
        self.lemma_first_free(d, FIRST_DATA_CLUSTER as int);
        self.lemma_entry_set(d, c, FAT32_EOC, 0);
        let d1 = self.entry_set(d, c, FAT32_EOC, 0).0;
        let more = cs.push(c);
        if cs.len() == 0 {
            assert(self.linked(d1, more));
            assert forall|x: u32| self.valid(x) && x <= c implies #[trigger] self.next(d1, x)
                != Ok::<u32, FatError>(0) by {
                if x < c {
                    assert(self.next(d, x) != Ok::<u32, FatError>(0));
                }
            }
        } else {
            let prev = cs.last();
            assert(prev < c) by {
                if c <= prev {
                    assert(self.next(d, c) != Ok::<u32, FatError>(0));
                }
            }
            assert(cs[cs.len() - 1] == prev);
            assert(!cs.contains(c)) by {
                if cs.contains(c) {
                    let k = choose|k: int| 0 <= k < cs.len() && cs[k] == c;
                    assert(cs[k] <= prev);
                }
            }
            self.lemma_valid_masked(c);
            self.lemma_entry_set(d1, prev, c, 0);
            let d2 = self.entry_set(d1, prev, c, 0).0;
            assert forall|i: int| 0 <= i < more.len() implies self.next(d2, #[trigger] more[i])
                == Ok::<u32, FatError>(
                if i + 1 < more.len() {
                    more[i + 1]
                } else {
                    FAT32_EOC
                },
            ) by {
                if i < cs.len() - 1 {
                    assert(more[i] == cs[i]);
                    assert(cs[i] < cs[cs.len() - 1]);
                    assert(self.next(d1, cs[i]) == self.next(d, cs[i]));
                    assert(self.next(d2, cs[i]) == self.next(d1, cs[i]));
                } else if i == cs.len() - 1 {
                    assert(more[i] == prev);
                } else {
                    assert(self.next(d2, c) == self.next(d1, c));
                }
            }
            assert(self.linked(d2, more));
            assert forall|x: u32| self.valid(x) && x <= c implies #[trigger] self.next(d2, x)
                != Ok::<u32, FatError>(0) by {
                if x != prev {
                    assert(self.next(d2, x) == self.next(d1, x));
                    if x < c {
                        assert(self.next(d1, x) == self.next(d, x));
                    }
                }
            }
            assert forall|x: u32|
                self.valid(x) && x != c && !cs.contains(x) implies #[trigger] self.next(d2, x)
                == self.next(d, x) by {
                assert(self.next(d1, x) == self.next(d, x));
            }
        }
    }

    /// A chain that was built is linked.
    proof fn lemma_grown_linked(self, d: DiskView, n: nat, cs: Seq<u32>) -> (all: Seq<u32>)
        requires
            self.sound(),
            d.wf(),
            self.growing(d, cs),
            cs.len() + n > 0,
            self.chain_grown(d, n, first_of(cs), last_of(cs)).1 is Ok,
        ensures
            ({
                let (d2, r) = self.chain_grown(d, n, first_of(cs), last_of(cs));
                &&& d2.wf()
                &&& self.linked(d2, all)
                &&& all.len() == cs.len() + n
                &&& r == Ok::<u32, FatError>(all[0])
            }),
        decreases n,
    {
        if n == 0 {
            cs
        } else {
            let c = self.cluster_taken(d).1->Ok_0;
            self.lemma_appended(d, cs, c);
            self.lemma_grown_linked(self.appended(d, cs, c), (n - 1) as nat, cs.push(c))
        }
    }

    /// Data written into a cluster stands there, and nothing else changed.
    proof fn lemma_cluster_written(self, d: DiskView, c: u32, s: int, data: Seq<u8>)
        requires
            self.sound(),
            d.wf(),
            readable(d),
            self.valid(c),
            0 <= s <= self.sectors_per_cluster,
            self.cluster_written(d, c, s, data).1 is Ok,
        ensures
            ({
                let d2 = self.cluster_written(d, c, s, data).0;
                &&& d2.wf()
                &&& same_shape(d, d2)
                &&& forall|i: int|
                    0 <= i < d.data.len() && !(self.sector_of(c, s) <= i < self.sector_of(
                        c,
                        self.sectors_per_cluster as int,
                    )) ==> #[trigger] d2.data[i] == d.data[i]
                &&& self.cluster_data(d2, c, s, data.len()) == Ok::<Seq<u8>, FatError>(
                    data.take(
                        util::min_nat(
                            data.len(),
                            ((self.sectors_per_cluster - s) * 512) as nat,
                        ) as int,
                    ),
                )
            }),
        decreases self.sectors_per_cluster - s,
    {
        if s >= self.sectors_per_cluster || data.len() == 0 {
            assert(data.take(0) =~= Seq::<u8>::empty());
        } else {
            let take = util::min_nat(data.len(), 512) as int;
            let bytes = util::splice(fat_write::zero_sector(), 0, data.take(take));
            let sector = self.sector_of(c, s);
            self.lemma_sectors_apart(c, s, c, s);
            let (d1, r) = fat::stored(d, sector, bytes);
            assert(d1.data =~= d.data.update(sector, bytes));
            let rest = data.skip(take);
            self.lemma_cluster_written(d1, c, s + 1, rest);
            let d2 = self.cluster_written(d1, c, s + 1, rest).0;
            assert(d2.data[sector] == d1.data[sector]);
            assert(fat::fetched(d2, sector) == Ok::<Seq<u8>, FatError>(bytes));
            assert(bytes.take(take) =~= data.take(take));
            let tail = rest.take(
                util::min_nat(
                    rest.len(),
                    ((self.sectors_per_cluster - (s + 1)) * 512) as nat,
                ) as int,
            );
            assert(data.take(take) + tail =~= data.take(
                util::min_nat(data.len(), ((self.sectors_per_cluster - s) * 512) as nat) as int,
            ));
        }
    }

    /// Filling a cluster leaves the FAT and the clusters before it.
    proof fn lemma_cluster_step(self, d: DiskView, c: u32, data: Seq<u8>)
        requires
            self.sound(),
            d.wf(),
            readable(d),
            self.valid(c),
            self.cluster_written(d, c, 0, data).1 is Ok,
        ensures
            ({
                let d1 = self.cluster_written(d, c, 0, data).0;
                &&& d1.wf()
                &&& same_shape(d, d1)
                &&& forall|x: u32| self.valid(x) ==> #[trigger] self.next(d1, x) == self.next(d, x)
                &&& forall|x: u32, s: int|
                    self.valid(x) && x < c && 0 <= s < self.sectors_per_cluster
                        ==> #[trigger] fat::fetched(d1, self.sector_of(x, s)) == fat::fetched(
                        d,
                        self.sector_of(x, s),
                    )
                &&& self.cluster_data(d1, c, 0, data.len()) == Ok::<Seq<u8>, FatError>(
                    data.take(util::min_nat(data.len(), self.cluster_bytes()) as int),
                )
            }),
    {
        self.lemma_cluster_written(d, c, 0, data);
        let (d1, r) = self.cluster_written(d, c, 0, data);
        self.lemma_sectors_apart(c, 0, c, 0);
        assert(self.sector_of(c, self.sectors_per_cluster as int) == self.sector_of(c, 0)
            + self.sectors_per_cluster);
        assert forall|x: u32| self.valid(x) implies #[trigger] self.next(d1, x) == self.next(
            d,
            x,
        ) by {
            self.lemma_next_same(d, d1, x);
        }
        assert forall|x: u32, s: int|
            self.valid(x) && x < c && 0 <= s < self.sectors_per_cluster implies #[trigger] fat::fetched(
            d1,
            self.sector_of(x, s),
        ) == fat::fetched(d, self.sector_of(x, s)) by {
            self.lemma_sectors_apart(x, s, x, s);
            self.lemma_sector_order(x, s, c);
        }
    }

    /// Data written along a linked chain reads back from it, and nothing else changed.
    #[verifier::spinoff_prover]
    #[verifier::rlimit(40)]
    proof fn lemma_data_written(
        self,
        d: DiskView,
        cs: Seq<u32>,
        i: int,
        data: Seq<u8>,
        steps: nat,
    )
        requires
            self.sound(),
            d.wf(),
            readable(d),
            self.linked(d, cs),
            0 <= i < cs.len(),
            data.len() <= (cs.len() - i) * self.cluster_bytes(),
            steps >= cs.len() - i,
            self.data_written(d, cs[i], data, steps).1 is Ok,
        ensures
            ({
                let d2 = self.data_written(d, cs[i], data, steps).0;
                &&& d2.wf()
                &&& same_shape(d, d2)
                &&& forall|x: u32| self.valid(x) ==> #[trigger] self.next(d2, x) == self.next(d, x)
                &&& forall|x: u32, s: int|
                    self.valid(x) && x < cs[i] && 0 <= s < self.sectors_per_cluster
                        ==> #[trigger] fat::fetched(d2, self.sector_of(x, s)) == fat::fetched(
                        d,
                        self.sector_of(x, s),
                    )
                &&& self.chain_data(d2, cs[i], data.len()) == Ok::<Seq<u8>, FatError>(data)
            }),
        decreases steps,
    {
        let c = cs[i];
        let cb = self.cluster_bytes();
        if data.len() > 0 {
            self.lemma_cluster_step(d, c, data);
            let (d1, r) = self.cluster_written(d, c, 0, data);
            assert(self.linked(d1, cs));
            let cut = util::min_nat(data.len(), cb) as int;
            let rest = data.skip(cut);
            let n = self.next(d1, c)->Ok_0;
            if rest.len() > 0 {
                assert(data.len() > cb);
                assert(cs.len() - i >= 2) by {
                    if cs.len() - i == 1 {
                        assert(1 * cb == cb) by (nonlinear_arith);
                    }
                }
                assert(n == cs[i + 1]);
                assert((cs.len() - i) * cb == cb + (cs.len() - (i + 1)) * cb) by (nonlinear_arith);
                self.lemma_data_written(d1, cs, i + 1, rest, (steps - 1) as nat);
                let d2 = self.data_written(d1, cs[i + 1], rest, (steps - 1) as nat).0;
                assert(c < cs[i + 1]);
                assert forall|x: u32| self.valid(x) implies #[trigger] self.next(d2, x)
                    == self.next(d, x) by {
                    assert(self.next(d1, x) == self.next(d, x));
                }
                assert forall|x: u32, s: int|
                    self.valid(x) && x < c && 0 <= s
                        < self.sectors_per_cluster implies #[trigger] fat::fetched(
                    d2,
                    self.sector_of(x, s),
                ) == fat::fetched(d, self.sector_of(x, s)) by {
                    assert(fat::fetched(d1, self.sector_of(x, s)) == fat::fetched(d, self.sector_of(x, s)));
                }
                assert(self.cluster_same(d1, d2, c));
                self.lemma_cluster_data_frame(d1, d2, c, 0, data.len());
                assert(data.take(cut) + rest =~= data);
            } else {
                assert(self.data_written(d1, n, rest, (steps - 1) as nat) == (d1, Ok::<
                    (),
                    FatError,
                >(())));
                assert(self.chain_data(d1, n, 0) == Ok::<Seq<u8>, FatError>(Seq::empty()));
                assert(data.take(cut) + Seq::<u8>::empty() =~= data);
            }
        } else {
            assert(data =~= Seq::<u8>::empty());
        }
    }

    /// The sectors of a cluster stand before those of every later one.
    proof fn lemma_sector_order(self, x: u32, s: int, c: u32)
        requires
            self.sound(),
            self.valid(x),
            self.valid(c),
            x < c,
            0 <= s < self.sectors_per_cluster,
        ensures
            self.sector_of(x, s) < self.sector_of(c, 0),
    {
        let per = self.sectors_per_cluster as int;
        let a = x - FIRST_DATA_CLUSTER;
        let b = c - FIRST_DATA_CLUSTER;
        assert(a * per + per <= b * per) by (nonlinear_arith)
            requires
                a + 1 <= b,
                per >= 0,
        ;
    }

    /// The clusters of a linked chain are not more than the volume has.
    proof fn lemma_linked_len(self, d: DiskView, cs: Seq<u32>, i: int)
        requires
            self.linked(d, cs),
            0 <= i < cs.len(),
        ensures
            cs[i] >= FIRST_DATA_CLUSTER + i,
        decreases i,
    {
        if i > 0 {
            self.lemma_linked_len(d, cs, i - 1);
        }
    }

    /// Contents that were stored read back.
    proof fn lemma_content_reads_back(self, d: DiskView, data: Seq<u8>) -> (cs: Seq<u32>)
        requires
            self.sound(),
            d.wf(),
            readable(d),
            0 < data.len() <= u32::MAX,
            self.content_stored(d, data).1 is Ok,
        ensures
            ({
                let (d2, r) = self.content_stored(d, data);
                &&& d2.wf()
                &&& self.linked(d2, cs)
                &&& r == Ok::<u32, FatError>(cs[0])
                &&& self.chain_data(d2, cs[0], data.len()) == Ok::<Seq<u8>, FatError>(data)
            }),
    {
        let cb = self.cluster_bytes();
        let len = data.len();
        let k = fat_write::clusters_for(len, cb);
        assert(k >= 1 && k <= len && k * cb >= len) by {
            let b = cb as int;
            let x = len + b - 1;
            vstd::arithmetic::div_mod::lemma_fundamental_div_mod(x, b);
            vstd::arithmetic::div_mod::lemma_mod_bound(x, b);
            let q = x / b;
            assert(b * q == q * b) by (nonlinear_arith);
            assert(q * b >= len);
            assert(q >= 1) by (nonlinear_arith)
                requires
                    q * b >= len,
                    len > 0,
                    b > 0,
            ;
            assert(q <= len) by (nonlinear_arith)
                requires
                    q * b <= len + b - 1,
                    len > 0,
                    b > 0,
            ;
        }
        let n = k as u32;
        let (d1, r) = self.chain_taken(d, n as nat);
        assert(r is Ok);
        let cs = self.lemma_grown_linked(d, n as nat, Seq::empty());
        let first = r->Ok_0;
        self.lemma_linked_len(d1, cs, cs.len() - 1);
        self.lemma_confined_refl(d);
        self.lemma_confined_grown(d, d, n as nat, 0, 0);
        self.lemma_data_written(d1, cs, 0, data, self.cluster_count as nat);
        let d2 = self.chain_written(d1, first, data).0;
        assert forall|i: int| 0 <= i < cs.len() implies self.next(d2, #[trigger] cs[i]) == Ok::<
            u32,
            FatError,
        >(
            if i + 1 < cs.len() {
                cs[i + 1]
            } else {
                FAT32_EOC
            },
        ) by {
            assert(self.next(d2, cs[i]) == self.next(d1, cs[i]));
        }
        cs
    }
}


// ---------------------------------------------------------------------------------------------
// Directories one entry of which was rewritten
// ---------------------------------------------------------------------------------------------

/// An 8.3 name that a search can find: its first byte is none of the two marks.
pub open spec fn findable(target: Seq<u8>) -> bool {
    target.len() == 11 && target[0] != 0x00 && target[0] != 0xE5
}

/// Attributes of the entries that are written for files and directories.
pub open spec fn plain_attr(attr: u8) -> bool {
    attr == ATTR_ARCHIVE || attr == ATTR_DIRECTORY
}

/// The bits of the attributes that are written.
proof fn lemma_plain_attr()
    ensures
        !fat::attr_skipped(ATTR_ARCHIVE),
        !fat::attr_skipped(ATTR_DIRECTORY),
        ATTR_ARCHIVE & ATTR_DIRECTORY == 0,
        ATTR_DIRECTORY & ATTR_DIRECTORY != 0,
{
    assert(0x20u8 & 0x0Fu8 != 0x0Fu8 && 0x20u8 & 0x08u8 == 0 && 0x10u8 & 0x0Fu8 != 0x0Fu8 && 0x10u8
        & 0x08u8 == 0 && 0x20u8 & 0x10u8 == 0 && 0x10u8 & 0x10u8 != 0) by (bit_vector);
}

/// A rewritten entry says what was written, the other entries of its sector what they said.
proof fn lemma_slot_rewritten(
    buf: Seq<u8>,
    index: int,
    target: Seq<u8>,
    attr: u8,
    first: u32,
    size: u32,
)
    requires
        buf.len() == 512,
        0 <= index < 16,
        findable(target),
        plain_attr(attr),
    ensures
        ({
            let buf2 = util::splice(buf, 32 * index, fat::entry_bytes(target, attr, first, size));
            &&& buf2.len() == 512
            &&& fat::slot_named(buf2, index)
            &&& fat::slot_name(buf2, index) == target
            &&& fat::slot_entry(buf2, index) == (DirEntry {
                first_cluster: first,
                size,
                is_dir: attr == ATTR_DIRECTORY,
            })
            &&& forall|k: int|
                0 <= k < 16 && k != index ==> {
                    &&& #[trigger] fat::slot_ends(buf2, k) == fat::slot_ends(buf, k)
                    &&& fat::slot_deleted(buf2, k) == fat::slot_deleted(buf, k)
                    &&& fat::slot_named(buf2, k) == fat::slot_named(buf, k)
                    &&& fat::slot_name(buf2, k) == fat::slot_name(buf, k)
                    &&& fat::slot_entry(buf2, k) == fat::slot_entry(buf, k)
                }
        }),
{
    let e = fat::entry_bytes(target, attr, first, size);
    let buf2 = util::splice(buf, 32 * index, e);
    lemma_plain_attr();
    let hi = (first / 0x1_0000) as u16;
    let lo = (first % 0x1_0000) as u16;
    assert(e.len() == 32);
    assert(e[0] == target[0] && e[11] == attr);
    assert(e[20] == util::enc16(hi)[0] && e[21] == util::enc16(hi)[1]);
    assert(e[26] == util::enc16(lo)[0] && e[27] == util::enc16(lo)[1]);
    assert(e[28] == util::enc32(size)[0] && e[29] == util::enc32(size)[1] && e[30] == util::enc32(
        size,
    )[2] && e[31] == util::enc32(size)[3]);
    let b = 32 * index;
    assert(buf2[b] == e[0] && buf2[b + 11] == e[11]);
    assert(buf2[b + 20] == e[20] && buf2[b + 21] == e[21] && buf2[b + 26] == e[26] && buf2[b + 27]
        == e[27]);
    assert(buf2[b + 28] == e[28] && buf2[b + 29] == e[29] && buf2[b + 30] == e[30] && buf2[b + 31]
        == e[31]);
    util::lemma_le16_enc16(hi);
    util::lemma_le16_enc16(lo);
    util::lemma_le32_enc32(size);
    assert(util::le16(buf2, b + 20) == hi);
    assert(util::le16(buf2, b + 26) == lo);
    assert(util::le32(buf2, b + 28) == size);
    assert(hi * 0x1_0000 + lo == first);
    assert(fat::slot_name(buf2, index) =~= target) by {
        assert forall|j: int| 0 <= j < 11 implies fat::slot_name(buf2, index)[j] == target[j] by {
            assert(e[j] == target[j]);
        }
    }
    assert forall|k: int| 0 <= k < 16 && k != index implies {
        &&& #[trigger] fat::slot_ends(buf2, k) == fat::slot_ends(buf, k)
        &&& fat::slot_deleted(buf2, k) == fat::slot_deleted(buf, k)
        &&& fat::slot_named(buf2, k) == fat::slot_named(buf, k)
        &&& fat::slot_name(buf2, k) == fat::slot_name(buf, k)
        &&& fat::slot_entry(buf2, k) == fat::slot_entry(buf, k)
    } by {
        let a = 32 * k;
        assert(forall|j: int| a <= j < a + 32 ==> buf2[j] == buf[j]);
        assert(fat::slot_name(buf2, k) =~= fat::slot_name(buf, k));
    }
}

/// A directory sector with entry `index` overwritten from its start on.
pub open spec fn with_slot(buf: Seq<u8>, index: int, entry: Seq<u8>) -> Seq<u8> {
    util::splice(buf, 32 * index, entry)
}

/// Entry `index` of a sector neither ends the directory nor matches `name`, and all others say
/// what they said.
pub open spec fn beside(buf: Seq<u8>, buf2: Seq<u8>, index: int, name: Seq<u8>) -> bool {
    &&& buf2.len() == 512
    &&& !fat::slot_ends(buf2, index)
    &&& !fat::slot_matches(buf2, index, name)
    &&& forall|k: int|
        0 <= k < 16 && k != index ==> {
            &&& #[trigger] fat::slot_ends(buf2, k) == fat::slot_ends(buf, k)
            &&& fat::slot_deleted(buf2, k) == fat::slot_deleted(buf, k)
            &&& fat::slot_named(buf2, k) == fat::slot_named(buf, k)
            &&& fat::slot_name(buf2, k) == fat::slot_name(buf, k)
            &&& fat::slot_entry(buf2, k) == fat::slot_entry(buf, k)
        }
}

/// What is written over an entry is not met by a search for `name`, wherever it is written.
#[verifier::opaque]
pub open spec fn stands_aside(entry: Seq<u8>, name: Seq<u8>) -> bool {
    forall|buf: Seq<u8>, index: int|
        buf.len() == 512 && 0 <= index < 16 ==> beside(
            buf,
            #[trigger] with_slot(buf, index, entry),
            index,
            name,
        )
}

/// The entry of one name stands aside for every other.
proof fn lemma_entry_stands_aside(target: Seq<u8>, fields: (u8, u32, u32))
    requires
        findable(target),
        plain_attr(fields.0),
    ensures
        forall|name: Seq<u8>|
            name != target ==> #[trigger] stands_aside(
                fat::entry_bytes(target, fields.0, fields.1, fields.2),
                name,
            ),
{
    reveal(stands_aside);
    let entry = fat::entry_bytes(target, fields.0, fields.1, fields.2);
    assert forall|name: Seq<u8>| name != target implies #[trigger] stands_aside(entry, name) by {
        assert forall|buf: Seq<u8>, index: int|
            buf.len() == 512 && 0 <= index < 16 implies beside(
            buf,
            #[trigger] with_slot(buf, index, entry),
            index,
            name,
        ) by {
            lemma_slot_rewritten(buf, index, target, fields.0, fields.1, fields.2);
        }
    }
}

/// The mark of a deleted entry stands aside for every name, and the entry that it is written over
/// is deleted.
proof fn lemma_mark_stands_aside()
    ensures
        forall|name: Seq<u8>| #[trigger] stands_aside(seq![SLOT_DELETED], name),
        forall|buf: Seq<u8>, index: int|
            buf.len() == 512 && 0 <= index < 16 ==> fat::slot_deleted(
                #[trigger] with_slot(buf, index, seq![SLOT_DELETED]),
                index,
            ),
{
    reveal(stands_aside);
    let mark = seq![SLOT_DELETED];
    assert forall|buf: Seq<u8>, index: int|
        buf.len() == 512 && 0 <= index < 16 implies fat::slot_deleted(
        #[trigger] with_slot(buf, index, mark),
        index,
    ) by {
        assert(with_slot(buf, index, mark)[32 * index] == mark[0]);
    }
    assert forall|name: Seq<u8>| #[trigger] stands_aside(mark, name) by {
        assert forall|buf: Seq<u8>, index: int|
            buf.len() == 512 && 0 <= index < 16 implies beside(
            buf,
            #[trigger] with_slot(buf, index, mark),
            index,
            name,
        ) by {
            let buf2 = with_slot(buf, index, mark);
            assert(fat::slot_deleted(buf2, index));
            assert forall|k: int| 0 <= k < 16 && k != index implies {
                &&& #[trigger] fat::slot_ends(buf2, k) == fat::slot_ends(buf, k)
                &&& fat::slot_deleted(buf2, k) == fat::slot_deleted(buf, k)
                &&& fat::slot_named(buf2, k) == fat::slot_named(buf, k)
                &&& fat::slot_name(buf2, k) == fat::slot_name(buf, k)
                &&& fat::slot_entry(buf2, k) == fat::slot_entry(buf, k)
            } by {
                let a = 32 * k;
                assert(forall|j: int| a <= j < a + 32 ==> buf2[j] == buf[j]);
                assert(fat::slot_name(buf2, k) =~= fat::slot_name(buf, k));
            }
        }
    }
}

/// No entry of a sector before the one at which the search stops ends it or matches.
proof fn lemma_before_stop(buf: Seq<u8>, target: Seq<u8>, k: int, j: int)
    requires
        0 <= k <= j < fat::stop_index(buf, target, k),
        j < 16,
    ensures
        !fat::slot_ends(buf, j),
        !fat::slot_matches(buf, j, target),
    decreases 16 - k,
{
    if k < j {
        lemma_before_stop(buf, target, k + 1, j);
    }
}

/// The search stops at an entry that ends the directory or matches.
proof fn lemma_at_stop(buf: Seq<u8>, target: Seq<u8>, k: int)
    requires
        0 <= k,
        fat::stop_index(buf, target, k) < 16,
    ensures
        fat::slot_ends(buf, fat::stop_index(buf, target, k)) || fat::slot_matches(
            buf,
            fat::stop_index(buf, target, k),
            target,
        ),
        k <= fat::stop_index(buf, target, k),
    decreases 16 - k,
{
    if k < 16 && !fat::slot_ends(buf, k) && !fat::slot_matches(buf, k, target) {
        lemma_at_stop(buf, target, k + 1);
    }
}

/// Where the search stops is known by what stands there and before.
proof fn lemma_stop_is(buf: Seq<u8>, target: Seq<u8>, k: int, at: int)
    requires
        0 <= k <= at <= 16,
        forall|j: int| k <= j < at ==> !#[trigger] fat::slot_ends(buf, j) && !fat::slot_matches(buf, j, target),
        at < 16 ==> fat::slot_ends(buf, at) || fat::slot_matches(buf, at, target),
    ensures
        fat::stop_index(buf, target, k) == at,
    decreases at - k,
{
    if k < at {
        assert(!fat::slot_ends(buf, k));
        lemma_stop_is(buf, target, k + 1, at);
    }
}

/// No entry before the first deleted one is deleted, and that one is.
proof fn lemma_deleted_is(buf: Seq<u8>, k: int, limit: int)
    requires
        0 <= k <= limit,
    ensures
        k <= fat::deleted_index(buf, k, limit) <= limit,
        fat::deleted_index(buf, k, limit) < limit ==> fat::slot_deleted(buf, fat::deleted_index(buf, k, limit)),
        forall|j: int| k <= j < fat::deleted_index(buf, k, limit) ==> !#[trigger] fat::slot_deleted(buf, j),
    decreases limit - k,
{
    if k < limit && !fat::slot_deleted(buf, k) {
        lemma_deleted_is(buf, k + 1, limit);
    }
}

impl Fat32 {
    /// Cluster `x` with entry `index` of `sector` replaced by `entry`, where it is one of its own.
    pub open spec fn cluster_but_slot(
        self,
        d: DiskView,
        d2: DiskView,
        x: u32,
        sector: u32,
        index: int,
        entry: Seq<u8>,
    ) -> bool {
        &&& self.next(d2, x) == self.next(d, x)
        &&& forall|s: int|
            0 <= s < self.sectors_per_cluster ==> #[trigger] fat::fetched(d2, self.sector_of(x, s)) == (
            if self.sector_of(x, s) == sector {
                match fat::fetched(d, self.sector_of(x, s)) {
                    Ok(buf) => Ok(util::splice(buf, 32 * index, entry)),
                    Err(e) => Err(e),
                }
            } else {
                fat::fetched(d, self.sector_of(x, s))
            })
    }

    /// A search never forgets the deleted entry that it met first.
    proof fn lemma_free_kept(
        self,
        d: DiskView,
        c: u32,
        s: int,
        steps: nat,
        target: Seq<u8>,
        free: Option<(u32, usize)>,
    )
        requires
            free is Some,
        ensures
            self.scan(d, c, s, steps, target, free) matches Ok(r) ==> r.1 == free,
        decreases steps, self.sectors_per_cluster - s,
    {
        if s < self.sectors_per_cluster {
            if let Ok(buf) = fat::fetched(d, self.sector_of(c, s)) {
                if fat::stop_index(buf, target, 0) >= 16 {
                    self.lemma_free_kept(d, c, s + 1, steps, target, free);
                }
            }
        } else if let Ok(n) = self.next(d, c) {
            if self.valid(n) && steps > 0 {
                self.lemma_free_kept(d, n, 0, (steps - 1) as nat, target, free);
            }
        }
    }

    /// A position that a search reports: entry `index` of a sector of one of the clusters `xs`.
    pub open spec fn slot_at(
        self,
        d: DiskView,
        xs: Set<u32>,
        sector: u32,
        index: usize,
    ) -> bool {
        &&& index < 16
        &&& exists|x: u32, t: int|
            xs.contains(x) && self.valid(x) && 0 <= t < self.sectors_per_cluster && sector
                == #[trigger] self.sector_of(x, t)
        &&& fat::fetched(d, sector as int) is Ok
    }

    /// What stands at the positions that a search reports.
    proof fn lemma_scan_reports(
        self,
        d: DiskView,
        xs: Set<u32>,
        c: u32,
        s: int,
        steps: nat,
        target: Seq<u8>,
        free: Option<(u32, usize)>,
    )
        requires
            self.wf(),
            d.wf(),
            self.closed(d, xs),
            xs.contains(c),
            self.valid(c),
            0 <= s,
        ensures
            self.scan(d, c, s, steps, target, free) matches Ok(r) ==> {
                &&& r.0 matches DirHit::Found { sector, index, entry } ==> {
                    &&& self.slot_at(d, xs, sector, index)
                    &&& !fat::slot_ends(fat::fetched(d, sector as int)->Ok_0, index as int)
                    &&& fat::slot_matches(fat::fetched(d, sector as int)->Ok_0, index as int, target)
                    &&& entry == fat::slot_entry(fat::fetched(d, sector as int)->Ok_0, index as int)
                }
                &&& r.0 matches DirHit::End { sector, index } ==> {
                    &&& self.slot_at(d, xs, sector, index)
                    &&& fat::slot_ends(fat::fetched(d, sector as int)->Ok_0, index as int)
                }
                &&& r.1 == free || {
                    &&& r.1 matches Some((sector, index))
                    &&& self.slot_at(d, xs, sector, index)
                    &&& fat::slot_deleted(fat::fetched(d, sector as int)->Ok_0, index as int)
                }
            },
        decreases steps, self.sectors_per_cluster - s,
    {
        if s < self.sectors_per_cluster {
            if let Ok(buf) = fat::fetched(d, self.sector_of(c, s)) {
                let stop = fat::stop_index(buf, target, 0);
                let gone = fat::deleted_index(buf, 0, stop);
                self.lemma_sector_bound(c, s);
                fat_write::lemma_stop_index(buf, target, 0);
                lemma_deleted_is(buf, 0, stop);
                let sector = self.sector_of(c, s) as u32;
                assert(sector == self.sector_of(c, s));
                let free2 = if free is None && gone < stop {
                    Some((sector, gone as usize))
                } else {
                    free
                };
                if stop >= 16 {
                    self.lemma_scan_reports(d, xs, c, s + 1, steps, target, free2);
                    if free2 is Some {
                        self.lemma_free_kept(d, c, s + 1, steps, target, free2);
                    }
                } else {
                    lemma_at_stop(buf, target, 0);
                }
            }
        } else {
            if let Ok(n) = self.next(d, c) {
                if self.valid(n) && steps > 0 {
                    self.lemma_scan_reports(d, xs, n, 0, (steps - 1) as nat, target, free);
                }
            }
        }
    }

    /// An entry that was found and rewritten under its own name is found again.
    proof fn lemma_found_again(
        self,
        d: DiskView,
        d2: DiskView,
        xs: Set<u32>,
        c: u32,
        s: int,
        steps: nat,
        free: Option<(u32, usize)>,
        free2: Option<(u32, usize)>,
        slot: (u32, int),
        target: Seq<u8>,
        fields: (u8, u32, u32),
    )
        requires
            self.wf(),
            d.wf(),
            self.closed(d, xs),
            xs.contains(c),
            self.valid(c),
            0 <= s,
            findable(target),
            plain_attr(fields.0),
            0 <= slot.1 < 16,
            forall|x: u32|
                xs.contains(x) && self.valid(x) ==> #[trigger] self.cluster_but_slot(
                    d,
                    d2,
                    x,
                    slot.0,
                    slot.1,
                    fat::entry_bytes(target, fields.0, fields.1, fields.2),
                ),
            self.scan(d, c, s, steps, target, free) matches Ok(
                (DirHit::Found { sector, index, .. }, _),
            ) && (sector, index as int) == slot,
        ensures
            self.scan(d2, c, s, steps, target, free2) matches Ok(
                (DirHit::Found { sector, index, entry }, _),
            ) && (sector, index as int) == slot && entry == (DirEntry {
                first_cluster: fields.1,
                size: fields.2,
                is_dir: fields.0 == ATTR_DIRECTORY,
            }),
        decreases steps, self.sectors_per_cluster - s,
    {
        assert(self.cluster_but_slot(
            d,
            d2,
            c,
            slot.0,
            slot.1,
            fat::entry_bytes(target, fields.0, fields.1, fields.2),
        ));
        if s < self.sectors_per_cluster {
            let here = self.sector_of(c, s);
            self.lemma_sector_bound(c, s);
            let buf = fat::fetched(d, here)->Ok_0;
            let buf2 = fat::fetched(d2, here)->Ok_0;
            assert(fat::fetched(d2, here) is Ok);
            assert(buf.len() == 512);
            let stop = fat::stop_index(buf, target, 0);
            fat_write::lemma_stop_index(buf, target, 0);
            let gone = fat::deleted_index(buf, 0, stop);
            let sector = here as u32;
            let next_free = if free is None && gone < stop {
                Some((sector, gone as usize))
            } else {
                free
            };
            if here == slot.0 {
                lemma_slot_rewritten(buf, slot.1, target, fields.0, fields.1, fields.2);
            }
            if stop < 16 {
                lemma_at_stop(buf, target, 0);
            } else {
                self.lemma_scan_reports(d, xs, c, s + 1, steps, target, next_free);
                if here == slot.0 {
                    lemma_before_stop(buf, target, 0, slot.1);
                    assert(false);
                }
            }
            assert forall|j: int| 0 <= j < stop implies !#[trigger] fat::slot_ends(buf2, j)
                && !fat::slot_matches(buf2, j, target) by {
                lemma_before_stop(buf, target, 0, j);
            }
            lemma_stop_is(buf2, target, 0, stop);
            let gone2 = fat::deleted_index(buf2, 0, stop);
            let next_free2 = if free2 is None && gone2 < stop {
                Some((sector, gone2 as usize))
            } else {
                free2
            };
            if stop >= 16 {
                self.lemma_found_again(
                    d,
                    d2,
                    xs,
                    c,
                    s + 1,
                    steps,
                    next_free,
                    next_free2,
                    slot,
                    target,
                    fields,
                );
            }
        } else {
            let n = self.next(d, c)->Ok_0;
            self.lemma_found_again(
                d,
                d2,
                xs,
                n,
                0,
                (steps - 1) as nat,
                free,
                free2,
                slot,
                target,
                fields,
            );
        }
    }

    /// An entry that was found is found where it was when another entry is overwritten by one
    /// that stands aside.
    proof fn lemma_found_beside(
        self,
        d: DiskView,
        d2: DiskView,
        xs: Set<u32>,
        c: u32,
        s: int,
        steps: nat,
        name: Seq<u8>,
        free: Option<(u32, usize)>,
        free2: Option<(u32, usize)>,
        slot: (u32, int),
        entry: Seq<u8>,
    )
        requires
            self.wf(),
            d.wf(),
            self.closed(d, xs),
            xs.contains(c),
            self.valid(c),
            0 <= s,
            stands_aside(entry, name),
            0 <= slot.1 < 16,
            forall|x: u32|
                xs.contains(x) && self.valid(x) ==> #[trigger] self.cluster_but_slot(
                    d,
                    d2,
                    x,
                    slot.0,
                    slot.1,
                    entry,
                ),
            self.scan(d, c, s, steps, name, free) matches Ok(
                (DirHit::Found { sector, index, .. }, _),
            ) && (sector, index as int) != slot,
        ensures
            ({
                let r = self.scan(d, c, s, steps, name, free)->Ok_0.0;
                self.scan(d2, c, s, steps, name, free2) matches Ok((hit, _)) && hit == r
            }),
        decreases steps, self.sectors_per_cluster - s,
    {
        assert(self.cluster_but_slot(d, d2, c, slot.0, slot.1, entry));
        if s < self.sectors_per_cluster {
            let here = self.sector_of(c, s);
            self.lemma_sector_bound(c, s);
            let buf = fat::fetched(d, here)->Ok_0;
            let buf2 = fat::fetched(d2, here)->Ok_0;
            assert(fat::fetched(d2, here) is Ok);
            assert(buf.len() == 512);
            let stop = fat::stop_index(buf, name, 0);
            fat_write::lemma_stop_index(buf, name, 0);
            let gone = fat::deleted_index(buf, 0, stop);
            let sector = here as u32;
            let next_free = if free is None && gone < stop {
                Some((sector, gone as usize))
            } else {
                free
            };
            if here == slot.0 {
                reveal(stands_aside);
                assert(beside(buf, with_slot(buf, slot.1, entry), slot.1, name));
                assert(buf2 == with_slot(buf, slot.1, entry));
            }
            if stop < 16 {
                lemma_at_stop(buf, name, 0);
            }
            assert forall|j: int| 0 <= j < stop implies !#[trigger] fat::slot_ends(buf2, j)
                && !fat::slot_matches(buf2, j, name) by {
                lemma_before_stop(buf, name, 0, j);
            }
            lemma_stop_is(buf2, name, 0, stop);
            let gone2 = fat::deleted_index(buf2, 0, stop);
            let next_free2 = if free2 is None && gone2 < stop {
                Some((sector, gone2 as usize))
            } else {
                free2
            };
            if stop >= 16 {
                self.lemma_found_beside(
                    d,
                    d2,
                    xs,
                    c,
                    s + 1,
                    steps,
                    name,
                    next_free,
                    next_free2,
                    slot,
                    entry,
                );
            }
        } else {
            let n = self.next(d, c)->Ok_0;
            self.lemma_found_beside(
                d,
                d2,
                xs,
                n,
                0,
                (steps - 1) as nat,
                name,
                free,
                free2,
                slot,
                entry,
            );
        }
    }

    /// An entry that was written into the place that a search offered is found there.
    proof fn lemma_put_found(
        self,
        d: DiskView,
        d2: DiskView,
        xs: Set<u32>,
        c: u32,
        s: int,
        steps: nat,
        slot: (u32, int),
        target: Seq<u8>,
        fields: (u8, u32, u32),
    )
        requires
            self.wf(),
            d.wf(),
            self.closed(d, xs),
            xs.contains(c),
            self.valid(c),
            0 <= s,
            findable(target),
            plain_attr(fields.0),
            0 <= slot.1 < 16,
            forall|x: u32|
                xs.contains(x) && self.valid(x) ==> #[trigger] self.cluster_but_slot(
                    d,
                    d2,
                    x,
                    slot.0,
                    slot.1,
                    fat::entry_bytes(target, fields.0, fields.1, fields.2),
                ),
            match self.scan(d, c, s, steps, target, None) {
                Ok((DirHit::Found { sector, index, .. }, _)) => slot == (sector, index as int),
                Ok((_, Some((sector, index)))) => slot == (sector, index as int),
                Ok((DirHit::End { sector, index }, None)) => slot == (sector, index as int),
                _ => false,
            },
        ensures
            self.scan(d2, c, s, steps, target, None) matches Ok(
                (DirHit::Found { sector, index, entry }, _),
            ) && (sector, index as int) == slot && entry == (DirEntry {
                first_cluster: fields.1,
                size: fields.2,
                is_dir: fields.0 == ATTR_DIRECTORY,
            }),
        decreases steps, self.sectors_per_cluster - s,
    {
        let r = self.scan(d, c, s, steps, target, None)->Ok_0;
        self.lemma_scan_reports(d, xs, c, s, steps, target, None);
        if r.0 is Found {
            self.lemma_found_again(
                d,
                d2,
                xs,
                c,
                s,
                steps,
                None,
                None,
                slot,
                target,
                fields,
            );
        } else {
            assert(self.cluster_but_slot(
                d,
                d2,
                c,
                slot.0,
                slot.1,
                fat::entry_bytes(target, fields.0, fields.1, fields.2),
            ));
            if s < self.sectors_per_cluster {
                let here = self.sector_of(c, s);
                self.lemma_sector_bound(c, s);
                let buf = fat::fetched(d, here)->Ok_0;
                let buf2 = fat::fetched(d2, here)->Ok_0;
                assert(buf.len() == 512);
                let stop = fat::stop_index(buf, target, 0);
                fat_write::lemma_stop_index(buf, target, 0);
                let gone = fat::deleted_index(buf, 0, stop);
                lemma_deleted_is(buf, 0, stop);
                let sector = here as u32;
                let free2 = if gone < stop {
                    Some((sector, gone as usize))
                } else {
                    None::<(u32, usize)>
                };
                if stop < 16 {
                    lemma_at_stop(buf, target, 0);
                }
                if gone < stop {
                    if stop >= 16 {
                        self.lemma_free_kept(d, c, s + 1, steps, target, free2);
                    }
                    assert(slot == (sector, gone));
                }
                if here == slot.0 {
                    lemma_slot_rewritten(buf, slot.1, target, fields.0, fields.1, fields.2);
                    if slot.1 <= stop && slot.1 < 16 {
                        assert forall|j: int| 0 <= j < slot.1 implies !#[trigger] fat::slot_ends(buf2, j)
                            && !fat::slot_matches(buf2, j, target) by {
                            lemma_before_stop(buf, target, 0, j);
                        }
                        lemma_stop_is(buf2, target, 0, slot.1);
                        assert(gone < stop || stop < 16 || fat::slot_ends(buf, slot.1) || fat::slot_deleted(
                            buf,
                            slot.1,
                        ));
                    }
                    if gone >= stop && stop >= 16 {
                        lemma_before_stop(buf, target, 0, slot.1);
                        assert(!fat::slot_deleted(buf, slot.1));
                        assert(false);
                    }
                } else {
                    assert(gone >= stop && stop >= 16);
                    self.lemma_put_found(d, d2, xs, c, s + 1, steps, slot, target, fields);
                }
            } else {
                let n = self.next(d, c)->Ok_0;
                self.lemma_put_found(d, d2, xs, n, 0, (steps - 1) as nat, slot, target, fields);
            }
        }
    }
}


// ---------------------------------------------------------------------------------------------
// A file that was written
// ---------------------------------------------------------------------------------------------

impl Fat32 {
    /// Rewriting an entry changes the one cluster in which it stands.
    proof fn lemma_entry_written(
        self,
        d: DiskView,
        x0: u32,
        t0: int,
        sector: u32,
        index: int,
        entry: Seq<u8>,
    )
        requires
            self.sound(),
            d.wf(),
            self.valid(x0),
            0 <= t0 < self.sectors_per_cluster,
            sector == self.sector_of(x0, t0),
            Self::dir_entry_written(d, sector, 32 * index, entry).1 is Ok,
        ensures
            ({
                let d2 = Self::dir_entry_written(d, sector, 32 * index, entry).0;
                &&& d2.wf()
                &&& same_shape(d, d2)
                &&& forall|x: u32|
                    self.valid(x) ==> #[trigger] self.cluster_but_slot(
                        d,
                        d2,
                        x,
                        sector,
                        index,
                        entry,
                    )
                &&& forall|x: u32|
                    self.valid(x) && x != x0 ==> #[trigger] self.cluster_same(d, d2, x)
            }),
    {
        let d2 = Self::dir_entry_written(d, sector, 32 * index, entry).0;
        let buf = fat::fetched(d, sector as int)->Ok_0;
        assert(d2.data =~= d.data.update(sector as int, util::splice(buf, 32 * index, entry)));
        self.lemma_sectors_apart(x0, t0, x0, t0);
        assert forall|x: u32| self.valid(x) implies #[trigger] self.cluster_but_slot(
            d,
            d2,
            x,
            sector,
            index,
            entry,
        ) by {
            self.lemma_next_same(d, d2, x);
            assert forall|t: int| 0 <= t < self.sectors_per_cluster implies #[trigger] fat::fetched(
                d2,
                self.sector_of(x, t),
            ) == (if self.sector_of(x, t) == sector {
                match fat::fetched(d, self.sector_of(x, t)) {
                    Ok(b) => Ok(util::splice(b, 32 * index, entry)),
                    Err(e) => Err(e),
                }
            } else {
                fat::fetched(d, self.sector_of(x, t))
            }) by {
                self.lemma_sectors_apart(x, t, x0, t0);
            }
        }
        assert forall|x: u32| self.valid(x) && x != x0 implies #[trigger] self.cluster_same(
            d,
            d2,
            x,
        ) by {
            assert(self.cluster_but_slot(d, d2, x, sector, index, entry));
            assert forall|t: int| 0 <= t < self.sectors_per_cluster implies #[trigger] fat::fetched(
                d2,
                self.sector_of(x, t),
            ) == fat::fetched(d, self.sector_of(x, t)) by {
                self.lemma_sectors_apart(x, t, x0, t0);
            }
        }
    }

    /// The clusters that writing a file may change: the free ones, and the chain of the file that
    /// bore the name before.
    pub open spec fn replaced(self, d: DiskView, old_first: Option<u32>) -> Set<u32> {
        match old_first {
            Some(f) => self.free_clusters(d).union(self.chain_of(d, f)),
            None => self.free_clusters(d),
        }
    }

    /// The clusters of what bore a name before.
    pub open spec fn olds(self, d: DiskView, old_first: Option<u32>) -> Set<u32> {
        match old_first {
            Some(f) => self.chain_of(d, f),
            None => Set::empty(),
        }
    }

    /// Freeing the chain of what bore a name before changes nothing else, at every step.
    proof fn lemma_olds_freed(
        self,
        d: DiskView,
        d1: DiskView,
        d2: DiskView,
        old_first: Option<u32>,
        home: Set<u32>,
        x0: u32,
    )
        requires
            self.sound(),
            self.confined(d, d1),
            d2.wf(),
            home.contains(x0),
            home.disjoint(self.replaced(d, old_first)),
            old_first matches Some(f) ==> self.chain_of(d, f).disjoint(self.free_clusters(d)),
            forall|x: u32| self.valid(x) && x != x0 ==> #[trigger] self.cluster_same(d1, d2, x),
        ensures
            self.keeps(
                d2,
                self.olds(d, old_first),
                d2,
                match old_first {
                    Some(f) => self.chain_freed(d2, f).0,
                    None => d2,
                },
            ),
    {
        let olds = self.olds(d, old_first);
        match old_first {
            None => {
                assert(self.keeps(d2, olds, d2, d2));
            },
            Some(f) => {
                self.lemma_chain_of(d, f);
                assert forall|x: u32|
                    #![trigger self.next(d2, x)]
                    olds.contains(x) && self.valid(x) implies (self.next(d2, x) matches Ok(n)
                    ==> self.valid(n) ==> olds.contains(n)) by {
                    assert(self.cluster_same(d, d1, x));
                    assert(self.cluster_same(d1, d2, x));
                    let before = self.next(d, x);
                }
                self.lemma_keeps_freed(d2, olds, d2, f, self.cluster_count as nat);
            },
        }
    }

    /// What the three steps of a write (contents, entry, freeing) make of the clusters. The
    /// freeing need not be complete.
    proof fn lemma_put_effect(
        self,
        d: DiskView,
        d1: DiskView,
        d2: DiskView,
        d3: DiskView,
        old_first: Option<u32>,
        home: Set<u32>,
        x0: u32,
        sector: u32,
        index: int,
        entry: Seq<u8>,
    )
        requires
            self.sound(),
            d.wf(),
            self.confined(d, d1),
            d2.wf(),
            same_shape(d1, d2),
            home.contains(x0),
            home.disjoint(self.replaced(d, old_first)),
            old_first matches Some(f) ==> self.chain_of(d, f).disjoint(self.free_clusters(d)),
            forall|x: u32|
                self.valid(x) ==> #[trigger] self.cluster_but_slot(d1, d2, x, sector, index, entry),
            forall|x: u32| self.valid(x) && x != x0 ==> #[trigger] self.cluster_same(d1, d2, x),
            self.agree_off(d2, d3, self.olds(d, old_first)),
        ensures
            same_shape(d, d3),
            forall|x: u32|
                self.valid(x) && !self.replaced(d, old_first).contains(x)
                    ==> #[trigger] self.cluster_but_slot(d, d3, x, sector, index, entry),
            self.agree_off(d, d3, self.replaced(d, old_first).insert(x0)),
    {
        let xs = self.replaced(d, old_first);
        assert forall|x: u32| self.valid(x) && !xs.contains(x) implies #[trigger] self.cluster_but_slot(
            d,
            d3,
            x,
            sector,
            index,
            entry,
        ) by {
            assert(self.cluster_same(d, d1, x));
            assert(self.cluster_but_slot(d1, d2, x, sector, index, entry));
            assert(self.cluster_same(d2, d3, x));
            assert forall|t: int| 0 <= t < self.sectors_per_cluster implies #[trigger] fat::fetched(
                d3,
                self.sector_of(x, t),
            ) == (if self.sector_of(x, t) == sector {
                match fat::fetched(d, self.sector_of(x, t)) {
                    Ok(b) => Ok(util::splice(b, 32 * index, entry)),
                    Err(e) => Err(e),
                }
            } else {
                fat::fetched(d, self.sector_of(x, t))
            }) by {
                assert(fat::fetched(d1, self.sector_of(x, t)) == fat::fetched(d, self.sector_of(x, t)));
                let mid = fat::fetched(d2, self.sector_of(x, t));
            }
        }
        assert forall|x: u32|
            self.valid(x) && !xs.insert(x0).contains(x) implies #[trigger] self.cluster_same(
            d,
            d3,
            x,
        ) by {
            assert(self.cluster_same(d, d1, x));
            assert(self.cluster_same(d1, d2, x));
            assert(self.cluster_same(d2, d3, x));
            assert forall|t: int| 0 <= t < self.sectors_per_cluster implies #[trigger] fat::fetched(
                d3,
                self.sector_of(x, t),
            ) == fat::fetched(d, self.sector_of(x, t)) by {
                assert(fat::fetched(d1, self.sector_of(x, t)) == fat::fetched(d, self.sector_of(x, t)));
                let mid = fat::fetched(d2, self.sector_of(x, t));
            }
        }
    }

    /// The place that a directory offers is one of its own entries.
    proof fn lemma_slot_home(self, d: DiskView, dir: u32, target: Seq<u8>) -> (at: (u32, int))
        requires
            self.wf(),
            d.wf(),
            self.slot_for(d, dir, target) is Ok,
        ensures
            ({
                let (sector, offset, old_first) = self.slot_for(d, dir, target)->Ok_0;
                &&& self.chain_of(d, dir).contains(at.0)
                &&& self.valid(at.0)
                &&& 0 <= at.1 < self.sectors_per_cluster
                &&& sector == self.sector_of(at.0, at.1)
                &&& offset % 32 == 0
                &&& offset / 32 < 16
                &&& self.valid(dir)
            }),
    {
        let xs = self.chain_of(d, dir);
        self.lemma_chain_of(d, dir);
        self.lemma_scan_reports(d, xs, dir, 0, (self.cluster_count - 1) as nat, target, None);
        let (sector, offset, old_first) = self.slot_for(d, dir, target)->Ok_0;
        let index = offset / 32;
        assert(self.slot_at(d, xs, sector, index));
        let (x, t) = choose|x: u32, t: int|
            xs.contains(x) && self.valid(x) && 0 <= t < self.sectors_per_cluster && sector
                == #[trigger] self.sector_of(x, t);
        (x, t)
    }

    /// Stored contents survive the writing of the entry and the freeing of the old chain.
    proof fn lemma_content_stays(
        self,
        d: DiskView,
        d2: DiskView,
        d3: DiskView,
        x0: u32,
        old_first: Option<u32>,
        data: Seq<u8>,
    )
        requires
            self.sound(),
            d.wf(),
            readable(d),
            0 < data.len() <= u32::MAX,
            self.content_stored(d, data).1 is Ok,
            !self.free_clusters(d).contains(x0),
            old_first matches Some(f) ==> self.chain_of(d, f).disjoint(self.free_clusters(d)),
            forall|x: u32|
                self.valid(x) && x != x0 ==> #[trigger] self.cluster_same(
                    self.content_stored(d, data).0,
                    d2,
                    x,
                ),
            self.agree_off(d2, d3, self.olds(d, old_first)),
        ensures
            self.chain_data(d3, self.content_stored(d, data).1->Ok_0, data.len()) == Ok::<
                Seq<u8>,
                FatError,
            >(data),
    {
        self.lemma_confined_content(d, data);
        let (d1, r) = self.content_stored(d, data);
        let first = r->Ok_0;
        let cs = self.lemma_content_reads_back(d, data);
        let fresh = Set::new(|x: u32| cs.contains(x));
        self.lemma_marks_invalid();
        assert forall|x: u32|
            #![trigger self.next(d1, x)]
            fresh.contains(x) && self.valid(x) implies (self.next(d1, x) matches Ok(n)
            ==> self.valid(n) ==> fresh.contains(n)) by {
            let i = choose|i: int| 0 <= i < cs.len() && cs[i] == x;
            assert(self.next(d1, cs[i]) is Ok);
        }
        assert forall|x: u32| fresh.contains(x) && self.valid(x) implies #[trigger] self.cluster_same(
            d1,
            d3,
            x,
        ) by {
            let i = choose|i: int| 0 <= i < cs.len() && cs[i] == x;
            self.lemma_linked_free(d, d1, cs, i);
            assert(x != x0);
            assert(self.cluster_same(d1, d2, x));
            assert(self.cluster_same(d2, d3, x));
            assert forall|t: int| 0 <= t < self.sectors_per_cluster implies #[trigger] fat::fetched(
                d3,
                self.sector_of(x, t),
            ) == fat::fetched(d1, self.sector_of(x, t)) by {
                let mid = fat::fetched(d2, self.sector_of(x, t));
            }
        }
        assert(fresh.contains(cs[0]));
        self.lemma_chain_data_frame(d1, d3, fresh, first, data.len());
    }

    /// The disk when a file of the 8.3 name `target` has just got its entry.
    pub open spec fn entered(self, d: DiskView, dir: u32, target: Seq<u8>, data: Seq<u8>) -> (
        DiskView,
        Result<(), FatError>,
    ) {
        let (sector, offset, _) = self.slot_for(d, dir, target)->Ok_0;
        let (d1, r) = self.content_stored(d, data);
        Self::dir_entry_written(
            d1,
            sector,
            offset as int,
            fat::entry_bytes(target, ATTR_ARCHIVE, r->Ok_0, data.len() as u32),
        )
    }

    /// A file can be put into a directory: no chain is crossed with another.
    pub open spec fn put_sound(self, d: DiskView, dir: u32, target: Seq<u8>) -> bool {
        self.slot_for(d, dir, target) matches Ok((_, _, old_first)) ==> {
            &&& self.chain_of(d, dir).disjoint(self.replaced(d, old_first))
            &&& old_first matches Some(f) ==> self.chain_of(d, f).disjoint(self.free_clusters(d))
        }
    }

    /// Once a file has its entry, its old clusters are freed and nothing else changes.
    proof fn lemma_put_done(self, d: DiskView, dir: u32, target: Seq<u8>, data: Seq<u8>)
        requires
            self.sound(),
            d.wf(),
            self.put_sound(d, dir, target),
            self.file_put(d, dir, target, data).1 is Ok,
        ensures
            ({
                let old_first = self.slot_for(d, dir, target)->Ok_0.2;
                let d2 = self.entered(d, dir, target, data).0;
                let d3 = self.file_put(d, dir, target, data).0;
                self.keeps(d2, self.olds(d, old_first), d2, d3)
            }),
    {
        let home = self.chain_of(d, dir);
        self.lemma_chain_of(d, dir);
        let (sector, offset, old_first) = self.slot_for(d, dir, target)->Ok_0;
        let (x0, t0) = self.lemma_slot_home(d, dir, target);
        let index = offset as int / 32;
        assert(offset == 32 * index);
        self.lemma_confined_content(d, data);
        let (d1, r) = self.content_stored(d, data);
        let entry = fat::entry_bytes(target, ATTR_ARCHIVE, r->Ok_0, data.len() as u32);
        self.lemma_entry_written(d1, x0, t0, sector, index, entry);
        let d2 = self.entered(d, dir, target, data).0;
        self.lemma_olds_freed(d, d1, d2, old_first, home, x0);
    }

    /// The entry is one write.
    proof fn lemma_entered_step(self, d: DiskView, dir: u32, target: Seq<u8>, data: Seq<u8>)
        requires
            self.entered(d, dir, target, data).1 is Ok,
        ensures
            ({
                let d1 = self.content_stored(d, data).0;
                let d2 = self.entered(d, dir, target, data).0;
                d2.log.len() == d1.log.len() + 1 && d2.undone() == d1.bare() && d2.last_logged()
            }),
    {
        let (sector, offset, _) = self.slot_for(d, dir, target)->Ok_0;
        let (d1, r) = self.content_stored(d, data);
        let entry = fat::entry_bytes(target, ATTR_ARCHIVE, r->Ok_0, data.len() as u32);
        let buf = fat::fetched(d1, sector as int)->Ok_0;
        virtio_blk::lemma_write_undone(
            d1,
            sector as int,
            util::splice(buf, offset as int, entry),
        );
    }

    /// What a file that has its entry leaves, whether or not its old clusters are freed: the entry
    /// of the file, its contents, and everything else as it was.
    #[verifier::spinoff_prover]
    #[verifier::rlimit(60)]
    proof fn lemma_put_file(
        self,
        d: DiskView,
        dir: u32,
        target: Seq<u8>,
        data: Seq<u8>,
        d3: DiskView,
    ) -> (at: u32)
        requires
            self.sound(),
            d.wf(),
            readable(d),
            findable(target),
            data.len() <= u32::MAX,
            self.put_sound(d, dir, target),
            self.file_put(d, dir, target, data).1 is Ok,
            self.agree_off(
                self.entered(d, dir, target, data).0,
                d3,
                self.olds(d, self.slot_for(d, dir, target)->Ok_0.2),
            ),
        ensures
            ({
                let (sector, offset, old_first) = self.slot_for(d, dir, target)->Ok_0;
                let first = self.content_stored(d, data).1->Ok_0;
                let entry = fat::entry_bytes(target, ATTR_ARCHIVE, first, data.len() as u32);
                &&& offset % 32 == 0
                &&& self.valid(dir)
                &&& self.scan_dir(d3, dir, target) matches Ok((DirHit::Found { entry: e, .. }, _))
                    && e == (DirEntry { first_cluster: first, size: data.len() as u32, is_dir: false })
                &&& self.chain_data(d3, first, data.len()) == Ok::<Seq<u8>, FatError>(data)
                &&& forall|x: u32|
                    self.valid(x) && !self.replaced(d, old_first).contains(x)
                        ==> #[trigger] self.cluster_but_slot(
                        d,
                        d3,
                        x,
                        sector,
                        offset as int / 32,
                        entry,
                    )
                &&& self.agree_off(d, d3, self.replaced(d, old_first).insert(at))
                &&& self.chain_of(d, dir).contains(at)
            }),
    {
        let home = self.chain_of(d, dir);
        self.lemma_chain_of(d, dir);
        let (sector, offset, old_first) = self.slot_for(d, dir, target)->Ok_0;
        let (x0, t0) = self.lemma_slot_home(d, dir, target);
        self.lemma_scan_dir_indices(d, dir, target);
        let index = offset as int / 32;
        assert(offset == 32 * index);
        self.lemma_confined_content(d, data);
        let (d1, r) = self.content_stored(d, data);
        let first = r->Ok_0;
        let size = data.len() as u32;
        let entry = fat::entry_bytes(target, ATTR_ARCHIVE, first, size);
        let (d2, w) = Self::dir_entry_written(d1, sector, offset as int, entry);
        self.lemma_entry_written(d1, x0, t0, sector, index, entry);
        self.lemma_put_effect(d, d1, d2, d3, old_first, home, x0, sector, index, entry);
        self.lemma_put_found(
            d,
            d3,
            home,
            dir,
            0,
            (self.cluster_count - 1) as nat,
            (sector, index),
            target,
            (ATTR_ARCHIVE, first, size),
        );
        if data.len() > 0 {
            self.lemma_content_stays(d, d2, d3, x0, old_first, data);
        } else {
            assert(data =~= Seq::<u8>::empty());
        }
        x0
    }

    /// The clusters of a chain that starts in clusters that were free were free.
    proof fn lemma_linked_free(self, d: DiskView, d1: DiskView, cs: Seq<u32>, i: int)
        requires
            self.sound(),
            self.confined(d, d1),
            self.linked(d1, cs),
            self.free_clusters(d).contains(cs[0]),
            0 <= i < cs.len(),
        ensures
            self.free_clusters(d).contains(cs[i]),
        decreases i,
    {
        if i > 0 {
            self.lemma_linked_free(d, d1, cs, i - 1);
            let link = self.next(d1, cs[i - 1]);
        }
    }

    /// One step of a trail that passes by what changed: a directory keeps clear of `xs`, is
    /// `home` itself or apart from it, and the entry found is not the one that is rewritten.
    pub open spec fn step_passes(
        self,
        d: DiskView,
        c: u32,
        name: Seq<u8>,
        xs: Set<u32>,
        home: u32,
        slot: (u32, int),
    ) -> bool {
        &&& self.chain_of(d, c).disjoint(xs)
        &&& self.chain_of(d, c).disjoint(self.chain_of(d, home)) || {
            &&& c == home
            &&& self.scan_dir(d, c, fat::name_83(name)) matches Ok(
                (DirHit::Found { sector, index, .. }, _),
            ) ==> (sector, index as int) != slot
        }
    }

    /// An entry that is found in a step that passes by what changed is found again.
    proof fn lemma_step_beside(
        self,
        d: DiskView,
        d3: DiskView,
        c: u32,
        comp: Seq<u8>,
        xs: Set<u32>,
        home: u32,
        at: u32,
        slot: (u32, int),
        target: Seq<u8>,
        entry: Seq<u8>,
    )
        requires
            self.sound(),
            d.wf(),
            forall|name: Seq<u8>| name != target ==> #[trigger] stands_aside(entry, name),
            0 <= slot.1 < 16,
            self.agree_off(d, d3, xs.insert(at)),
            self.chain_of(d, home).contains(at),
            forall|x: u32|
                self.valid(x) && !xs.contains(x) ==> #[trigger] self.cluster_but_slot(
                    d,
                    d3,
                    x,
                    slot.0,
                    slot.1,
                    entry,
                ),
            match self.slot_for(d, home, target) {
                Ok((sector, offset, _)) => slot == (sector, offset as int / 32),
                Err(_) => false,
            },
            self.step_passes(d, c, comp, xs, home, slot),
            self.found_in_dir(d, c, comp) matches Ok(Some(_)),
        ensures
            self.found_in_dir(d3, c, comp) == self.found_in_dir(d, c, comp),
    {
        let name = fat::name_83(comp);
        let here = self.chain_of(d, c);
        self.lemma_chain_of(d, c);
        if here.disjoint(self.chain_of(d, home)) {
            self.lemma_dir_frame(d, d3, xs.insert(at), c, name);
        } else {
            self.lemma_scan_dir_found(d, c, name);
            if name == target {
                assert(false);
            }
            self.lemma_found_beside(
                d,
                d3,
                here,
                c,
                0,
                (self.cluster_count - 1) as nat,
                name,
                None,
                None,
                slot,
                entry,
            );
        }
    }

    /// The directories that are passed for the components `comps`, from cluster `c` on, stay as
    /// they are when a file is put into entry `index` of `sector` of the directory `home` and the
    /// clusters `xs` change: they keep clear of `xs`, each is `home` itself or apart from it, and
    /// the entry is none of those that lead on.
    pub open spec fn trail_passes(
        self,
        d: DiskView,
        c: u32,
        comps: Seq<Seq<u8>>,
        xs: Set<u32>,
        home: u32,
        slot: (u32, int),
    ) -> bool
        decreases comps.len(),
    {
        comps.len() > 0 ==> {
            &&& self.step_passes(d, c, comps[0], xs, home, slot)
            &&& (self.found_in_dir(d, c, comps[0]) matches Ok(Some(entry)) ==> entry.is_dir
                ==> self.trail_passes(d, entry.first_cluster, comps.skip(1), xs, home, slot))
        }
    }

    /// A trail that passes by what changed leads where it led.
    proof fn lemma_descend_beside(
        self,
        d: DiskView,
        d3: DiskView,
        c: u32,
        comps: Seq<Seq<u8>>,
        xs: Set<u32>,
        home: u32,
        at: u32,
        slot: (u32, int),
        target: Seq<u8>,
        entry: Seq<u8>,
    )
        requires
            self.sound(),
            d.wf(),
            forall|name: Seq<u8>| name != target ==> #[trigger] stands_aside(entry, name),
            0 <= slot.1 < 16,
            self.agree_off(d, d3, xs.insert(at)),
            self.chain_of(d, home).contains(at),
            forall|x: u32|
                self.valid(x) && !xs.contains(x) ==> #[trigger] self.cluster_but_slot(
                    d,
                    d3,
                    x,
                    slot.0,
                    slot.1,
                    entry,
                ),
            match self.slot_for(d, home, target) {
                Ok((sector, offset, _)) => slot == (sector, offset as int / 32),
                Err(_) => false,
            },
            self.trail_passes(d, c, comps, xs, home, slot),
            self.descend(d, c, comps) is Ok,
        ensures
            self.descend(d3, c, comps) == self.descend(d, c, comps),
        decreases comps.len(),
    {
        if comps.len() > 0 {
            self.lemma_step_beside(d, d3, c, comps[0], xs, home, at, slot, target, entry);
            let next = self.found_in_dir(d, c, comps[0])->Ok_0->0;
            self.lemma_descend_beside(
                d,
                d3,
                next.first_cluster,
                comps.skip(1),
                xs,
                home,
                at,
                slot,
                target,
                entry,
            );
        }
    }

    /// An entry that is found in a step that passes by a file that was put is found again.
    proof fn lemma_step_passes(
        self,
        d: DiskView,
        d3: DiskView,
        c: u32,
        comp: Seq<u8>,
        xs: Set<u32>,
        home: u32,
        at: u32,
        slot: (u32, int),
        target: Seq<u8>,
        fields: (u8, u32, u32),
    )
        requires
            self.sound(),
            d.wf(),
            findable(target),
            plain_attr(fields.0),
            0 <= slot.1 < 16,
            self.agree_off(d, d3, xs.insert(at)),
            self.chain_of(d, home).contains(at),
            forall|x: u32|
                self.valid(x) && !xs.contains(x) ==> #[trigger] self.cluster_but_slot(
                    d,
                    d3,
                    x,
                    slot.0,
                    slot.1,
                    fat::entry_bytes(target, fields.0, fields.1, fields.2),
                ),
            match self.slot_for(d, home, target) {
                Ok((sector, offset, _)) => slot == (sector, offset as int / 32),
                Err(_) => false,
            },
            self.step_passes(d, c, comp, xs, home, slot),
            self.found_in_dir(d, c, comp) matches Ok(Some(_)),
        ensures
            self.found_in_dir(d3, c, comp) == self.found_in_dir(d, c, comp),
    {
        let entry = fat::entry_bytes(target, fields.0, fields.1, fields.2);
        lemma_entry_stands_aside(target, fields);
        self.lemma_step_beside(d, d3, c, comp, xs, home, at, slot, target, entry);
    }

    /// A trail that passes by a file that was put leads where it led.
    proof fn lemma_descend_passes(
        self,
        d: DiskView,
        d3: DiskView,
        c: u32,
        comps: Seq<Seq<u8>>,
        xs: Set<u32>,
        home: u32,
        at: u32,
        slot: (u32, int),
        target: Seq<u8>,
        fields: (u8, u32, u32),
    )
        requires
            self.sound(),
            d.wf(),
            findable(target),
            plain_attr(fields.0),
            0 <= slot.1 < 16,
            self.agree_off(d, d3, xs.insert(at)),
            self.chain_of(d, home).contains(at),
            forall|x: u32|
                self.valid(x) && !xs.contains(x) ==> #[trigger] self.cluster_but_slot(
                    d,
                    d3,
                    x,
                    slot.0,
                    slot.1,
                    fat::entry_bytes(target, fields.0, fields.1, fields.2),
                ),
            match self.slot_for(d, home, target) {
                Ok((sector, offset, _)) => slot == (sector, offset as int / 32),
                Err(_) => false,
            },
            self.trail_passes(d, c, comps, xs, home, slot),
            self.descend(d, c, comps) is Ok,
        ensures
            self.descend(d3, c, comps) == self.descend(d, c, comps),
    {
        let entry = fat::entry_bytes(target, fields.0, fields.1, fields.2);
        lemma_entry_stands_aside(target, fields);
        self.lemma_descend_beside(d, d3, c, comps, xs, home, at, slot, target, entry);
    }

    /// Entries are found in valid directories, at one of the positions of a sector.
    proof fn lemma_scan_dir_found(self, d: DiskView, dir: u32, target: Seq<u8>)
        requires
            self.wf(),
            d.wf(),
        ensures
            self.scan_dir(d, dir, target) matches Ok((DirHit::Found { index, .. }, _)) ==> self.valid(
                dir,
            ) && index < 16,
    {
        self.lemma_scan_dir_indices(d, dir, target);
    }

    /// The volume is in order as far as writing to `path` goes. The directory that is to hold the
    /// file and the chain of the file that is replaced hold no free cluster and are apart; the
    /// directories passed on the way stay as they are.
    pub open spec fn write_sound(self, d: DiskView, path: Seq<u8>) -> bool {
        let comps = path::components(path);
        let target = fat::name_83(comps.last());
        comps.len() > 0 ==> (self.parent_of(d, path) matches Ok(dir) ==> (self.slot_for(
            d,
            dir,
            target,
        ) matches Ok((sector, offset, old_first)) ==> {
            &&& self.put_sound(d, dir, target)
            &&& self.trail_passes(
                d,
                self.root_cluster,
                comps.drop_last(),
                self.replaced(d, old_first),
                dir,
                (sector, offset as int / 32),
            )
        }))
    }
}

impl Fat32 {
    /// What was written to a file reads back once the file has its entry.
    proof fn lemma_written_reads_back(self, d: DiskView, path: Seq<u8>, data: Seq<u8>, d3: DiskView)
        requires
            self.sound(),
            d.wf(),
            readable(d),
            data.len() <= u32::MAX,
            findable(fat::name_83(path::components(path).last())),
            self.write_sound(d, path),
            self.file_written(d, path, data).1 is Ok,
            ({
                let target = fat::name_83(path::components(path).last());
                let dir = self.parent_of(d, path)->Ok_0;
                self.agree_off(
                    self.entered(d, dir, target, data).0,
                    d3,
                    self.olds(d, self.slot_for(d, dir, target)->Ok_0.2),
                )
            }),
        ensures
            self.file_read(d3, path) == Ok::<Seq<u8>, FatError>(data),
    {
        let comps = path::components(path);
        let target = fat::name_83(comps.last());
        let dir = self.parent_of(d, path)->Ok_0;
        let (sector, offset, old_first) = self.slot_for(d, dir, target)->Ok_0;
        let at = self.lemma_put_file(d, dir, target, data, d3);
        let first = self.content_stored(d, data).1->Ok_0;
        self.lemma_slot_home(d, dir, target);
        self.lemma_descend_passes(
            d,
            d3,
            self.root_cluster,
            comps.drop_last(),
            self.replaced(d, old_first),
            dir,
            at,
            (sector, offset as int / 32),
            target,
            (ATTR_ARCHIVE, first, data.len() as u32),
        );
    }
}

/// What was written to a file reads back. The disk must be readable, the length must fit the
/// size field, the volume must be in order, and the first byte of the 8.3 name must be none of
/// the marks for a deleted entry and for the end of a directory, since an entry of such a name
/// cannot be found again.
pub proof fn law_written_file_reads_back(v: Fat32, d: DiskView, path: Seq<u8>, data: Seq<u8>)
    requires
        v.sound(),
        d.wf(),
        readable(d),
        data.len() <= u32::MAX,
        findable(fat::name_83(path::components(path).last())),
        v.write_sound(d, path),
        v.file_written(d, path, data).1 is Ok,
    ensures
        v.file_read(v.file_written(d, path, data).0, path) == Ok::<Seq<u8>, FatError>(data),
{
    let target = fat::name_83(path::components(path).last());
    let dir = v.parent_of(d, path)->Ok_0;
    v.lemma_put_done(d, dir, target, data);
    v.lemma_written_reads_back(d, path, data, v.file_written(d, path, data).0);
}


impl Fat32 {
    /// The last step of a trail.
    proof fn lemma_trail_last(
        self,
        d: DiskView,
        c: u32,
        comps: Seq<Seq<u8>>,
        xs: Set<u32>,
        home: u32,
        slot: (u32, int),
    )
        requires
            comps.len() > 0,
            self.trail_passes(d, c, comps, xs, home, slot),
            self.descend(d, c, comps.drop_last()) is Ok,
        ensures
            self.trail_passes(d, c, comps.drop_last(), xs, home, slot),
            self.step_passes(
                d,
                self.descend(d, c, comps.drop_last())->Ok_0,
                comps.last(),
                xs,
                home,
                slot,
            ),
        decreases comps.len(),
    {
        let inner = comps.drop_last();
        if inner.len() > 0 {
            let entry = self.found_in_dir(d, c, comps[0])->Ok_0->0;
            assert(inner.skip(1) =~= comps.skip(1).drop_last());
            self.lemma_trail_last(d, entry.first_cluster, comps.skip(1), xs, home, slot);
        }
    }

    /// Everything that a read of `other` looks at stays as it is when `path` is written.
    pub open spec fn apart_from_write(self, d: DiskView, path: Seq<u8>, other: Seq<u8>) -> bool {
        let target = fat::name_83(path::components(path).last());
        self.parent_of(d, path) matches Ok(dir) ==> (self.slot_for(d, dir, target) matches Ok(
            (sector, offset, old_first),
        ) ==> {
            let xs = self.replaced(d, old_first);
            &&& self.trail_passes(
                d,
                self.root_cluster,
                path::components(other),
                xs,
                dir,
                (sector, offset as int / 32),
            )
            &&& (self.entry_of(d, other) matches Ok(entry) ==> !entry.is_dir ==> {
                &&& self.chain_of(d, entry.first_cluster).disjoint(xs)
                &&& self.chain_of(d, entry.first_cluster).disjoint(self.chain_of(d, dir))
            })
        })
    }
}

impl Fat32 {
    /// Every other file is as it was once a file has its entry.
    proof fn lemma_write_keeps(
        self,
        d: DiskView,
        path: Seq<u8>,
        data: Seq<u8>,
        other: Seq<u8>,
        d3: DiskView,
    )
        requires
            self.sound(),
            d.wf(),
            readable(d),
            data.len() <= u32::MAX,
            findable(fat::name_83(path::components(path).last())),
            self.write_sound(d, path),
            self.file_written(d, path, data).1 is Ok,
            self.entry_of(d, other) is Ok,
            self.apart_from_write(d, path, other),
            ({
                let target = fat::name_83(path::components(path).last());
                let dir = self.parent_of(d, path)->Ok_0;
                self.agree_off(
                    self.entered(d, dir, target, data).0,
                    d3,
                    self.olds(d, self.slot_for(d, dir, target)->Ok_0.2),
                )
            }),
        ensures
            self.entry_of(d3, other) == self.entry_of(d, other),
            self.file_read(d3, other) == self.file_read(d, other),
    {
        let target = fat::name_83(path::components(path).last());
        let dir = self.parent_of(d, path)->Ok_0;
        let (sector, offset, old_first) = self.slot_for(d, dir, target)->Ok_0;
        let slot = (sector, offset as int / 32);
        let xs = self.replaced(d, old_first);
        let at = self.lemma_put_file(d, dir, target, data, d3);
        let fields = (ATTR_ARCHIVE, self.content_stored(d, data).1->Ok_0, data.len() as u32);
        self.lemma_slot_home(d, dir, target);
        let comps = path::components(other);
        self.lemma_trail_last(d, self.root_cluster, comps, xs, dir, slot);
        self.lemma_descend_passes(
            d,
            d3,
            self.root_cluster,
            comps.drop_last(),
            xs,
            dir,
            at,
            slot,
            target,
            fields,
        );
        let home = self.parent_of(d, other)->Ok_0;
        self.lemma_step_passes(d, d3, home, comps.last(), xs, dir, at, slot, target, fields);
        let entry = self.entry_of(d, other)->Ok_0;
        if !entry.is_dir {
            let cs = self.chain_of(d, entry.first_cluster);
            self.lemma_chain_of(d, entry.first_cluster);
            self.lemma_chain_data_frame(d, d3, cs, entry.first_cluster, entry.size as nat);
        }
    }
}

/// Writing one file leaves every other file as it was.
pub proof fn law_write_keeps_other_files(
    v: Fat32,
    d: DiskView,
    path: Seq<u8>,
    data: Seq<u8>,
    other: Seq<u8>,
)
    requires
        v.sound(),
        d.wf(),
        readable(d),
        data.len() <= u32::MAX,
        findable(fat::name_83(path::components(path).last())),
        v.write_sound(d, path),
        v.file_written(d, path, data).1 is Ok,
        v.entry_of(d, other) is Ok,
        v.apart_from_write(d, path, other),
    ensures
        v.entry_of(v.file_written(d, path, data).0, other) == v.entry_of(d, other),
        v.file_read(v.file_written(d, path, data).0, other) == v.file_read(d, other),
{
    let target = fat::name_83(path::components(path).last());
    let dir = v.parent_of(d, path)->Ok_0;
    v.lemma_put_done(d, dir, target, data);
    v.lemma_write_keeps(d, path, data, other, v.file_written(d, path, data).0);
}

impl Fat32 {
    /// A trail that passes by what a write changes keeps clear of it.
    proof fn lemma_passes_clear(
        self,
        d: DiskView,
        c: u32,
        comps: Seq<Seq<u8>>,
        xs: Set<u32>,
        home: u32,
        slot: (u32, int),
        fewer: Set<u32>,
    )
        requires
            self.trail_passes(d, c, comps, xs, home, slot),
            fewer.subset_of(xs),
        ensures
            self.trail_clear(d, c, comps, fewer),
        decreases comps.len(),
    {
        if comps.len() > 0 {
            if let Ok(Some(entry)) = self.found_in_dir(d, c, comps[0]) {
                if entry.is_dir {
                    let next = entry.first_cluster;
                    self.lemma_passes_clear(d, next, comps.skip(1), xs, home, slot, fewer);
                }
            }
        }
    }

    /// A trail that keeps clear of clusters, and whose last directory does.
    proof fn lemma_trail_clear_on(self, d: DiskView, c: u32, comps: Seq<Seq<u8>>, xs: Set<u32>)
        requires
            comps.len() > 0,
            self.trail_clear(d, c, comps.drop_last(), xs),
            self.descend(d, c, comps.drop_last()) matches Ok(dir) && self.chain_of(
                d,
                dir,
            ).disjoint(xs),
            self.found_in_dir(
                d,
                self.descend(d, c, comps.drop_last())->Ok_0,
                comps.last(),
            ) is Ok,
        ensures
            self.trail_clear(d, c, comps, xs),
        decreases comps.len(),
    {
        let inner = comps.drop_last();
        if inner.len() > 0 {
            let entry = self.found_in_dir(d, c, comps[0])->Ok_0->0;
            assert(inner[0] == comps[0]);
            assert(inner.skip(1) =~= comps.skip(1).drop_last());
            self.lemma_trail_clear_on(d, entry.first_cluster, comps.skip(1), xs);
        } else {
            assert(comps.skip(1).len() == 0);
            if let Ok(Some(entry)) = self.found_in_dir(d, c, comps[0]) {
                assert(self.trail_clear(d, entry.first_cluster, comps.skip(1), xs));
            }
        }
    }

    /// While the contents of a file are stored, the file itself and those that are apart from the
    /// write keep clear of what changes.
    proof fn lemma_write_clear(self, d: DiskView, path: Seq<u8>, other: Seq<u8>)
        requires
            self.write_sound(d, path),
            self.parent_of(d, path) is Ok,
            self.slot_for(
                d,
                self.parent_of(d, path)->Ok_0,
                fat::name_83(path::components(path).last()),
            ) is Ok,
        ensures
            self.path_clear(d, path, self.free_clusters(d)),
            self.apart_from_write(d, path, other) ==> self.path_clear(
                d,
                other,
                self.free_clusters(d),
            ),
    {
        let comps = path::components(path);
        let target = fat::name_83(comps.last());
        let dir = self.parent_of(d, path)->Ok_0;
        let (sector, offset, old_first) = self.slot_for(d, dir, target)->Ok_0;
        let slot = (sector, offset as int / 32);
        let xs = self.replaced(d, old_first);
        let free = self.free_clusters(d);
        let root = self.root_cluster;
        self.lemma_passes_clear(d, root, comps.drop_last(), xs, dir, slot, free);
        self.lemma_trail_clear_on(d, root, comps, free);
        if self.apart_from_write(d, path, other) {
            self.lemma_passes_clear(d, root, path::components(other), xs, dir, slot, free);
        }
    }
}

impl Fat32 {
    /// A file that is put changes free clusters only, then its entry, and then its old clusters
    /// only.
    proof fn lemma_put_steps(self, d: DiskView, dir: u32, target: Seq<u8>, data: Seq<u8>, k: int)
        requires
            self.sound(),
            d.wf(),
            self.put_sound(d, dir, target),
            self.file_put(d, dir, target, data).1 is Ok,
            d.log.len() <= k,
        ensures
            ({
                let now = self.file_put(d, dir, target, data).0.at_step(k);
                let old_first = self.slot_for(d, dir, target)->Ok_0.2;
                ||| self.agree_off(d, now, self.free_clusters(d))
                ||| self.agree_off(
                    self.entered(d, dir, target, data).0,
                    now,
                    self.olds(d, old_first),
                )
            }),
    {
        let d3 = self.file_put(d, dir, target, data).0;
        let d1 = self.content_stored(d, data).0;
        let d2 = self.entered(d, dir, target, data).0;
        let olds = self.olds(d, self.slot_for(d, dir, target)->Ok_0.2);
        let free = self.free_clusters(d);
        self.lemma_confined_content(d, data);
        self.lemma_put_done(d, dir, target, data);
        self.lemma_entered_step(d, dir, target, data);
        if k <= d1.log.len() {
            self.lemma_keeps_from(d2, olds, d2, d3, k);
            assert(d2.at_step(k) == d1.bare().at_step(k));
            assert(d1.bare().undone() == d1.undone());
            assert(d3.at_step(k) == d1.at_step(k));
            self.lemma_keeps_at(d, free, d, d1, k);
        } else {
            self.lemma_keeps_at(d2, olds, d2, d3, k);
        }
    }

    /// What a write has changed when `k` of the writes in the log were made.
    proof fn lemma_write_steps(self, d: DiskView, path: Seq<u8>, data: Seq<u8>, k: int)
        requires
            self.sound(),
            d.wf(),
            self.write_sound(d, path),
            d.log.len() <= k,
        ensures
            ({
                let (d3, r) = self.file_written(d, path, data);
                let now = d3.at_step(k);
                let target = fat::name_83(path::components(path).last());
                let dir = self.parent_of(d, path)->Ok_0;
                let old_first = self.slot_for(d, dir, target)->Ok_0.2;
                d.alike(now) || {
                    &&& self.parent_of(d, path) is Ok
                    &&& self.slot_for(d, dir, target) is Ok
                    &&& self.agree_off(d, now, self.free_clusters(d)) || (r is Ok && self.agree_off(
                        self.entered(d, dir, target, data).0,
                        now,
                        self.olds(d, old_first),
                    ))
                }
            }),
    {
        let (d3, r) = self.file_written(d, path, data);
        let target = fat::name_83(path::components(path).last());
        let free = self.free_clusters(d);
        if let Ok(dir) = self.parent_of(d, path) {
            if self.slot_for(d, dir, target) is Ok {
                if r is Err {
                    self.lemma_failed_put(d, dir, target, data);
                    self.lemma_keeps_at(d, free, d, d3, k);
                } else {
                    self.lemma_put_steps(d, dir, target, data, k);
                }
            }
        }
    }
}

/// A write can be cut off after any of its sectors and no file is lost: the file that is written
/// reads as it did before or holds the new contents, and every other file reads as it did. `k`
/// counts the writes in the log of the disk that were made.
pub proof fn law_write_is_safe_at_every_step(
    v: Fat32,
    d: DiskView,
    path: Seq<u8>,
    data: Seq<u8>,
    other: Seq<u8>,
    k: int,
)
    requires
        v.sound(),
        d.wf(),
        readable(d),
        data.len() <= u32::MAX,
        findable(fat::name_83(path::components(path).last())),
        v.write_sound(d, path),
        d.log.len() <= k <= v.file_written(d, path, data).0.log.len(),
    ensures
        ({
            let now = v.file_written(d, path, data).0.at_step(k);
            &&& v.file_read(now, path) == v.file_read(d, path) || v.file_read(now, path) == Ok::<
                Seq<u8>,
                FatError,
            >(data)
            &&& v.entry_of(d, other) is Ok && v.apart_from_write(d, path, other) ==> {
                &&& v.entry_of(now, other) == v.entry_of(d, other)
                &&& v.file_read(now, other) == v.file_read(d, other)
            }
        }),
{
    let (d3, r) = v.file_written(d, path, data);
    let now = d3.at_step(k);
    let target = fat::name_83(path::components(path).last());
    let free = v.free_clusters(d);
    v.lemma_write_steps(d, path, data, k);
    if d.alike(now) {
        v.lemma_read_alike(d, now, path);
        v.lemma_read_alike(d, now, other);
    } else {
        v.lemma_write_clear(d, path, other);
        if v.agree_off(d, now, free) {
            v.lemma_read_frame(d, now, free, path);
            if v.apart_from_write(d, path, other) {
                v.lemma_read_frame(d, now, free, other);
            }
        } else {
            v.lemma_written_reads_back(d, path, data, now);
            if v.entry_of(d, other) is Ok && v.apart_from_write(d, path, other) {
                v.lemma_write_keeps(d, path, data, other, now);
            }
        }
    }
}

impl Fat32 {
    /// Writing a file leaves the disk in its shape.
    proof fn lemma_file_shape(self, d: DiskView, path: Seq<u8>, data: Seq<u8>)
        requires
            self.sound(),
            d.wf(),
            self.write_sound(d, path),
        ensures
            self.file_written(d, path, data).0.wf(),
            same_shape(d, self.file_written(d, path, data).0),
    {
        let (d3, r) = self.file_written(d, path, data);
        let target = fat::name_83(path::components(path).last());
        if let Ok(dir) = self.parent_of(d, path) {
            if let Ok((sector, offset, old_first)) = self.slot_for(d, dir, target) {
                self.lemma_confined_content(d, data);
                if r is Err {
                    self.lemma_failed_put(d, dir, target, data);
                } else {
                    self.lemma_put_done(d, dir, target, data);
                }
            }
        }
    }

    /// All writes of a file are in the log.
    proof fn lemma_file_logged(self, d: DiskView, path: Seq<u8>, data: Seq<u8>)
        requires
            self.sound(),
            d.wf(),
            d.logged(),
            self.write_sound(d, path),
        ensures
            self.file_written(d, path, data).0.logged(),
            self.file_written(d, path, data).0.log.len() >= d.log.len(),
            self.file_written(d, path, data).0.at_step(d.log.len() as int) == d.bare(),
    {
        let (d3, r) = self.file_written(d, path, data);
        let target = fat::name_83(path::components(path).last());
        let free = self.free_clusters(d);
        let k = d.log.len() as int;
        if let Ok(dir) = self.parent_of(d, path) {
            if self.slot_for(d, dir, target) is Ok {
                if r is Err {
                    self.lemma_failed_put(d, dir, target, data);
                    self.lemma_keeps_logged(d, free, d, d3);
                    self.lemma_keeps_grows(d, free, d, d3);
                    self.lemma_keeps_from(d, free, d, d3, k);
                } else {
                    self.lemma_put_logged(d, dir, target, data);
                }
            }
        }
    }

    /// All writes of a file that is put are in the log.
    proof fn lemma_put_logged(self, d: DiskView, dir: u32, target: Seq<u8>, data: Seq<u8>)
        requires
            self.sound(),
            d.wf(),
            d.logged(),
            self.put_sound(d, dir, target),
            self.file_put(d, dir, target, data).1 is Ok,
        ensures
            ({
                let d3 = self.file_put(d, dir, target, data).0;
                &&& d3.logged()
                &&& d3.log.len() >= d.log.len()
                &&& d3.at_step(d.log.len() as int) == d.bare()
            }),
    {
        let k = d.log.len() as int;
        let free = self.free_clusters(d);
        let d3 = self.file_put(d, dir, target, data).0;
        let d1 = self.content_stored(d, data).0;
        let d2 = self.entered(d, dir, target, data).0;
        let olds = self.olds(d, self.slot_for(d, dir, target)->Ok_0.2);
        self.lemma_confined_content(d, data);
        self.lemma_keeps_logged(d, free, d, d1);
        self.lemma_keeps_grows(d, free, d, d1);
        self.lemma_keeps_from(d, free, d, d1, k);
        self.lemma_entered_step(d, dir, target, data);
        virtio_blk::lemma_logged_alike(d1, d1.bare());
        self.lemma_put_done(d, dir, target, data);
        self.lemma_keeps_logged(d2, olds, d2, d3);
        self.lemma_keeps_grows(d2, olds, d2, d3);
        self.lemma_keeps_from(d2, olds, d2, d3, k);
        assert(d1.bare().undone() == d1.undone());
        assert(d2.at_step(k) == d1.bare().at_step(k));
    }
}

/// Whatever a device answers while a write of a file is carried over to it, no file is lost on
/// it: the file that is written reads as it did before or holds the new contents, and every other
/// file reads as it did. That holds also where the device refuses to have a sector put back.
pub proof fn law_device_keeps_files(
    v: Fat32,
    d: DiskView,
    path: Seq<u8>,
    data: Seq<u8>,
    other: Seq<u8>,
    answers: Seq<u8>,
)
    requires
        v.sound(),
        d.wf(),
        d.log.len() == 0,
        d.data.len() <= usize::MAX,
        readable(d),
        data.len() <= u32::MAX,
        findable(fat::name_83(path::components(path).last())),
        v.write_sound(d, path),
        v.file_written(d, path, data).0.log.len() <= usize::MAX,
    ensures
        ({
            let d3 = v.file_written(d, path, data).0;
            let (w, held) = write_back::run(d.data, d3.log, answers);
            let now = d3.at_step(w.at as int);
            &&& now.data == held
            &&& v.file_read(now, path) == v.file_read(d, path) || v.file_read(now, path) == Ok::<
                Seq<u8>,
                FatError,
            >(data)
            &&& v.entry_of(d, other) is Ok && v.apart_from_write(d, path, other) ==> {
                &&& v.entry_of(now, other) == v.entry_of(d, other)
                &&& v.file_read(now, other) == v.file_read(d, other)
            }
        }),
{
    let d3 = v.file_written(d, path, data).0;
    v.lemma_file_logged(d, path, data);
    v.lemma_file_shape(d, path, data);
    write_back::law_call_is_carried_over_whole_or_not_at_all(d3, answers);
    let (w, held) = write_back::run(d.data, d3.log, answers);
    law_write_is_safe_at_every_step(v, d, path, data, other, w.at as int);
}

/// A FAT entry that was set reads the same in every copy of the FAT.
pub proof fn law_fat_copies_agree(v: Fat32, d: DiskView, c: u32, value: u32, copy: int)
    requires
        v.sound(),
        d.wf(),
        v.valid(c),
        0 <= copy < v.num_fats,
        v.entry_set(d, c, value, 0).1 is Ok,
    ensures
        fat::fetched(v.entry_set(d, c, value, 0).0, v.fat_sector(copy, c)) matches Ok(buf) && util::le32(
            buf,
            Fat32::fat_offset(c),
        ) & FAT32_ENTRY_MASK == value & FAT32_ENTRY_MASK,
{
    v.lemma_copies_agree(d, c, value, 0, copy);
}

impl Fat32 {
    /// The copies of the FAT from `from` on hold an entry that was set.
    proof fn lemma_copies_agree(self, d: DiskView, c: u32, value: u32, from: int, copy: int)
        requires
            self.sound(),
            d.wf(),
            self.valid(c),
            0 <= from <= self.num_fats,
            0 <= copy < self.num_fats,
            self.entry_set(d, c, value, from).1 is Ok,
        ensures
            copy >= from ==> (fat::fetched(self.entry_set(d, c, value, from).0, self.fat_sector(copy, c))
                matches Ok(buf) && util::le32(buf, Self::fat_offset(c)) & FAT32_ENTRY_MASK == value
                & FAT32_ENTRY_MASK),
            copy < from ==> fat::fetched(
                self.entry_set(d, c, value, from).0,
                self.fat_sector(copy, c),
            ) == fat::fetched(d, self.fat_sector(copy, c)),
        decreases self.num_fats - from,
    {
        if from < self.num_fats {
            let sector = self.fat_sector(from, c);
            let buf = fat::fetched(d, sector)->Ok_0;
            let off = Self::fat_offset(c);
            let entry = fat_write::merged(util::le32(buf, off), value);
            lemma_merged(util::le32(buf, off), value);
            util::lemma_le32_enc32(entry);
            let buf2 = util::splice(buf, off, util::enc32(entry));
            let (d1, w) = fat::stored(d, sector, buf2);
            self.lemma_fat_sector_in(from, c);
            self.lemma_fat_sector_in(copy, c);
            assert(d1.data =~= d.data.update(sector, buf2));
            assert(util::le32(buf2, off) == entry) by {
                assert(buf2[off] == util::enc32(entry)[0]);
                assert(buf2[off + 1] == util::enc32(entry)[1]);
                assert(buf2[off + 2] == util::enc32(entry)[2]);
                assert(buf2[off + 3] == util::enc32(entry)[3]);
            }
            let size = self.fat_size as int;
            if copy < from {
                assert(copy * size + size <= from * size) by (nonlinear_arith)
                    requires
                        copy + 1 <= from,
                        size >= 0,
                ;
            } else if from < copy {
                assert(from * size + size <= copy * size) by (nonlinear_arith)
                    requires
                        from + 1 <= copy,
                        size >= 0,
                ;
            }
            self.lemma_copies_agree(d1, c, value, from + 1, copy);
        }
    }

    /// The entry of cluster `c` can be read and written in one copy of the FAT.
    pub open spec fn copy_settable(self, d: DiskView, c: u32, copy: int) -> bool {
        let sector = self.fat_sector(copy, c);
        &&& d.online
        &&& sector < d.data.len()
        &&& d.rstat[sector] == 0
        &&& d.wstat[sector] == 0
    }

    /// The entry of cluster `c` can be read and written in the copies of the FAT from `from` on.
    pub open spec fn settable(self, d: DiskView, c: u32, from: int) -> bool
        decreases self.num_fats - from,
    {
        from < self.num_fats ==> self.copy_settable(d, c, from) && self.settable(d, c, from + 1)
    }

    /// Entries can be set only where all copies can be written, and there where the device is calm.
    proof fn lemma_settable(self, d: DiskView, c: u32, value: u32, from: int)
        requires
            self.sound(),
            d.wf(),
            self.valid(c),
            0 <= from <= self.num_fats,
            self.fair(d),
        ensures
            self.entry_set(d, c, value, from).1 is Ok ==> self.settable(d, c, from),
            self.calm(d) && self.settable(d, c, from) ==> self.entry_set(d, c, value, from).1 is Ok,
        decreases self.num_fats - from,
    {
        if from < self.num_fats {
            self.lemma_fat_sector_in(from, c);
            let sector = self.fat_sector(from, c);
            if let Ok(buf) = fat::fetched(d, sector) {
                let off = Self::fat_offset(c);
                let buf2 = util::splice(
                    buf,
                    off,
                    util::enc32(fat_write::merged(util::le32(buf, off), value)),
                );
                let (d1, w) = fat::stored(d, sector, buf2);
                self.lemma_stored_calm(d, sector, buf2);
                if w is Ok {
                    self.lemma_settable(d1, c, value, from + 1);
                    self.lemma_settable_same(d, d1, c, from + 1);
                }
            }
        }
    }

    /// On disks of one shape the same entries can be set.
    proof fn lemma_settable_same(self, d: DiskView, d2: DiskView, c: u32, from: int)
        requires
            same_shape(d, d2),
        ensures
            self.settable(d2, c, from) == self.settable(d, c, from),
        decreases self.num_fats - from,
    {
        if from < self.num_fats {
            self.lemma_settable_same(d, d2, c, from + 1);
        }
    }

    /// On a disk without faults entries can be read, and set where the device is calm.
    proof fn lemma_healthy_entry(self, d: DiskView, c: u32, value: u32)
        requires
            self.sound(),
            self.healthy(d),
            self.valid(c),
        ensures
            self.next(d, c) is Ok,
            self.calm(d) ==> self.entry_set(d, c, value, 0).1 is Ok,
    {
        assert(self.cluster_count * self.sectors_per_cluster >= 0) by (nonlinear_arith)
            requires
                self.cluster_count >= 0,
                self.sectors_per_cluster >= 0,
        ;
        self.lemma_fat_sector_in(0, c);
        if self.calm(d) {
            self.lemma_healthy_settable(d, c, 0);
            self.lemma_settable(d, c, value, 0);
        }
    }

    /// On a disk without faults all copies can be written.
    proof fn lemma_healthy_settable(self, d: DiskView, c: u32, from: int)
        requires
            self.sound(),
            self.healthy(d),
            self.valid(c),
            0 <= from,
        ensures
            self.settable(d, c, from),
        decreases self.num_fats - from,
    {
        if from < self.num_fats {
            assert(self.cluster_count * self.sectors_per_cluster >= 0) by (nonlinear_arith)
                requires
                    self.cluster_count >= 0,
                    self.sectors_per_cluster >= 0,
            ;
            self.lemma_fat_sector_in(from, c);
            self.lemma_healthy_settable(d, c, from + 1);
        }
    }

    /// On a disk without faults the search for a free cluster can only run out of clusters.
    proof fn lemma_healthy_first_free(self, d: DiskView, c: int)
        requires
            self.sound(),
            self.healthy(d),
            FIRST_DATA_CLUSTER <= c,
        ensures
            self.first_free(d, c) matches Err(e) ==> e == FatError::NoSpace,
        decreases FIRST_DATA_CLUSTER + self.cluster_count - c,
    {
        if c < FIRST_DATA_CLUSTER + self.cluster_count {
            self.lemma_healthy_entry(d, c as u32, 0);
            if self.next(d, c as u32) != Ok::<u32, FatError>(0) {
                self.lemma_healthy_first_free(d, c + 1);
            }
        }
    }

    /// Freeing a linked chain makes its clusters free and changes no other entry.
    proof fn lemma_freed_linked(self, d: DiskView, cs: Seq<u32>, i: int, steps: nat)
        requires
            self.sound(),
            d.wf(),
            self.calm(d),
            0 <= i < cs.len(),
            forall|k: int| i <= k < cs.len() ==> self.settable(d, #[trigger] cs[k], 0),
            forall|k: int| 0 <= k < cs.len() ==> self.valid(#[trigger] cs[k]),
            forall|k: int, j: int| 0 <= k < j < cs.len() ==> cs[k] < cs[j],
            forall|k: int|
                i <= k < cs.len() ==> self.next(d, #[trigger] cs[k]) == Ok::<u32, FatError>(
                    if k + 1 < cs.len() {
                        cs[k + 1]
                    } else {
                        FAT32_EOC
                    },
                ),
            steps >= cs.len() - i,
        ensures
            ({
                let d2 = self.freed(d, cs[i], steps).0;
                &&& d2.wf()
                &&& self.calm(d2)
                &&& self.same_but_fat(d, d2)
                &&& forall|x: u32|
                    self.valid(x) ==> #[trigger] self.next(d2, x) == (if exists|k: int|
                        i <= k < cs.len() && cs[k] == x {
                        Ok(0)
                    } else {
                        self.next(d, x)
                    })
            }),
        decreases cs.len() - i,
    {
        let c = cs[i];
        self.lemma_marks_invalid();
        self.lemma_settable(d, c, 0, 0);
        self.lemma_entry_set(d, c, 0, 0);
        self.lemma_entry_set_fair(d, c, 0, 0);
        let (d1, r) = self.entry_set(d, c, 0, 0);
        if i + 1 < cs.len() {
            assert forall|k: int| i + 1 <= k < cs.len() implies self.next(d1, #[trigger] cs[k])
                == Ok::<u32, FatError>(
                if k + 1 < cs.len() {
                    cs[k + 1]
                } else {
                    FAT32_EOC
                },
            ) by {
                assert(cs[i] < cs[k]);
                assert(self.next(d1, cs[k]) == self.next(d, cs[k]));
            }
            assert forall|k: int| i + 1 <= k < cs.len() implies self.settable(
                d1,
                #[trigger] cs[k],
                0,
            ) by {
                self.lemma_settable_same(d, d1, cs[k], 0);
            }
            self.lemma_freed_linked(d1, cs, i + 1, (steps - 1) as nat);
            let d2 = self.freed(d1, cs[i + 1], (steps - 1) as nat).0;
            assert forall|x: u32| self.valid(x) implies #[trigger] self.next(d2, x) == (
            if exists|k: int| i <= k < cs.len() && cs[k] == x {
                Ok(0)
            } else {
                self.next(d, x)
            }) by {
                if x == c {
                    assert(cs[i] == x);
                    assert(self.next(d1, c) == Ok::<u32, FatError>(0));
                } else {
                    assert(self.next(d1, x) == self.next(d, x));
                    if exists|k: int| i <= k < cs.len() && cs[k] == x {
                        let k = choose|k: int| i <= k < cs.len() && cs[k] == x;
                        assert(i + 1 <= k < cs.len() && cs[k] == x);
                    }
                }
            }
        } else {
            assert(self.freed(d1, FAT32_EOC, (steps - 1) as nat).0 == d1);
            assert forall|x: u32| self.valid(x) implies #[trigger] self.next(d1, x) == (
            if exists|k: int| i <= k < cs.len() && cs[k] == x {
                Ok(0)
            } else {
                self.next(d, x)
            }) by {
                if x == c {
                    assert(cs[i] == x);
                }
            }
        }
    }

    /// The FAT of `d` is that of `d0` but for the clusters `cs`, which were free.
    pub open spec fn fat_but(self, d0: DiskView, d: DiskView, cs: Seq<u32>) -> bool {
        forall|x: u32|
            self.valid(x) ==> if cs.contains(x) {
                #[trigger] self.next(d0, x) == Ok::<u32, FatError>(0)
            } else {
                self.next(d0, x) == self.next(d, x)
            }
    }

    /// Freeing the clusters `cs` of a chain leaves the FAT as it was before they were taken.
    proof fn lemma_freed_restores(self, d0: DiskView, d: DiskView, cs: Seq<u32>)
        requires
            self.sound(),
            d.wf(),
            self.calm(d),
            self.linked(d, cs),
            self.fat_but(d0, d, cs),
            forall|k: int| 0 <= k < cs.len() ==> self.settable(d, #[trigger] cs[k], 0),
        ensures
            ({
                let d2 = self.chain_freed(d, cs[0]).0;
                &&& d2.wf()
                &&& self.calm(d2)
                &&& self.same_but_fat(d, d2)
                &&& forall|x: u32|
                    self.valid(x) ==> #[trigger] self.next(d2, x) == self.next(d0, x)
            }),
    {
        self.lemma_linked_len(d, cs, cs.len() - 1);
        self.lemma_freed_linked(d, cs, 0, self.cluster_count as nat);
        let d2 = self.chain_freed(d, cs[0]).0;
        assert forall|x: u32| self.valid(x) implies #[trigger] self.next(d2, x) == self.next(
            d0,
            x,
        ) by {
            let start = self.next(d0, x);
            if cs.contains(x) {
                let k = choose|k: int| 0 <= k < cs.len() && cs[k] == x;
                assert(0 <= k < cs.len() && cs[k] == x);
            }
        }
    }

    /// A chain that was built of clusters that were free in `d0`.
    #[verifier::opaque]
    pub open spec fn fresh_chain(self, d0: DiskView, d: DiskView, cs: Seq<u32>) -> bool {
        &&& self.fair(d)
        &&& self.growing(d, cs)
        &&& self.fat_but(d0, d, cs)
        &&& forall|k: int| 0 <= k < cs.len() ==> self.settable(d, #[trigger] cs[k], 0)
    }

    /// Where no cluster can be taken, a chain that was to grow is freed, which leaves the FAT as it
    /// was before the chain was built.
    proof fn lemma_untaken_restores(self, d0: DiskView, d: DiskView, n: nat, cs: Seq<u32>)
        requires
            self.sound(),
            d.wf(),
            self.same_but_fat(d0, d),
            self.fresh_chain(d0, d, cs),
            self.cluster_taken(d).1 is Err,
            n > 0,
        ensures
            ({
                let (d2, r) = self.chain_grown(d, n, first_of(cs), last_of(cs));
                &&& r is Err
                &&& self.healthy(d) && self.calm(d) ==> r->Err_0 == FatError::NoSpace
                &&& self.recovers(d, r->Err_0) ==> self.same_but_fat(d0, d2) && forall|x: u32|
                    self.valid(x) ==> #[trigger] self.next(d2, x) == self.next(d0, x)
            }),
    {
        reveal(Fat32::fresh_chain);
        self.lemma_first_free(d, FIRST_DATA_CLUSTER as int);
        if self.healthy(d) {
            self.lemma_healthy_first_free(d, FIRST_DATA_CLUSTER as int);
        }
        if let Ok(c) = self.first_free(d, FIRST_DATA_CLUSTER as int) {
            self.lemma_entry_set(d, c, FAT32_EOC, 0);
            self.lemma_entry_set_fair(d, c, FAT32_EOC, 0);
            if self.healthy(d) {
                self.lemma_healthy_entry(d, c, FAT32_EOC);
            }
        }
        let (d1, t) = self.cluster_taken(d);
        assert(d.alike(d1) && d1.wf());
        if self.recovers(d, t->Err_0) {
            assert(self.calm(d1));
            self.lemma_fresh_chain_same(d0, d, d1, cs);
            if cs.len() > 0 {
                assert(self.valid(cs[0]));
                self.lemma_freed_restores(d0, d1, cs);
            } else {
                assert forall|x: u32| self.valid(x) implies #[trigger] self.next(d1, x)
                    == self.next(d0, x) by {
                    let start = self.next(d0, x);
                }
            }
        }
    }

    /// What a cluster that was taken leaves.
    proof fn lemma_taken(self, d: DiskView)
        requires
            self.sound(),
            d.wf(),
            self.fair(d),
            self.cluster_taken(d).1 is Ok,
        ensures
            ({
                let (d1, r) = self.cluster_taken(d);
                let c = r->Ok_0;
                &&& self.first_free(d, FIRST_DATA_CLUSTER as int) == Ok::<u32, FatError>(c)
                &&& self.entry_set(d, c, FAT32_EOC, 0) == (d1, Ok::<(), FatError>(()))
                &&& self.valid(c)
                &&& self.next(d, c) == Ok::<u32, FatError>(0)
                &&& self.settable(d, c, 0)
                &&& self.fair(d1)
                &&& self.calm(d) ==> self.calm(d1)
                &&& d1.wf()
                &&& self.same_but_fat(d, d1)
                &&& self.next(d1, c) == Ok::<u32, FatError>(FAT32_EOC)
                &&& forall|x: u32|
                    self.valid(x) && x != c ==> #[trigger] self.next(d1, x) == self.next(d, x)
            }),
    {
        self.lemma_marks_invalid();
        self.lemma_first_free(d, FIRST_DATA_CLUSTER as int);
        let c = self.cluster_taken(d).1->Ok_0;
        self.lemma_settable(d, c, FAT32_EOC, 0);
        self.lemma_entry_set(d, c, FAT32_EOC, 0);
        self.lemma_entry_set_fair(d, c, FAT32_EOC, 0);
    }

    /// Where a cluster that was taken cannot be linked, it and the chain are freed, which leaves the
    /// FAT as it was before the chain was built.
    proof fn lemma_unlinked_restores(self, d0: DiskView, d: DiskView, cs: Seq<u32>)
        requires
            self.sound(),
            d.wf(),
            self.same_but_fat(d0, d),
            self.fresh_chain(d0, d, cs),
            cs.len() > 0,
            self.cluster_taken(d).1 is Ok,
            self.entry_set(
                self.cluster_taken(d).0,
                cs.last(),
                self.cluster_taken(d).1->Ok_0,
                0,
            ).1 is Err,
        ensures
            ({
                let (d1, r) = self.cluster_taken(d);
                let d2 = self.entry_set(d1, cs.last(), r->Ok_0, 0).0;
                let d3 = self.chain_freed(self.chain_freed(d2, r->Ok_0).0, cs[0]).0;
                &&& self.same_but_fat(d0, d3)
                &&& forall|x: u32|
                    self.valid(x) ==> #[trigger] self.next(d3, x) == self.next(d0, x)
            }),
    {
        reveal(Fat32::fresh_chain);
        self.lemma_taken(d);
        let (d1, r) = self.cluster_taken(d);
        let c = r->Ok_0;
        assert(cs[cs.len() - 1] == cs.last());
        self.lemma_entry_set(d1, cs.last(), c, 0);
        self.lemma_entry_set_fair(d1, cs.last(), c, 0);
        let d2 = self.entry_set(d1, cs.last(), c, 0).0;
        assert(d1.alike(d2));
        let one = seq![c];
        self.lemma_settable_same(d, d2, c, 0);
        assert(self.next(d2, c) == self.next(d1, c));
        self.lemma_freed_linked(d2, one, 0, self.cluster_count as nat);
        let da = self.chain_freed(d2, c).0;
        assert forall|x: u32| self.valid(x) implies #[trigger] self.next(da, x) == self.next(d, x) by {
            assert(self.next(d2, x) == self.next(d1, x));
            if x == c {
                assert(one[0] == x);
            } else {
                assert(self.next(d1, x) == self.next(d, x));
                if exists|k: int| 0 <= k < one.len() && one[k] == x {
                    let k = choose|k: int| 0 <= k < one.len() && one[k] == x;
                    assert(false);
                }
            }
        }
        assert forall|k: int| 0 <= k < cs.len() implies self.settable(da, #[trigger] cs[k], 0) by {
            self.lemma_settable_same(d, da, cs[k], 0);
        }
        assert(self.linked(da, cs)) by {
            assert forall|k: int| 0 <= k < cs.len() implies self.next(da, #[trigger] cs[k])
                == self.next(d, cs[k]) by {}
        }
        assert(self.fat_but(d0, da, cs)) by {
            assert forall|x: u32| self.valid(x) implies if cs.contains(x) {
                #[trigger] self.next(d0, x) == Ok::<u32, FatError>(0)
            } else {
                self.next(d0, x) == self.next(da, x)
            } by {
                assert(self.next(da, x) == self.next(d, x));
            }
        }
        self.lemma_freed_restores(d0, da, cs);
    }

    /// A chain to which a cluster is appended stays one that can be freed again.
    proof fn lemma_grown_step(self, d0: DiskView, d: DiskView, n: nat, cs: Seq<u32>)
        requires
            self.sound(),
            d.wf(),
            self.same_but_fat(d0, d),
            self.fresh_chain(d0, d, cs),
            self.cluster_taken(d).1 is Ok,
            n > 0,
        ensures
            ({
                let (d1, t) = self.cluster_taken(d);
                let c = t->Ok_0;
                let more = cs.push(c);
                let d2 = self.appended(d, cs, c);
                let (e, r) = self.chain_grown(d, n, first_of(cs), last_of(cs));
                &&& cs.len() > 0 && self.entry_set(d1, cs.last(), c, 0).1 is Err ==> {
                    &&& r is Err
                    &&& self.same_but_fat(d0, e)
                    &&& forall|x: u32|
                        self.valid(x) ==> #[trigger] self.next(e, x) == self.next(d0, x)
                    &&& !self.calm(d)
                }
                &&& cs.len() == 0 || self.entry_set(d1, cs.last(), c, 0).1 is Ok ==> {
                    &&& self.chain_grown(d, n, first_of(cs), last_of(cs)) == self.chain_grown(
                        d2,
                        (n - 1) as nat,
                        first_of(more),
                        last_of(more),
                    )
                    &&& d2.wf()
                    &&& self.same_but_fat(d0, d2)
                    &&& self.fresh_chain(d0, d2, more)
                    &&& self.calm(d) ==> self.calm(d2)
                    &&& self.fair(d) && self.fair(d2)
                    &&& self.healthy(d) ==> self.healthy(d2)
                }
            }),
    {
        reveal(Fat32::fresh_chain);
        self.lemma_taken(d);
        let (d1, t) = self.cluster_taken(d);
        let c = t->Ok_0;
        if cs.len() > 0 {
            assert(cs[cs.len() - 1] == cs.last());
            assert(self.valid(cs[0]));
            self.lemma_settable_same(d, d1, cs.last(), 0);
            self.lemma_settable(d1, cs.last(), c, 0);
            self.lemma_entry_set_fair(d1, cs.last(), c, 0);
        }
        if cs.len() > 0 && self.entry_set(d1, cs.last(), c, 0).1 is Err {
            self.lemma_unlinked_restores(d0, d, cs);
        } else {
            self.lemma_appended(d, cs, c);
            let d2 = self.appended(d, cs, c);
            let more = cs.push(c);
            self.lemma_fat_but_more(d0, d, d2, cs, c);
            assert forall|k: int| 0 <= k < more.len() implies self.settable(
                d2,
                #[trigger] more[k],
                0,
            ) by {
                if k < cs.len() {
                    assert(more[k] == cs[k]);
                }
                self.lemma_settable_same(d, d2, more[k], 0);
            }
        }
    }

    /// Building a chain either succeeds, with clusters that can be freed again, or leaves the FAT
    /// as it was at the start, `d0`.
    proof fn lemma_grown_restores(self, d0: DiskView, d: DiskView, n: nat, cs: Seq<u32>) -> (all: Seq<
        u32,
    >)
        requires
            self.sound(),
            d.wf(),
            self.same_but_fat(d0, d),
            self.fresh_chain(d0, d, cs),
        ensures
            ({
                let (d2, r) = self.chain_grown(d, n, first_of(cs), last_of(cs));
                match r {
                    Err(e) => {
                        &&& self.healthy(d) && self.calm(d) ==> e == FatError::NoSpace
                        &&& self.recovers(d, e) ==> self.same_but_fat(d0, d2) && forall|x: u32|
                            self.valid(x) ==> #[trigger] self.next(d2, x) == self.next(d0, x)
                    },
                    Ok(f) => {
                        &&& d2.wf()
                        &&& self.same_but_fat(d0, d2)
                        &&& all.len() == cs.len() + n
                        &&& f == first_of(all)
                        &&& self.fresh_chain(d0, d2, all)
                        &&& self.calm(d) ==> self.calm(d2)
                    },
                }
            }),
        decreases n,
    {
        if n == 0 {
            cs
        } else {
            match self.cluster_taken(d).1 {
                Err(_) => {
                    self.lemma_untaken_restores(d0, d, n, cs);
                    cs
                },
                Ok(c) => {
                    self.lemma_grown_step(d0, d, n, cs);
                    if cs.len() > 0 && self.entry_set(
                        self.cluster_taken(d).0,
                        cs.last(),
                        c,
                        0,
                    ).1 is Err {
                        cs
                    } else {
                        let d2 = self.appended(d, cs, c);
                        self.lemma_grown_restores(d0, d2, (n - 1) as nat, cs.push(c))
                    }
                },
            }
        }
    }

    /// The clusters of a chain and one more that was free.
    proof fn lemma_fat_but_more(self, d0: DiskView, d: DiskView, d2: DiskView, cs: Seq<u32>, c: u32)
        requires
            self.fat_but(d0, d, cs),
            self.valid(c),
            self.next(d, c) == Ok::<u32, FatError>(0),
            !cs.contains(c),
            forall|x: u32|
                self.valid(x) && x != c && !cs.contains(x) ==> #[trigger] self.next(d2, x)
                    == self.next(d, x),
        ensures
            self.fat_but(d0, d2, cs.push(c)),
    {
        let more = cs.push(c);
        assert forall|x: u32| self.valid(x) implies if more.contains(x) {
            #[trigger] self.next(d0, x) == Ok::<u32, FatError>(0)
        } else {
            self.next(d0, x) == self.next(d2, x)
        } by {
            if x == c {
                assert(more[cs.len() as int] == c);
            } else if cs.contains(x) {
                let k = choose|k: int| 0 <= k < cs.len() && cs[k] == x;
                assert(more[k] == x);
            } else {
                if more.contains(x) {
                    let k = choose|k: int| 0 <= k < more.len() && more[k] == x;
                    assert(k < cs.len() && cs[k] == x);
                }
                assert(self.next(d2, x) == self.next(d, x));
            }
        }
    }

    /// Two disks that hold the same FATs.
    pub open spec fn same_fat(self, d: DiskView, d2: DiskView) -> bool {
        &&& d2.wf()
        &&& same_shape(d, d2)
        &&& forall|i: int| 0 <= i < d.data.len() && self.in_fat(i) ==> d2.data[i] == d.data[i]
    }

    /// Overwriting a sector of a cluster leaves the FATs.
    proof fn lemma_store_fat(self, d: DiskView, c: u32, s: int, bytes: Seq<u8>)
        requires
            self.sound(),
            d.wf(),
            self.valid(c),
            0 <= s < self.sectors_per_cluster,
            bytes.len() == 512,
        ensures
            self.same_fat(d, fat::stored(d, self.sector_of(c, s), bytes).0),
            self.left_fair(d, fat::stored(d, self.sector_of(c, s), bytes)),
    {
        self.lemma_sectors_apart(c, s, c, s);
        let (d2, r) = fat::stored(d, self.sector_of(c, s), bytes);
        if r is Ok {
            assert(d2.data =~= d.data.update(self.sector_of(c, s), bytes));
        }
        self.lemma_stored_calm(d, self.sector_of(c, s), bytes);
        self.lemma_sector_inside(c, s);
    }

    /// The sectors of clusters lie on a disk that holds the whole volume.
    proof fn lemma_sector_inside(self, c: u32, s: int)
        requires
            self.valid(c),
            0 <= s < self.sectors_per_cluster,
        ensures
            self.sector_of(c, s) < self.data_start_sector + self.cluster_count
                * self.sectors_per_cluster,
    {
        let per = self.sectors_per_cluster as int;
        let a = c - FIRST_DATA_CLUSTER;
        let n = self.cluster_count as int;
        assert(a * per + per <= n * per) by (nonlinear_arith)
            requires
                a + 1 <= n,
                per >= 0,
        ;
    }

    /// How an operation leaves a fair device: fair where it succeeds, calm where it fails.
    pub open spec fn left_fair(self, d: DiskView, r: (DiskView, Result<(), FatError>)) -> bool {
        &&& self.calm(d) ==> self.calm(r.0)
        &&& self.fair(d) && r.1 is Ok ==> self.fair(r.0)
        &&& self.fair(d) && r.1 is Err ==> self.calm(r.0) && r.1->Err_0 is Block
    }

    /// Filling a cluster leaves the FATs.
    proof fn lemma_cluster_written_fat(self, d: DiskView, c: u32, s: int, data: Seq<u8>)
        requires
            self.sound(),
            d.wf(),
            self.valid(c),
            0 <= s,
        ensures
            self.same_fat(d, self.cluster_written(d, c, s, data).0),
            self.left_fair(d, self.cluster_written(d, c, s, data)),
        decreases self.sectors_per_cluster - s,
    {
        if s < self.sectors_per_cluster && data.len() > 0 {
            let take = util::min_nat(data.len(), 512) as int;
            let bytes = util::splice(fat_write::zero_sector(), 0, data.take(take));
            self.lemma_store_fat(d, c, s, bytes);
            let (d2, r) = fat::stored(d, self.sector_of(c, s), bytes);
            if r is Ok {
                self.lemma_cluster_written_fat(d2, c, s + 1, data.skip(take));
            }
        }
    }

    /// Filling a chain leaves the FATs.
    proof fn lemma_data_written_fat(self, d: DiskView, c: u32, data: Seq<u8>, steps: nat)
        requires
            self.sound(),
            d.wf(),
        ensures
            self.same_fat(d, self.data_written(d, c, data, steps).0),
            self.left_fair(d, self.data_written(d, c, data, steps)),
        decreases steps,
    {
        if data.len() > 0 && self.valid(c) && steps > 0 {
            self.lemma_cluster_written_fat(d, c, 0, data);
            let (d2, r) = self.cluster_written(d, c, 0, data);
            if r is Ok {
                if self.healthy(d2) {
                    self.lemma_healthy_entry(d2, c, 0);
                }
                if let Ok(n) = self.next(d2, c) {
                    self.lemma_data_written_fat(
                        d2,
                        n,
                        data.skip(util::min_nat(data.len(), self.cluster_bytes()) as int),
                        (steps - 1) as nat,
                    );
                }
            }
        }
    }

    /// Zeroing sectors of a cluster leaves the FATs.
    proof fn lemma_zeroed_fat(self, d: DiskView, c: u32, s: int)
        requires
            self.sound(),
            d.wf(),
            self.valid(c),
            0 <= s,
        ensures
            self.same_fat(d, self.cluster_zeroed(d, c, s).0),
            self.left_fair(d, self.cluster_zeroed(d, c, s)),
        decreases self.sectors_per_cluster - s,
    {
        if s < self.sectors_per_cluster {
            self.lemma_store_fat(d, c, s, fat_write::zero_sector());
            let (d2, r) = fat::stored(d, self.sector_of(c, s), fat_write::zero_sector());
            if r is Ok {
                self.lemma_zeroed_fat(d2, c, s + 1);
            }
        }
    }

    /// A fresh chain stays one where the FATs stay as they are, and freeing it restores them.
    proof fn lemma_fresh_chain_freed(self, d0: DiskView, d: DiskView, d2: DiskView, cs: Seq<u32>)
        requires
            self.sound(),
            self.fresh_chain(d0, d, cs),
            self.same_fat(d, d2),
            self.calm(d2),
            cs.len() > 0,
        ensures
            forall|x: u32|
                self.valid(x) ==> #[trigger] self.next(self.chain_freed(d2, cs[0]).0, x) == self.next(
                    d0,
                    x,
                ),
    {
        reveal(Fat32::fresh_chain);
        self.lemma_fresh_chain_same(d0, d, d2, cs);
        self.lemma_freed_restores(d0, d2, cs);
    }

    /// Storing contents either succeeds, with a chain that can be freed again, or leaves the FAT
    /// as it was.
    proof fn lemma_content_restores(self, d: DiskView, data: Seq<u8>) -> (cs: Seq<u32>)
        requires
            self.sound(),
            d.wf(),
            self.fair(d),
        ensures
            ({
                let (d2, r) = self.content_stored(d, data);
                match r {
                    Err(e) => self.recovers(d, e) ==> forall|x: u32|
                        self.valid(x) ==> #[trigger] self.next(d2, x) == self.next(d, x),
                    Ok(first) => {
                        &&& d2.wf()
                        &&& same_shape(d, d2)
                        &&& self.fair(d2)
                        &&& self.calm(d) ==> self.calm(d2)
                        &&& first == first_of(cs)
                        &&& cs.len() == 0 ==> forall|x: u32|
                            self.valid(x) ==> #[trigger] self.next(d2, x) == self.next(d, x)
                        &&& cs.len() > 0 ==> self.fresh_chain(d, d2, cs)
                    },
                }
            }),
    {
        reveal(Fat32::fresh_chain);
        if data.len() == 0 {
            Seq::empty()
        } else {
            let n = fat_write::clusters_for(data.len(), self.cluster_bytes()) as u32;
            let cs = self.lemma_grown_restores(d, d, n as nat, Seq::empty());
            let (d1, r) = self.chain_taken(d, n as nat);
            if let Ok(first) = r {
                self.lemma_data_written_fat(d1, first, data, self.cluster_count as nat);
                let (d2, w) = self.chain_written(d1, first, data);
                if cs.len() > 0 {
                    assert(self.valid(cs[0]));
                    if w is Err {
                        self.lemma_fresh_chain_freed(d, d1, d2, cs);
                    } else {
                        self.lemma_fresh_chain_same(d, d1, d2, cs);
                    }
                } else {
                    assert(!self.valid(0));
                    assert forall|x: u32| self.valid(x) implies #[trigger] self.next(d1, x)
                        == self.next(d, x) by {
                        let start = self.next(d, x);
                    }
                }
            }
            cs
        }
    }

    /// A fresh chain stays one where the FATs stay as they are.
    proof fn lemma_fresh_chain_same(self, d0: DiskView, d: DiskView, d2: DiskView, cs: Seq<u32>)
        requires
            self.sound(),
            self.fresh_chain(d0, d, cs),
            self.same_fat(d, d2),
            self.fair(d2),
        ensures
            self.fresh_chain(d0, d2, cs),
    {
        reveal(Fat32::fresh_chain);
        assert forall|x: u32| self.valid(x) implies #[trigger] self.next(d2, x) == self.next(
            d,
            x,
        ) by {
            self.lemma_next_same(d, d2, x);
        }
        assert forall|k: int| 0 <= k < cs.len() implies self.settable(d2, #[trigger] cs[k], 0) by {
            self.lemma_settable_same(d, d2, cs[k], 0);
        }
        if cs.len() > 0 {
            assert forall|i: int| 0 <= i < cs.len() implies self.next(d2, #[trigger] cs[i])
                == Ok::<u32, FatError>(
                if i + 1 < cs.len() {
                    cs[i + 1]
                } else {
                    FAT32_EOC
                },
            ) by {
                assert(self.next(d, cs[i]) == self.next(d2, cs[i]));
            }
        }
        assert forall|x: u32| self.valid(x) implies if cs.contains(x) {
            #[trigger] self.next(d0, x) == Ok::<u32, FatError>(0)
        } else {
            self.next(d0, x) == self.next(d2, x)
        } by {
            assert(self.next(d2, x) == self.next(d, x));
        }
    }

    /// How the writing of an entry to the place that a directory offers leaves a fair device.
    proof fn lemma_slot_written_fair(
        self,
        d: DiskView,
        d1: DiskView,
        dir: u32,
        target: Seq<u8>,
        entry: Seq<u8>,
    )
        requires
            self.sound(),
            d.wf(),
            d1.wf(),
            same_shape(d, d1),
            self.fair(d1),
            self.slot_for(d, dir, target) is Ok,
            entry.len() == 32,
        ensures
            ({
                let (sector, offset, _) = self.slot_for(d, dir, target)->Ok_0;
                let (d2, w) = Self::dir_entry_written(d1, sector, offset as int, entry);
                &&& self.left_fair(d1, (d2, w))
                &&& d2.wf()
                &&& w is Err ==> d1.alike(d2)
            }),
    {
        let (sector, offset, _) = self.slot_for(d, dir, target)->Ok_0;
        let (x0, t0) = self.lemma_slot_home(d, dir, target);
        self.lemma_sector_inside(x0, t0);
        if let Ok(buf) = fat::fetched(d1, sector as int) {
            self.lemma_stored_calm(d1, sector as int, util::splice(buf, offset as int, entry));
        }
    }

    /// Where a file gets no entry its contents are freed.
    proof fn lemma_unentered_restores(self, d: DiskView, d1: DiskView, d2: DiskView, cs: Seq<u32>)
        requires
            self.sound(),
            d1.wf(),
            d2.wf(),
            d1.alike(d2),
            self.calm(d2),
            cs.len() == 0 ==> forall|x: u32|
                self.valid(x) ==> #[trigger] self.next(d1, x) == self.next(d, x),
            cs.len() > 0 ==> self.fresh_chain(d, d1, cs),
        ensures
            first_of(cs) != 0 ==> forall|x: u32|
                self.valid(x) ==> #[trigger] self.next(self.chain_freed(d2, first_of(cs)).0, x)
                    == self.next(d, x),
            first_of(cs) == 0 ==> forall|x: u32|
                self.valid(x) ==> #[trigger] self.next(d2, x) == self.next(d, x),
    {
        reveal(Fat32::fresh_chain);
        if cs.len() > 0 {
            assert(self.valid(cs[0]));
            self.lemma_fresh_chain_freed(d, d1, d2, cs);
        } else {
            assert forall|x: u32| self.valid(x) implies #[trigger] self.next(d2, x) == self.next(
                d,
                x,
            ) by {
                assert(self.next(d1, x) == self.next(d, x));
            }
        }
    }

    /// A file that gets no entry leaves the FAT as it was.
    proof fn lemma_entry_fails_restores(
        self,
        d: DiskView,
        dir: u32,
        target: Seq<u8>,
        data: Seq<u8>,
        entry: Seq<u8>,
    )
        requires
            self.sound(),
            d.wf(),
            self.fair(d),
            entry.len() == 32,
            self.slot_for(d, dir, target) is Ok,
            self.content_stored(d, data).1 is Ok,
        ensures
            ({
                let (sector, offset, _) = self.slot_for(d, dir, target)->Ok_0;
                let (d1, r) = self.content_stored(d, data);
                let (d2, w) = Self::dir_entry_written(d1, sector, offset as int, entry);
                let d3 = self.chain_freed(d2, r->Ok_0).0;
                &&& w is Err && r->Ok_0 != 0 ==> forall|x: u32|
                    self.valid(x) ==> #[trigger] self.next(d3, x) == self.next(d, x)
                &&& w is Err && r->Ok_0 == 0 ==> forall|x: u32|
                    self.valid(x) ==> #[trigger] self.next(d2, x) == self.next(d, x)
            }),
    {
        let (sector, offset, _) = self.slot_for(d, dir, target)->Ok_0;
        let cs = self.lemma_content_restores(d, data);
        let (d1, r) = self.content_stored(d, data);
        let (d2, w) = Self::dir_entry_written(d1, sector, offset as int, entry);
        self.lemma_slot_written_fair(d, d1, dir, target, entry);
        if w is Err {
            self.lemma_unentered_restores(d, d1, d2, cs);
        }
    }

    /// A file that cannot be put leaves the FAT as it was.
    proof fn lemma_file_put_restores(self, d: DiskView, dir: u32, target: Seq<u8>, data: Seq<u8>)
        requires
            self.sound(),
            d.wf(),
            target.len() == 11,
            self.file_put(d, dir, target, data).1 is Err,
            self.recovers(d, self.file_put(d, dir, target, data).1->Err_0),
        ensures
            forall|x: u32|
                self.valid(x) ==> #[trigger] self.next(self.file_put(d, dir, target, data).0, x)
                    == self.next(d, x),
    {
        if self.slot_for(d, dir, target) is Ok {
            match self.content_stored(d, data).1 {
                Err(_) => {
                    self.lemma_content_restores(d, data);
                },
                Ok(first) => {
                    let entry = fat::entry_bytes(target, ATTR_ARCHIVE, first, data.len() as u32);
                    assert(entry.len() == 32);
                    self.lemma_entry_fails_restores(d, dir, target, data, entry);
                },
            }
        }
    }

    /// A cluster that was taken is a chain that can be freed again.
    proof fn lemma_taken_fresh(self, d: DiskView)
        requires
            self.sound(),
            d.wf(),
            self.fair(d),
            self.cluster_taken(d).1 is Ok,
        ensures
            self.fresh_chain(d, self.cluster_taken(d).0, seq![self.cluster_taken(d).1->Ok_0]),
    {
        reveal(Fat32::fresh_chain);
        self.lemma_taken(d);
        let (d1, r) = self.cluster_taken(d);
        let c = r->Ok_0;
        let none = Seq::<u32>::empty();
        self.lemma_appended(d, none, c);
        assert(none.push(c) =~= seq![c]);
        assert(self.fat_but(d, d, none));
        self.lemma_fat_but_more(d, d, d1, none, c);
        self.lemma_settable_same(d, d1, c, 0);
    }

    /// A directory that cannot be put leaves the FAT as it was.
    proof fn lemma_dir_put_restores(self, d: DiskView, parent: u32, target: Seq<u8>)
        requires
            self.sound(),
            d.wf(),
            target.len() == 11,
            self.dir_put(d, parent, target).1 is Err,
            self.recovers(d, self.dir_put(d, parent, target).1->Err_0),
        ensures
            forall|x: u32|
                self.valid(x) ==> #[trigger] self.next(self.dir_put(d, parent, target).0, x)
                    == self.next(d, x),
    {
        reveal(Fat32::fresh_chain);
        if let Ok((sector, offset, None)) = self.slot_for(d, parent, target) {
            let (d1, r) = self.cluster_taken(d);
            match r {
                Err(_) => {
                    self.lemma_first_free(d, FIRST_DATA_CLUSTER as int);
                    if let Ok(f) = self.first_free(d, FIRST_DATA_CLUSTER as int) {
                        self.lemma_entry_set_fair(d, f, FAT32_EOC, 0);
                    }
                    assert(d.alike(d1));
                },
                Ok(c) => {
                    let cs = seq![c];
                    self.lemma_taken(d);
                    self.lemma_taken_fresh(d);
                    let fresh = self.fresh_dir_sector(c, parent);
                    self.lemma_store_fat(d1, c, 0, fresh);
                    let (da, w) = fat::stored(d1, self.sector_of(c, 0), fresh);
                    if w is Ok {
                        self.lemma_zeroed_fat(da, c, 1);
                    }
                    let (d2, m) = self.dir_cluster_made(d1, c, parent);
                    assert(self.same_fat(d1, d2));
                    assert(self.left_fair(d1, (d2, m)));
                    if m is Err {
                        self.lemma_fresh_chain_freed(d, d1, d2, cs);
                    } else {
                        let entry = fat::entry_bytes(target, ATTR_DIRECTORY, c, 0);
                        let d3 = Self::dir_entry_written(d2, sector, offset as int, entry).0;
                        self.lemma_slot_written_fair(d, d2, parent, target, entry);
                        self.lemma_fresh_chain_freed(d, d1, d3, cs);
                    }
                },
            }
        }
    }
}

/// A chain that the free clusters do not suffice for, or that the disk fails to hold, leaves no
/// trace: no cluster leaks, and nothing outside the FATs changes. On a disk without faults it
/// can only be the clusters that do not suffice. The device must not refuse a write that frees a
/// cluster again.
pub proof fn law_full_volume_leaks_nothing(v: Fat32, d: DiskView, n: nat)
    requires
        v.sound(),
        d.wf(),
        v.chain_taken(d, n).1 is Err,
        v.recovers(d, v.chain_taken(d, n).1->Err_0),
    ensures
        v.healthy(d) && v.calm(d) ==> v.chain_taken(d, n).1 == Err::<u32, FatError>(
            FatError::NoSpace,
        ),
        v.same_but_fat(d, v.chain_taken(d, n).0),
        forall|x: u32| v.valid(x) ==> #[trigger] v.next(v.chain_taken(d, n).0, x) == v.next(d, x),
{
    reveal(Fat32::fresh_chain);
    v.lemma_grown_restores(d, d, n, Seq::empty());
}

/// A write that fails leaks no cluster, whether space was lacking or the disk failed: the FAT says
/// of every cluster what it said, so the free clusters are the same. The same holds of a directory
/// that cannot be made. The device must not refuse a write that frees a cluster again.
pub proof fn law_failed_write_leaks_nothing(v: Fat32, d: DiskView, path: Seq<u8>, data: Seq<u8>)
    requires
        v.sound(),
        d.wf(),
    ensures
        v.file_written(d, path, data).1 matches Err(e) ==> v.recovers(d, e) ==> {
            &&& v.free_clusters(v.file_written(d, path, data).0) == v.free_clusters(d)
            &&& forall|x: u32|
                v.valid(x) ==> #[trigger] v.next(v.file_written(d, path, data).0, x) == v.next(d, x)
        },
        v.dir_made(d, path).1 matches Err(e) ==> v.recovers(d, e) ==> {
            &&& v.free_clusters(v.dir_made(d, path).0) == v.free_clusters(d)
            &&& forall|x: u32|
                v.valid(x) ==> #[trigger] v.next(v.dir_made(d, path).0, x) == v.next(d, x)
        },
{
    let target = fat::name_83(path::components(path).last());
    if let Err(e) = v.file_written(d, path, data).1 {
        if v.recovers(d, e) {
            if let Ok(dir) = v.parent_of(d, path) {
                v.lemma_file_put_restores(d, dir, target, data);
            }
            assert(v.free_clusters(v.file_written(d, path, data).0) =~= v.free_clusters(d));
        }
    }
    if let Err(e) = v.dir_made(d, path).1 {
        if v.recovers(d, e) {
            if let Ok(dir) = v.parent_of(d, path) {
                v.lemma_dir_put_restores(d, dir, target);
            }
            assert(v.free_clusters(v.dir_made(d, path).0) =~= v.free_clusters(d));
        }
    }
}


// ---------------------------------------------------------------------------------------------
// A directory that was made
// ---------------------------------------------------------------------------------------------

impl Fat32 {
    /// Zeroing the rest of a cluster stays confined and leaves its first sector.
    proof fn lemma_zeroed(self, d: DiskView, d1: DiskView, c: u32, s: int)
        requires
            self.sound(),
            self.confined(d, d1),
            self.free_clusters(d).contains(c),
            1 <= s,
        ensures
            self.keeps(d, self.free_clusters(d), d1, self.cluster_zeroed(d1, c, s).0),
            fat::fetched(self.cluster_zeroed(d1, c, s).0, self.sector_of(c, 0)) == fat::fetched(
                d1,
                self.sector_of(c, 0),
            ),
        decreases self.sectors_per_cluster - s,
    {
        if s < self.sectors_per_cluster {
            self.lemma_keeps_store(d, self.free_clusters(d), d1, c, s, fat_write::zero_sector());
            self.lemma_sectors_apart(c, s, c, 0);
            let (d2, r) = fat::stored(d1, self.sector_of(c, s), fat_write::zero_sector());
            if r is Ok {
                self.lemma_zeroed(d, d2, c, s + 1);
                let d3 = self.cluster_zeroed(d2, c, s + 1).0;
                self.lemma_keeps_on(d, self.free_clusters(d), d1, d2, d3);
            }
        }
    }

    /// The sectors that were zeroed hold zeros, those before them what they held.
    proof fn lemma_zeroed_sectors(self, d: DiskView, c: u32, s: int, t: int)
        requires
            self.sound(),
            d.wf(),
            readable(d),
            self.valid(c),
            0 <= s,
            0 <= t < self.sectors_per_cluster,
            self.cluster_zeroed(d, c, s).1 is Ok,
        ensures
            fat::fetched(self.cluster_zeroed(d, c, s).0, self.sector_of(c, t)) == (if t < s {
                fat::fetched(d, self.sector_of(c, t))
            } else {
                Ok(fat_write::zero_sector())
            }),
        decreases self.sectors_per_cluster - s,
    {
        if s < self.sectors_per_cluster {
            self.lemma_store_fat(d, c, s, fat_write::zero_sector());
            self.lemma_sectors_apart(c, s, c, t);
            let d2 = fat::stored(d, self.sector_of(c, s), fat_write::zero_sector()).0;
            assert(d2.data =~= d.data.update(self.sector_of(c, s), fat_write::zero_sector()));
            self.lemma_zeroed_sectors(d2, c, s + 1, t);
        }
    }

    /// What making a directory does to the FAT and to the sectors of its cluster.
    proof fn lemma_put_dir_cluster(self, d: DiskView, dir: u32, target: Seq<u8>)
        requires
            self.sound(),
            d.wf(),
            readable(d),
            self.dir_put(d, dir, target).1 is Ok,
            self.chain_of(d, dir).disjoint(self.free_clusters(d)),
        ensures
            ({
                let d3 = self.dir_put(d, dir, target).0;
                let c = self.cluster_taken(d).1->Ok_0;
                &&& self.next(d3, c) == Ok::<u32, FatError>(FAT32_EOC)
                &&& forall|x: u32|
                    self.valid(x) && x != c ==> #[trigger] self.next(d3, x) == self.next(d, x)
                &&& forall|t: int|
                    1 <= t < self.sectors_per_cluster ==> #[trigger] fat::fetched(
                        d3,
                        self.sector_of(c, t),
                    ) == Ok::<Seq<u8>, FatError>(fat_write::zero_sector())
            }),
    {
        self.lemma_marks_invalid();
        self.lemma_chain_of(d, dir);
        let (sector, offset, old_first) = self.slot_for(d, dir, target)->Ok_0;
        let (x0, t0) = self.lemma_slot_home(d, dir, target);
        self.lemma_first_free(d, FIRST_DATA_CLUSTER as int);
        let (d1, r) = self.cluster_taken(d);
        let c = r->Ok_0;
        self.lemma_entry_set(d, c, FAT32_EOC, 0);
        let fresh = self.fresh_dir_sector(c, dir);
        self.lemma_store_fat(d1, c, 0, fresh);
        let da = fat::stored(d1, self.sector_of(c, 0), fresh).0;
        self.lemma_zeroed_fat(da, c, 1);
        let d2 = self.dir_cluster_made(d1, c, dir).0;
        let entry = fat::entry_bytes(target, ATTR_DIRECTORY, c, 0);
        let d3 = Self::dir_entry_written(d2, sector, offset as int, entry).0;
        self.lemma_entry_written(d2, x0, t0, sector, offset as int / 32, entry);
        assert forall|x: u32| self.valid(x) implies #[trigger] self.next(d3, x) == self.next(
            d1,
            x,
        ) by {
            self.lemma_next_same(d1, d2, x);
            assert(self.cluster_but_slot(d2, d3, x, sector, offset as int / 32, entry));
        }
        assert(x0 != c) by {
            assert(self.free_clusters(d).contains(c));
        }
        assert(self.cluster_same(d2, d3, c));
        assert forall|t: int| 1 <= t < self.sectors_per_cluster implies #[trigger] fat::fetched(
            d3,
            self.sector_of(c, t),
        ) == Ok::<Seq<u8>, FatError>(fat_write::zero_sector()) by {
            self.lemma_zeroed_sectors(da, c, 1, t);
        }
    }

    /// The first sector of a new directory ends after `.` and `..`.
    proof fn lemma_fresh_dir(self, c: u32, parent: u32, target: Seq<u8>)
        requires
            target != fat_write::dot_name(),
            target != fat_write::dotdot_name(),
        ensures
            self.fresh_dir_sector(c, parent).len() == 512,
            fat::stop_index(self.fresh_dir_sector(c, parent), target, 0) == 2,
            fat::slot_ends(self.fresh_dir_sector(c, parent), 2),
    {
        let up = if parent == self.root_cluster {
            0
        } else {
            parent
        };
        let a = fat_write::zero_sector();
        let b = util::splice(a, 0, fat::entry_bytes(fat_write::dot_name(), ATTR_DIRECTORY, c, 0));
        let f = self.fresh_dir_sector(c, parent);
        lemma_slot_rewritten(a, 0, fat_write::dot_name(), ATTR_DIRECTORY, c, 0);
        lemma_slot_rewritten(b, 1, fat_write::dotdot_name(), ATTR_DIRECTORY, up, 0);
        assert(fat::slot_ends(b, 2) == fat::slot_ends(a, 2));
        assert(fat::slot_ends(f, 2) == fat::slot_ends(b, 2));
        assert(fat::slot_ends(f, 0) == fat::slot_ends(b, 0));
        assert forall|j: int| 0 <= j < 2 implies !#[trigger] fat::slot_ends(f, j) && !fat::slot_matches(
            f,
            j,
            target,
        ) by {
            assert(j == 0 || j == 1);
        }
        lemma_stop_is(f, target, 0, 2);
    }

    /// What making a directory leaves.
    proof fn lemma_put_dir(self, d: DiskView, dir: u32, target: Seq<u8>) -> (at: u32)
        requires
            self.sound(),
            d.wf(),
            readable(d),
            findable(target),
            self.dir_put(d, dir, target).1 is Ok,
            self.chain_of(d, dir).disjoint(self.free_clusters(d)),
        ensures
            ({
                let d3 = self.dir_put(d, dir, target).0;
                let (sector, offset, old_first) = self.slot_for(d, dir, target)->Ok_0;
                let c = self.cluster_taken(d).1->Ok_0;
                let entry = fat::entry_bytes(target, ATTR_DIRECTORY, c, 0);
                &&& self.valid(dir)
                &&& self.scan_dir(d3, dir, target) matches Ok((DirHit::Found { entry: e, .. }, _))
                    && e == (DirEntry { first_cluster: c, size: 0, is_dir: true })
                &&& self.free_clusters(d).contains(c)
                &&& fat::fetched(d3, self.sector_of(c, 0)) == Ok::<Seq<u8>, FatError>(
                    self.fresh_dir_sector(c, dir),
                )
                &&& forall|x: u32|
                    self.valid(x) && !self.free_clusters(d).contains(x)
                        ==> #[trigger] self.cluster_but_slot(
                        d,
                        d3,
                        x,
                        sector,
                        offset as int / 32,
                        entry,
                    )
                &&& self.agree_off(d, d3, self.free_clusters(d).insert(at))
                &&& self.chain_of(d, dir).contains(at)
            }),
    {
        let home = self.chain_of(d, dir);
        self.lemma_chain_of(d, dir);
        let (sector, offset, old_first) = self.slot_for(d, dir, target)->Ok_0;
        let (x0, t0) = self.lemma_slot_home(d, dir, target);
        self.lemma_scan_dir_indices(d, dir, target);
        let index = offset as int / 32;
        self.lemma_confined_refl(d);
        self.lemma_confined_taken(d, d);
        let (d1, r) = self.cluster_taken(d);
        let c = r->Ok_0;
        let fresh = self.fresh_dir_sector(c, dir);
        self.lemma_keeps_store(d, self.free_clusters(d), d1, c, 0, fresh);
        let d1a = fat::stored(d1, self.sector_of(c, 0), fresh).0;
        self.lemma_sectors_apart(c, 0, c, 0);
        self.lemma_zeroed(d, d1a, c, 1);
        let d2 = self.dir_cluster_made(d1, c, dir).0;
        let entry = fat::entry_bytes(target, ATTR_DIRECTORY, c, 0);
        let d3 = Self::dir_entry_written(d2, sector, offset as int, entry).0;
        self.lemma_entry_written(d2, x0, t0, sector, index, entry);
        self.lemma_put_effect(d, d2, d3, d3, None, home, x0, sector, index, entry);
        assert(self.cluster_same(d2, d3, c));
        assert(fat::fetched(d3, self.sector_of(c, 0)) == fat::fetched(d2, self.sector_of(c, 0)));
        self.lemma_put_found(
            d,
            d3,
            home,
            dir,
            0,
            (self.cluster_count - 1) as nat,
            (sector, index),
            target,
            (ATTR_DIRECTORY, c, 0),
        );
        x0
    }
}

/// A directory that was made is there, and it is empty: a search in it finds no name but `.` and
/// `..`.
pub proof fn law_made_directory_is_empty(v: Fat32, d: DiskView, path: Seq<u8>, name: Seq<u8>)
    requires
        v.sound(),
        d.wf(),
        readable(d),
        findable(fat::name_83(path::components(path).last())),
        v.write_sound(d, path),
        v.dir_made(d, path).1 is Ok,
        fat::name_83(name) != fat_write::dot_name(),
        fat::name_83(name) != fat_write::dotdot_name(),
    ensures
        v.entry_of(v.dir_made(d, path).0, path) matches Ok(entry) && entry.is_dir && entry.size == 0
            && v.free_clusters(d).contains(entry.first_cluster) && v.found_in_dir(
            v.dir_made(d, path).0,
            entry.first_cluster,
            name,
        ) == Ok::<Option<DirEntry>, FatError>(None),
{
    let comps = path::components(path);
    let target = fat::name_83(comps.last());
    let dir = v.parent_of(d, path)->Ok_0;
    let (sector, offset, old_first) = v.slot_for(d, dir, target)->Ok_0;
    let at = v.lemma_put_dir(d, dir, target);
    let d3 = v.dir_put(d, dir, target).0;
    let c = v.cluster_taken(d).1->Ok_0;
    v.lemma_slot_home(d, dir, target);
    v.lemma_descend_passes(
        d,
        d3,
        v.root_cluster,
        comps.drop_last(),
        v.free_clusters(d),
        dir,
        at,
        (sector, offset as int / 32),
        target,
        (ATTR_DIRECTORY, c, 0),
    );
    v.lemma_fresh_dir(c, dir, fat::name_83(name));
}

/// A directory that was made is refused a second time, which changes nothing, and cannot be read
/// as a file.
pub proof fn law_made_directory_is_not_made_again(v: Fat32, d: DiskView, path: Seq<u8>)
    requires
        v.sound(),
        d.wf(),
        readable(d),
        findable(fat::name_83(path::components(path).last())),
        v.write_sound(d, path),
        v.dir_made(d, path).1 is Ok,
    ensures
        ({
            let d2 = v.dir_made(d, path).0;
            &&& v.dir_made(d2, path) == (d2, Err::<(), FatError>(FatError::AlreadyExists))
            &&& v.file_read(d2, path) == Err::<Seq<u8>, FatError>(FatError::IsADirectory)
        }),
{
    let name = seq![0x41u8];
    assert(fat::name_83(name)[0] != fat_write::dot_name()[0]) by {
        path::lemma_pieces_clean(name, path::DOT);
        reveal_with_fuel(path::pieces, 2);
        assert(name.drop_last() =~= Seq::<u8>::empty());
    }
    law_made_directory_is_empty(v, d, path, name);
}

/// A new directory takes one cluster that was free. Its first entries are `.`, which names the
/// directory itself, and `..`, which names its parent, 0 for the root; the rest of it is zero.
pub proof fn law_made_directory_takes_one_cluster(v: Fat32, d: DiskView, path: Seq<u8>)
    requires
        v.sound(),
        d.wf(),
        readable(d),
        findable(fat::name_83(path::components(path).last())),
        v.write_sound(d, path),
        v.dir_made(d, path).1 is Ok,
    ensures
        ({
            let d2 = v.dir_made(d, path).0;
            let c = v.cluster_taken(d).1->Ok_0;
            &&& v.free_clusters(d).contains(c)
            &&& v.free_clusters(d2) == v.free_clusters(d).remove(c)
            &&& fat::fetched(d2, v.sector_of(c, 0)) == Ok::<Seq<u8>, FatError>(
                v.fresh_dir_sector(c, v.parent_of(d, path)->Ok_0),
            )
            &&& forall|t: int|
                1 <= t < v.sectors_per_cluster ==> #[trigger] fat::fetched(d2, v.sector_of(c, t))
                    == Ok::<Seq<u8>, FatError>(fat_write::zero_sector())
        }),
{
    let target = fat::name_83(path::components(path).last());
    let dir = v.parent_of(d, path)->Ok_0;
    let d2 = v.dir_put(d, dir, target).0;
    let c = v.cluster_taken(d).1->Ok_0;
    v.lemma_put_dir(d, dir, target);
    v.lemma_put_dir_cluster(d, dir, target);
    assert(v.free_clusters(d2) =~= v.free_clusters(d).remove(c));
}

/// Making a directory leaves every file as it was.
pub proof fn law_made_directory_keeps_files(v: Fat32, d: DiskView, path: Seq<u8>, other: Seq<u8>)
    requires
        v.sound(),
        d.wf(),
        readable(d),
        findable(fat::name_83(path::components(path).last())),
        v.write_sound(d, path),
        v.dir_made(d, path).1 is Ok,
        v.entry_of(d, other) is Ok,
        v.apart_from_write(d, path, other),
    ensures
        v.entry_of(v.dir_made(d, path).0, other) == v.entry_of(d, other),
        v.file_read(v.dir_made(d, path).0, other) == v.file_read(d, other),
{
    let target = fat::name_83(path::components(path).last());
    let dir = v.parent_of(d, path)->Ok_0;
    let (sector, offset, old_first) = v.slot_for(d, dir, target)->Ok_0;
    let slot = (sector, offset as int / 32);
    let xs = v.free_clusters(d);
    let at = v.lemma_put_dir(d, dir, target);
    let d3 = v.dir_put(d, dir, target).0;
    let fields = (ATTR_DIRECTORY, v.cluster_taken(d).1->Ok_0, 0u32);
    v.lemma_slot_home(d, dir, target);
    let comps = path::components(other);
    v.lemma_trail_last(d, v.root_cluster, comps, xs, dir, slot);
    v.lemma_descend_passes(
        d,
        d3,
        v.root_cluster,
        comps.drop_last(),
        xs,
        dir,
        at,
        slot,
        target,
        fields,
    );
    let home = v.parent_of(d, other)->Ok_0;
    v.lemma_step_passes(d, d3, home, comps.last(), xs, dir, at, slot, target, fields);
    let entry = v.entry_of(d, other)->Ok_0;
    if !entry.is_dir {
        let cs = v.chain_of(d, entry.first_cluster);
        v.lemma_chain_of(d, entry.first_cluster);
        v.lemma_chain_data_frame(d, d3, cs, entry.first_cluster, entry.size as nat);
    }
}

impl Fat32 {
    /// Making a directory cluster out of a cluster that was free stays confined.
    proof fn lemma_keeps_dir_cluster(self, d: DiskView, d1: DiskView, c: u32, parent: u32)
        requires
            self.sound(),
            self.confined(d, d1),
            self.free_clusters(d).contains(c),
        ensures
            self.keeps(d, self.free_clusters(d), d1, self.dir_cluster_made(d1, c, parent).0),
    {
        let xs = self.free_clusters(d);
        let fresh = self.fresh_dir_sector(c, parent);
        self.lemma_keeps_store(d, xs, d1, c, 0, fresh);
        let (da, w) = fat::stored(d1, self.sector_of(c, 0), fresh);
        if w is Ok {
            self.lemma_zeroed(d, da, c, 1);
            self.lemma_keeps_on(d, xs, d1, da, self.cluster_zeroed(da, c, 1).0);
        }
    }

    /// A directory that cannot be put has touched free clusters only; one that is put, up to its
    /// entry.
    proof fn lemma_dir_put_steps(self, d: DiskView, parent: u32, target: Seq<u8>)
        requires
            self.sound(),
            d.wf(),
            self.slot_for(d, parent, target) matches Ok((_, _, None)),
        ensures
            ({
                let (d3, r) = self.dir_put(d, parent, target);
                let xs = self.free_clusters(d);
                &&& r is Err ==> self.keeps(d, xs, d, d3)
                &&& r is Ok ==> d3.log.len() > 0 && self.keeps(d, xs, d, d3.undone())
            }),
    {
        let xs = self.free_clusters(d);
        let all = self.cluster_count as nat;
        let (sector, offset, _) = self.slot_for(d, parent, target)->Ok_0;
        let d3 = self.dir_put(d, parent, target).0;
        self.lemma_confined_refl(d);
        self.lemma_confined_taken(d, d);
        let (d1, t) = self.cluster_taken(d);
        if let Ok(c) = t {
            self.lemma_keeps_dir_cluster(d, d1, c, parent);
            let (d2, m) = self.dir_cluster_made(d1, c, parent);
            self.lemma_keeps_on(d, xs, d, d1, d2);
            if m is Err {
                self.lemma_keeps_freed(d, xs, d2, c, all);
                self.lemma_keeps_on(d, xs, d, d2, d3);
            } else {
                let entry = fat::entry_bytes(target, ATTR_DIRECTORY, c, 0);
                let (de, w) = Self::dir_entry_written(d2, sector, offset as int, entry);
                if w is Err {
                    self.lemma_keeps_refused(d, xs, d2, de);
                    self.lemma_keeps_on(d, xs, d, d2, de);
                    self.lemma_keeps_freed(d, xs, de, c, all);
                    self.lemma_keeps_on(d, xs, d, de, d3);
                } else {
                    let buf = fat::fetched(d2, sector as int)->Ok_0;
                    virtio_blk::lemma_write_undone(
                        d2,
                        sector as int,
                        util::splice(buf, offset as int, entry),
                    );
                    self.lemma_keeps_refused(d, xs, d2, d2.bare());
                    self.lemma_keeps_on(d, xs, d, d2, d2.bare());
                }
            }
        }
    }
}

/// Making a directory can be cut off after any of its sectors, and may fail, and every file is as
/// it was. `k` counts the writes in the log of the disk that were made.
pub proof fn law_directory_is_made_safely_at_every_step(
    v: Fat32,
    d: DiskView,
    path: Seq<u8>,
    other: Seq<u8>,
    k: int,
)
    requires
        v.sound(),
        d.wf(),
        readable(d),
        findable(fat::name_83(path::components(path).last())),
        v.write_sound(d, path),
        v.entry_of(d, other) is Ok,
        v.apart_from_write(d, path, other),
        d.log.len() <= k <= v.dir_made(d, path).0.log.len(),
    ensures
        ({
            let now = v.dir_made(d, path).0.at_step(k);
            &&& v.entry_of(now, other) == v.entry_of(d, other)
            &&& v.file_read(now, other) == v.file_read(d, other)
        }),
{
    let (d3, r) = v.dir_made(d, path);
    let now = d3.at_step(k);
    let target = fat::name_83(path::components(path).last());
    let xs = v.free_clusters(d);
    if let Ok(dir) = v.parent_of(d, path) {
        if let Ok((_, _, None)) = v.slot_for(d, dir, target) {
            v.lemma_dir_put_steps(d, dir, target);
            v.lemma_write_clear(d, path, other);
            if r is Err {
                v.lemma_keeps_at(d, xs, d, d3, k);
                v.lemma_read_frame(d, now, xs, other);
            } else if k < d3.log.len() {
                v.lemma_keeps_at(d, xs, d, d3.undone(), k);
                v.lemma_read_frame(d, now, xs, other);
            } else {
                law_made_directory_keeps_files(v, d, path, other);
                v.lemma_read_alike(d3, now, other);
            }
        } else {
            v.lemma_read_alike(d, now, other);
        }
    } else {
        v.lemma_read_alike(d, now, other);
    }
}


// ---------------------------------------------------------------------------------------------
// A name that was removed
// ---------------------------------------------------------------------------------------------

impl Fat32 {
    /// Whether entry `index` of `sector` is one of the directory `dir` and bears the name `target`.
    pub open spec fn bears(
        self,
        d: DiskView,
        dir: u32,
        sector: u32,
        index: usize,
        target: Seq<u8>,
    ) -> bool {
        &&& self.slot_at(d, self.chain_of(d, dir), sector, index)
        &&& fat::slot_matches(fat::fetched(d, sector as int)->Ok_0, index as int, target)
    }

    /// No two entries of a directory bear the name `target`.
    pub open spec fn named_once(self, d: DiskView, dir: u32, target: Seq<u8>) -> bool {
        forall|s: u32, i: usize, t: u32, j: usize|
            #[trigger] self.bears(d, dir, s, i, target) && #[trigger] self.bears(d, dir, t, j, target)
                ==> s == t && i == j
    }

    /// The disk when an entry has just been marked as deleted.
    pub open spec fn marked(d: DiskView, sector: u32, index: usize) -> DiskView {
        Self::dir_entry_written(d, sector, 32 * index, seq![SLOT_DELETED]).0
    }

    /// An entry that is found, with its chain and its directory apart.
    pub open spec fn removable(
        self,
        d: DiskView,
        dir: u32,
        target: Seq<u8>,
        sector: u32,
        index: usize,
        first: u32,
    ) -> bool {
        &&& self.scan_dir(d, dir, target) matches Ok((DirHit::Found { sector: s, index: i, entry }, _))
            && s == sector && i == index && entry.first_cluster == first
        &&& self.put_sound(d, dir, target)
    }

    /// Once an entry is deleted its clusters are freed and nothing else changes.
    proof fn lemma_removal_done(
        self,
        d: DiskView,
        dir: u32,
        target: Seq<u8>,
        sector: u32,
        index: usize,
        first: u32,
    )
        requires
            self.sound(),
            d.wf(),
            self.removable(d, dir, target, sector, index, first),
            self.slot_removed(d, sector, index, first).1 is Ok,
        ensures
            ({
                let d1 = Self::marked(d, sector, index);
                let d2 = self.slot_removed(d, sector, index, first).0;
                &&& self.keeps(d1, self.olds(d, Some(first)), d1, d2)
                &&& d1.log.len() == d.log.len() + 1
                &&& d1.undone() == d.bare()
            }),
    {
        let mark = seq![SLOT_DELETED];
        let home = self.chain_of(d, dir);
        self.lemma_scan_dir_found(d, dir, target);
        let (x0, t0) = self.lemma_slot_home(d, dir, target);
        let d1 = Self::marked(d, sector, index);
        self.lemma_entry_written(d, x0, t0, sector, index as int, mark);
        self.lemma_confined_refl(d);
        self.lemma_olds_freed(d, d, d1, Some(first), home, x0);
        let buf = fat::fetched(d, sector as int)->Ok_0;
        virtio_blk::lemma_write_undone(d, sector as int, util::splice(buf, 32 * index, mark));
    }

    /// What deleting an entry leaves, whether or not its clusters are freed: the entry deleted,
    /// everything else as it was but for those clusters.
    proof fn lemma_slot_removed(
        self,
        d: DiskView,
        dir: u32,
        target: Seq<u8>,
        sector: u32,
        index: usize,
        first: u32,
        d2: DiskView,
    ) -> (at: u32)
        requires
            self.sound(),
            d.wf(),
            self.removable(d, dir, target, sector, index, first),
            self.slot_removed(d, sector, index, first).1 is Ok,
            self.agree_off(Self::marked(d, sector, index), d2, self.olds(d, Some(first))),
        ensures
            ({
                let xs = self.replaced(d, Some(first));
                &&& index < 16
                &&& forall|x: u32|
                    self.valid(x) && !xs.contains(x) ==> #[trigger] self.cluster_but_slot(
                        d,
                        d2,
                        x,
                        sector,
                        index as int,
                        seq![SLOT_DELETED],
                    )
                &&& self.agree_off(d, d2, xs.insert(at))
                &&& self.chain_of(d, dir).contains(at)
            }),
    {
        let mark = seq![SLOT_DELETED];
        let home = self.chain_of(d, dir);
        self.lemma_scan_dir_found(d, dir, target);
        let (x0, t0) = self.lemma_slot_home(d, dir, target);
        let d1 = Self::marked(d, sector, index);
        self.lemma_entry_written(d, x0, t0, sector, index as int, mark);
        self.lemma_confined_refl(d);
        self.lemma_put_effect(d, d, d1, d2, Some(first), home, x0, sector, index as int, mark);
        x0
    }

    /// A name that stood in a directory once is not found after its entry was deleted.
    proof fn lemma_name_gone(
        self,
        d: DiskView,
        d2: DiskView,
        dir: u32,
        target: Seq<u8>,
        sector: u32,
        index: usize,
    )
        requires
            self.wf(),
            d.wf(),
            d2.wf(),
            index < 16,
            self.named_once(d, dir, target),
            self.scan_dir(d, dir, target) matches Ok((DirHit::Found { sector: s, index: i, .. }, _))
                && s == sector && i == index,
            forall|x: u32|
                self.valid(x) && self.chain_of(d, dir).contains(x)
                    ==> #[trigger] self.cluster_but_slot(
                    d,
                    d2,
                    x,
                    sector,
                    index as int,
                    seq![SLOT_DELETED],
                ),
        ensures
            self.scan_dir(d2, dir, target) matches Ok((hit, _)) ==> !(hit is Found),
    {
        let mark = seq![SLOT_DELETED];
        let home = self.chain_of(d, dir);
        let steps = (self.cluster_count - 1) as nat;
        self.lemma_chain_of(d, dir);
        self.lemma_scan_dir_found(d, dir, target);
        self.lemma_scan_reports(d, home, dir, 0, steps, target, None);
        assert(self.bears(d, dir, sector, index, target));
        assert forall|x: u32|
            #![trigger self.next(d2, x)]
            home.contains(x) && self.valid(x) implies (self.next(d2, x) matches Ok(n)
            ==> self.valid(n) ==> home.contains(n)) by {
            assert(self.cluster_but_slot(d, d2, x, sector, index as int, mark));
            let before = self.next(d, x);
        }
        self.lemma_scan_reports(d2, home, dir, 0, steps, target, None);
        if let Ok((DirHit::Found { sector: s, index: i, entry }, free)) = self.scan_dir(
            d2,
            dir,
            target,
        ) {
            let (x, t) = choose|x: u32, t: int|
                home.contains(x) && self.valid(x) && 0 <= t < self.sectors_per_cluster && s
                    == #[trigger] self.sector_of(x, t);
            assert(self.cluster_but_slot(d, d2, x, sector, index as int, mark));
            let buf = fat::fetched(d, self.sector_of(x, t))->Ok_0;
            let buf2 = fat::fetched(d2, self.sector_of(x, t))->Ok_0;
            assert(fat::fetched(d, self.sector_of(x, t)) is Ok);
            if s == sector {
                lemma_mark_stands_aside();
                assert(buf2 == with_slot(buf, index as int, mark));
                assert(stands_aside(mark, target));
                reveal(stands_aside);
                assert(fat::slot_ends(buf2, i as int) == fat::slot_ends(buf, i as int) || i == index);
            }
            assert(self.bears(d, dir, s, i, target));
            assert(false);
        }
    }

    /// Whether a path leads to entry `index` of `sector`, whose chain starts at `first`.
    pub open spec fn leads_to(
        self,
        d: DiskView,
        path: Seq<u8>,
        sector: u32,
        index: usize,
        first: u32,
    ) -> bool {
        match self.parent_of(d, path) {
            Err(_) => false,
            Ok(dir) => match self.scan_dir(d, dir, fat::name_83(path::components(path).last())) {
                Ok((DirHit::Found { sector: s, index: i, entry }, _)) => s == sector && i == index
                    && entry.first_cluster == first,
                _ => false,
            },
        }
    }

    /// A path whose entry was removed leads nowhere.
    proof fn lemma_path_gone(
        self,
        d: DiskView,
        path: Seq<u8>,
        sector: u32,
        index: usize,
        first: u32,
    )
        requires
            self.sound(),
            d.wf(),
            self.write_sound(d, path),
            self.leads_to(d, path, sector, index, first),
            self.named_once(
                d,
                self.parent_of(d, path)->Ok_0,
                fat::name_83(path::components(path).last()),
            ),
            self.slot_removed(d, sector, index, first).1 is Ok,
        ensures
            self.entry_of(self.slot_removed(d, sector, index, first).0, path) is Err,
    {
        let comps = path::components(path);
        let target = fat::name_83(comps.last());
        let dir = self.parent_of(d, path)->Ok_0;
        let d2 = self.slot_removed(d, sector, index, first).0;
        self.lemma_scan_dir_found(d, dir, target);
        self.lemma_removal_done(d, dir, target, sector, index, first);
        let at = self.lemma_slot_removed(d, dir, target, sector, index, first, d2);
        lemma_mark_stands_aside();
        self.lemma_descend_beside(
            d,
            d2,
            self.root_cluster,
            comps.drop_last(),
            self.replaced(d, Some(first)),
            dir,
            at,
            (sector, index as int),
            target,
            seq![SLOT_DELETED],
        );
        self.lemma_name_gone(d, d2, dir, target, sector, index);
    }

    /// A path that passes by an entry that was deleted reads as before.
    proof fn lemma_path_kept(
        self,
        d: DiskView,
        path: Seq<u8>,
        other: Seq<u8>,
        sector: u32,
        index: usize,
        first: u32,
        d2: DiskView,
    )
        requires
            self.sound(),
            d.wf(),
            self.write_sound(d, path),
            self.leads_to(d, path, sector, index, first),
            self.slot_removed(d, sector, index, first).1 is Ok,
            self.entry_of(d, other) is Ok,
            self.apart_from_write(d, path, other),
            self.agree_off(Self::marked(d, sector, index), d2, self.olds(d, Some(first))),
        ensures
            self.entry_of(d2, other) == self.entry_of(d, other),
            self.file_read(d2, other) == self.file_read(d, other),
    {
        let target = fat::name_83(path::components(path).last());
        let dir = self.parent_of(d, path)->Ok_0;
        let mark = seq![SLOT_DELETED];
        let slot = (sector, index as int);
        let xs = self.replaced(d, Some(first));
        self.lemma_scan_dir_found(d, dir, target);
        let at = self.lemma_slot_removed(d, dir, target, sector, index, first, d2);
        lemma_mark_stands_aside();
        let comps = path::components(other);
        self.lemma_trail_last(d, self.root_cluster, comps, xs, dir, slot);
        self.lemma_descend_beside(
            d,
            d2,
            self.root_cluster,
            comps.drop_last(),
            xs,
            dir,
            at,
            slot,
            target,
            mark,
        );
        let home = self.parent_of(d, other)->Ok_0;
        self.lemma_step_beside(d, d2, home, comps.last(), xs, dir, at, slot, target, mark);
        let file = self.entry_of(d, other)->Ok_0;
        if !file.is_dir {
            let cs = self.chain_of(d, file.first_cluster);
            self.lemma_chain_of(d, file.first_cluster);
            self.lemma_chain_data_frame(d, d2, cs, file.first_cluster, file.size as nat);
        }
    }
}

/// A file or a directory that was removed is gone: its path leads nowhere. Its directory must hold
/// the name once, since a second entry of the name would come to light.
pub proof fn law_removed_path_is_gone(v: Fat32, d: DiskView, path: Seq<u8>)
    requires
        v.sound(),
        d.wf(),
        v.write_sound(d, path),
        v.parent_of(d, path) matches Ok(dir) ==> v.named_once(
            d,
            dir,
            fat::name_83(path::components(path).last()),
        ),
    ensures
        v.file_removed(d, path).1 is Ok ==> v.entry_of(v.file_removed(d, path).0, path) is Err,
        v.dir_removed(d, path).1 is Ok ==> v.entry_of(v.dir_removed(d, path).0, path) is Err,
{
    if v.file_removed(d, path).1 is Ok || v.dir_removed(d, path).1 is Ok {
        let dir = v.parent_of(d, path)->Ok_0;
        let hit = v.scan_dir(d, dir, fat::name_83(path::components(path).last()))->Ok_0.0;
        v.lemma_path_gone(
            d,
            path,
            hit->Found_sector,
            hit->Found_index,
            hit->entry.first_cluster,
        );
    }
}

impl Fat32 {
    /// While an entry is removed every path that passes by it reads as before.
    proof fn lemma_removal_steps(
        self,
        d: DiskView,
        path: Seq<u8>,
        other: Seq<u8>,
        sector: u32,
        index: usize,
        first: u32,
        k: int,
    )
        requires
            self.sound(),
            d.wf(),
            self.write_sound(d, path),
            self.leads_to(d, path, sector, index, first),
            self.entry_of(d, other) is Ok,
            self.apart_from_write(d, path, other),
            d.log.len() <= k,
        ensures
            ({
                let now = self.slot_removed(d, sector, index, first).0.at_step(k);
                &&& self.entry_of(now, other) == self.entry_of(d, other)
                &&& self.file_read(now, other) == self.file_read(d, other)
            }),
    {
        let target = fat::name_83(path::components(path).last());
        let dir = self.parent_of(d, path)->Ok_0;
        let (d2, r) = self.slot_removed(d, sector, index, first);
        let now = d2.at_step(k);
        if r is Err {
            self.lemma_read_alike(d, now, other);
        } else {
            let d1 = Self::marked(d, sector, index);
            let olds = self.olds(d, Some(first));
            self.lemma_scan_dir_found(d, dir, target);
            self.lemma_removal_done(d, dir, target, sector, index, first);
            if k == d.log.len() {
                self.lemma_keeps_from(d1, olds, d1, d2, k);
                assert(d1.at_step(k) == d.bare().at_step(k));
                assert(d.bare().at_step(k) == d.bare().bare());
                self.lemma_read_alike(d, now, other);
            } else {
                self.lemma_keeps_at(d1, olds, d1, d2, k);
                self.lemma_path_kept(d, path, other, sector, index, first, now);
            }
        }
    }
}

/// Removing a file or a directory can be cut off after any of its sectors, and may fail, and every
/// other file is as it was. `k` counts the writes in the log of the disk that were made.
pub proof fn law_removal_is_safe_at_every_step(
    v: Fat32,
    d: DiskView,
    path: Seq<u8>,
    other: Seq<u8>,
    k: int,
)
    requires
        v.sound(),
        d.wf(),
        v.write_sound(d, path),
        v.entry_of(d, other) is Ok,
        v.apart_from_write(d, path, other),
        d.log.len() <= k,
    ensures
        ({
            let now = v.file_removed(d, path).0.at_step(k);
            &&& v.entry_of(now, other) == v.entry_of(d, other)
            &&& v.file_read(now, other) == v.file_read(d, other)
        }),
        ({
            let now = v.dir_removed(d, path).0.at_step(k);
            &&& v.entry_of(now, other) == v.entry_of(d, other)
            &&& v.file_read(now, other) == v.file_read(d, other)
        }),
{
    v.lemma_read_alike(d, d.at_step(k), other);
    if let Ok(dir) = v.parent_of(d, path) {
        let target = fat::name_83(path::components(path).last());
        if let Ok((DirHit::Found { sector, index, entry }, _)) = v.scan_dir(d, dir, target) {
            let first = entry.first_cluster;
            v.lemma_removal_steps(d, path, other, sector, index, first, k);
        }
    }
}

/// Removing a file or a directory leaves every other file as it was.
pub proof fn law_removal_keeps_other_files(v: Fat32, d: DiskView, path: Seq<u8>, other: Seq<u8>)
    requires
        v.sound(),
        d.wf(),
        v.write_sound(d, path),
        v.entry_of(d, other) is Ok,
        v.apart_from_write(d, path, other),
    ensures
        v.entry_of(v.file_removed(d, path).0, other) == v.entry_of(d, other),
        v.file_read(v.file_removed(d, path).0, other) == v.file_read(d, other),
        v.entry_of(v.dir_removed(d, path).0, other) == v.entry_of(d, other),
        v.file_read(v.dir_removed(d, path).0, other) == v.file_read(d, other),
{
    let d1 = v.file_removed(d, path).0;
    let d2 = v.dir_removed(d, path).0;
    let k = (d.log.len() + d1.log.len() + d2.log.len()) as int;
    law_removal_is_safe_at_every_step(v, d, path, other, k);
    v.lemma_read_alike(d1, d1.at_step(k), other);
    v.lemma_read_alike(d2, d2.at_step(k), other);
}

// ---------------------------------------------------------------------------------------------
// Clusters that are given back
// ---------------------------------------------------------------------------------------------

impl Fat32 {
    /// The clusters `cs` are a chain, each once: what the FAT says of each is the next, and of the
    /// last what is no cluster.
    pub open spec fn is_chain(self, d: DiskView, cs: Seq<u32>) -> bool {
        &&& 0 < cs.len() <= self.cluster_count
        &&& forall|k: int| 0 <= k < cs.len() ==> self.valid(#[trigger] cs[k])
        &&& forall|k: int, j: int| 0 <= k < j < cs.len() ==> cs[k] != cs[j]
        &&& forall|k: int|
            #![trigger cs[k]]
            0 <= k < cs.len() ==> (self.next(d, cs[k]) matches Ok(n) && if k + 1 < cs.len() {
                n == cs[k + 1]
            } else {
                !self.valid(n)
            })
    }

    /// Freeing the clusters of a chain from `i` on.
    proof fn lemma_freed_chain(self, d: DiskView, cs: Seq<u32>, i: int, steps: nat)
        requires
            self.sound(),
            self.healthy(d),
            self.calm(d),
            0 <= i < cs.len(),
            steps >= cs.len() - i,
            forall|k: int| 0 <= k < cs.len() ==> self.valid(#[trigger] cs[k]),
            forall|k: int, j: int| 0 <= k < j < cs.len() ==> cs[k] != cs[j],
            forall|k: int|
                #![trigger cs[k]]
                i <= k < cs.len() ==> (self.next(d, cs[k]) matches Ok(n) && if k + 1 < cs.len() {
                    n == cs[k + 1]
                } else {
                    !self.valid(n)
                }),
        ensures
            ({
                let (d2, r) = self.freed(d, cs[i], steps);
                &&& r is Ok
                &&& forall|k: int|
                    i <= k < cs.len() ==> self.next(d2, #[trigger] cs[k]) == Ok::<u32, FatError>(0)
                &&& forall|x: u32|
                    self.valid(x) && (forall|k: int| i <= k < cs.len() ==> cs[k] != x)
                        ==> #[trigger] self.next(d2, x) == self.next(d, x)
            }),
        decreases cs.len() - i,
    {
        let c = cs[i];
        let n = self.next(d, c)->Ok_0;
        self.lemma_marks_invalid();
        self.lemma_healthy_entry(d, c, 0);
        self.lemma_entry_set(d, c, 0, 0);
        self.lemma_entry_set_fair(d, c, 0, 0);
        let (d1, r) = self.entry_set(d, c, 0, 0);
        assert(self.healthy(d1));
        let (d2, r2) = self.freed(d, c, steps);
        if i + 1 < cs.len() {
            assert forall|k: int|
                #![trigger cs[k]]
                i + 1 <= k < cs.len() implies (self.next(d1, cs[k]) matches Ok(m) && if k + 1
                < cs.len() {
                m == cs[k + 1]
            } else {
                !self.valid(m)
            }) by {
                assert(cs[i] != cs[k]);
                assert(self.next(d1, cs[k]) == self.next(d, cs[k]));
            }
            self.lemma_freed_chain(d1, cs, i + 1, (steps - 1) as nat);
            assert forall|k: int| i <= k < cs.len() implies self.next(d2, #[trigger] cs[k]) == Ok::<
                u32,
                FatError,
            >(0) by {
                if k == i {
                    assert forall|j: int| i + 1 <= j < cs.len() implies cs[j] != c by {}
                    assert(self.next(d2, c) == self.next(d1, c));
                }
            }
            assert forall|x: u32|
                self.valid(x) && (forall|k: int| i <= k < cs.len() ==> cs[k] != x) implies
                #[trigger] self.next(d2, x) == self.next(d, x) by {
                assert(cs[i] != x);
                assert(self.next(d1, x) == self.next(d, x));
            }
        } else {
            assert(!self.valid(n));
            assert(self.freed(d1, n, (steps - 1) as nat) == (d1, Ok::<(), FatError>(())));
            assert forall|x: u32|
                self.valid(x) && (forall|k: int| i <= k < cs.len() ==> cs[k] != x) implies
                #[trigger] self.next(d2, x) == self.next(d, x) by {
                assert(cs[i] != x);
            }
        }
    }
}

/// A file or a directory that is removed gives its clusters back: all of its chain are free, and of
/// no other cluster the FAT says anything else. The disk is without faults.
pub proof fn law_removed_file_gives_its_clusters_back(
    v: Fat32,
    d: DiskView,
    path: Seq<u8>,
    cs: Seq<u32>,
    x: u32,
)
    requires
        v.sound(),
        v.healthy(d),
        v.calm(d),
        v.write_sound(d, path),
        v.entry_of(d, path) matches Ok(e) && e.first_cluster == cs[0],
        v.is_chain(d, cs),
        v.valid(x),
    ensures
        v.file_removed(d, path).1 is Ok ==> v.next(v.file_removed(d, path).0, x) == (if cs.contains(x) {
            Ok(0)
        } else {
            v.next(d, x)
        }),
        v.dir_removed(d, path).1 is Ok ==> v.next(v.dir_removed(d, path).0, x) == (if cs.contains(x) {
            Ok(0)
        } else {
            v.next(d, x)
        }),
{
    let target = fat::name_83(path::components(path).last());
    let dir = v.parent_of(d, path)->Ok_0;
    let hit = v.scan_dir(d, dir, target)->Ok_0.0;
    let (sector, index) = (hit->Found_sector, hit->Found_index);
    let mark = seq![SLOT_DELETED];
    v.lemma_scan_dir_found(d, dir, target);
    let (x0, t0) = v.lemma_slot_home(d, dir, target);
    v.lemma_sector_inside(x0, t0);
    let (d1, w) = Fat32::dir_entry_written(d, sector, 32 * index, mark);
    if w is Ok {
        let buf = fat::fetched(d, sector as int)->Ok_0;
        v.lemma_stored_calm(d, sector as int, util::splice(buf, 32 * index, mark));
        v.lemma_entry_written(d, x0, t0, sector, index as int, mark);
        assert(v.healthy(d1));
        assert forall|y: u32| v.valid(y) implies #[trigger] v.next(d1, y) == v.next(d, y) by {
            assert(v.cluster_but_slot(d, d1, y, sector, index as int, mark));
        }
        assert forall|k: int|
            #![trigger cs[k]]
            0 <= k < cs.len() implies (v.next(d1, cs[k]) matches Ok(n) && if k + 1 < cs.len() {
            n == cs[k + 1]
        } else {
            !v.valid(n)
        }) by {
            assert(v.next(d1, cs[k]) == v.next(d, cs[k]));
        }
        v.lemma_freed_chain(d1, cs, 0, v.cluster_count as nat);
        let d2 = v.chain_freed(d1, cs[0]).0;
        if cs.contains(x) {
            let k = choose|k: int| 0 <= k < cs.len() && cs[k] == x;
            assert(v.next(d2, cs[k]) == Ok::<u32, FatError>(0));
        } else {
            assert forall|k: int| 0 <= k < cs.len() implies cs[k] != x by {}
            assert(v.next(d2, x) == v.next(d1, x));
        }
    }
}

/// A file that is written over gives the clusters of its old contents back. The disk is without
/// faults.
pub proof fn law_replaced_contents_are_given_back(
    v: Fat32,
    d: DiskView,
    path: Seq<u8>,
    data: Seq<u8>,
    cs: Seq<u32>,
    i: int,
)
    requires
        v.sound(),
        v.healthy(d),
        v.calm(d),
        v.write_sound(d, path),
        v.entry_of(d, path) matches Ok(e) && e.first_cluster == cs[0],
        v.is_chain(d, cs),
        0 <= i < cs.len(),
        v.file_written(d, path, data).1 is Ok,
    ensures
        v.next(v.file_written(d, path, data).0, cs[i]) == Ok::<u32, FatError>(0),
{
    let target = fat::name_83(path::components(path).last());
    let dir = v.parent_of(d, path)->Ok_0;
    let (sector, offset, old_first) = v.slot_for(d, dir, target)->Ok_0;
    assert(old_first == Some(cs[0]));
    v.lemma_confined_content(d, data);
    v.lemma_content_restores(d, data);
    let (d1, r) = v.content_stored(d, data);
    let entry = fat::entry_bytes(target, ATTR_ARCHIVE, r->Ok_0, data.len() as u32);
    assert(entry.len() == 32);
    v.lemma_slot_written_fair(d, d1, dir, target, entry);
    let d2 = v.entered(d, dir, target, data).0;
    assert(v.healthy(d1));
    let (x0, t0) = v.lemma_slot_home(d, dir, target);
    let index = offset as int / 32;
    assert(offset == 32 * index);
    v.lemma_entry_written(d1, x0, t0, sector, index, entry);
    assert(v.healthy(d2) && v.calm(d2));
    v.lemma_chain_members(d, cs);
    assert forall|k: int|
        #![trigger cs[k]]
        0 <= k < cs.len() implies (v.next(d2, cs[k]) matches Ok(n) && if k + 1 < cs.len() {
        n == cs[k + 1]
    } else {
        !v.valid(n)
    }) by {
        assert(v.chain_of(d, cs[0]).contains(cs[k]));
        assert(!v.free_clusters(d).contains(cs[k]));
        assert(v.cluster_same(d, d1, cs[k]));
        assert(v.cluster_but_slot(d1, d2, cs[k], sector, index, entry));
    }
    v.lemma_freed_chain(d2, cs, 0, v.cluster_count as nat);
}

impl Fat32 {
    /// The clusters of a chain are reached from its first.
    proof fn lemma_chain_members(self, d: DiskView, cs: Seq<u32>)
        requires
            self.is_chain(d, cs),
        ensures
            forall|k: int| 0 <= k < cs.len() ==> self.chain_of(d, cs[0]).contains(#[trigger] cs[k]),
    {
        assert forall|k: int| 0 <= k < cs.len() implies self.chain_of(d, cs[0]).contains(
            #[trigger] cs[k],
        ) by {
            self.lemma_chain_hop(d, cs, k);
        }
    }

    proof fn lemma_chain_hop(self, d: DiskView, cs: Seq<u32>, k: int)
        requires
            self.is_chain(d, cs),
            0 <= k < cs.len(),
        ensures
            self.hop(d, cs[0], k as nat) == Some(cs[k]),
        decreases k,
    {
        if k > 0 {
            self.lemma_chain_hop(d, cs, k - 1);
            assert(self.next(d, cs[k - 1]) is Ok);
            assert(self.valid(cs[k]));
        } else {
            assert(self.valid(cs[0]));
        }
    }
}

// ---------------------------------------------------------------------------------------------
// What succeeds
// ---------------------------------------------------------------------------------------------

impl Fat32 {
    /// A chain that runs out of clusters has taken all that were free.
    proof fn lemma_grown_takes_all(self, d0: DiskView, d: DiskView, n: nat, cs: Seq<u32>) -> (all: Seq<
        u32,
    >)
        requires
            self.sound(),
            self.healthy(d),
            self.calm(d),
            self.same_but_fat(d0, d),
            self.fresh_chain(d0, d, cs),
        ensures
            ({
                let (d2, r) = self.chain_grown(d, n, first_of(cs), last_of(cs));
                &&& r is Err ==> all.len() < cs.len() + n && forall|x: u32|
                    self.free_clusters(d0).contains(x) ==> #[trigger] all.contains(x)
                &&& r is Ok ==> self.healthy(d2) && self.calm(d2)
            }),
        decreases n,
    {
        reveal(Fat32::fresh_chain);
        if n == 0 {
            cs
        } else {
            self.lemma_first_free(d, FIRST_DATA_CLUSTER as int);
            self.lemma_healthy_first_free(d, FIRST_DATA_CLUSTER as int);
            match self.first_free(d, FIRST_DATA_CLUSTER as int) {
                Err(_) => {
                    assert forall|x: u32| self.free_clusters(d0).contains(x) implies
                        #[trigger] cs.contains(x) by {
                        self.lemma_none_free(d, FIRST_DATA_CLUSTER as int, x);
                        if !cs.contains(x) {
                            assert(self.next(d0, x) == self.next(d, x));
                        }
                    }
                    cs
                },
                Ok(c) => {
                    self.lemma_healthy_entry(d, c, FAT32_EOC);
                    self.lemma_grown_step(d0, d, n, cs);
                    self.lemma_taken(d);
                    let d2 = self.appended(d, cs, c);
                    self.lemma_grown_takes_all(d0, d2, (n - 1) as nat, cs.push(c))
                },
            }
        }
    }

    /// Where the search for a free cluster runs out there is none.
    proof fn lemma_none_free(self, d: DiskView, c: int, x: u32)
        requires
            FIRST_DATA_CLUSTER <= c,
            self.first_free(d, c) == Err::<u32, FatError>(FatError::NoSpace),
            c <= x < FIRST_DATA_CLUSTER + self.cluster_count,
            self.cluster_count <= 0x0FFF_FFFD,
        ensures
            self.next(d, x) != Ok::<u32, FatError>(0),
        decreases FIRST_DATA_CLUSTER + self.cluster_count - c,
    {
        if c < x {
            self.lemma_none_free(d, c + 1, x);
        }
    }

    /// Filling clusters succeeds on a disk without faults.
    proof fn lemma_cluster_filled(self, d: DiskView, c: u32, s: int, data: Seq<u8>)
        requires
            self.sound(),
            self.healthy(d),
            self.calm(d),
            self.valid(c),
            0 <= s,
        ensures
            ({
                let (d2, r) = self.cluster_written(d, c, s, data);
                r is Ok && self.healthy(d2) && self.calm(d2)
            }),
        decreases self.sectors_per_cluster - s,
    {
        if s < self.sectors_per_cluster && data.len() > 0 {
            let take = util::min_nat(data.len(), 512) as int;
            let bytes = util::splice(fat_write::zero_sector(), 0, data.take(take));
            self.lemma_sectors_apart(c, s, c, s);
            self.lemma_sector_inside(c, s);
            self.lemma_stored_calm(d, self.sector_of(c, s), bytes);
            let d2 = fat::stored(d, self.sector_of(c, s), bytes).0;
            assert(self.healthy(d2));
            self.lemma_cluster_filled(d2, c, s + 1, data.skip(take));
        }
    }

    proof fn lemma_data_filled(self, d: DiskView, c: u32, data: Seq<u8>, steps: nat)
        requires
            self.sound(),
            self.healthy(d),
            self.calm(d),
        ensures
            ({
                let (d2, r) = self.data_written(d, c, data, steps);
                r is Ok && self.healthy(d2) && self.calm(d2)
            }),
        decreases steps,
    {
        if data.len() > 0 && self.valid(c) && steps > 0 {
            self.lemma_cluster_filled(d, c, 0, data);
            let d2 = self.cluster_written(d, c, 0, data).0;
            self.lemma_healthy_entry(d2, c, 0);
            let n = self.next(d2, c)->Ok_0;
            let rest = data.skip(util::min_nat(data.len(), self.cluster_bytes()) as int);
            self.lemma_data_filled(d2, n, rest, (steps - 1) as nat);
        }
    }

    /// Contents are stored where there are enough clusters.
    proof fn lemma_content_succeeds(self, d: DiskView, data: Seq<u8>, free: Seq<u32>)
        requires
            self.sound(),
            self.healthy(d),
            self.calm(d),
            free.no_duplicates(),
            forall|i: int| 0 <= i < free.len() ==> self.free_clusters(d).contains(#[trigger] free[i]),
            free.len() * self.cluster_bytes() >= data.len(),
            data.len() <= u32::MAX,
        ensures
            ({
                let (d2, r) = self.content_stored(d, data);
                r is Ok && self.healthy(d2) && self.calm(d2)
            }),
    {
        if data.len() > 0 {
            let cb = self.cluster_bytes();
            let need = fat_write::clusters_for(data.len(), cb);
            lemma_enough(data.len(), cb, free.len());
            let n = need as u32;
            assert(self.fresh_chain(d, d, Seq::empty())) by {
                reveal(Fat32::fresh_chain);
            }
            let all = self.lemma_grown_takes_all(d, d, n as nat, Seq::empty());
            let (d1, r) = self.chain_taken(d, n as nat);
            if r is Err {
                assert(all.len() < free.len());
                lemma_pigeonhole(free, all);
                assert(false);
            }
            self.lemma_data_filled(d1, r->Ok_0, data, self.cluster_count as nat);
        }
    }
}

/// How many clusters are enough.
proof fn lemma_enough(len: nat, cb: nat, have: nat)
    requires
        cb > 0,
        have * cb >= len,
        len <= u32::MAX,
    ensures
        fat_write::clusters_for(len, cb) <= have,
        fat_write::clusters_for(len, cb) <= u32::MAX,
{
    let x = (len + cb - 1) as int;
    let q = x / (cb as int);
    vstd::arithmetic::div_mod::lemma_fundamental_div_mod(x, cb as int);
    vstd::arithmetic::div_mod::lemma_mod_bound(x, cb as int);
    assert(q <= have) by (nonlinear_arith)
        requires
            cb > 0,
            have * cb >= len,
            x == len + cb - 1,
            x == cb * q + x % (cb as int),
            0 <= x % (cb as int),
    ;
    if len > 0 {
        assert(q <= len) by (nonlinear_arith)
            requires
                cb > 0,
                x == len + cb - 1,
                len > 0,
                x == cb * q + x % (cb as int),
                0 <= x % (cb as int),
        ;
    } else {
        vstd::arithmetic::div_mod::lemma_basic_div(x, cb as int);
    }
}

/// More things than places do not fit.
proof fn lemma_pigeonhole(a: Seq<u32>, b: Seq<u32>)
    requires
        a.no_duplicates(),
        forall|i: int| 0 <= i < a.len() ==> b.contains(#[trigger] a[i]),
    ensures
        a.len() <= b.len(),
{
    a.unique_seq_to_set();
    assert(a.to_set().subset_of(b.to_set())) by {
        assert forall|x: u32| a.to_set().contains(x) implies b.to_set().contains(x) by {
            let i = choose|i: int| 0 <= i < a.len() && a[i] == x;
            assert(b.contains(a[i]));
        }
    }
    vstd::seq_lib::seq_to_set_is_finite(b);
    vstd::set_lib::lemma_len_subset(a.to_set(), b.to_set());
    b.lemma_cardinality_of_set();
}

/// A file can be written where its directory exists and has a place for it, and as many clusters
/// are free as its contents need. The disk is without faults.
pub proof fn law_write_succeeds_where_there_is_room(
    v: Fat32,
    d: DiskView,
    path: Seq<u8>,
    data: Seq<u8>,
    free: Seq<u32>,
)
    requires
        v.sound(),
        v.healthy(d),
        v.calm(d),
        v.parent_of(d, path) is Ok,
        v.slot_for(
            d,
            v.parent_of(d, path)->Ok_0,
            fat::name_83(path::components(path).last()),
        ) is Ok,
        free.no_duplicates(),
        forall|i: int| 0 <= i < free.len() ==> v.free_clusters(d).contains(#[trigger] free[i]),
        free.len() * v.cluster_bytes() >= data.len(),
        data.len() <= u32::MAX,
    ensures
        v.file_written(d, path, data).1 is Ok,
{
    let target = fat::name_83(path::components(path).last());
    let dir = v.parent_of(d, path)->Ok_0;
    v.lemma_content_succeeds(d, data, free);
    v.lemma_content_restores(d, data);
    let (d1, r) = v.content_stored(d, data);
    let entry = fat::entry_bytes(target, ATTR_ARCHIVE, r->Ok_0, data.len() as u32);
    v.lemma_slot_written_healthy(d, d1, dir, target, entry);
}

impl Fat32 {
    /// An entry is written on a disk without faults.
    proof fn lemma_slot_written_healthy(
        self,
        d: DiskView,
        d1: DiskView,
        dir: u32,
        target: Seq<u8>,
        entry: Seq<u8>,
    )
        requires
            self.sound(),
            d.wf(),
            same_shape(d, d1),
            self.healthy(d1),
            self.calm(d1),
            self.slot_for(d, dir, target) is Ok,
        ensures
            ({
                let (sector, offset, _) = self.slot_for(d, dir, target)->Ok_0;
                Self::dir_entry_written(d1, sector, offset as int, entry).1 is Ok
            }),
    {
        let (sector, offset, _) = self.slot_for(d, dir, target)->Ok_0;
        let (x0, t0) = self.lemma_slot_home(d, dir, target);
        self.lemma_sector_inside(x0, t0);
        let buf = fat::fetched(d1, sector as int)->Ok_0;
        self.lemma_stored_calm(d1, sector as int, util::splice(buf, offset as int, entry));
    }
}

/// A directory can be made where its parent exists and has a place for it, no entry bears its name,
/// and a cluster is free; where an entry bears its name it is refused for that. The disk is without
/// faults.
pub proof fn law_directory_is_made_where_there_is_room(v: Fat32, d: DiskView, path: Seq<u8>, free: u32)
    requires
        v.sound(),
        v.healthy(d),
        v.calm(d),
        v.parent_of(d, path) is Ok,
        v.slot_for(
            d,
            v.parent_of(d, path)->Ok_0,
            fat::name_83(path::components(path).last()),
        ) is Ok,
        v.free_clusters(d).contains(free),
    ensures
        v.entry_of(d, path) is Ok ==> v.dir_made(d, path) == (
            d,
            Err::<(), FatError>(FatError::AlreadyExists),
        ),
        v.entry_of(d, path) is Err ==> v.dir_made(d, path).1 is Ok,
{
    let target = fat::name_83(path::components(path).last());
    let dir = v.parent_of(d, path)->Ok_0;
    let (sector, offset, old) = v.slot_for(d, dir, target)->Ok_0;
    if old is None {
        v.lemma_first_free(d, FIRST_DATA_CLUSTER as int);
        v.lemma_healthy_first_free(d, FIRST_DATA_CLUSTER as int);
        if v.first_free(d, FIRST_DATA_CLUSTER as int) is Err {
            v.lemma_none_free(d, FIRST_DATA_CLUSTER as int, free);
        }
        let c = v.first_free(d, FIRST_DATA_CLUSTER as int)->Ok_0;
        v.lemma_healthy_entry(d, c, FAT32_EOC);
        v.lemma_taken(d);
        let d1 = v.cluster_taken(d).0;
        assert(v.healthy(d1));
        let fresh = v.fresh_dir_sector(c, dir);
        v.lemma_sectors_apart(c, 0, c, 0);
        v.lemma_sector_inside(c, 0);
        v.lemma_stored_calm(d1, v.sector_of(c, 0), fresh);
        let da = fat::stored(d1, v.sector_of(c, 0), fresh).0;
        assert(v.healthy(da));
        v.lemma_zeroing_succeeds(da, c, 1);
        let d2 = v.dir_cluster_made(d1, c, dir).0;
        let entry = fat::entry_bytes(target, ATTR_DIRECTORY, c, 0);
        v.lemma_slot_written_healthy(d, d2, dir, target, entry);
    }
}

impl Fat32 {
    proof fn lemma_zeroing_succeeds(self, d: DiskView, c: u32, s: int)
        requires
            self.sound(),
            self.healthy(d),
            self.calm(d),
            self.valid(c),
            0 <= s,
        ensures
            ({
                let (d2, r) = self.cluster_zeroed(d, c, s);
                r is Ok && self.healthy(d2) && self.calm(d2) && same_shape(d, d2)
            }),
        decreases self.sectors_per_cluster - s,
    {
        if s < self.sectors_per_cluster {
            self.lemma_sectors_apart(c, s, c, s);
            self.lemma_sector_inside(c, s);
            self.lemma_stored_calm(d, self.sector_of(c, s), fat_write::zero_sector());
            let d2 = fat::stored(d, self.sector_of(c, s), fat_write::zero_sector()).0;
            assert(self.healthy(d2));
            self.lemma_zeroing_succeeds(d2, c, s + 1);
        }
    }
}

/// What can be removed: a file as a file, an empty directory as a directory. A directory is no file
/// and a file no directory; a directory that holds more than its two dots is not empty; and what is
/// not there cannot be removed. The disk is without faults.
pub proof fn law_files_and_empty_directories_can_be_removed(v: Fat32, d: DiskView, path: Seq<u8>)
    requires
        v.sound(),
        v.healthy(d),
        v.calm(d),
    ensures
        v.entry_of(d, path) matches Ok(e) ==> {
            &&& !e.is_dir ==> v.file_removed(d, path).1 is Ok
            &&& !e.is_dir ==> v.dir_removed(d, path) == (
                d,
                Err::<(), FatError>(FatError::NotADirectory),
            )
            &&& e.is_dir ==> v.file_removed(d, path) == (
                d,
                Err::<(), FatError>(FatError::IsADirectory),
            )
            &&& e.is_dir ==> (v.dir_items(d, e.first_cluster) matches Ok(items) ==> {
                let only_dots = forall|i: int|
                    0 <= i < items.len() ==> (#[trigger] items[i]).name == seq![0x2Eu8]
                        || items[i].name == seq![0x2Eu8, 0x2Eu8];
                &&& only_dots ==> v.dir_removed(d, path).1 is Ok
                &&& !only_dots ==> v.dir_removed(d, path) == (
                    d,
                    Err::<(), FatError>(FatError::NotEmpty),
                )
            })
        },
        v.entry_of(d, path) matches Err(e) ==> v.file_removed(d, path) == (d, Err::<(), FatError>(e))
            && v.dir_removed(d, path) == (d, Err::<(), FatError>(e)),
{
    if let Ok(e) = v.entry_of(d, path) {
        let target = fat::name_83(path::components(path).last());
        let dir = v.parent_of(d, path)->Ok_0;
        let mark = seq![SLOT_DELETED];
        v.lemma_scan_dir_found(d, dir, target);
        v.lemma_slot_written_healthy(d, d, dir, target, mark);
    }
}

impl Fat32 {
    /// A chain that is long enough can be read on a disk without faults.
    proof fn lemma_chain_readable(self, d: DiskView, c: u32, len: nat)
        requires
            self.sound(),
            self.healthy(d),
            forall|k: nat| k * self.cluster_bytes() < len ==> (#[trigger] self.hop(d, c, k)) is Some,
        ensures
            self.chain_data(d, c, len) is Ok,
        decreases len,
    {
        if len > 0 {
            assert(0nat * self.cluster_bytes() == 0);
            assert(self.hop(d, c, 0) is Some);
            self.lemma_cluster_readable(d, c, 0, len);
            self.lemma_healthy_entry(d, c, 0);
            let n = self.next(d, c)->Ok_0;
            let cb = self.cluster_bytes();
            let rest = (len - util::min_nat(len, cb)) as nat;
            assert forall|k: nat| k * cb < rest implies (#[trigger] self.hop(d, n, k)) is Some by {
                assert((k + 1) * cb == k * cb + cb) by (nonlinear_arith);
                assert(self.hop(d, c, k + 1) is Some);
                self.lemma_hop_second(d, c, n, k);
            }
            self.lemma_chain_readable(d, n, rest);
        }
    }

    proof fn lemma_hop_second(self, d: DiskView, c: u32, n: u32, k: nat)
        requires
            self.valid(c),
            self.next(d, c) == Ok::<u32, FatError>(n),
        ensures
            self.hop(d, n, k) == self.hop(d, c, k + 1),
        decreases k,
    {
        if k > 0 {
            self.lemma_hop_second(d, c, n, (k - 1) as nat);
        } else {
            assert(self.hop(d, c, 0) == Some(c));
        }
    }

    proof fn lemma_cluster_readable(self, d: DiskView, c: u32, s: int, len: nat)
        requires
            self.sound(),
            self.healthy(d),
            self.valid(c),
            0 <= s,
        ensures
            self.cluster_data(d, c, s, len) is Ok,
        decreases self.sectors_per_cluster - s,
    {
        if s < self.sectors_per_cluster && len > 0 {
            self.lemma_sectors_apart(c, s, c, s);
            self.lemma_sector_inside(c, s);
            let take = util::min_nat(len, 512);
            self.lemma_cluster_readable(d, c, s + 1, (len - take) as nat);
        }
    }

    /// A directory can be searched and listed on a disk without faults.
    proof fn lemma_dir_readable(
        self,
        d: DiskView,
        c: u32,
        s: int,
        steps: nat,
        target: Seq<u8>,
        free: Option<(u32, usize)>,
    )
        requires
            self.sound(),
            self.healthy(d),
            self.valid(c),
            0 <= s,
        ensures
            self.scan(d, c, s, steps, target, free) is Ok,
            self.listed(d, c, s, steps) is Ok,
        decreases steps, self.sectors_per_cluster - s,
    {
        if s < self.sectors_per_cluster {
            self.lemma_sectors_apart(c, s, c, s);
            self.lemma_sector_inside(c, s);
            let buf = fat::fetched(d, self.sector_of(c, s))->Ok_0;
            let stop = fat::stop_index(buf, target, 0);
            let gone = fat::deleted_index(buf, 0, stop);
            let free2 = if free is None && gone < stop {
                Some((self.sector_of(c, s) as u32, gone as usize))
            } else {
                free
            };
            self.lemma_dir_readable(d, c, s + 1, steps, target, free2);
        } else {
            self.lemma_healthy_entry(d, c, 0);
            let n = self.next(d, c)->Ok_0;
            if self.valid(n) && steps > 0 {
                self.lemma_dir_readable(d, n, 0, (steps - 1) as nat, target, free);
            }
        }
    }
}

/// A file can be read where its chain is as long as its size asks, and every directory can be
/// searched and listed. The disk is without faults.
pub proof fn law_files_and_directories_can_be_read(
    v: Fat32,
    d: DiskView,
    path: Seq<u8>,
    dir: u32,
    name: Seq<u8>,
)
    requires
        v.sound(),
        v.healthy(d),
    ensures
        v.entry_of(d, path) matches Ok(e) ==> !e.is_dir && (forall|k: nat|
            k * v.cluster_bytes() < e.size ==> (#[trigger] v.hop(d, e.first_cluster, k)) is Some)
            ==> v.file_read(d, path) is Ok,
        v.found_in_dir(d, dir, name) is Ok,
        v.dir_items(d, dir) is Ok,
        v.scan_dir(d, dir, fat::name_83(name)) is Ok,
        v.slot_for(d, dir, fat::name_83(name)) matches Err(e) ==> e is DirFull,
{
    if let Ok(e) = v.entry_of(d, path) {
        if !e.is_dir && (forall|k: nat|
            k * v.cluster_bytes() < e.size ==> (#[trigger] v.hop(d, e.first_cluster, k)) is Some) {
            v.lemma_chain_readable(d, e.first_cluster, e.size as nat);
        }
    }
    if v.valid(dir) {
        v.lemma_dir_readable(
            d,
            dir,
            0,
            (v.cluster_count - 1) as nat,
            fat::name_83(name),
            None,
        );
    }
}

} // verus!
