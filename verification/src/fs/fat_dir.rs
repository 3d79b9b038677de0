//! Listing directories of a FAT32 volume, and removing files and directories.

use crate::drivers::virtio_blk::{Disk, DiskView, SECTOR_SIZE};
use crate::fs::fat::{
    self, fetch, short_name_83, store, DirEntry, DirHit, Fat32, FatError, ATTR_DIRECTORY,
    ATTR_LONG_NAME, ATTR_VOLUME_ID, SLOT_DELETED, SLOT_END,
};
use crate::fs::path;
use crate::util;
use vstd::prelude::*;

verus! {

/// An entry of a directory listing.
pub struct DirItem {
    pub name: Vec<u8>,
    pub is_dir: bool,
}

/// What a [`DirItem`] holds.
#[verifier::ext_equal]
pub struct ItemView {
    pub name: Seq<u8>,
    pub is_dir: bool,
}

impl View for DirItem {
    type V = ItemView;

    open spec fn view(&self) -> ItemView {
        ItemView { name: self.name@, is_dir: self.is_dir }
    }
}

/// What a list of items holds.
pub open spec fn item_views(v: Seq<DirItem>) -> Seq<ItemView> {
    Seq::new(v.len(), |i: int| v[i]@)
}

/// What a path names: a file with its contents, or a directory with its entries.
pub enum Node {
    File(Vec<u8>),
    Dir(Vec<DirItem>),
}

/// What a [`Node`] holds.
pub enum NodeView {
    File(Seq<u8>),
    Dir(Seq<ItemView>),
}

impl View for Node {
    type V = NodeView;

    open spec fn view(&self) -> NodeView {
        match self {
            Node::File(data) => NodeView::File(data@),
            Node::Dir(items) => NodeView::Dir(item_views(items@)),
        }
    }
}

/// `s` without the blanks at its end.
pub open spec fn trimmed(s: Seq<u8>) -> Seq<u8>
    decreases s.len(),
{
    if s.len() > 0 && s.last() == 0x20 {
        trimmed(s.drop_last())
    } else {
        s
    }
}

/// The usual form of an 8.3 name: base and extension with a dot between them.
pub open spec fn display_name(name: Seq<u8>) -> Seq<u8> {
    let base = trimmed(name.take(8));
    let ext = trimmed(name.subrange(8, 11));
    if ext.len() == 0 {
        base
    } else {
        base.push(path::DOT) + ext
    }
}

/// What a listing says of entry `k`.
pub open spec fn slot_item(buf: Seq<u8>, k: int) -> ItemView {
    ItemView {
        name: display_name(fat::slot_name(buf, k)),
        is_dir: fat::slot_attr(buf, k) & ATTR_DIRECTORY != 0,
    }
}

/// Index of the first entry from `k` on that ends the directory, 16 if there is none.
pub open spec fn end_index(buf: Seq<u8>, k: int) -> int
    decreases 16 - k,
{
    if k >= 16 {
        16
    } else if fat::slot_ends(buf, k) {
        k
    } else {
        end_index(buf, k + 1)
    }
}

/// The entries with a name among the first `n` of a sector.
pub open spec fn sector_items(buf: Seq<u8>, n: int) -> Seq<ItemView>
    decreases n,
{
    if n <= 0 {
        Seq::empty()
    } else if fat::slot_named(buf, n - 1) {
        sector_items(buf, n - 1).push(slot_item(buf, n - 1))
    } else {
        sector_items(buf, n - 1)
    }
}

/// The name without the blanks at its end.
fn trim_blanks(s: &[u8], from: usize, to: usize) -> (v: Vec<u8>)
    requires
        from <= to <= s@.len(),
    ensures
        v@ == trimmed(s@.subrange(from as int, to as int)),
{
    let mut end = to;
    while end > from && s[end - 1] == 0x20
        invariant
            from <= end <= to <= s@.len(),
            trimmed(s@.subrange(from as int, to as int)) == trimmed(
                s@.subrange(from as int, end as int),
            ),
        decreases end,
    {
        let ghost part = s@.subrange(from as int, end as int);
        assert(part.drop_last() =~= s@.subrange(from as int, end - 1));
        assert(part.last() == s@[end - 1]);
        end -= 1;
    }
    let ghost part = s@.subrange(from as int, end as int);
    assert(part.len() > 0 ==> part.last() == s@[end - 1]);
    util::slice_to_vec(s, from, end)
}

/// What a listing says of entry `k`.
fn read_item(buf: &[u8; SECTOR_SIZE], k: usize) -> (item: DirItem)
    requires
        k < 16,
    ensures
        item@ == slot_item(buf@, k as int),
{
    let at = 32 * k;
    let mut name = trim_blanks(buf, at, at + 8);
    let ext = trim_blanks(buf, at + 8, at + 11);
    let is_dir = buf[at + 11] & ATTR_DIRECTORY != 0;
    proof {
        let n = fat::slot_name(buf@, k as int);
        assert(n.take(8) =~= buf@.subrange(at as int, at + 8));
        assert(n.subrange(8, 11) =~= buf@.subrange(at + 8, at + 11));
    }
    if ext.len() > 0 {
        name.push(path::DOT);
        name.extend_from_slice(ext.as_slice());
    }
    let item = DirItem { name, is_dir };
    assert(item@ =~= slot_item(buf@, k as int));
    item
}

/// Appends to `out` the entries of a sector. Returns whether the directory ends in it.
fn list_sector(buf: &[u8; SECTOR_SIZE], out: &mut Vec<DirItem>) -> (ended: bool)
    ensures
        ended == (end_index(buf@, 0) < 16),
        item_views(final(out)@) == item_views(old(out)@) + sector_items(
            buf@,
            end_index(buf@, 0),
        ),
{
    let ghost before = item_views(out@);
    let mut k: usize = 0;
    assert(before + Seq::<ItemView>::empty() =~= before);
    while k < 16
        invariant
            before == item_views(old(out)@),
            k <= 16,
            end_index(buf@, 0) == end_index(buf@, k as int),
            item_views(out@) == before + sector_items(buf@, k as int),
        decreases 16 - k,
    {
        let head = buf[32 * k];
        if head == SLOT_END {
            return true;
        }
        let attr = buf[32 * k + 11];
        let skipped = attr & ATTR_LONG_NAME == ATTR_LONG_NAME || attr & ATTR_VOLUME_ID != 0;
        if head != SLOT_DELETED && !skipped {
            let ghost so_far = item_views(out@);
            let item = read_item(buf, k);
            let ghost iv = item@;
            out.push(item);
            proof {
                assert(item_views(out@) =~= so_far.push(iv));
                let items = sector_items(buf@, k as int);
                assert((before + items).push(iv) =~= before + items.push(iv));
            }
        }
        k += 1;
    }
    false
}

impl Fat32 {
    /// The entries of a directory from sector `s` of cluster `c` on.
    pub open spec fn listed(self, d: DiskView, c: u32, s: int, steps: nat) -> Result<
        Seq<ItemView>,
        FatError,
    >
        decreases steps, self.sectors_per_cluster - s,
    {
        if s < self.sectors_per_cluster {
            match fat::fetched(d, self.sector_of(c, s)) {
                Err(e) => Err(e),
                Ok(buf) => {
                    let here = sector_items(buf, end_index(buf, 0));
                    if end_index(buf, 0) < 16 {
                        Ok(here)
                    } else {
                        match self.listed(d, c, s + 1, steps) {
                            Err(e) => Err(e),
                            Ok(rest) => Ok(here + rest),
                        }
                    }
                },
            }
        } else {
            match self.next(d, c) {
                Err(e) => Err(e),
                Ok(n) => if self.valid(n) && steps > 0 {
                    self.listed(d, n, 0, (steps - 1) as nat)
                } else {
                    Ok(Seq::empty())
                },
            }
        }
    }

    /// The entries of the directory that starts at cluster `dir`.
    pub open spec fn dir_items(self, d: DiskView, dir: u32) -> Result<Seq<ItemView>, FatError> {
        if self.valid(dir) {
            self.listed(d, dir, 0, (self.cluster_count - 1) as nat)
        } else {
            Ok(Seq::empty())
        }
    }

    /// The entries of the directory that starts at cluster `dir`.
    pub fn list_dir(&self, disk: &Disk, dir: u32) -> (r: Result<Vec<DirItem>, FatError>)
        requires
            self.wf(),
            disk.wf(),
        ensures
            match self.dir_items(disk@, dir) {
                Err(e) => r matches Err(e2) && e2 == e,
                Ok(items) => r matches Ok(v) && item_views(v@) == items,
            },
    {
        let ghost whole = self.dir_items(disk@, dir);
        let mut out: Vec<DirItem> = Vec::new();
        let mut cluster = dir;
        let mut steps_left = self.cluster_count;
        proof {
            if let Ok(items) = whole {
                assert(item_views(out@) + items =~= items);
            }
            assert(item_views(out@) + Seq::<ItemView>::empty() =~= item_views(out@));
        }
        while self.valid_cluster(cluster) && steps_left > 0
            invariant
                self.wf(),
                disk.wf(),
                whole == self.dir_items(disk@, dir),
                steps_left == 0 ==> whole == Ok::<Seq<ItemView>, FatError>(item_views(out@)),
                steps_left > 0 && !self.valid(cluster) ==> whole == Ok::<Seq<ItemView>, FatError>(
                    item_views(out@),
                ),
                steps_left > 0 && self.valid(cluster) ==> match self.listed(
                    disk@,
                    cluster,
                    0,
                    (steps_left - 1) as nat,
                ) {
                    Err(e) => whole == Err::<Seq<ItemView>, FatError>(e),
                    Ok(rest) => whole == Ok::<Seq<ItemView>, FatError>(item_views(out@) + rest),
                },
            decreases steps_left,
        {
            steps_left -= 1;
            let first = self.first_sector_of_cluster(cluster);
            let mut s: u32 = 0;
            while s < self.sectors_per_cluster
                invariant
                    self.wf(),
                    disk.wf(),
                    self.valid(cluster),
                    s <= self.sectors_per_cluster,
                    first == self.sector_of(cluster, 0),
                    whole == self.dir_items(disk@, dir),
                    match self.listed(disk@, cluster, s as int, steps_left as nat) {
                        Err(e) => whole == Err::<Seq<ItemView>, FatError>(e),
                        Ok(rest) => whole == Ok::<Seq<ItemView>, FatError>(
                            item_views(out@) + rest,
                        ),
                    },
                decreases self.sectors_per_cluster - s,
            {
                proof {
                    self.lemma_sector_bound(cluster, s as int);
                }
                let mut buf = [0u8; SECTOR_SIZE];
                match fetch(disk, first + s, &mut buf) {
                    Ok(_) => {},
                    Err(e) => {
                        return Err(e);
                    },
                }
                let ghost before = item_views(out@);
                let ghost here = sector_items(buf@, end_index(buf@, 0));
                if list_sector(&buf, &mut out) {
                    return Ok(out);
                }
                proof {
                    if let Ok(rest) = self.listed(disk@, cluster, s + 1, steps_left as nat) {
                        assert(before + (here + rest) =~= (before + here) + rest);
                    }
                }
                s += 1;
            }
            match self.next_cluster(disk, cluster) {
                Ok(n) => {
                    cluster = n;
                },
                Err(e) => {
                    return Err(e);
                },
            }
            proof {
                assert(item_views(out@) + Seq::<ItemView>::empty() =~= item_views(out@));
            }
        }
        Ok(out)
    }

    /// What a path names.
    pub open spec fn node_of(self, d: DiskView, path: Seq<u8>) -> Result<NodeView, FatError> {
        if path::components(path).len() == 0 {
            match self.dir_items(d, self.root_cluster) {
                Err(e) => Err(e),
                Ok(items) => Ok(NodeView::Dir(items)),
            }
        } else {
            match self.entry_of(d, path) {
                Err(e) => Err(e),
                Ok(entry) => if entry.is_dir {
                    match self.dir_items(d, entry.first_cluster) {
                        Err(e) => Err(e),
                        Ok(items) => Ok(NodeView::Dir(items)),
                    }
                } else {
                    match self.chain_data(d, entry.first_cluster, entry.size as nat) {
                        Err(e) => Err(e),
                        Ok(data) => Ok(NodeView::File(data)),
                    }
                },
            }
        }
    }

    /// Looks up what a path names: a file with its contents, or a directory with its entries.
    /// A path without components names the root.
    pub fn lookup_node(&self, disk: &Disk, path: &[u8]) -> (r: Result<Node, FatError>)
        requires
            self.wf(),
            disk.wf(),
        ensures
            match self.node_of(disk@, path@) {
                Err(e) => r matches Err(e2) && e2 == e,
                Ok(node) => r matches Ok(n) && n@ == node,
            },
    {
        let comps = path::path_components(path);
        if comps.len() == 0 {
            return match self.list_dir(disk, self.root_cluster) {
                Ok(items) => Ok(Node::Dir(items)),
                Err(e) => Err(e),
            };
        }
        match self.lookup_entry(disk, path) {
            Err(e) => Err(e),
            Ok(entry) => {
                if entry.is_dir {
                    match self.list_dir(disk, entry.first_cluster) {
                        Ok(items) => Ok(Node::Dir(items)),
                        Err(e) => Err(e),
                    }
                } else {
                    match self.read_chain(disk, entry.first_cluster, entry.size) {
                        Ok(data) => Ok(Node::File(data)),
                        Err(e) => Err(e),
                    }
                }
            },
        }
    }

    /// Marks an entry as deleted and frees the chain of what it named. Once the entry is deleted
    /// the removal is done, whether or not all clusters could be freed.
    pub open spec fn slot_removed(self, d: DiskView, sector: u32, index: usize, first: u32) -> (
        DiskView,
        Result<(), FatError>,
    ) {
        match Self::dir_entry_written(d, sector, 32 * index, seq![SLOT_DELETED]) {
            (d2, Err(e)) => (d2, Err(e)),
            (d2, Ok(_)) => (self.chain_freed(d2, first).0, Ok(())),
        }
    }

    fn remove_slot(&self, disk: &mut Disk, sector: u32, index: usize, first: u32) -> (r: Result<
        (),
        FatError,
    >)
        requires
            self.wf(),
            old(disk).wf(),
            index < 16,
        ensures
            final(disk).wf(),
            (final(disk)@, r) == self.slot_removed(old(disk)@, sector, index, first),
    {
        let mut buf = [0u8; SECTOR_SIZE];
        fetch(disk, sector, &mut buf)?;
        let mark = [SLOT_DELETED];
        assert(mark@ =~= seq![SLOT_DELETED]);
        util::copy_into(&mut buf, 32 * index, &mark);
        store(disk, sector, &buf)?;
        let _ = self.free_chain(disk, first);
        Ok(())
    }

    /// What removing the file at `path` does.
    pub open spec fn file_removed(self, d: DiskView, path: Seq<u8>) -> (
        DiskView,
        Result<(), FatError>,
    ) {
        match self.parent_of(d, path) {
            Err(e) => (d, Err(e)),
            Ok(dir) => match self.scan_dir(
                d,
                dir,
                fat::name_83(path::components(path).last()),
            ) {
                Err(e) => (d, Err(e)),
                Ok((DirHit::Found { sector, index, entry }, _)) => if entry.is_dir {
                    (d, Err(FatError::IsADirectory))
                } else {
                    self.slot_removed(d, sector, index, entry.first_cluster)
                },
                Ok(_) => (d, Err(FatError::NotFound)),
            },
        }
    }

    /// Removes the file at `path`. A directory is refused.
    pub fn unlink_path(&self, disk: &mut Disk, path: &[u8]) -> (r: Result<(), FatError>)
        requires
            self.wf(),
            old(disk).wf(),
        ensures
            final(disk).wf(),
            (final(disk)@, r) == self.file_removed(old(disk)@, path@),
    {
        let (dir, name) = self.resolve_parent(disk, path)?;
        let target = short_name_83(name.as_slice());
        proof {
            self.lemma_scan_dir_indices(disk@, dir, target@);
        }
        let (hit, _free) = self.search_dir(disk, dir, &target)?;
        match hit {
            DirHit::Found { sector, index, entry } => {
                if entry.is_dir {
                    Err(FatError::IsADirectory)
                } else {
                    self.remove_slot(disk, sector, index, entry.first_cluster)
                }
            },
            _ => Err(FatError::NotFound),
        }
    }

    /// Whether a listing holds nothing but `.` and `..`.
    pub open spec fn only_dots(items: Seq<ItemView>) -> bool {
        forall|i: int|
            0 <= i < items.len() ==> (#[trigger] items[i]).name == seq![path::DOT] || items[i].name
                == seq![path::DOT, path::DOT]
    }

    /// What removing the directory at `path` does.
    pub open spec fn dir_removed(self, d: DiskView, path: Seq<u8>) -> (
        DiskView,
        Result<(), FatError>,
    ) {
        match self.parent_of(d, path) {
            Err(e) => (d, Err(e)),
            Ok(dir) => match self.scan_dir(
                d,
                dir,
                fat::name_83(path::components(path).last()),
            ) {
                Err(e) => (d, Err(e)),
                Ok((DirHit::Found { sector, index, entry }, _)) => if !entry.is_dir {
                    (d, Err(FatError::NotADirectory))
                } else {
                    match self.dir_items(d, entry.first_cluster) {
                        Err(e) => (d, Err(e)),
                        Ok(items) => if Self::only_dots(items) {
                            self.slot_removed(d, sector, index, entry.first_cluster)
                        } else {
                            (d, Err(FatError::NotEmpty))
                        },
                    }
                },
                Ok(_) => (d, Err(FatError::NotFound)),
            },
        }
    }

    /// Removes the empty directory at `path`.
    pub fn rmdir_path(&self, disk: &mut Disk, path: &[u8]) -> (r: Result<(), FatError>)
        requires
            self.wf(),
            old(disk).wf(),
        ensures
            final(disk).wf(),
            (final(disk)@, r) == self.dir_removed(old(disk)@, path@),
    {
        let (dir, name) = self.resolve_parent(disk, path)?;
        let target = short_name_83(name.as_slice());
        proof {
            self.lemma_scan_dir_indices(disk@, dir, target@);
        }
        let (hit, _free) = self.search_dir(disk, dir, &target)?;
        match hit {
            DirHit::Found { sector, index, entry } => {
                if !entry.is_dir {
                    return Err(FatError::NotADirectory);
                }
                let items = self.list_dir(disk, entry.first_cluster)?;
                let ghost views = item_views(items@);
                let mut i: usize = 0;
                while i < items.len()
                    invariant
                        i <= items@.len(),
                        views == item_views(items@),
                        *disk == *old(disk),
                        self.dir_removed(disk@, path@) == (if Self::only_dots(views) {
                            self.slot_removed(disk@, sector, index, entry.first_cluster)
                        } else {
                            (disk@, Err(FatError::NotEmpty))
                        }),
                        disk.wf(),
                        forall|j: int|
                            0 <= j < i ==> (#[trigger] views[j]).name == seq![path::DOT]
                                || views[j].name == seq![path::DOT, path::DOT],
                    decreases items@.len() - i,
                {
                    let n = items[i].name.as_slice();
                    let dots = (n.len() == 1 && n[0] == path::DOT) || (n.len() == 2 && n[0]
                        == path::DOT && n[1] == path::DOT);
                    assert(views[i as int].name == n@);
                    if !dots {
                        assert(n@ != seq![path::DOT]);
                        assert(n@ != seq![path::DOT, path::DOT]);
                        return Err(FatError::NotEmpty);
                    }
                    assert(n@ =~= seq![path::DOT] || n@ =~= seq![path::DOT, path::DOT]);
                    i += 1;
                }
                self.remove_slot(disk, sector, index, entry.first_cluster)
            },
            _ => Err(FatError::NotFound),
        }
    }

    /// Metadata of a path: its entry, or for the root one that names it.
    pub open spec fn meta_of(self, d: DiskView, path: Seq<u8>) -> Result<DirEntry, FatError> {
        if path::components(path).len() == 0 {
            Ok(DirEntry { first_cluster: self.root_cluster, size: 0, is_dir: true })
        } else {
            self.entry_of(d, path)
        }
    }

    /// Metadata of a path.
    pub fn stat_path(&self, disk: &Disk, path: &[u8]) -> (r: Result<DirEntry, FatError>)
        requires
            self.wf(),
            disk.wf(),
        ensures
            r == self.meta_of(disk@, path@),
    {
        let comps = path::path_components(path);
        if comps.len() == 0 {
            return Ok(DirEntry { first_cluster: self.root_cluster, size: 0, is_dir: true });
        }
        self.lookup_entry(disk, path)
    }
}

/// Dropping blanks makes nothing longer.
proof fn lemma_trimmed_len(s: Seq<u8>)
    ensures
        trimmed(s).len() <= s.len(),
    decreases s.len(),
{
    if s.len() > 0 && s.last() == 0x20 {
        lemma_trimmed_len(s.drop_last());
    }
}

/// The names of a sector are short.
proof fn lemma_sector_names(buf: Seq<u8>, n: int)
    requires
        buf.len() == SECTOR_SIZE,
        n <= 16,
    ensures
        forall|j: int|
            0 <= j < sector_items(buf, n).len() ==> (#[trigger] sector_items(buf, n)[j]).name.len()
                <= 12,
    decreases n,
{
    if n > 0 {
        lemma_sector_names(buf, n - 1);
        let name = fat::slot_name(buf, n - 1);
        lemma_trimmed_len(name.take(8));
        lemma_trimmed_len(name.subrange(8, 11));
        let before = sector_items(buf, n - 1);
        let item = slot_item(buf, n - 1);
        assert(item.name.len() <= 12);
        assert(forall|j: int| 0 <= j < before.len() ==> before.push(item)[j] == before[j]);
    }
}

/// The names of a directory from some sector on are short.
proof fn lemma_listed_names(fat: Fat32, d: DiskView, c: u32, s: int, steps: nat)
    requires
        d.wf(),
        fat.valid(c),
        0 <= s,
    ensures
        fat.listed(d, c, s, steps) matches Ok(items) ==> forall|j: int|
            0 <= j < items.len() ==> (#[trigger] items[j]).name.len() <= 12,
    decreases steps, fat.sectors_per_cluster - s,
{
    if s < fat.sectors_per_cluster {
        if let Ok(buf) = fat::fetched(d, fat.sector_of(c, s)) {
            assert(0 <= (c - 2) * fat.sectors_per_cluster) by (nonlinear_arith)
                requires
                    c >= 2,
            ;
            lemma_end_index(buf, 0);
            lemma_sector_names(buf, end_index(buf, 0));
            if end_index(buf, 0) >= 16 {
                lemma_listed_names(fat, d, c, s + 1, steps);
            }
        }
    } else if let Ok(n) = fat.next(d, c) {
        if fat.valid(n) && steps > 0 {
            lemma_listed_names(fat, d, n, 0, (steps - 1) as nat);
        }
    }
}

/// A sector has sixteen entries.
proof fn lemma_end_index(buf: Seq<u8>, k: int)
    requires
        k <= 16,
    ensures
        end_index(buf, k) <= 16,
    decreases 16 - k,
{
    if k < 16 && !fat::slot_ends(buf, k) {
        lemma_end_index(buf, k + 1);
    }
}

/// A listing names entries by at most eight characters, a dot and three more.
pub proof fn law_listed_names_are_short(fat: Fat32, d: DiskView, path: Seq<u8>)
    requires
        d.wf(),
    ensures
        fat.node_of(d, path) matches Ok(NodeView::Dir(items)) ==> forall|j: int|
            0 <= j < items.len() ==> (#[trigger] items[j]).name.len() <= 12,
{
    if path::components(path).len() == 0 {
        if fat.valid(fat.root_cluster) {
            lemma_listed_names(fat, d, fat.root_cluster, 0, (fat.cluster_count - 1) as nat);
        }
    } else if let Ok(entry) = fat.entry_of(d, path) {
        if fat.valid(entry.first_cluster) {
            lemma_listed_names(fat, d, entry.first_cluster, 0, (fat.cluster_count - 1) as nat);
        }
    }
}

} // verus!
