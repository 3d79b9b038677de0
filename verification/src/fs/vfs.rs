//! The mounted file system: one FAT32 volume on the disk. Every operation fails with the error of
//! the mount where that failed.

use crate::drivers::virtio_blk::{Disk, DiskView};
use crate::fs::fat::{self, DirEntry, Fat32, FatError};
use crate::fs::fat_dir::{Node, NodeView};
use vstd::prelude::*;

verus! {

/// The disk and what mounting it gave.
pub struct FileSystem {
    pub disk: Disk,
    pub volume: Result<Fat32, FatError>,
}

/// What a [`FileSystem`] holds.
#[verifier::ext_equal]
pub struct FsView {
    pub disk: DiskView,
    pub volume: Result<Fat32, FatError>,
}

impl View for FileSystem {
    type V = FsView;

    open spec fn view(&self) -> FsView {
        FsView { disk: self.disk@, volume: self.volume }
    }
}

impl FsView {
    /// The disk is in order, and a mounted volume can be addressed.
    pub open spec fn wf(self) -> bool {
        &&& self.disk.wf()
        &&& self.disk.logged()
        &&& self.volume matches Ok(v) ==> v.wf()
    }

    /// What a path names.
    pub open spec fn node(self, path: Seq<u8>) -> Result<NodeView, FatError> {
        match self.volume {
            Err(e) => Err(e),
            Ok(v) => v.node_of(self.disk, path),
        }
    }

    /// The contents of a file.
    pub open spec fn file(self, path: Seq<u8>) -> Result<Seq<u8>, FatError> {
        match self.volume {
            Err(e) => Err(e),
            Ok(v) => v.file_read(self.disk, path),
        }
    }

    /// Metadata of a path.
    pub open spec fn meta(self, path: Seq<u8>) -> Result<DirEntry, FatError> {
        match self.volume {
            Err(e) => Err(e),
            Ok(v) => v.meta_of(self.disk, path),
        }
    }

    /// The file system after a change of its disk.
    pub open spec fn changed(self, r: (DiskView, Result<(), FatError>)) -> (
        FsView,
        Result<(), FatError>,
    ) {
        (FsView { disk: r.0, ..self }, r.1)
    }

    /// What writing a file does.
    pub open spec fn file_written(self, path: Seq<u8>, data: Seq<u8>) -> (
        FsView,
        Result<(), FatError>,
    ) {
        match self.volume {
            Err(e) => (self, Err(e)),
            Ok(v) => self.changed(v.file_written(self.disk, path, data)),
        }
    }

    /// What making a directory does.
    pub open spec fn dir_made(self, path: Seq<u8>) -> (FsView, Result<(), FatError>) {
        match self.volume {
            Err(e) => (self, Err(e)),
            Ok(v) => self.changed(v.dir_made(self.disk, path)),
        }
    }

    /// What removing a file does.
    pub open spec fn file_removed(self, path: Seq<u8>) -> (FsView, Result<(), FatError>) {
        match self.volume {
            Err(e) => (self, Err(e)),
            Ok(v) => self.changed(v.file_removed(self.disk, path)),
        }
    }

    /// What removing a directory does.
    pub open spec fn dir_removed(self, path: Seq<u8>) -> (FsView, Result<(), FatError>) {
        match self.volume {
            Err(e) => (self, Err(e)),
            Ok(v) => self.changed(v.dir_removed(self.disk, path)),
        }
    }
}

impl FileSystem {
    /// Mounts the volume on `disk`. `None` where the volume describes itself so that its sectors
    /// could not all be addressed.
    pub fn mount(disk: Disk) -> (r: Option<FileSystem>)
        requires
            disk.wf(),
        ensures
            match r {
                Some(fs) => fs@.wf() && fs@.disk == disk@ && fs@.volume == fat::mounted(disk@),
                None => fat::fetched(disk@, 0) matches Ok(boot) && (fat::boot_data_start(boot)
                    > u32::MAX || (fat::mounted(disk@) matches Ok(v) && !v.wf())),
            },
    {
        if !fat::data_start_fits(&disk) {
            return None;
        }
        let volume = Fat32::mount(&disk);
        match volume {
            Ok(v) => {
                if !v.is_addressable() {
                    return None;
                }
            },
            Err(_) => {},
        }
        Some(FileSystem { disk, volume })
    }

    /// The contents of the file at `path`.
    pub fn open(&self, path: &[u8]) -> (r: Result<Vec<u8>, FatError>)
        requires
            self@.wf(),
        ensures
            match self@.file(path@) {
                Err(e) => r matches Err(e2) && e2 == e,
                Ok(data) => r matches Ok(v) && v@ == data,
            },
    {
        match self.volume {
            Err(e) => Err(e),
            Ok(v) => v.read_path(&self.disk, path),
        }
    }

    /// What `path` names.
    pub fn lookup(&self, path: &[u8]) -> (r: Result<Node, FatError>)
        requires
            self@.wf(),
        ensures
            match self@.node(path@) {
                Err(e) => r matches Err(e2) && e2 == e,
                Ok(node) => r matches Ok(n) && n@ == node,
            },
    {
        match self.volume {
            Err(e) => Err(e),
            Ok(v) => v.lookup_node(&self.disk, path),
        }
    }

    /// Metadata of `path`.
    pub fn stat(&self, path: &[u8]) -> (r: Result<DirEntry, FatError>)
        requires
            self@.wf(),
        ensures
            r == self@.meta(path@),
    {
        match self.volume {
            Err(e) => Err(e),
            Ok(v) => v.stat_path(&self.disk, path),
        }
    }

    /// Writes the file at `path`.
    pub fn write_file(&mut self, path: &[u8], data: &[u8]) -> (r: Result<(), FatError>)
        requires
            old(self)@.wf(),
        ensures
            final(self)@.wf(),
            (final(self)@, r) == old(self)@.file_written(path@, data@),
    {
        match self.volume {
            Err(e) => Err(e),
            Ok(v) => v.write_path(&mut self.disk, path, data),
        }
    }

    /// Makes a directory at `path`.
    pub fn mkdir(&mut self, path: &[u8]) -> (r: Result<(), FatError>)
        requires
            old(self)@.wf(),
        ensures
            final(self)@.wf(),
            (final(self)@, r) == old(self)@.dir_made(path@),
    {
        match self.volume {
            Err(e) => Err(e),
            Ok(v) => v.mkdir_path(&mut self.disk, path),
        }
    }

    /// Removes the file at `path`.
    pub fn unlink(&mut self, path: &[u8]) -> (r: Result<(), FatError>)
        requires
            old(self)@.wf(),
        ensures
            final(self)@.wf(),
            (final(self)@, r) == old(self)@.file_removed(path@),
    {
        match self.volume {
            Err(e) => Err(e),
            Ok(v) => v.unlink_path(&mut self.disk, path),
        }
    }

    /// Removes the empty directory at `path`.
    pub fn rmdir(&mut self, path: &[u8]) -> (r: Result<(), FatError>)
        requires
            old(self)@.wf(),
        ensures
            final(self)@.wf(),
            (final(self)@, r) == old(self)@.dir_removed(path@),
    {
        match self.volume {
            Err(e) => Err(e),
            Ok(v) => v.rmdir_path(&mut self.disk, path),
        }
    }
}

} // verus!
