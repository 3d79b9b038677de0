//! The virtio block device.

use vstd::prelude::*;

verus! {

/// Size of a sector in bytes: virtio-blk works in sectors of this size.
pub const SECTOR_SIZE: usize = 512;

/// Why a disk operation failed.
#[derive(Debug, Clone, Copy, PartialEq, Eq, Structural)]
pub enum BlkError {
    /// The driver has not been brought up (no device was found).
    NotInitialized,
    /// The sector lies beyond the capacity of the disk.
    OutOfRange,
    /// The device answered with a non-zero status (1 = I/O error, 2 = unsupported).
    DeviceError(u8),
}

/// A write of a sector.
#[derive(Clone, Copy)]
pub struct Change {
    /// Number of the sector.
    pub lba: usize,
    /// What the sector held before.
    pub old: [u8; SECTOR_SIZE],
    /// What it holds since.
    pub new: [u8; SECTOR_SIZE],
}

/// What a [`Change`] holds.
#[verifier::ext_equal]
pub struct ChangeView {
    pub lba: int,
    pub old: Seq<u8>,
    pub new: Seq<u8>,
}

impl View for Change {
    type V = ChangeView;

    open spec fn view(&self) -> ChangeView {
        ChangeView { lba: self.lba as int, old: self.old@, new: self.new@ }
    }
}

/// The disk as the driver sees it: what each sector holds, and the status with which the device
/// answers a request for it. What the device has answered to the first writes of a call is known
/// one by one.
pub struct Disk {
    /// Whether the driver has been brought up.
    pub online: bool,
    /// What the sectors hold. Their number is the capacity of the disk.
    pub sectors: Vec<[u8; SECTOR_SIZE]>,
    /// Status with which a read of each sector completes (0 is success).
    pub read_status: Vec<u8>,
    /// Statuses with which the first writes complete, one after the other (0 is success).
    pub answers: Vec<u8>,
    /// How many of these writes have been made.
    pub used: usize,
    /// Status with which a later write of each sector completes.
    pub write_status: Vec<u8>,
    /// The writes that are not carried over to the device yet, in the order in which they were
    /// made.
    pub log: Vec<Change>,
}

/// What a [`Disk`] holds.
#[verifier::ext_equal]
pub struct DiskView {
    pub online: bool,
    pub data: Seq<Seq<u8>>,
    pub rstat: Seq<u8>,
    pub wstat: Seq<u8>,
    pub log: Seq<ChangeView>,
    pub answers: Seq<u8>,
    pub used: int,
}

impl DiskView {
    /// Every sector has its bytes and its two statuses.
    pub open spec fn wf(self) -> bool {
        &&& self.rstat.len() == self.data.len()
        &&& self.wstat.len() == self.data.len()
        &&& 0 <= self.used
        &&& forall|i: int| 0 <= i < self.data.len() ==> (#[trigger] self.data[i]).len() == SECTOR_SIZE
    }

    /// What a read of sector `lba` yields.
    pub open spec fn read(self, lba: int) -> Result<Seq<u8>, BlkError> {
        if !self.online {
            Err(BlkError::NotInitialized)
        } else if lba >= self.data.len() {
            Err(BlkError::OutOfRange)
        } else if self.rstat[lba] != 0 {
            Err(BlkError::DeviceError(self.rstat[lba]))
        } else {
            Ok(self.data[lba])
        }
    }

    /// Writes complete with the status of their sector: there is no other answer left.
    pub open spec fn by_sector(self) -> bool {
        self.used >= self.answers.len()
    }

    /// The status with which a write of sector `lba` completes.
    pub open spec fn answer(self, lba: int) -> u8 {
        if self.by_sector() {
            self.wstat[lba]
        } else {
            self.answers[self.used]
        }
    }

    /// The disk when the device has answered a write.
    pub open spec fn answered(self) -> DiskView {
        DiskView {
            used: if self.by_sector() {
                self.used
            } else {
                self.used + 1
            },
            ..self
        }
    }

    /// What becomes of the disk when sector `lba` is overwritten by `bytes`, and the answer.
    pub open spec fn write(self, lba: int, bytes: Seq<u8>) -> (DiskView, Result<(), BlkError>) {
        if !self.online {
            (self, Err(BlkError::NotInitialized))
        } else if lba >= self.data.len() {
            (self, Err(BlkError::OutOfRange))
        } else if self.answer(lba) != 0 {
            (self.answered(), Err(BlkError::DeviceError(self.answer(lba))))
        } else {
            let change = ChangeView { lba, old: self.data[lba], new: bytes };
            (
                DiskView {
                    data: self.data.update(lba, bytes),
                    log: self.log.push(change),
                    ..self.answered()
                },
                Ok(()),
            )
        }
    }

    /// The disk without what is known of answers.
    pub open spec fn bare(self) -> DiskView {
        DiskView { answers: Seq::empty(), used: 0, ..self }
    }

    /// Two disks that differ at most in how they came about and in the answers that are known.
    pub open spec fn alike(self, d2: DiskView) -> bool {
        &&& d2.online == self.online
        &&& d2.data == self.data
        &&& d2.rstat == self.rstat
        &&& d2.wstat == self.wstat
    }

    /// The disk before its last write.
    pub open spec fn undone(self) -> DiskView {
        let change = self.log.last();
        DiskView {
            data: self.data.update(change.lba, change.old),
            log: self.log.drop_last(),
            ..self.bare()
        }
    }

    /// The disk when only the first `k` of its writes had been made.
    pub open spec fn at_step(self, k: int) -> DiskView
        decreases self.log.len(),
    {
        if self.log.len() == 0 || self.log.len() <= k {
            self.bare()
        } else {
            self.undone().at_step(k)
        }
    }

    /// The last write in the log is one of a sector, which holds what was written.
    pub open spec fn last_logged(self) -> bool {
        let change = self.log.last();
        0 <= change.lba < self.data.len() && self.data[change.lba] == change.new
    }

    /// The disk holds what the writes in its log have made of it.
    pub open spec fn logged(self) -> bool
        decreases self.log.len(),
    {
        self.log.len() > 0 ==> self.last_logged() && self.undone().logged()
    }
}

impl View for Disk {
    type V = DiskView;

    open spec fn view(&self) -> DiskView {
        DiskView {
            online: self.online,
            data: Seq::new(self.sectors@.len(), |i: int| self.sectors@[i]@),
            rstat: self.read_status@,
            wstat: self.write_status@,
            log: Seq::new(self.log@.len(), |i: int| self.log@[i]@),
            answers: self.answers@,
            used: self.used as int,
        }
    }
}

impl Disk {
    /// The two status tables cover every sector, and the log tells how the sectors came to hold
    /// what they hold.
    pub open spec fn wf(&self) -> bool {
        &&& self@.wf()
        &&& self@.logged()
    }
}

/// Reads sector `lba` into `buf`. A failed read leaves `buf` as it was.
pub fn read_sector(disk: &Disk, lba: u64, buf: &mut [u8; SECTOR_SIZE]) -> (r: Result<(), BlkError>)
    requires
        disk.wf(),
    ensures
        match disk@.read(lba as int) {
            Ok(bytes) => r == Ok::<(), BlkError>(()) && final(buf)@ == bytes,
            Err(e) => r == Err::<(), BlkError>(e) && *final(buf) == *old(buf),
        },
{
    if !disk.online {
        return Err(BlkError::NotInitialized);
    }
    if lba >= disk.sectors.len() as u64 {
        return Err(BlkError::OutOfRange);
    }
    let i = lba as usize;
    let status = disk.read_status[i];
    if status != 0 {
        return Err(BlkError::DeviceError(status));
    }
    *buf = disk.sectors[i];
    Ok(())
}

/// Overwrites sector `lba` by `buf`. A failed write leaves the sectors as they were.
pub fn write_sector(disk: &mut Disk, lba: u64, buf: &[u8; SECTOR_SIZE]) -> (r: Result<(), BlkError>)
    requires
        old(disk).wf(),
    ensures
        (final(disk)@, r) == old(disk)@.write(lba as int, buf@),
        final(disk).wf(),
{
    if !disk.online {
        return Err(BlkError::NotInitialized);
    }
    if lba >= disk.sectors.len() as u64 {
        return Err(BlkError::OutOfRange);
    }
    let i = lba as usize;
    let ghost before = disk@;
    let status = if disk.used < disk.answers.len() {
        let status = disk.answers[disk.used];
        disk.used = disk.used + 1;
        status
    } else {
        disk.write_status[i]
    };
    if status != 0 {
        assert(disk@.log =~= before.log);
        assert(disk@.data =~= before.data);
        proof {
            lemma_logged_alike(before, disk@);
        }
        return Err(BlkError::DeviceError(status));
    }
    let change = Change { lba: i, old: disk.sectors[i], new: *buf };
    disk.log.push(change);
    disk.sectors[i] = *buf;
    proof {
        assert(disk@.data =~= before.data.update(lba as int, buf@));
        assert(disk@.log =~= before.log.push(change@));
        lemma_write_undone(before, lba as int, buf@);
        lemma_logged_alike(before, before.bare());
    }
    Ok(())
}

/// The log tells of sectors only.
pub proof fn lemma_logged_alike(d: DiskView, d2: DiskView)
    requires
        d.data == d2.data,
        d.log == d2.log,
    ensures
        d.logged() == d2.logged(),
    decreases d.log.len(),
{
    if d.log.len() > 0 {
        lemma_logged_alike(d.undone(), d2.undone());
    }
}

/// A write that is undone has not been made.
pub proof fn lemma_write_undone(d: DiskView, lba: int, bytes: Seq<u8>)
    requires
        0 <= lba,
        d.write(lba, bytes).1 is Ok,
    ensures
        d.write(lba, bytes).0.undone() == d.bare(),
        d.write(lba, bytes).0.last_logged(),
{
    let d2 = d.write(lba, bytes).0;
    assert(d2.undone().data =~= d.data);
    assert(d2.undone().log =~= d.log);
    assert(d2.undone() == d.bare());
}

/// A sector that was written holds what was written, and a write changes no other sector. A write
/// that fails changes no sector.
pub proof fn law_written_sector_reads_back(d: DiskView, lba: int, bytes: Seq<u8>, other: int)
    requires
        d.wf(),
        0 <= lba,
        0 <= other,
    ensures
        ({
            let (d2, r) = d.write(lba, bytes);
            &&& r is Ok && d.rstat[lba] == 0 ==> d2.read(lba) == Ok::<Seq<u8>, BlkError>(bytes)
            &&& other != lba ==> d2.read(other) == d.read(other)
            &&& r is Err ==> d.alike(d2) && d2.log == d.log
        }),
{
}

} // verus!
