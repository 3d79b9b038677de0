//! Carrying what a call has changed over to the device.
//!
//! A call works on the sectors in memory, and the disk keeps a log of its writes. They are then
//! made on the device, in the same order. Where the device refuses one, those before it are put
//! back, the last one first, and the call is to be made anew on the disk as it was, which now
//! answers that write as the device did and those before it as it did before. Where the device also
//! refuses a write that puts a sector back, what was written before that sector stays written: the
//! call is made anew on the disk as the device has it, and all of its writes are refused.

use crate::drivers::virtio_blk::{lemma_logged_alike, ChangeView, Disk, DiskView, SECTOR_SIZE};
use vstd::prelude::*;

verus! {

/// What is to be done next.
pub enum Action {
    /// Write a sector, and tell how that went.
    Write { lba: usize, data: [u8; SECTOR_SIZE] },
    /// All is written: the call stands.
    Done,
    /// What could be put back is put back: the call is to be made anew.
    Again,
}

/// What an [`Action`] says.
pub enum ActionView {
    Write { lba: int, data: Seq<u8> },
    Done,
    Again,
}

impl View for Action {
    type V = ActionView;

    open spec fn view(&self) -> ActionView {
        match self {
            Action::Write { lba, data } => ActionView::Write { lba: *lba as int, data: data@ },
            Action::Done => ActionView::Done,
            Action::Again => ActionView::Again,
        }
    }
}

/// How far the writes of a call have got on the device.
pub struct WriteBack {
    /// So many of the writes are made on the device and not put back.
    pub at: usize,
    /// The write in the log that the device refused, and the status that it gave.
    pub refused: Option<(usize, u8)>,
    /// The status that it gave when it refused to have a sector put back.
    pub stuck: Option<u8>,
}

/// Which of all writes of a call the accepted one number `k` is, where the first ones were answered
/// by `answers` and the others were accepted.
pub open spec fn turn(answers: Seq<u8>, k: int) -> int
    decreases answers.len(),
{
    if answers.len() == 0 {
        k
    } else if answers[0] != 0 {
        1 + turn(answers.skip(1), k)
    } else if k == 0 {
        0
    } else {
        1 + turn(answers.skip(1), k - 1)
    }
}

/// The answers that are known when the accepted write number `k` turns out to be refused.
pub open spec fn told(answers: Seq<u8>, k: int, status: u8) -> Seq<u8> {
    Seq::new(
        (turn(answers, k) + 1) as nat,
        |i: int|
            if i == turn(answers, k) {
                status
            } else if i < answers.len() {
                answers[i]
            } else {
                0
            },
    )
}

/// Makes the answers out that are known when the write number `k` of a log is refused.
fn tell(answers: &Vec<u8>, k: usize, status: u8) -> (r: Vec<u8>)
    ensures
        r@ == told(answers@, k as int, status),
{
    let mut r: Vec<u8> = Vec::new();
    let mut left = k;
    let ghost mut i: int = 0;
    assert(answers@.skip(0) =~= answers@);
    while r.len() < answers.len()
        invariant
            i == r@.len() <= answers@.len(),
            r@ =~= answers@.take(i),
            turn(answers@, k as int) == i + turn(answers@.skip(i), left as int),
        decreases answers@.len() - r@.len(),
    {
        let answer = answers[r.len()];
        proof {
            assert(answers@.skip(i)[0] == answer);
            assert(answers@.skip(i).skip(1) =~= answers@.skip(i + 1));
        }
        if answer == 0 {
            if left == 0 {
                r.push(status);
                assert(r@ =~= told(answers@, k as int, status));
                return r;
            }
            left = left - 1;
        }
        r.push(answer);
        proof {
            i = i + 1;
        }
    }
    let ghost n = left as int;
    while left > 0
        invariant
            i == answers@.len(),
            turn(answers@, k as int) == i + n,
            0 <= left <= n,
            r@.len() == i + n - left,
            forall|j: int| 0 <= j < i ==> r@[j] == answers@[j],
            forall|j: int| i <= j < r@.len() ==> r@[j] == 0,
        decreases left,
    {
        r.push(0);
        left = left - 1;
    }
    r.push(status);
    assert(r@ =~= told(answers@, k as int, status));
    r
}

impl WriteBack {
    /// The writes of `d` are being carried over.
    pub open spec fn wf(&self, d: DiskView) -> bool {
        &&& d.wf()
        &&& d.logged()
        &&& self.at <= d.log.len()
        &&& self.refused matches Some((k, status)) ==> self.at <= k < d.log.len() && status != 0
        &&& self.stuck matches Some(status) ==> status != 0
        &&& self.stuck is Some ==> self.refused is Some
    }

    /// What is to be done next for the writes `log`.
    pub open spec fn next(&self, log: Seq<ChangeView>) -> ActionView {
        if self.refused is None {
            if self.at < log.len() {
                ActionView::Write { lba: log[self.at as int].lba, data: log[self.at as int].new }
            } else {
                ActionView::Done
            }
        } else if self.at == 0 || self.stuck is Some {
            ActionView::Again
        } else {
            ActionView::Write { lba: log[self.at - 1].lba, data: log[self.at - 1].old }
        }
    }

    /// How far they have got when the device has answered the write that was next.
    pub open spec fn answered(self, log: Seq<ChangeView>, status: u8) -> WriteBack {
        match self.next(log) {
            ActionView::Write { .. } => if self.refused is None {
                if status == 0 {
                    WriteBack { at: (self.at + 1) as usize, ..self }
                } else {
                    WriteBack { refused: Some((self.at, status)), ..self }
                }
            } else {
                if status == 0 {
                    WriteBack { at: (self.at - 1) as usize, ..self }
                } else {
                    WriteBack { stuck: Some(status), ..self }
                }
            },
            _ => self,
        }
    }

    /// Nothing is carried over yet.
    pub fn new() -> (w: WriteBack)
        ensures
            w == (WriteBack { at: 0, refused: None, stuck: None }),
    {
        WriteBack { at: 0, refused: None, stuck: None }
    }

    /// What is to be done next: make the next write, put the last one back, or nothing more.
    pub fn next_action(&self, disk: &Disk) -> (a: Action)
        requires
            self.wf(disk@),
        ensures
            a@ == self.next(disk@.log),
            a matches Action::Write { lba, .. } ==> lba < disk@.data.len(),
    {
        if self.refused.is_some() {
            if self.at == 0 || self.stuck.is_some() {
                return Action::Again;
            }
            let change = disk.log[self.at - 1];
            proof {
                lemma_change(disk@, self.at - 1);
                assert(disk@.log[self.at - 1] == change@);
            }
            return Action::Write { lba: change.lba, data: change.old };
        }
        if self.at < disk.log.len() {
            let change = disk.log[self.at];
            proof {
                lemma_change(disk@, self.at as int);
                assert(disk@.log[self.at as int] == change@);
            }
            return Action::Write { lba: change.lba, data: change.new };
        }
        Action::Done
    }

    /// Takes in how the write went that was next: 0 is success. A refused write ends the carrying
    /// over, a refused one that puts a sector back ends the putting back.
    pub fn outcome(&mut self, disk: &Disk, status: u8)
        requires
            old(self).wf(disk@),
        ensures
            final(self).wf(disk@),
            *final(self) == old(self).answered(disk@.log, status),
    {
        if let Action::Write { .. } = self.next_action(disk) {
            if self.refused.is_none() {
                if status == 0 {
                    assert(self.at < disk.log@.len());
                    assert(disk.log.len() <= usize::MAX);
                    self.at = self.at + 1;
                } else {
                    self.refused = Some((self.at, status));
                }
            } else {
                if status == 0 {
                    self.at = self.at - 1;
                } else {
                    self.stuck = Some(status);
                }
            }
        }
    }

    /// Sets the status with which every sector is written.
    fn set_statuses(disk: &mut Disk, status: u8)
        requires
            old(disk).wf(),
        ensures
            final(disk).wf(),
            final(disk)@ == (DiskView {
                wstat: Seq::new(old(disk)@.wstat.len(), |i: int| status),
                ..old(disk)@
            }),
    {
        let ghost d0 = disk@;
        let n = disk.write_status.len();
        let mut i: usize = 0;
        while i < n
            invariant
                i <= n,
                n == d0.wstat.len(),
                d0.wf(),
                disk.write_status@.len() == n,
                disk@ == (DiskView { wstat: disk.write_status@, ..d0 }),
                forall|j: int| 0 <= j < i ==> disk.write_status@[j] == status,
            decreases n - i,
        {
            disk.write_status.set(i, status);
            i += 1;
        }
        proof {
            assert(disk@.wstat =~= Seq::new(d0.wstat.len(), |i: int| status));
            lemma_logged_alike(d0, disk@);
        }
    }

    /// Ends the carrying over, when there is nothing more to write. Where the call stands, every
    /// sector may be written again. Where it is to be made anew, the disk holds what the device
    /// holds, and its writes are answered as the device did; where a sector could not be put back
    /// all are refused. The log is empty again.
    pub fn finish(self, disk: &mut Disk)
        requires
            self.wf(old(disk)@),
            !(self.next(old(disk)@.log) is Write),
        ensures
            final(disk).wf(),
            final(disk)@ == (match (self.refused, self.stuck) {
                (None, _) => DiskView {
                    wstat: Seq::new(old(disk)@.wstat.len(), |i: int| 0u8),
                    log: Seq::empty(),
                    ..old(disk)@.bare()
                },
                (Some((k, status)), None) => DiskView {
                    answers: told(old(disk)@.answers, k as int, status),
                    log: Seq::empty(),
                    ..old(disk)@.at_step(0)
                },
                (Some(_), Some(status)) => DiskView {
                    wstat: Seq::new(old(disk)@.wstat.len(), |i: int| status),
                    log: Seq::empty(),
                    ..old(disk)@.at_step(self.at as int)
                },
            }),
    {
        let ghost d0 = disk@;
        if self.refused.is_some() {
            while disk.log.len() > self.at
                invariant
                    self.at <= disk@.log.len(),
                    disk.wf(),
                    disk@.wstat == d0.wstat,
                    disk@.answers == d0.answers,
                    disk@.data.len() == d0.data.len(),
                    disk@.at_step(self.at as int) == d0.at_step(self.at as int),
                decreases disk@.log.len(),
            {
                let ghost d1 = disk@;
                if let Some(change) = disk.log.pop() {
                    assert(d1.log.last() == change@);
                    disk.sectors.set(change.lba, change.old);
                    proof {
                        assert(disk@.log =~= d1.undone().log);
                        assert(disk@.data =~= d1.undone().data);
                        assert(disk@.bare() == d1.undone());
                        lemma_logged_alike(d1.undone(), disk@);
                        lemma_bare_steps(disk@, self.at as int);
                        assert forall|i: int| 0 <= i < disk@.data.len() implies (
                        #[trigger] disk@.data[i]).len() == SECTOR_SIZE by {
                            assert(disk@.data[i] == disk.sectors@[i]@);
                        }
                    }
                }
            }
        }
        let answers = match (self.refused, self.stuck) {
            (Some((k, status)), None) => tell(&disk.answers, k, status),
            _ => Vec::new(),
        };
        match (self.refused, self.stuck) {
            (None, _) => {
                Self::set_statuses(disk, 0);
            },
            (Some(_), Some(status)) => {
                Self::set_statuses(disk, status);
            },
            _ => {},
        }
        let ghost d1 = disk@;
        disk.log = Vec::new();
        disk.answers = answers;
        disk.used = 0;
        assert(disk@.log =~= Seq::empty());
        assert(disk@.data =~= d1.data);
        assert(answers@.len() == 0 ==> disk@.answers =~= Seq::empty());
    }
}

/// The steps of a disk have nothing to do with answers.
proof fn lemma_bare_steps(d: DiskView, k: int)
    ensures
        d.bare().at_step(k) == d.at_step(k),
{
    assert(d.bare().undone() == d.undone());
    assert(d.bare().bare() == d.bare());
}

/// A write in the log is one of a sector of the disk.
proof fn lemma_change(d: DiskView, k: int)
    requires
        d.logged(),
        0 <= k < d.log.len(),
    ensures
        0 <= d.log[k].lba < d.data.len(),
    decreases d.log.len(),
{
    if k + 1 < d.log.len() {
        lemma_change(d.undone(), k);
    }
}

/// One write leads from each step of a disk to the next, and is undone by what the sector held.
pub proof fn lemma_steps(d: DiskView, k: int)
    requires
        d.logged(),
        0 <= k < d.log.len(),
    ensures
        d.at_step(k + 1).data == d.at_step(k).data.update(d.log[k].lba, d.log[k].new),
        d.at_step(k).data == d.at_step(k + 1).data.update(d.log[k].lba, d.log[k].old),
    decreases d.log.len(),
{
    if k + 1 < d.log.len() {
        lemma_steps(d.undone(), k);
        assert(d.log[k] == d.undone().log[k]);
    } else {
        assert(d.at_step(k + 1) == d.bare());
        assert(d.undone().at_step(k) == d.undone());
        assert(d.data =~= d.undone().data.update(d.log[k].lba, d.log[k].new));
    }
}

/// How far the writes `log` of a call have got, and what the sectors of a device hold that held
/// `held` before, when it has given `answers`.
pub open spec fn run(held: Seq<Seq<u8>>, log: Seq<ChangeView>, answers: Seq<u8>) -> (
    WriteBack,
    Seq<Seq<u8>>,
)
    decreases answers.len(),
{
    if answers.len() == 0 {
        (WriteBack { at: 0, refused: None, stuck: None }, held)
    } else {
        let (w, now) = run(held, log, answers.drop_last());
        (
            w.answered(log, answers.last()),
            match w.next(log) {
                ActionView::Write { lba, data } if answers.last() == 0 => now.update(lba, data),
                _ => now,
            },
        )
    }
}

/// Whatever a device answers, it holds what a number of the writes of a call, from the first one
/// on, have made of it. Where the call stands, it holds what the call left in memory. Where the
/// call is to be made anew, it holds what it held before the call, unless it has refused a write
/// that was to put a sector back: then the writes before that one are left on it. There is nothing
/// more to do after twice as many answers as there are writes.
pub proof fn law_call_is_carried_over_whole_or_not_at_all(d: DiskView, answers: Seq<u8>)
    requires
        d.wf(),
        d.logged(),
        d.log.len() <= usize::MAX,
        d.data.len() <= usize::MAX,
    ensures
        ({
            let (w, held) = run(d.at_step(0).data, d.log, answers);
            &&& w.wf(d)
            &&& held == d.at_step(w.at as int).data
            &&& w.next(d.log) is Done ==> held == d.data
            &&& w.next(d.log) is Again && w.stuck is None ==> held == d.at_step(0).data
            &&& answers.len() >= 2 * d.log.len() ==> !(w.next(d.log) is Write)
        }),
{
    lemma_run(d, answers);
}

/// Where a run stands after `answers`.
proof fn lemma_run(d: DiskView, answers: Seq<u8>)
    requires
        d.wf(),
        d.logged(),
        d.log.len() <= usize::MAX,
        d.data.len() <= usize::MAX,
    ensures
        ({
            let (w, held) = run(d.at_step(0).data, d.log, answers);
            &&& w.wf(d)
            &&& held == d.at_step(w.at as int).data
            &&& w.refused is None ==> w.at == answers.len() || w.at == d.log.len()
            &&& w.refused is Some && w.next(d.log) is Write ==> answers.len() + w.at < 2
                * d.log.len()
        }),
    decreases answers.len(),
{
    if answers.len() > 0 {
        lemma_run(d, answers.drop_last());
        let (w, held) = run(d.at_step(0).data, d.log, answers.drop_last());
        if w.next(d.log) is Write {
            if w.refused is None {
                lemma_change(d, w.at as int);
                lemma_steps(d, w.at as int);
            } else {
                lemma_change(d, w.at - 1);
                lemma_steps(d, w.at - 1);
            }
        }
    }
}

} // verus!
