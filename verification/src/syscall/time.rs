//! Clocks. All of them count from the start of the machine.

use crate::syscall::abi;
use crate::syscall::files::hand_out;
use crate::syscall::kernel::{KView, Kernel};
use crate::util;
use vstd::prelude::*;

verus! {

/// Nanoseconds in a second.
pub const NS_PER_SEC: u64 = 1_000_000_000;

/// Nanoseconds in a microsecond.
pub const NS_PER_USEC: u64 = 1_000;

/// A time as processes see it: seconds and a fraction.
pub open spec fn time_bytes(sec: u64, frac: u64) -> Seq<u8> {
    util::enc64(sec) + util::enc64(frac)
}

impl KView {
    /// What `clock_gettime` does, `now` nanoseconds after the start.
    pub open spec fn sys_clock_gettime(self, clk_id: u64, tp: u64, now: u64) -> (KView, i64) {
        if clk_id != abi::CLOCK_REALTIME && clk_id != abi::CLOCK_MONOTONIC {
            (self, (-abi::EINVAL) as i64)
        } else {
            self.handed_out(tp, time_bytes(now / NS_PER_SEC, now % NS_PER_SEC))
        }
    }

    /// What `gettimeofday` does.
    pub open spec fn sys_gettimeofday(self, tv: u64, now: u64) -> (KView, i64) {
        if tv == 0 {
            (self, 0)
        } else {
            self.handed_out(tv, time_bytes(now / NS_PER_SEC, now % NS_PER_SEC / NS_PER_USEC))
        }
    }

    /// What `time` does.
    pub open spec fn sys_time(self, tloc: u64, now: u64) -> (KView, i64) {
        let sec = now / NS_PER_SEC;
        if tloc == 0 {
            (self, sec as i64)
        } else {
            match self.handed_out(tloc, util::enc64(sec)) {
                (k, r) => if r != 0 {
                    (k, r)
                } else {
                    (k, sec as i64)
                },
            }
        }
    }
}

/// A time as processes see it.
fn pack_time(sec: u64, frac: u64) -> (b: [u8; 16])
    ensures
        b@ == time_bytes(sec, frac),
{
    let mut b = [0u8;16];
    util::put_u64(&mut b, 0, sec);
    util::put_u64(&mut b, 8, frac);
    assert(b@ =~= time_bytes(sec, frac));
    b
}

/// `clock_gettime(clk_id, tp)`: seconds and nanoseconds. Both clocks are the same.
pub fn sys_clock_gettime(k: &mut Kernel, clk_id: u64, tp: u64, now: u64) -> (r: i64)
    requires
        old(k)@.wf(),
    ensures
        final(k)@.wf(),
        (final(k)@, r) == old(k)@.sys_clock_gettime(clk_id, tp, now),
{
    if clk_id != abi::CLOCK_REALTIME && clk_id != abi::CLOCK_MONOTONIC {
        return -abi::EINVAL;
    }
    let ts = pack_time(now / NS_PER_SEC, now % NS_PER_SEC);
    hand_out(k, tp, &ts)
}

/// `gettimeofday(tv, tz)`: seconds and microseconds. The time zone is not used.
pub fn sys_gettimeofday(k: &mut Kernel, tv: u64, _tz: u64, now: u64) -> (r: i64)
    requires
        old(k)@.wf(),
    ensures
        final(k)@.wf(),
        (final(k)@, r) == old(k)@.sys_gettimeofday(tv, now),
{
    if tv == 0 {
        return 0;
    }
    let b = pack_time(now / NS_PER_SEC, now % NS_PER_SEC / NS_PER_USEC);
    hand_out(k, tv, &b)
}

/// `time(tloc)`: seconds.
pub fn sys_time(k: &mut Kernel, tloc: u64, now: u64) -> (r: i64)
    requires
        old(k)@.wf(),
    ensures
        final(k)@.wf(),
        (final(k)@, r) == old(k)@.sys_time(tloc, now),
{
    let sec = now / NS_PER_SEC;
    if tloc != 0 {
        let mut b = [0u8;8];
        util::put_u64(&mut b, 0, sec);
        assert(b@ =~= util::enc64(sec));
        let r = hand_out(k, tloc, &b);
        if r != 0 {
            return r;
        }
    }
    sec as i64
}

/// The fraction is less than a second, and with the seconds makes up the time.
pub proof fn law_time_is_split_exactly(now: u64)
    ensures
        now / NS_PER_SEC * NS_PER_SEC + now % NS_PER_SEC == now,
        now % NS_PER_SEC < NS_PER_SEC,
        now % NS_PER_SEC / NS_PER_USEC < 1_000_000,
{
}

} // verus!
