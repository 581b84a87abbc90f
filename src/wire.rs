//! Little-endian byte images of the records that syscalls hand to tasks.
use crate::task::TaskStatus;
use vstd::prelude::*;

verus! {

/// The eight bytes of `x`, least significant first.
pub open spec fn le_bytes(x: u64) -> Seq<u8> {
    seq![
        x as u8,
        (x >> 8u64) as u8,
        (x >> 16u64) as u8,
        (x >> 24u64) as u8,
        (x >> 32u64) as u8,
        (x >> 40u64) as u8,
        (x >> 48u64) as u8,
        (x >> 56u64) as u8,
    ]
}

/// The number whose least significant byte comes first in `b[0..8]`.
pub open spec fn le_value(b: Seq<u8>) -> u64 {
    (b[0] as u64) | ((b[1] as u64) << 8u64) | ((b[2] as u64) << 16u64) | ((b[3] as u64) << 24u64)
        | ((b[4] as u64) << 32u64) | ((b[5] as u64) << 40u64) | ((b[6] as u64) << 48u64) | ((
    b[7] as u64) << 56u64)
}

/// The four bytes of `x`, least significant first.
pub open spec fn le_bytes32(x: u32) -> Seq<u8> {
    seq![x as u8, (x >> 8u32) as u8, (x >> 16u32) as u8, (x >> 24u32) as u8]
}

/// Reading back the eight bytes of `x` gives `x`.
pub proof fn lemma_le_round_trip(x: u64)
    ensures
        le_value(le_bytes(x)) == x,
{
    let b = le_bytes(x);
    assert(((x as u8) as u64) | ((((x >> 8u64) as u8) as u64) << 8u64) | ((((x >> 16u64) as u8)
        as u64) << 16u64) | ((((x >> 24u64) as u8) as u64) << 24u64) | ((((x >> 32u64) as u8)
        as u64) << 32u64) | ((((x >> 40u64) as u8) as u64) << 40u64) | ((((x >> 48u64) as u8)
        as u64) << 48u64) | ((((x >> 56u64) as u8) as u64) << 56u64) == x) by (bit_vector);
}

/// Appends the eight bytes of `x`, least significant first.
pub fn push_u64_le(out: &mut Vec<u8>, x: u64)
    ensures
        final(out)@ == old(out)@ + le_bytes(x),
{
    out.push(x as u8);
    out.push((x >> 8u64) as u8);
    out.push((x >> 16u64) as u8);
    out.push((x >> 24u64) as u8);
    out.push((x >> 32u64) as u8);
    out.push((x >> 40u64) as u8);
    out.push((x >> 48u64) as u8);
    out.push((x >> 56u64) as u8);
    assert(out@ =~= old(out)@ + le_bytes(x));
}

/// Appends the four bytes of `x`, least significant first.
pub fn push_u32_le(out: &mut Vec<u8>, x: u32)
    ensures
        final(out)@ == old(out)@ + le_bytes32(x),
{
    out.push(x as u8);
    out.push((x >> 8u32) as u8);
    out.push((x >> 16u32) as u8);
    out.push((x >> 24u32) as u8);
    assert(out@ =~= old(out)@ + le_bytes32(x));
}

/// The number stored least significant byte first in `b[at..at + 8]`.
pub fn read_u64_le(b: &[u8], at: usize) -> (r: u64)
    requires
        at + 8 <= b@.len(),
    ensures
        r == le_value(b@.subrange(at as int, at + 8)),
{
    (b[at] as u64) | ((b[at + 1] as u64) << 8u64) | ((b[at + 2] as u64) << 16u64) | ((b[at
        + 3] as u64) << 24u64) | ((b[at + 4] as u64) << 32u64) | ((b[at + 5] as u64) << 40u64)
        | ((b[at + 6] as u64) << 48u64) | ((b[at + 7] as u64) << 56u64)
}

/// Size in bytes of a `TimeVal` image.
pub const TIME_VAL_SIZE: usize = 16;

/// A time as seconds and microseconds.
#[derive(Clone, Copy, Debug, PartialEq, Eq, Structural)]
pub struct TimeVal {
    pub sec: usize,
    pub usec: usize,
}

/// The image of `t`: `sec`, then `usec`, eight bytes each.
pub open spec fn time_val_bytes(t: TimeVal) -> Seq<u8> {
    le_bytes(t.sec as u64) + le_bytes(t.usec as u64)
}

/// The `TimeVal` whose image is `b`, if `b` is one.
pub open spec fn time_val_of_bytes(b: Seq<u8>) -> Option<TimeVal> {
    let sec = le_value(b.subrange(0, 8));
    let usec = le_value(b.subrange(8, 16));
    if b.len() == TIME_VAL_SIZE && sec <= usize::MAX && usec <= usize::MAX {
        Some(TimeVal { sec: sec as usize, usec: usec as usize })
    } else {
        None
    }
}

impl TimeVal {
    /// The time `us` microseconds after the origin.
    pub fn from_us(us: usize) -> (r: TimeVal)
        ensures
            r.sec == us / 1_000_000,
            r.usec == us % 1_000_000,
    {
        TimeVal { sec: us / 1_000_000, usec: us % 1_000_000 }
    }

    /// The image of this record.
    pub fn to_bytes(&self) -> (r: Vec<u8>)
        ensures
            r@ == time_val_bytes(*self),
    {
        let mut out: Vec<u8> = Vec::new();
        push_u64_le(&mut out, self.sec as u64);
        push_u64_le(&mut out, self.usec as u64);
        assert(out@ =~= time_val_bytes(*self));
        out
    }

    /// The record whose image is `b`; `None` where `b` is not one.
    pub fn from_bytes(b: &[u8]) -> (r: Option<TimeVal>)
        ensures
            r == time_val_of_bytes(b@),
    {
        if b.len() != TIME_VAL_SIZE {
            return None;
        }
        let sec = read_u64_le(b, 0);
        let usec = read_u64_le(b, 8);
        if sec > usize::MAX as u64 || usec > usize::MAX as u64 {
            return None;
        }
        Some(TimeVal { sec: sec as usize, usec: usec as usize })
    }
}

/// Decoding the image of a `TimeVal` gives it back.
pub proof fn lemma_time_val_round_trip(t: TimeVal)
    ensures
        time_val_of_bytes(time_val_bytes(t)) == Some(t),
{
    let b = time_val_bytes(t);
    lemma_le_round_trip(t.sec as u64);
    lemma_le_round_trip(t.usec as u64);
    assert(b.subrange(0, 8) =~= le_bytes(t.sec as u64));
    assert(b.subrange(8, 16) =~= le_bytes(t.usec as u64));
}


/// The wire code of a task status.
pub open spec fn status_code(s: TaskStatus) -> u32 {
    match s {
        TaskStatus::UnInit => 0,
        TaskStatus::Ready => 1,
        TaskStatus::Running => 2,
        TaskStatus::Exited => 3,
    }
}

/// The wire code of a task status.
pub fn status_to_code(s: TaskStatus) -> (r: u32)
    ensures
        r == status_code(s),
{
    match s {
        TaskStatus::UnInit => 0,
        TaskStatus::Ready => 1,
        TaskStatus::Running => 2,
        TaskStatus::Exited => 3,
    }
}

/// The four-byte images of the counters in `s`, one after another.
pub open spec fn u32s_le(s: Seq<u32>) -> Seq<u8>
    decreases s.len(),
{
    if s.len() == 0 {
        Seq::empty()
    } else {
        u32s_le(s.drop_last()) + le_bytes32(s.last())
    }
}

/// Size in bytes of a `TaskInfo` image with one counter per syscall.
pub const TASK_INFO_SIZE: usize = 2016;

/// A snapshot of a task: its status, how often it made each syscall, and
/// how many milliseconds have passed since it was first dispatched.
///
/// The counters include the `task_info` call that takes the snapshot: a
/// dispatcher counts a syscall before it handles it.
#[derive(Debug)]
pub struct TaskInfo {
    pub status: TaskStatus,
    pub syscall_times: Vec<u32>,
    pub time: usize,
}

/// The image of `info`: the status code in four bytes, each counter in four
/// bytes, four zero bytes of padding, and the time in eight bytes.
pub open spec fn task_info_bytes(info: TaskInfo) -> Seq<u8> {
    task_info_image(info.status, info.syscall_times@, info.time)
}

/// The image of a snapshot with the given status, counters and time.
pub open spec fn task_info_image(status: TaskStatus, times: Seq<u32>, time: usize) -> Seq<u8> {
    le_bytes32(status_code(status)) + u32s_le(times) + seq![0u8, 0u8, 0u8, 0u8] + le_bytes(
        time as u64,
    )
}

impl TaskInfo {
    /// The image of this record.
    pub fn to_bytes(&self) -> (r: Vec<u8>)
        ensures
            r@ == task_info_bytes(*self),
    {
        let mut out: Vec<u8> = Vec::new();
        push_u32_le(&mut out, status_to_code(self.status));
        let ghost head = out@;
        let mut k: usize = 0;
        while k < self.syscall_times.len()
            invariant
                k <= self.syscall_times@.len(),
                out@ == head + u32s_le(self.syscall_times@.subrange(0, k as int)),
            decreases self.syscall_times@.len() - k,
        {
            proof {
                let next = self.syscall_times@.subrange(0, k + 1);
                assert(next.drop_last() =~= self.syscall_times@.subrange(0, k as int));
            }
            push_u32_le(&mut out, self.syscall_times[k]);
            k = k + 1;
            proof {
                assert(out@ =~= head + u32s_le(self.syscall_times@.subrange(0, k as int)));
            }
        }
        assert(self.syscall_times@.subrange(0, k as int) =~= self.syscall_times@);
        out.push(0);
        out.push(0);
        out.push(0);
        out.push(0);
        push_u64_le(&mut out, self.time as u64);
        assert(out@ =~= task_info_bytes(*self));
        out
    }
}

} // verus!
