//! The syscall entry points, as functions of the calling task's state.
use crate::memory::{page_ceil, page_floor, vpn_of, MemorySet, PAGE_SIZE, PERM_U, PERM_W};
use crate::task::{counted, readied, TaskControlBlock, TaskManager, TaskStatus};
use crate::wire::{lemma_time_val_round_trip, task_info_image, time_val_bytes, time_val_of_bytes, TaskInfo, TimeVal, TIME_VAL_SIZE};
use vstd::prelude::*;

verus! {

/// Identifier of the `exit` syscall.
pub const SYSCALL_EXIT: usize = 93;

/// Identifier of the `yield` syscall.
pub const SYSCALL_YIELD: usize = 124;

/// Identifier of the `get_time` syscall.
pub const SYSCALL_GET_TIME: usize = 169;

/// Identifier of the `sbrk` syscall.
pub const SYSCALL_SBRK: usize = 214;

/// Identifier of the `munmap` syscall.
pub const SYSCALL_MUNMAP: usize = 215;

/// Identifier of the `mmap` syscall.
pub const SYSCALL_MMAP: usize = 222;

/// Identifier of the `task_info` syscall among a task's counters.
pub const SYSCALL_TASK_INFO: usize = 410;

/// The task gives up the processor: it goes back into the ready pool as
/// ready, once, for the run loop to pick the next task by stride. Returns 0.
pub fn sys_yield(manager: &mut TaskManager, task: TaskControlBlock) -> (r: isize)
    requires
        old(manager).wf(),
        task.pass > 0,
    ensures
        final(manager).wf(),
        r == 0,
        final(manager).ready() == old(manager).ready().push(readied(task)),
{
    let mut t = task;
    t.status = TaskStatus::Ready;
    manager.add(t);
    0
}

/// The task ends: it is marked exited, and the run loop drops it instead
/// of putting it back into the ready pool. The exit code is not kept.
pub fn sys_exit(task: &mut TaskControlBlock, _exit_code: i32)
    ensures
        final(task).status == TaskStatus::Exited,
        final(task).id == old(task).id,
        final(task).stride == old(task).stride,
        final(task).pass == old(task).pass,
        final(task).syscall_times@ == old(task).syscall_times@,
        final(task).start_time == old(task).start_time,
{
    task.status = TaskStatus::Exited;
}

/// Writes the time `now_us` microseconds after the origin, as a `TimeVal`,
/// to virtual address `ts`. Returns 0, or -1 without writing anything
/// where some byte of the record is not writable by the task. `tz` is
/// ignored.
pub fn sys_get_time(space: &mut MemorySet, ts: usize, _tz: usize, now_us: usize) -> (r: isize)
    requires
        old(space).wf(),
    ensures
        final(space).wf(),
        r == 0 || r == -1,
        (r == 0) == old(space).range_allows(ts as int, TIME_VAL_SIZE as int, PERM_W),
        r == 0 ==> old(space).written(
            final(space),
            ts as int,
            time_val_bytes(TimeVal { sec: now_us / 1_000_000, usec: now_us % 1_000_000 }),
        ),
        r == -1 ==> *final(space) == *old(space),
{
    let time_val = TimeVal::from_us(now_us);
    let bytes = time_val.to_bytes();
    if space.write_user_bytes(ts, bytes.as_slice()) {
        0
    } else {
        -1
    }
}

/// Milliseconds from `start` to `now`: 0 where `now` is earlier, and 0
/// for a task that was never dispatched (`start` is `None`).
pub open spec fn elapsed(start: Option<usize>, now: usize) -> usize {
    match start {
        Some(s) => if now >= s {
            (now - s) as usize
        } else {
            0
        },
        None => 0,
    }
}

/// The snapshot of `task` at time `now_ms`.
pub fn task_info_of(task: &TaskControlBlock, now_ms: usize) -> (r: TaskInfo)
    ensures
        r.status == task.status,
        r.syscall_times@ == task.syscall_times@,
        r.time == elapsed(task.start_time, now_ms),
{
    let time = match task.start_time {
        Some(s) => if now_ms >= s {
            now_ms - s
        } else {
            0
        },
        None => 0,
    };
    let times = task.syscall_times.clone();
    assert(times@ =~= task.syscall_times@);
    TaskInfo { status: task.status, syscall_times: times, time }
}

/// Writes the snapshot of `task` at time `now_ms` to virtual address `ti`.
/// Returns 0, or -1 without writing anything where some byte of the
/// record is not writable by the task.
pub fn sys_task_info(space: &mut MemorySet, ti: usize, task: &TaskControlBlock, now_ms: usize) -> (r:
    isize)
    requires
        old(space).wf(),
    ensures
        final(space).wf(),
        r == 0 || r == -1,
        (r == 0) == old(space).range_allows(
            ti as int,
            task_info_image(task.status, task.syscall_times@, elapsed(task.start_time, now_ms)).len() as int,
            PERM_W,
        ),
        r == 0 ==> old(space).written(
            final(space),
            ti as int,
            task_info_image(task.status, task.syscall_times@, elapsed(task.start_time, now_ms)),
        ),
        r == -1 ==> *final(space) == *old(space),
{
    let info = task_info_of(task, now_ms);
    let bytes = info.to_bytes();
    if space.write_user_bytes(ti, bytes.as_slice()) {
        0
    } else {
        -1
    }
}


/// `start` is page-aligned, `len` is positive and the range fits in the
/// address space.
pub open spec fn range_args_ok(start: usize, len: usize) -> bool {
    &&& start as int % (PAGE_SIZE as int) == 0
    &&& len > 0
    &&& start + len <= usize::MAX
}

/// `prot` sets some of the read, write and execute bits and nothing else.
pub open spec fn prot_ok(prot: usize) -> bool {
    0 < prot <= 7
}

/// The page after the last one that `[start, start + len)` touches.
pub open spec fn end_vpn_of(start: usize, len: usize) -> int {
    (start + len + PAGE_SIZE - 1) / (PAGE_SIZE as int)
}

/// Page permission bits for `prot`: read, write and execute move up one
/// place, and the page is user-accessible.
pub open spec fn perm_of_prot(prot: usize) -> u8 {
    ((prot * 2) as u8) | PERM_U
}

/// Maps `[start, start + len)` to fresh zeroed frames that carry the
/// permissions of `prot`. Returns 0, or -1 without changing anything where
/// the arguments are malformed, some page of the range is already mapped,
/// or the frames would not fit in memory.
pub fn sys_mmap(space: &mut MemorySet, start: usize, len: usize, prot: usize) -> (r: isize)
    requires
        old(space).wf(),
    ensures
        final(space).wf(),
        r == 0 || r == -1,
        (r == 0) == (range_args_ok(start, len) && prot_ok(prot) && old(space).range_unmapped(
            vpn_of(start as int),
            end_vpn_of(start, len),
        ) && old(space).frame_bytes().len() + (end_vpn_of(start, len) - vpn_of(start as int))
            * PAGE_SIZE <= usize::MAX),
        r == -1 ==> *final(space) == *old(space),
        r == 0 ==> forall|v: int|
            #[trigger] final(space).is_mapped(v) == (old(space).is_mapped(v) || vpn_of(
                start as int,
            ) <= v < end_vpn_of(start, len)),
        r == 0 ==> forall|v: int|
            old(space).is_mapped(v) ==> #[trigger] final(space).entry(v) == old(space).entry(v),
        r == 0 ==> forall|v: int|
            vpn_of(start as int) <= v < end_vpn_of(start, len) ==> #[trigger] final(space).entry(
                v,
            ).perm == perm_of_prot(prot),
        r == 0 ==> forall|a: int|
            0 <= a <= usize::MAX && #[trigger] final(space).is_mapped(vpn_of(a))
                ==> final(space).user_byte(a) == if old(space).is_mapped(vpn_of(a)) {
                old(space).user_byte(a)
            } else {
                0
            },
{
    if start % PAGE_SIZE != 0 || prot > 7 || prot == 0 || len == 0 || start > usize::MAX - len {
        return -1;
    }
    let start_vpn = page_floor(start);
    let end_vpn = page_ceil(start + len);
    if !space.all_unmapped(start_vpn, end_vpn) {
        return -1;
    }
    let perm = ((prot as u8) * 2) | PERM_U;
    if space.insert_framed_area(start_vpn, end_vpn, perm) {
        0
    } else {
        -1
    }
}

/// Unmaps `[start, start + len)`. Returns 0, or -1 without changing
/// anything where the arguments are malformed or some page of the range is
/// not mapped.
pub fn sys_munmap(space: &mut MemorySet, start: usize, len: usize) -> (r: isize)
    requires
        old(space).wf(),
    ensures
        final(space).wf(),
        r == 0 || r == -1,
        (r == 0) == (range_args_ok(start, len) && old(space).range_mapped(
            vpn_of(start as int),
            end_vpn_of(start, len),
        )),
        r == -1 ==> *final(space) == *old(space),
        r == 0 ==> final(space).frame_bytes() == old(space).frame_bytes(),
        r == 0 ==> forall|v: int|
            #[trigger] final(space).is_mapped(v) == (old(space).is_mapped(v) && !(vpn_of(
                start as int,
            ) <= v < end_vpn_of(start, len))),
        r == 0 ==> forall|v: int| #[trigger]
            final(space).is_mapped(v) ==> final(space).entry(v) == old(space).entry(v),
{
    if start % PAGE_SIZE != 0 || len == 0 || start > usize::MAX - len {
        return -1;
    }
    let start_vpn = page_floor(start);
    let end_vpn = page_ceil(start + len);
    if !space.all_mapped(start_vpn, end_vpn) {
        return -1;
    }
    space.delete_framed_area(start_vpn, end_vpn);
    0
}

/// The heap segment of a task: it starts at `heap_bottom` and ends at
/// `brk`.
#[derive(Clone, Copy, Debug, PartialEq, Eq, Structural)]
pub struct ProgramBreak {
    pub heap_bottom: usize,
    pub brk: usize,
}

impl ProgramBreak {
    pub open spec fn wf(&self) -> bool {
        self.heap_bottom <= self.brk
    }

    /// An empty heap segment at `heap_bottom`.
    pub fn new(heap_bottom: usize) -> (r: ProgramBreak)
        ensures
            r.wf(),
            r.heap_bottom == heap_bottom,
            r.brk == heap_bottom,
    {
        ProgramBreak { heap_bottom, brk: heap_bottom }
    }
}

/// The end of the heap can move to `brk + size`: not below the heap's
/// start, not beyond the address space, and the old end is a valid result.
pub open spec fn sbrk_ok(heap: ProgramBreak, size: i32) -> bool {
    &&& heap.heap_bottom <= heap.brk + size <= usize::MAX
    &&& heap.brk <= isize::MAX
}

/// The page after the last one that a heap ending at `brk` touches.
pub open spec fn heap_top_vpn(brk: int) -> int {
    (brk + PAGE_SIZE - 1) / (PAGE_SIZE as int)
}

/// Where `sys_sbrk` moves the end of the heap: `brk + size`.
pub open spec fn new_brk(heap: ProgramBreak, size: i32) -> int {
    heap.brk + size
}

/// The pages a growing heap needs are free, and their frames fit in memory.
pub open spec fn heap_backing_ok(space: MemorySet, heap: ProgramBreak, size: i32) -> bool {
    let ot = heap_top_vpn(heap.brk as int);
    let nt = heap_top_vpn(new_brk(heap, size));
    nt <= ot || (space.range_unmapped(ot, nt) && space.frame_bytes().len() + (nt - ot) * PAGE_SIZE
        <= usize::MAX)
}

/// Heap pages are readable, writable and user-accessible.
pub const HEAP_PERM: u8 = 22;

/// Moves the end of the heap by `size` bytes, mapping fresh zeroed pages
/// for a growing heap and unmapping the pages a shrinking heap leaves.
/// Returns the old end, or -1 without changing anything where the move is
/// rejected or the new pages cannot be backed.
pub fn sys_sbrk(space: &mut MemorySet, heap: &mut ProgramBreak, size: i32) -> (r: isize)
    requires
        old(heap).wf(),
        old(space).wf(),
    ensures
        final(heap).wf(),
        final(space).wf(),
        final(heap).heap_bottom == old(heap).heap_bottom,
        r == if sbrk_ok(*old(heap), size) && heap_backing_ok(*old(space), *old(heap), size) {
            old(heap).brk as int
        } else {
            -1
        },
        r == -1 ==> *final(heap) == *old(heap) && *final(space) == *old(space),
        r != -1 ==> final(heap).brk == new_brk(*old(heap), size),
        r != -1 ==> forall|v: int|
            #[trigger] final(space).is_mapped(v) == if heap_top_vpn(new_brk(*old(heap), size))
                > heap_top_vpn(old(heap).brk as int) {
                old(space).is_mapped(v) || heap_top_vpn(old(heap).brk as int) <= v
                    < heap_top_vpn(new_brk(*old(heap), size))
            } else {
                old(space).is_mapped(v) && !(heap_top_vpn(new_brk(*old(heap), size)) <= v
                    < heap_top_vpn(old(heap).brk as int))
            },
        r != -1 ==> forall|v: int|
            old(space).is_mapped(v) && #[trigger] final(space).is_mapped(v) ==> final(space).entry(
                v,
            ) == old(space).entry(v),
        r != -1 ==> forall|v: int|
            !old(space).is_mapped(v) && #[trigger] final(space).is_mapped(v) ==> final(space).entry(
                v,
            ).perm == HEAP_PERM,
{
    if heap.brk > isize::MAX as usize {
        return -1;
    }
    let old_brk = heap.brk;
    let new_end: usize;
    if size >= 0 {
        let grow = size as usize;
        if old_brk > usize::MAX - grow {
            return -1;
        }
        new_end = old_brk + grow;
    } else {
        let shrink = (-(size as i64)) as usize;
        if old_brk - heap.heap_bottom < shrink {
            return -1;
        }
        new_end = old_brk - shrink;
    }
    let old_top = page_ceil(old_brk);
    let new_top = page_ceil(new_end);
    if new_top > old_top {
        if !space.all_unmapped(old_top, new_top) {
            return -1;
        }
        if !space.insert_framed_area(old_top, new_top, HEAP_PERM) {
            return -1;
        }
    } else if new_top < old_top {
        space.delete_framed_area(new_top, old_top);
    }
    heap.brk = new_end;
    old_brk as isize
}


/// What the run loop does after a syscall.
#[derive(Clone, Copy, Debug, PartialEq, Eq, Structural)]
pub enum Trap {
    /// Hand this value back to the task and let it go on.
    Return(isize),
    /// The task gives up the processor; it goes back into the ready pool.
    Yielded,
    /// The task has ended.
    Exited,
}

/// Handles syscall `id` with arguments `a0`, `a1`, `a2` for the running
/// `task`, whose memory is `space` and heap `heap`, at time `now_us`
/// (microseconds) or `now_ms` (milliseconds). The call is counted first,
/// so a `task_info` snapshot includes the call that takes it. Unknown
/// identifiers get -1.
pub fn syscall(
    task: &mut TaskControlBlock,
    space: &mut MemorySet,
    heap: &mut ProgramBreak,
    id: usize,
    a0: usize,
    a1: usize,
    a2: usize,
    now_us: usize,
    now_ms: usize,
) -> (r: Trap)
    requires
        old(task).wf(),
        old(space).wf(),
        old(heap).wf(),
    ensures
        final(task).wf(),
        final(space).wf(),
        final(heap).wf(),
        final(task).syscall_times@ == counted(old(task).syscall_times@, id),
        final(task).id == old(task).id,
        final(task).stride == old(task).stride,
        final(task).pass == old(task).pass,
        final(task).start_time == old(task).start_time,
        final(task).status == if id == SYSCALL_EXIT {
            TaskStatus::Exited
        } else {
            old(task).status
        },
        id == SYSCALL_EXIT ==> r == Trap::Exited,
        id == SYSCALL_YIELD ==> r == Trap::Yielded,
        id == SYSCALL_TASK_INFO ==> {
            let image = task_info_image(
                old(task).status,
                counted(old(task).syscall_times@, id),
                elapsed(old(task).start_time, now_ms),
            );
            &&& (r == Trap::Return(0)) == old(space).range_allows(a0 as int, image.len() as int, PERM_W)
            &&& r == Trap::Return(0) ==> old(space).written(final(space), a0 as int, image)
            &&& r != Trap::Return(0) ==> r == Trap::Return(-1isize) && *final(space) == *old(space)
        },
        id == SYSCALL_GET_TIME ==> {
            &&& (r == Trap::Return(0)) == old(space).range_allows(
                a0 as int,
                TIME_VAL_SIZE as int,
                PERM_W,
            )
            &&& r == Trap::Return(0) ==> old(space).written(
                final(space),
                a0 as int,
                time_val_bytes(TimeVal { sec: now_us / 1_000_000, usec: now_us % 1_000_000 }),
            )
            &&& r != Trap::Return(0) ==> r == Trap::Return(-1isize) && *final(space) == *old(space)
        },
        id == SYSCALL_MMAP ==> r is Return && (r == Trap::Return(0)) == (range_args_ok(a0, a1)
            && prot_ok(a2) && old(space).range_unmapped(vpn_of(a0 as int), end_vpn_of(a0, a1))
            && old(space).frame_bytes().len() + (end_vpn_of(a0, a1) - vpn_of(a0 as int))
            * PAGE_SIZE <= usize::MAX),
        id == SYSCALL_MUNMAP ==> r is Return && (r == Trap::Return(0)) == (range_args_ok(a0, a1)
            && old(space).range_mapped(vpn_of(a0 as int), end_vpn_of(a0, a1))),
        id == SYSCALL_SBRK ==> r == Trap::Return(
            if sbrk_ok(*old(heap), a0 as i32) && heap_backing_ok(*old(space), *old(heap), a0 as i32) {
                old(heap).brk as isize
            } else {
                -1isize
            },
        ),
        id != SYSCALL_EXIT && id != SYSCALL_YIELD && id != SYSCALL_TASK_INFO && id
            != SYSCALL_GET_TIME && id != SYSCALL_MMAP && id != SYSCALL_MUNMAP && id != SYSCALL_SBRK
            ==> r == Trap::Return(-1isize) && *final(space) == *old(space) && *final(heap) == *old(heap),
{
    task.record_syscall(id);
    if id == SYSCALL_EXIT {
        sys_exit(task, a0 as i32);
        Trap::Exited
    } else if id == SYSCALL_YIELD {
        Trap::Yielded
    } else if id == SYSCALL_GET_TIME {
        Trap::Return(sys_get_time(space, a0, a1, now_us))
    } else if id == SYSCALL_TASK_INFO {
        Trap::Return(sys_task_info(space, a0, task, now_ms))
    } else if id == SYSCALL_MMAP {
        Trap::Return(sys_mmap(space, a0, a1, a2))
    } else if id == SYSCALL_MUNMAP {
        Trap::Return(sys_munmap(space, a0, a1))
    } else if id == SYSCALL_SBRK {
        Trap::Return(sys_sbrk(space, heap, a0 as i32))
    } else {
        Trap::Return(-1)
    }
}

/// What `sys_get_time` wrote, read back through the same translation,
/// decodes to the time it was given, wherever the record's pages lie.
pub proof fn lemma_get_time_round_trip(
    before: MemorySet,
    after: MemorySet,
    ts: usize,
    now_us: usize,
)
    requires
        before.wf(),
        before.range_allows(ts as int, TIME_VAL_SIZE as int, PERM_W),
        before.written(
            &after,
            ts as int,
            time_val_bytes(TimeVal { sec: now_us / 1_000_000, usec: now_us % 1_000_000 }),
        ),
    ensures
        time_val_of_bytes(after.user_bytes(ts as int, TIME_VAL_SIZE as nat)) == Some(
            TimeVal { sec: now_us / 1_000_000, usec: now_us % 1_000_000 },
        ),
{
    let t = TimeVal { sec: now_us / 1_000_000, usec: now_us % 1_000_000 };
    before.lemma_write_then_read(&after, ts as int, time_val_bytes(t));
    lemma_time_val_round_trip(t);
}

} // verus!
