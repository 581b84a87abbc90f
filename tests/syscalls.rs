use kernel_core::memory::MemorySet;
use kernel_core::memory::PERM_W;
use kernel_core::syscall::{
    sys_exit, sys_mmap, sys_sbrk, sys_task_info, sys_yield, syscall, task_info_of, ProgramBreak,
    Trap, SYSCALL_EXIT, SYSCALL_GET_TIME, SYSCALL_MMAP, SYSCALL_MUNMAP, SYSCALL_SBRK,
    SYSCALL_TASK_INFO, SYSCALL_YIELD,
};
use kernel_core::task::{
    dispatch_next, suspend_current_and_run_next, TaskControlBlock, TaskManager, TaskStatus,
    BIG_STRIDE, MAX_SYSCALL_NUM,
};
use kernel_core::wire::{TaskInfo, TimeVal, TASK_INFO_SIZE};

fn u32_at(b: &[u8], at: usize) -> u32 {
    u32::from_le_bytes([b[at], b[at + 1], b[at + 2], b[at + 3]])
}

#[test]
fn task_info_right_after_first_dispatch() {
    let mut space = MemorySet::new();
    assert_eq!(sys_mmap(&mut space, 0x10000, 0x2000, 0b011), 0);
    let mut task = TaskControlBlock::new(1, 16).unwrap();
    task.mark_dispatched(1234);
    task.record_syscall(SYSCALL_TASK_INFO);
    let at = 0x11000 - 100;
    assert_eq!(sys_task_info(&mut space, at, &task, 1234), 0);
    let b = space.read_user_bytes(at, TASK_INFO_SIZE).unwrap();
    assert_eq!(u32_at(&b, 0), 2);
    for k in 0..MAX_SYSCALL_NUM {
        let want = if k == SYSCALL_TASK_INFO { 1 } else { 0 };
        assert_eq!(u32_at(&b, 4 + 4 * k), want);
    }
    assert_eq!(&b[2004..2016], &[0u8; 12]);
}

#[test]
fn task_info_reports_elapsed_milliseconds() {
    let mut task = TaskControlBlock::new(1, 16).unwrap();
    task.mark_dispatched(1000);
    let info = task_info_of(&task, 1500);
    assert_eq!(info.time, 500);
    assert_eq!(info.status, TaskStatus::Running);
    let bytes = info.to_bytes();
    assert_eq!(bytes.len(), TASK_INFO_SIZE);
    assert_eq!(u64::from_le_bytes(bytes[2008..2016].try_into().unwrap()), 500);
}

#[test]
fn task_info_fails_on_unmapped_buffer() {
    let mut space = MemorySet::new();
    let task = TaskControlBlock::new(1, 16).unwrap();
    assert_eq!(sys_task_info(&mut space, 0, &task, 0), -1);
    assert_eq!(sys_mmap(&mut space, 0x1000, 0x1000, 0b011), 0);
    assert_eq!(sys_task_info(&mut space, 0x1900, &task, 0), -1);
    assert_eq!(space.read_user_bytes(0x1900, 4), Some(vec![0u8; 4]));
}

#[test]
fn task_info_image_layout() {
    let mut times = vec![0u32; MAX_SYSCALL_NUM];
    times[1] = 0x01020304;
    let info = TaskInfo { status: TaskStatus::Exited, syscall_times: times, time: 0x0102 };
    let b = info.to_bytes();
    assert_eq!(&b[0..4], &[3, 0, 0, 0]);
    assert_eq!(&b[8..12], &[4, 3, 2, 1]);
    assert_eq!(&b[2008..2016], &[2, 1, 0, 0, 0, 0, 0, 0]);
}

#[test]
fn time_val_from_microseconds_and_bytes() {
    let t = TimeVal::from_us(3_000_007);
    assert_eq!(t, TimeVal { sec: 3, usec: 7 });
    let b = t.to_bytes();
    assert_eq!(b, vec![3, 0, 0, 0, 0, 0, 0, 0, 7, 0, 0, 0, 0, 0, 0, 0]);
    assert_eq!(TimeVal::from_bytes(&b), Some(t));
    assert_eq!(TimeVal::from_bytes(&b[..15]), None);
}

#[test]
fn yield_puts_task_back_once() {
    let mut pool = TaskManager::new();
    pool.add(TaskControlBlock::new(2, 16).unwrap());
    let mut task = TaskControlBlock::new(1, 16).unwrap();
    task.mark_dispatched(0);
    assert_eq!(sys_yield(&mut pool, task), 0);
    assert_eq!(pool.len(), 2);
    let first = pool.fetch().unwrap();
    let second = pool.fetch().unwrap();
    assert_eq!((first.id, second.id), (2, 1));
    assert_eq!(second.status, TaskStatus::Ready);
    assert!(pool.fetch().is_none());
}

#[test]
fn yield_then_dispatch_picks_least_stride() {
    let mut pool = TaskManager::new();
    let mut other = TaskControlBlock::new(2, 16).unwrap();
    other.stride = 100;
    pool.add(other);
    let mut cur = TaskControlBlock::new(1, 16).unwrap();
    cur.mark_dispatched(5);
    cur.stride = 40;
    let next = suspend_current_and_run_next(&mut pool, cur, 9);
    assert_eq!(next.id, 1);
    assert_eq!(next.status, TaskStatus::Running);
    assert_eq!(next.start_time, Some(5));
    assert_eq!(next.stride, 40 + (BIG_STRIDE / 16) as u128);
    let next = suspend_current_and_run_next(&mut pool, next, 12);
    assert_eq!(next.id, 2);
    assert_eq!(next.start_time, Some(12));
    assert_eq!(pool.len(), 1);
}

#[test]
fn dispatch_from_empty_pool_is_none() {
    let mut pool = TaskManager::new();
    assert!(dispatch_next(&mut pool, 0).is_none());
}

#[test]
fn exit_marks_task_exited() {
    let mut task = TaskControlBlock::new(1, 16).unwrap();
    task.mark_dispatched(0);
    sys_exit(&mut task, 3);
    assert_eq!(task.status, TaskStatus::Exited);
}

#[test]
fn sbrk_moves_break_and_returns_old_one() {
    let mut space = MemorySet::new();
    let mut heap = ProgramBreak::new(0x8000);
    assert_eq!(sys_sbrk(&mut space, &mut heap, 0x100), 0x8000);
    assert_eq!(heap.brk, 0x8100);
    assert!(space.all_mapped(8, 9));
    assert!(space.write_user_bytes(0x80f0, &[7u8; 16]));
    assert_eq!(sys_sbrk(&mut space, &mut heap, -0x80), 0x8100);
    assert_eq!(heap.brk, 0x8080);
    assert!(space.all_mapped(8, 9));
    assert_eq!(sys_sbrk(&mut space, &mut heap, -0x81), -1);
    assert_eq!(heap.brk, 0x8080);
    assert_eq!(sys_sbrk(&mut space, &mut heap, 0), 0x8080);
    assert_eq!(sys_sbrk(&mut space, &mut heap, -0x80), 0x8080);
    assert!(space.all_unmapped(8, 9));
}

#[test]
fn sbrk_grows_across_several_pages() {
    let mut space = MemorySet::new();
    let mut heap = ProgramBreak::new(0x10000);
    assert_eq!(sys_sbrk(&mut space, &mut heap, 0x2001), 0x10000);
    assert!(space.all_mapped(0x10, 0x13));
    assert!(space.all_unmapped(0x13, 0x14));
    assert!(space.translate(0x12000, PERM_W).is_some());
}

#[test]
fn sbrk_rejects_growth_onto_mapped_pages() {
    let mut space = MemorySet::new();
    assert_eq!(sys_mmap(&mut space, 0x9000, 0x1000, 0b001), 0);
    let mut heap = ProgramBreak::new(0x8000);
    assert_eq!(sys_sbrk(&mut space, &mut heap, 0x1001), -1);
    assert_eq!(heap.brk, 0x8000);
    assert!(space.all_unmapped(8, 9));
}

#[test]
fn sbrk_rejects_break_beyond_address_space() {
    let mut space = MemorySet::new();
    let mut heap = ProgramBreak { heap_bottom: 0, brk: usize::MAX - 1 };
    assert_eq!(sys_sbrk(&mut space, &mut heap, 4), -1);
    assert_eq!(heap.brk, usize::MAX - 1);
}

#[test]
fn dispatcher_counts_task_info_call_itself() {
    let mut space = MemorySet::new();
    let mut heap = ProgramBreak::new(0x40000);
    assert_eq!(sys_mmap(&mut space, 0x10000, 0x1000, 0b011), 0);
    let mut task = TaskControlBlock::new(1, 16).unwrap();
    task.mark_dispatched(70);
    let r = syscall(&mut task, &mut space, &mut heap, SYSCALL_TASK_INFO, 0x10000, 0, 0, 0, 70);
    assert_eq!(r, Trap::Return(0));
    let b = space.read_user_bytes(0x10000, TASK_INFO_SIZE).unwrap();
    assert_eq!(u32_at(&b, 4 + 4 * SYSCALL_TASK_INFO), 1);
    let r = syscall(&mut task, &mut space, &mut heap, SYSCALL_TASK_INFO, 0x10000, 0, 0, 0, 75);
    assert_eq!(r, Trap::Return(0));
    let b = space.read_user_bytes(0x10000, TASK_INFO_SIZE).unwrap();
    assert_eq!(u32_at(&b, 4 + 4 * SYSCALL_TASK_INFO), 2);
    assert_eq!(b[2008], 5);
}

#[test]
fn dispatcher_routes_each_syscall() {
    let mut space = MemorySet::new();
    let mut heap = ProgramBreak::new(0x40000);
    let mut task = TaskControlBlock::new(1, 16).unwrap();
    assert_eq!(syscall(&mut task, &mut space, &mut heap, SYSCALL_MMAP, 0x1000, 0x1000, 0b011, 0, 0), Trap::Return(0));
    assert_eq!(syscall(&mut task, &mut space, &mut heap, SYSCALL_GET_TIME, 0x1000, 0, 0, 2_000_001, 0), Trap::Return(0));
    assert_eq!(space.read_user_bytes(0x1000, 1), Some(vec![2]));
    assert_eq!(syscall(&mut task, &mut space, &mut heap, SYSCALL_MUNMAP, 0x1000, 0x1000, 0, 0, 0), Trap::Return(0));
    assert_eq!(syscall(&mut task, &mut space, &mut heap, SYSCALL_SBRK, 16, 0, 0, 0, 0), Trap::Return(0x40000));
    assert_eq!(syscall(&mut task, &mut space, &mut heap, 9999, 0, 0, 0, 0, 0), Trap::Return(-1));
    assert_eq!(syscall(&mut task, &mut space, &mut heap, SYSCALL_YIELD, 0, 0, 0, 0, 0), Trap::Yielded);
    assert_eq!(task.syscall_times[SYSCALL_MMAP], 1);
    assert_eq!(task.syscall_times[SYSCALL_YIELD], 1);
    assert_eq!(syscall(&mut task, &mut space, &mut heap, SYSCALL_EXIT, 0, 0, 0, 0, 0), Trap::Exited);
    assert_eq!(task.status, TaskStatus::Exited);
}
