use kernel_core::task::{add_task, fetch_task, TaskControlBlock, TaskManager, TaskStatus, BIG_STRIDE, MAX_SYSCALL_NUM};

fn task_with(id: usize, stride: u128, pass: u64) -> TaskControlBlock {
    let mut t = TaskControlBlock::new(id, 1).unwrap();
    t.stride = stride;
    t.pass = pass;
    t
}

#[test]
fn fetch_from_empty_pool_is_none() {
    let mut m = TaskManager::new();
    assert!(m.fetch().is_none());
    assert_eq!(m.len(), 0);
}

#[test]
fn fetch_picks_least_stride() {
    let mut m = TaskManager::new();
    m.add(task_with(1, 30, 10));
    m.add(task_with(2, 10, 10));
    m.add(task_with(3, 20, 10));
    let t = m.fetch().unwrap();
    assert_eq!(t.id, 2);
    assert_eq!(t.stride, 20);
    assert_eq!(m.len(), 2);
}

#[test]
fn fetch_breaks_ties_by_insertion_order() {
    let mut m = TaskManager::new();
    m.add(task_with(7, 5, 1));
    m.add(task_with(8, 5, 1));
    assert_eq!(m.fetch().unwrap().id, 7);
    assert_eq!(m.fetch().unwrap().id, 8);
    assert!(m.fetch().is_none());
}

#[test]
fn stride_grows_past_the_64_bit_range() {
    let mut m = TaskManager::new();
    m.add(task_with(1, u64::MAX as u128, 3));
    let t = m.fetch().unwrap();
    assert_eq!(t.id, 1);
    assert_eq!(t.stride, u64::MAX as u128 + 3);
    m.add(t);
    assert_eq!(m.fetch().unwrap().stride, u64::MAX as u128 + 6);
}

#[test]
fn stride_strictly_increases_at_each_pick() {
    let mut m = TaskManager::new();
    m.add(task_with(1, 5, 1));
    m.add(task_with(2, 5, 7));
    let mut last = [5u128; 3];
    for _ in 0..50 {
        let t = m.fetch().unwrap();
        assert!(t.stride > last[t.id]);
        last[t.id] = t.stride;
        m.add(t);
    }
}

#[test]
fn global_style_helpers_add_and_fetch() {
    let mut m = TaskManager::new();
    add_task(&mut m, task_with(4, 0, 2));
    let t = fetch_task(&mut m).unwrap();
    assert_eq!(t.id, 4);
    assert_eq!(t.stride, 2);
    assert!(fetch_task(&mut m).is_none());
}

#[test]
fn drain_returns_every_task_once_in_stride_order() {
    let mut m = TaskManager::new();
    let strides = [40u128, 10, 30, 10, 20, 50];
    for (i, s) in strides.iter().enumerate() {
        m.add(task_with(i, *s, 7));
    }
    let mut seen = vec![false; strides.len()];
    let mut last = 0u128;
    let mut count = 0;
    while let Some(t) = m.fetch() {
        assert!(!seen[t.id]);
        seen[t.id] = true;
        assert!(t.stride >= last);
        last = t.stride;
        count += 1;
    }
    assert_eq!(count, strides.len());
    assert!(seen.iter().all(|b| *b));
}

#[test]
fn smaller_pass_runs_proportionally_more_often() {
    let mut m = TaskManager::new();
    let fast = TaskControlBlock::new(1, 4).unwrap();
    let slow = TaskControlBlock::new(2, 2).unwrap();
    assert!(fast.pass < slow.pass);
    m.add(fast);
    m.add(slow);
    let mut counts = [0usize; 3];
    for _ in 0..600 {
        let t = m.fetch().unwrap();
        counts[t.id] += 1;
        m.add(t);
    }
    assert!(counts[1] >= counts[2]);
    assert!(counts[1] >= 2 * counts[2] - 2 && counts[1] <= 2 * counts[2] + 2);
    assert_eq!(counts[1] + counts[2], 600);
}

#[test]
fn new_task_takes_pass_from_priority() {
    let t = TaskControlBlock::new(9, 16).unwrap();
    assert_eq!(t.pass, BIG_STRIDE / 16);
    assert_eq!(t.stride, 0);
    assert_eq!(t.status, TaskStatus::Ready);
    assert_eq!(t.syscall_times.len(), MAX_SYSCALL_NUM);
    assert!(t.syscall_times.iter().all(|c| *c == 0));
    assert!(t.start_time.is_none());
}

#[test]
fn new_task_rejects_priority_without_positive_pass() {
    assert!(TaskControlBlock::new(1, 0).is_none());
    assert!(TaskControlBlock::new(1, BIG_STRIDE + 1).is_none());
    assert_eq!(TaskControlBlock::new(1, BIG_STRIDE).unwrap().pass, 1);
}

#[test]
fn record_syscall_counts_known_identifiers() {
    let mut t = TaskControlBlock::new(1, 1).unwrap();
    t.record_syscall(64);
    t.record_syscall(64);
    t.record_syscall(MAX_SYSCALL_NUM);
    assert_eq!(t.syscall_times[64], 2);
    assert_eq!(t.syscall_times.iter().map(|c| *c as usize).sum::<usize>(), 2);
}

#[test]
fn record_syscall_stops_at_counter_maximum() {
    let mut t = TaskControlBlock::new(1, 1).unwrap();
    t.syscall_times[3] = u32::MAX;
    t.record_syscall(3);
    assert_eq!(t.syscall_times[3], u32::MAX);
}

#[test]
fn first_dispatch_time_is_kept() {
    let mut t = TaskControlBlock::new(1, 1).unwrap();
    t.mark_dispatched(100);
    t.mark_dispatched(250);
    assert_eq!(t.start_time, Some(100));
    assert_eq!(t.status, TaskStatus::Running);
}

#[test]
fn equal_nonzero_strides_share_by_pass() {
    let mut m = TaskManager::new();
    let mut slow = TaskControlBlock::new(2, 1).unwrap();
    let mut fast = TaskControlBlock::new(1, 3).unwrap();
    slow.stride = 1000;
    fast.stride = 1000;
    let (p_fast, p_slow) = (fast.pass as usize, slow.pass as usize);
    m.add(slow);
    m.add(fast);
    let mut counts = [0usize; 3];
    for n in 1..=200usize {
        let t = m.fetch().unwrap();
        counts[t.id] += 1;
        m.add(t);
        assert_eq!(counts[1] + counts[2], n);
        assert!(counts[1] * p_fast <= counts[2] * p_slow + p_fast);
        assert!(counts[2] * p_slow <= counts[1] * p_fast + p_slow);
        if n >= 2 {
            assert!(counts[1] >= counts[2]);
        }
    }
}

#[test]
fn strides_stay_within_own_pass_of_each_other() {
    let mut m = TaskManager::new();
    for (id, prio) in [(0usize, 1u64), (1, 2), (2, 5), (3, 16)] {
        m.add(TaskControlBlock::new(id, prio).unwrap());
    }
    let mut last_run = [0usize; 4];
    for round in 1..=500usize {
        let t = m.fetch().unwrap();
        last_run[t.id] = round;
        m.add(t);
        let mut pool = Vec::new();
        while let Some(t) = m.fetch() {
            pool.push(t);
        }
        let strides: Vec<(u128, u128)> = pool.iter().map(|t| (t.stride - t.pass as u128, t.pass as u128)).collect();
        for (sa, pa) in &strides {
            for (sb, _) in &strides {
                assert!(*sa <= *sb + *pa);
            }
        }
        for mut t in pool {
            t.stride -= t.pass as u128;
            m.add(t);
        }
    }
    assert!(last_run.iter().all(|r| *r > 400));
}
