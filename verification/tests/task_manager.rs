use rcore_os::task_manager::{Priority, ReadyTask, Stride, TaskManager};
use std::cmp::Ordering;

fn task(pid: usize, stride: u64, priority: u64) -> ReadyTask {
    ReadyTask { pid, stride: Stride(stride), priority: Priority(priority) }
}

#[test]
fn initial_values() {
    assert_eq!(Stride::init().0, 0);
    assert_eq!(Priority::init().0, 16);
    assert_eq!(Stride::BIG_STRIDE, u64::MAX);
    assert_eq!(Stride::HALF, u64::MAX / 2);
}

#[test]
fn stride_order_puts_smaller_first() {
    assert_eq!(Stride(10).cmp(&Stride(20)), Ordering::Greater);
    assert_eq!(Stride(20).cmp(&Stride(10)), Ordering::Less);
    assert_eq!(Stride(7).cmp(&Stride(7)), Ordering::Less);
    // across wrap-around: u64::MAX - 15 lies just before 5
    assert_eq!(Stride(u64::MAX - 15).cmp(&Stride(5)), Ordering::Greater);
    assert_eq!(Stride(5).cmp(&Stride(u64::MAX - 15)), Ordering::Less);
}

#[test]
fn empty_queue_fetches_nothing() {
    let mut m = TaskManager::new();
    assert!(m.fetch().is_none());
    assert_eq!(m.len(), 0);
}

#[test]
fn fetch_takes_least_stride_and_advances_it() {
    let mut m = TaskManager::new();
    m.add(task(1, 300, 16));
    m.add(task(2, 100, 16));
    m.add(task(3, 200, 8));
    let t = m.fetch().unwrap();
    assert_eq!(t.pid, 2);
    assert_eq!(t.stride.0, 100 + u64::MAX / 16);
    assert_eq!(m.len(), 2);
    let t = m.fetch().unwrap();
    assert_eq!(t.pid, 3);
    assert_eq!(t.stride.0, 200 + u64::MAX / 8);
    let t = m.fetch().unwrap();
    assert_eq!(t.pid, 1);
    assert!(m.fetch().is_none());
}

#[test]
fn fetch_orders_across_wrap_around() {
    let mut m = TaskManager::new();
    m.add(task(1, 5, 2));
    m.add(task(2, u64::MAX - 15, 2));
    let t = m.fetch().unwrap();
    assert_eq!(t.pid, 2);
    assert_eq!(t.stride.0, (u64::MAX - 15).wrapping_add(u64::MAX / 2));
    let t = m.fetch().unwrap();
    assert_eq!(t.pid, 1);
}

#[test]
fn stride_scheduling_favours_higher_priority() {
    let mut m = TaskManager::new();
    m.add(task(1, 0, 2));
    m.add(task(2, 0, 4));
    let mut runs = [0usize; 3];
    for _ in 0..12 {
        let t = m.fetch().unwrap();
        runs[t.pid] += 1;
        m.add(t);
    }
    assert_eq!(runs[1], 4);
    assert_eq!(runs[2], 8);
}

#[test]
fn peek_shows_the_task_fetch_takes() {
    let mut m = TaskManager::new();
    assert!(m.peek().is_none());
    m.add(task(1, 50, 3));
    m.add(task(2, 40, 0));
    m.add(task(3, 40, 5));
    let p = m.peek().unwrap();
    assert_eq!(p.pid, 2);
    assert_eq!(p.stride.0, 40);
    assert_eq!(m.len(), 3);
}
