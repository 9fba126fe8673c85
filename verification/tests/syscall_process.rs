use rcore_os::fs::UserBuffer;
use rcore_os::syscall::process::{
    mmap_admissible, munmap_admissible, sys_get_time, sys_mmap, sys_munmap, sys_sbrk, sys_trace, PteFlags, TimeVal, TraceAction, VpnRange,
};

fn pte(valid: bool, readable: bool, writable: bool) -> Option<PteFlags> {
    Some(PteFlags { valid, readable, writable })
}

#[test]
fn time_splits_into_seconds_and_microseconds() {
    let t = TimeVal::from_us(3_000_005);
    assert_eq!(t.sec, 3);
    assert_eq!(t.usec, 5);
    let t = TimeVal::from_us(999_999);
    assert_eq!(t.sec, 0);
    assert_eq!(t.usec, 999_999);
}

#[test]
fn get_time_writes_the_timeval_image() {
    let w = std::mem::size_of::<usize>();
    let mut buf = UserBuffer::new(vec![vec![0; w + 1], vec![0; w - 1]]);
    assert_eq!(sys_get_time(3_000_261, &mut buf), 0);
    let mut bytes: Vec<u8> = Vec::new();
    for p in &buf.buffers {
        bytes.extend_from_slice(p);
    }
    let mut expected = 3usize.to_le_bytes().to_vec();
    expected.extend_from_slice(&261usize.to_le_bytes());
    assert_eq!(bytes, expected);
    assert_eq!(TimeVal { sec: 1, usec: 2 }.to_bytes().len(), 2 * w);
}

#[test]
fn trace_read_needs_a_readable_page() {
    assert!(matches!(sys_trace(0, 0x1000, 0, true, pte(true, true, false)), TraceAction::ReadByte));
    assert!(matches!(sys_trace(0, 0x1000, 0, false, pte(true, true, false)), TraceAction::Fail));
    assert!(matches!(sys_trace(0, 0x1000, 0, true, None), TraceAction::Fail));
    assert!(matches!(sys_trace(0, 0x1000, 0, true, pte(false, true, true)), TraceAction::Fail));
    assert!(matches!(sys_trace(0, 0x1000, 0, true, pte(true, false, true)), TraceAction::Fail));
}

#[test]
fn trace_write_stores_the_low_byte() {
    assert!(matches!(sys_trace(1, 0x1000, 0x1ff, true, pte(true, false, true)), TraceAction::WriteByte(0xff)));
    assert!(matches!(sys_trace(1, 0x1000, 0x41, true, pte(true, true, false)), TraceAction::Fail));
    assert!(matches!(sys_trace(1, 0x1000, 0x41, true, None), TraceAction::Fail));
}

#[test]
fn trace_counts_syscalls_and_rejects_others() {
    assert!(matches!(sys_trace(2, 64, 0, false, None), TraceAction::CountSyscalls(64)));
    assert!(matches!(sys_trace(3, 64, 0, true, pte(true, true, true)), TraceAction::Fail));
}

#[test]
fn mmap_checks_its_arguments() {
    let none: Vec<VpnRange> = Vec::new();
    assert!(sys_mmap(0x1001, 0x1000, 3, 100, &none).is_none());
    assert!(sys_mmap(0x1000, 0x1000, 0, 100, &none).is_none());
    assert!(sys_mmap(0x1000, 0x1000, 8, 100, &none).is_none());
    assert!(sys_mmap(0x1000, 0x1000, 9, 100, &none).is_none());
}

#[test]
fn mmap_maps_whole_pages_with_user_permission() {
    let none: Vec<VpnRange> = Vec::new();
    let r = sys_mmap(0x1000, 0x2001, 3, 100, &none).unwrap();
    assert_eq!(r.start_va, 0x1000);
    assert_eq!(r.end_va, 0x4000);
    assert_eq!(r.permission, 0b10110);
    let r = sys_mmap(0x1000, 0x1000, 7, 1, &none).unwrap();
    assert_eq!(r.end_va, 0x2000);
    assert_eq!(r.permission, 0b11110);
    let r = sys_mmap(0x1000, 0, 1, 0, &none).unwrap();
    assert_eq!(r.end_va, 0x1000);
    assert_eq!(r.permission, 0b10010);
}

#[test]
fn mmap_needs_free_pages() {
    let none: Vec<VpnRange> = Vec::new();
    assert!(sys_mmap(0x1000, 0x3000, 1, 2, &none).is_none());
    assert!(sys_mmap(0x1000, 0x3000, 1, 3, &none).is_some());
}

#[test]
fn mmap_refuses_overlap() {
    let areas = vec![VpnRange { start: 4, end: 6 }];
    assert!(sys_mmap(0x3000, 0x2000, 1, 10, &areas).is_none());
    assert!(sys_mmap(0x5000, 0x1000, 1, 10, &areas).is_none());
    assert!(sys_mmap(0x1000, 0x3000, 1, 10, &areas).is_some());
    assert!(sys_mmap(0x6000, 0x1000, 1, 10, &areas).is_some());
}

#[test]
fn mmap_keeps_the_low_39_bits() {
    let none: Vec<VpnRange> = Vec::new();
    let r = sys_mmap((1usize << 39) + 0x2000, 0x1000, 1, 10, &none).unwrap();
    assert_eq!(r.start_va, 0x2000);
    assert_eq!(r.end_va, 0x3000);
}

#[test]
fn munmap_checks_alignment() {
    assert_eq!(sys_munmap(0x1001, 0x1000), None);
    assert_eq!(sys_munmap(0x1000, 0x1001), Some((0x1000, 0x3000)));
    assert_eq!(sys_munmap(0x0, 0x1000), Some((0x0, 0x1000)));
}

#[test]
fn sbrk_reports_old_break() {
    assert_eq!(sys_sbrk(Some(0x8000)), 0x8000);
    assert_eq!(sys_sbrk(None), -1);
}

#[test]
fn mmap_admits_only_computable_requests() {
    assert!(mmap_admissible(0x1000, 0x1000, 3));
    assert!(!mmap_admissible((1usize << 39) - 0x1000, 0x2000, 3));
    assert!(!mmap_admissible(0x1000, usize::MAX, 3));
    assert!(mmap_admissible(0x1001, usize::MAX, 3));
    assert!(mmap_admissible(0x1000, usize::MAX, 0));
}

#[test]
fn bad_arguments_fail_before_the_length_counts() {
    let none: Vec<VpnRange> = Vec::new();
    assert!(sys_mmap(0x1001, usize::MAX, 3, 100, &none).is_none());
    assert!(sys_mmap(0x1000, usize::MAX, 8, 100, &none).is_none());
    assert_eq!(sys_munmap(0x1001, usize::MAX), None);
    assert!(munmap_admissible(0x1001, usize::MAX));
    assert!(!munmap_admissible(0x1000, usize::MAX));
    assert!(munmap_admissible(0x1000, 0x1000));
}
