use rcore_os::fs::{File, UserBuffer};
use rcore_os::syscall::fs::{fstat_reply, sys_close, sys_unlinkat, Stat, STAT_SIZE, sys_fstat, sys_linkat, sys_open, sys_read, sys_write};

struct Mem {
    readable: bool,
    writable: bool,
    data: Vec<u8>,
}

impl File for Mem {
    fn spec_readable(&self) -> bool {
        self.readable
    }
    fn spec_writable(&self) -> bool {
        self.writable
    }
    fn readable(&self) -> bool {
        self.readable
    }
    fn writable(&self) -> bool {
        self.writable
    }
    fn read(&self, buf: &mut UserBuffer) -> usize {
        let mut n = 0;
        for piece in buf.buffers.iter_mut() {
            for b in piece.iter_mut() {
                if n < self.data.len() {
                    *b = self.data[n];
                    n += 1;
                }
            }
        }
        n
    }
    fn write(&self, buf: &UserBuffer) -> usize {
        buf.buffers.iter().map(|p| p.len()).sum()
    }
}

fn mem(readable: bool, writable: bool) -> Mem {
    Mem { readable, writable, data: vec![7, 8, 9] }
}

#[test]
fn close_frees_an_open_descriptor() {
    let mut t: Vec<Option<u32>> = vec![Some(1), None, Some(3)];
    assert_eq!(sys_close(&mut t, 2), 0);
    assert_eq!(t, vec![Some(1), None, None]);
    assert_eq!(sys_close(&mut t, 1), -1);
    assert_eq!(sys_close(&mut t, 3), -1);
    assert_eq!(t, vec![Some(1), None, None]);
}

#[test]
fn open_takes_the_lowest_free_descriptor() {
    let mut t: Vec<Option<u32>> = vec![Some(1), None, Some(3), None];
    assert_eq!(sys_open(&mut t, Some(9)), 1);
    assert_eq!(t, vec![Some(1), Some(9), Some(3), None]);
    assert_eq!(sys_open(&mut t, Some(10)), 3);
    assert_eq!(sys_open(&mut t, Some(11)), 4);
    assert_eq!(t, vec![Some(1), Some(9), Some(3), Some(10), Some(11)]);
    assert_eq!(sys_open(&mut t, None), -1);
    assert_eq!(t.len(), 5);
}

#[test]
fn write_checks_descriptor_and_permission() {
    let t = vec![Some(mem(true, false)), None, Some(mem(false, true))];
    assert!(matches!(sys_write(&t, 0), Err(-1)));
    assert!(matches!(sys_write(&t, 1), Err(-1)));
    assert!(matches!(sys_write(&t, 5), Err(-1)));
    let f = sys_write(&t, 2).ok().unwrap();
    assert!(std::ptr::eq(f, t[2].as_ref().unwrap()));
    let buf = UserBuffer::new(vec![vec![1, 2], vec![3]]);
    assert_eq!(f.write(&buf), 3);
}

#[test]
fn read_checks_descriptor_and_permission() {
    let t = vec![Some(mem(true, false)), None, Some(mem(false, true))];
    assert!(matches!(sys_read(&t, 2), Err(-1)));
    assert!(matches!(sys_read(&t, 1), Err(-1)));
    assert!(matches!(sys_read(&t, 9), Err(-1)));
    let f = sys_read(&t, 0).ok().unwrap();
    assert!(std::ptr::eq(f, t[0].as_ref().unwrap()));
    let mut buf = UserBuffer::new(vec![vec![0, 0], vec![0, 0]]);
    assert_eq!(f.read(&mut buf), 3);
    assert_eq!(buf.buffers, vec![vec![7, 8], vec![9, 0]]);
}

#[test]
fn fstat_finds_open_files_only() {
    let t: Vec<Option<u32>> = vec![None, Some(4)];
    assert_eq!(sys_fstat(&t, 1), Some(&4));
    assert_eq!(sys_fstat(&t, 0), None);
    assert_eq!(sys_fstat(&t, 2), None);
}

#[test]
fn linkat_rejects_same_name_and_missing_file() {
    let a = String::from("a");
    let b = String::from("b");
    assert_eq!(sys_linkat(&a, &a.clone(), Some(1u32)), Err(-1));
    assert_eq!(sys_linkat(&a, &b, None::<u32>), Err(-1));
    assert_eq!(sys_linkat(&a, &b, Some(1u32)), Ok(1));
}

#[test]
fn user_buffer_fill_spans_pieces() {
    let mut buf = UserBuffer::new(vec![vec![0; 3], vec![0; 1], vec![0; 2]]);
    assert_eq!(buf.len(), 6);
    buf.fill_from(&[1, 2, 3, 4, 5, 6, 7]);
    assert_eq!(buf.buffers, vec![vec![1, 2, 3], vec![4], vec![5, 6]]);
    assert_eq!(buf.len(), 6);
}

#[test]
fn open_then_close_frees_the_slot() {
    let mut t: Vec<Option<u32>> = vec![Some(1)];
    let fd = sys_open(&mut t, Some(2));
    assert_eq!(fd, 1);
    assert_eq!(sys_close(&mut t, fd as usize), 0);
    assert_eq!(t, vec![Some(1), None]);
}

fn sample_stat() -> Stat {
    Stat { dev: 0x0102, ino: 7, mode: 0o100000, nlink: 2, pad: [0; 7] }
}

#[test]
fn stat_image_is_little_endian_and_full_size() {
    let b = sample_stat().to_bytes();
    assert_eq!(b.len(), STAT_SIZE);
    assert_eq!(&b[0..8], &0x0102u64.to_le_bytes());
    assert_eq!(&b[8..16], &7u64.to_le_bytes());
    assert_eq!(&b[16..20], &0o100000u32.to_le_bytes());
    assert_eq!(&b[20..24], &2u32.to_le_bytes());
    assert!(b[24..].iter().all(|x| *x == 0));
}

#[test]
fn fstat_reply_copies_status_across_pages() {
    let mut buf = UserBuffer::new(vec![vec![0xaa; 10], vec![0xaa; 70]]);
    assert_eq!(fstat_reply(Some(sample_stat()), &mut buf), 0);
    let mut flat: Vec<u8> = Vec::new();
    for p in &buf.buffers {
        flat.extend_from_slice(p);
    }
    assert_eq!(flat, sample_stat().to_bytes());
    assert_eq!(buf.buffers[0].len(), 10);
}

#[test]
fn fstat_reply_without_status_leaves_buffer() {
    let mut buf = UserBuffer::new(vec![vec![0xaa; 80]]);
    assert_eq!(fstat_reply(None, &mut buf), -1);
    assert_eq!(buf.buffers, vec![vec![0xaa; 80]]);
}

#[test]
fn unlinkat_needs_the_file() {
    assert_eq!(sys_unlinkat(Some(3u32)), Ok(3));
    assert_eq!(sys_unlinkat(None::<u32>), Err(-1));
}
