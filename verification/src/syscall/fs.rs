//! File and filesystem-related system calls.
use crate::fs::{concat, le_bytes, lemma_le_bytes_len, push_le, total_len, File, UserBuffer};
use vstd::prelude::*;

verus! {

/// Descriptor `fd` names an open file of the table.
pub open spec fn is_open<F>(fd_table: Seq<Option<F>>, fd: int) -> bool {
    0 <= fd < fd_table.len() && fd_table[fd] is Some
}

/// `fd` is the lowest free slot of the table, or the table's length when no
/// slot is free.
pub open spec fn lowest_free<F>(fd_table: Seq<Option<F>>, fd: int) -> bool {
    &&& 0 <= fd <= fd_table.len()
    &&& fd < fd_table.len() ==> fd_table[fd] is None
    &&& forall|k: int| 0 <= k < fd ==> #[trigger] fd_table[k] is Some
}

/// The table after `file` is installed at `fd`, the table having grown by
/// one slot when `fd` is its length.
pub open spec fn opened_table<F>(fd_table: Seq<Option<F>>, fd: int, file: F) -> Seq<Option<F>> {
    (if fd < fd_table.len() {
        fd_table
    } else {
        fd_table.push(None)
    }).update(fd, Some(file))
}

/// The file that a write to `fd` goes to, or -1 when `fd` is not open or
/// its file is not writable. The write itself, one write of the user's
/// buffer to this file whose count is the call's result, is made by the
/// caller only on `Ok`.
pub fn sys_write<F: File>(fd_table: &Vec<Option<F>>, fd: usize) -> (r: Result<&F, isize>)
    ensures
        !is_open(fd_table@, fd as int) ==> r == Err::<&F, isize>(-1isize),
        is_open(fd_table@, fd as int) ==> r == if fd_table@[fd as int]->0.spec_writable() {
            Ok::<&F, isize>(&fd_table@[fd as int]->0)
        } else {
            Err(-1isize)
        },
{
    if fd >= fd_table.len() {
        return Err(-1);
    }
    match &fd_table[fd] {
        Some(file) => {
            if !file.writable() {
                return Err(-1);
            }
            Ok(file)
        },
        None => Err(-1),
    }
}

/// The file that a read from `fd` comes from, or -1 when `fd` is not open or
/// its file is not readable. The read itself, one read from this file into
/// the user's buffer whose count is the call's result, is made by the
/// caller only on `Ok`.
pub fn sys_read<F: File>(fd_table: &Vec<Option<F>>, fd: usize) -> (r: Result<&F, isize>)
    ensures
        !is_open(fd_table@, fd as int) ==> r == Err::<&F, isize>(-1isize),
        is_open(fd_table@, fd as int) ==> r == if fd_table@[fd as int]->0.spec_readable() {
            Ok::<&F, isize>(&fd_table@[fd as int]->0)
        } else {
            Err(-1isize)
        },
{
    if fd >= fd_table.len() {
        return Err(-1);
    }
    match &fd_table[fd] {
        Some(file) => {
            if !file.readable() {
                return Err(-1);
            }
            Ok(file)
        },
        None => Err(-1),
    }
}

/// The file open at `fd` whose status is asked for, or `None` (the call
/// returns -1) when `fd` is not open.
pub fn sys_fstat<F>(fd_table: &Vec<Option<F>>, fd: usize) -> (r: Option<&F>)
    ensures
        is_open(fd_table@, fd as int) ==> r == Some(&fd_table@[fd as int]->0),
        !is_open(fd_table@, fd as int) ==> r is None,
{
    if fd >= fd_table.len() {
        return None;
    }
    match &fd_table[fd] {
        Some(file) => Some(file),
        None => None,
    }
}

/// Status of a file: its device, inode number, mode, number of hard links
/// and padding.
pub struct Stat {
    pub dev: u64,
    pub ino: u64,
    pub mode: u32,
    pub nlink: u32,
    pub pad: [u64; 7],
}

/// Size in bytes of the image of a `Stat`.
pub const STAT_SIZE: usize = 80;

/// The image of `words`, each as 8 little-endian bytes.
pub open spec fn words_le(words: Seq<u64>) -> Seq<u8>
    decreases words.len(),
{
    if words.len() == 0 {
        Seq::empty()
    } else {
        words_le(words.drop_last()) + le_bytes(words.last() as nat, 8)
    }
}

/// The image of a `Stat` in little-endian memory: `dev`, `ino`, `mode`,
/// `nlink`, then the padding.
pub open spec fn stat_bytes(s: Stat) -> Seq<u8> {
    le_bytes(s.dev as nat, 8) + le_bytes(s.ino as nat, 8) + le_bytes(s.mode as nat, 4) + le_bytes(
        s.nlink as nat,
        4,
    ) + words_le(s.pad@)
}

proof fn lemma_words_le_len(words: Seq<u64>)
    ensures
        words_le(words).len() == 8 * words.len(),
    decreases words.len(),
{
    if words.len() > 0 {
        lemma_words_le_len(words.drop_last());
        lemma_le_bytes_len(words.last() as nat, 8);
    }
}

impl Stat {
    /// The image of the status in little-endian memory.
    pub fn to_bytes(&self) -> (r: Vec<u8>)
        ensures
            r@ == stat_bytes(*self),
            r@.len() == STAT_SIZE,
    {
        let mut r: Vec<u8> = Vec::new();
        push_le(&mut r, self.dev, 8);
        push_le(&mut r, self.ino, 8);
        push_le(&mut r, self.mode as u64, 4);
        push_le(&mut r, self.nlink as u64, 4);
        let ghost head = r@;
        let mut i: usize = 0;
        while i < 7
            invariant
                i <= 7,
                r@ == head + words_le(self.pad@.take(i as int)),
            decreases 7 - i,
        {
            push_le(&mut r, self.pad[i], 8);
            proof {
                assert(self.pad@.take(i + 1).drop_last() =~= self.pad@.take(i as int));
            }
            i += 1;
            assert(r@ =~= head + words_le(self.pad@.take(i as int)));
        }
        proof {
            assert(self.pad@.take(7) =~= self.pad@);
            assert(r@ =~= stat_bytes(*self));
            lemma_le_bytes_len(self.dev as nat, 8);
            lemma_le_bytes_len(self.ino as nat, 8);
            lemma_le_bytes_len(self.mode as nat, 4);
            lemma_le_bytes_len(self.nlink as nat, 4);
            lemma_words_le_len(self.pad@);
        }
        r
    }
}

/// Answers `fstat` once the file is looked up: -1 with the user buffer left
/// alone when the file has no status (it is not an inode), else 0 with the
/// status image written into the buffer.
pub fn fstat_reply(status: Option<Stat>, buf: &mut UserBuffer) -> (r: isize)
    requires
        total_len(old(buf)@) <= STAT_SIZE,
    ensures
        status is None ==> r == -1 && final(buf)@ == old(buf)@,
        status is Some ==> r == 0 && final(buf)@.len() == old(buf)@.len() && (forall|i: int|
            0 <= i < old(buf)@.len() ==> #[trigger] final(buf)@[i].len() == old(buf)@[i].len())
            && concat(final(buf)@) == stat_bytes(status->0).subrange(0, total_len(old(buf)@)),
{
    match status {
        Some(st) => {
            let bytes = st.to_bytes();
            buf.fill_from(bytes.as_slice());
            0
        },
        None => -1,
    }
}

/// Finds a slot for a new descriptor: the lowest free one, or a new slot at
/// the end of the table.
fn alloc_fd<F>(fd_table: &mut Vec<Option<F>>) -> (fd: usize)
    requires
        old(fd_table).len() < usize::MAX,
    ensures
        lowest_free(old(fd_table)@, fd as int),
        fd < old(fd_table).len() ==> final(fd_table)@ == old(fd_table)@,
        fd == old(fd_table).len() ==> final(fd_table)@ == old(fd_table)@.push(None),
{
    let n = fd_table.len();
    let mut fd: usize = 0;
    while fd < n
        invariant
            n == fd_table.len(),
            fd_table@ == old(fd_table)@,
            fd <= n,
            forall|k: int| 0 <= k < fd ==> #[trigger] fd_table@[k] is Some,
        decreases n - fd,
    {
        if fd_table[fd].is_none() {
            return fd;
        }
        fd += 1;
    }
    fd_table.push(None);
    n
}

/// Installs the file that was opened, if any, at the lowest free
/// descriptor: -1 when nothing was opened, else the descriptor.
pub fn sys_open<F>(fd_table: &mut Vec<Option<F>>, opened: Option<F>) -> (r: isize)
    requires
        old(fd_table).len() < usize::MAX,
    ensures
        opened is None ==> r == -1 && final(fd_table)@ == old(fd_table)@,
        opened is Some ==> exists|fd: int|
            lowest_free(old(fd_table)@, fd) && r == fd as isize && final(fd_table)@ == opened_table(
                old(fd_table)@,
                fd,
                opened->0,
            ),
{
    match opened {
        Some(file) => {
            let fd = alloc_fd(fd_table);
            fd_table.set(fd, Some(file));
            fd as isize
        },
        None => -1,
    }
}

/// Closes descriptor `fd`: -1 when it is not open, else 0 with the slot
/// freed.
pub fn sys_close<F>(fd_table: &mut Vec<Option<F>>, fd: usize) -> (r: isize)
    ensures
        is_open(old(fd_table)@, fd as int) ==> r == 0 && final(fd_table)@ == old(fd_table)@.update(
            fd as int,
            None,
        ),
        !is_open(old(fd_table)@, fd as int) ==> r == -1 && final(fd_table)@ == old(fd_table)@,
{
    if fd >= fd_table.len() {
        return -1;
    }
    if fd_table[fd].is_none() {
        return -1;
    }
    fd_table.set(fd, None);
    0
}

/// Decides a hard link of `new_name` to `old_name`, given the inode that
/// looking up `old_name` found: -1 when the names are equal or nothing was
/// found, else the inode to link.
pub fn sys_linkat<I>(old_name: &String, new_name: &String, old_inode: Option<I>) -> (r: Result<I, isize>)
    ensures
        old_name@ == new_name@ ==> r == Err::<I, isize>(-1isize),
        old_name@ != new_name@ ==> r == match old_inode {
            Some(ino) => Ok::<I, isize>(ino),
            None => Err(-1isize),
        },
{
    if old_name.eq(new_name) {
        return Err(-1);
    }
    match old_inode {
        Some(ino) => Ok(ino),
        None => Err(-1),
    }
}

/// Decides the removal of a directory entry, given the inode that looking
/// its name up found: -1 when nothing was found, else the inode, which is
/// released before the entry is removed.
pub fn sys_unlinkat<I>(inode: Option<I>) -> (r: Result<I, isize>)
    ensures
        r == match inode {
            Some(ino) => Ok::<I, isize>(ino),
            None => Err(-1isize),
        },
{
    match inode {
        Some(ino) => Ok(ino),
        None => Err(-1),
    }
}

/// The descriptor that `sys_open` hands out is open, and closing it frees it
/// again: the table becomes the one before the open, with one more free slot
/// at its end when the open had to grow it.
pub proof fn lemma_open_then_close<F>(fd_table: Seq<Option<F>>, fd: int, file: F)
    requires
        lowest_free(fd_table, fd),
    ensures
        is_open(opened_table(fd_table, fd, file), fd),
        opened_table(fd_table, fd, file).update(fd, None) == (if fd < fd_table.len() {
            fd_table
        } else {
            fd_table.push(None)
        }),
{
    let t2 = opened_table(fd_table, fd, file).update(fd, None);
    if fd < fd_table.len() {
        assert(t2 =~= fd_table);
    } else {
        assert(t2 =~= fd_table.push(None));
    }
}

} // verus!
