//! The file abstraction and the user buffers that file I/O reads from and
//! writes to.
use vstd::prelude::*;

verus! {

/// A file of any kind (regular file, directory, pipe, stdin, stdout).
///
/// The spec functions say, for each kind of file, whether it can be read or
/// written.
pub trait File: Send + Sync {
    /// The file can be read.
    spec fn spec_readable(&self) -> bool;

    /// The file can be written.
    spec fn spec_writable(&self) -> bool;

    /// Whether the file can be read.
    fn readable(&self) -> (r: bool)
        ensures
            r == self.spec_readable(),
    ;

    /// Whether the file can be written.
    fn writable(&self) -> (r: bool)
        ensures
            r == self.spec_writable(),
    ;

    /// Reads from the file into `buf`; returns the number of bytes read.
    fn read(&self, buf: &mut UserBuffer) -> usize;

    /// Writes `buf` to the file; returns the number of bytes written.
    fn write(&self, buf: &UserBuffer) -> usize;
}

/// A user-space buffer, as the pieces (one per page it spans) it occupies
/// in memory.
pub struct UserBuffer {
    pub buffers: Vec<Vec<u8>>,
}

/// The contents of each piece.
pub open spec fn pieces(buffers: Seq<Vec<u8>>) -> Seq<Seq<u8>> {
    Seq::new(buffers.len(), |i: int| buffers[i]@)
}

/// Total length of the pieces.
pub open spec fn total_len(pieces: Seq<Seq<u8>>) -> int
    decreases pieces.len(),
{
    if pieces.len() == 0 {
        0
    } else {
        total_len(pieces.drop_last()) + pieces.last().len()
    }
}

/// The pieces laid end to end.
pub open spec fn concat(pieces: Seq<Seq<u8>>) -> Seq<u8>
    decreases pieces.len(),
{
    if pieces.len() == 0 {
        Seq::empty()
    } else {
        concat(pieces.drop_last()) + pieces.last()
    }
}

impl View for UserBuffer {
    type V = Seq<Seq<u8>>;

    open spec fn view(&self) -> Seq<Seq<u8>> {
        pieces(self.buffers@)
    }
}

impl UserBuffer {
    /// A user buffer made of the given pieces.
    pub fn new(buffers: Vec<Vec<u8>>) -> (r: Self)
        ensures
            r@ == pieces(buffers@),
    {
        UserBuffer { buffers }
    }

    /// Total number of bytes in the buffer.
    pub fn len(&self) -> (r: usize)
        requires
            total_len(self@) <= usize::MAX,
        ensures
            r == total_len(self@),
    {
        let n = self.buffers.len();
        let mut total: usize = 0;
        let mut i: usize = 0;
        while i < n
            invariant
                n == self@.len(),
                i <= n,
                total == total_len(self@.take(i as int)),
                total_len(self@) <= usize::MAX,
            decreases n - i,
        {
            proof {
                lemma_total_len_prefix(self@, i + 1);
                lemma_total_len_mono(self@, i + 1, n as int);
                assert(self@.take(n as int) =~= self@);
            }
            total = total + self.buffers[i].len();
            i += 1;
        }
        assert(self@.take(n as int) =~= self@);
        total
    }

    /// Copies `src` into the buffer, piece after piece, from its start; the
    /// pieces keep their lengths.
    pub fn fill_from(&mut self, src: &[u8])
        requires
            total_len(old(self)@) <= src@.len(),
        ensures
            final(self)@.len() == old(self)@.len(),
            forall|i: int| 0 <= i < old(self)@.len() ==> #[trigger] final(self)@[i].len() == old(self)@[i].len(),
            concat(final(self)@) == src@.subrange(0, total_len(old(self)@)),
    {
        let n = self.buffers.len();
        let src_len = src.len();
        assert(src_len == src@.len());
        let mut offset: usize = 0;
        let mut i: usize = 0;
        while i < n
            invariant
                n == self@.len() == old(self)@.len(),
                i <= n,
                total_len(old(self)@) <= src@.len(),
                src@.len() <= usize::MAX,
                offset <= src@.len(),
                forall|k: int| 0 <= k < n ==> #[trigger] self@[k].len() == old(self)@[k].len(),
                forall|k: int| i <= k < n ==> #[trigger] self@[k] == old(self)@[k],
                offset == total_len(old(self)@.take(i as int)),
                total_len(self@.take(i as int)) == offset,
                concat(self@.take(i as int)) == src@.subrange(0, offset as int),
            decreases n - i,
        {
            proof {
                lemma_total_len_prefix(old(self)@, i + 1);
                lemma_total_len_prefix(old(self)@, n as int);
                lemma_total_len_mono(old(self)@, i + 1, n as int);
            }
            let len = self.buffers[i].len();
            let ghost before = self@;
            let ghost before_bufs = self.buffers@;
            assert(self@[i as int] == self.buffers@[i as int]@);
            assert(old(self)@.take(n as int) =~= old(self)@);
            assert(len == old(self)@[i as int].len());
            assert(offset + len <= src@.len());
            let mut k: usize = 0;
            while k < len
                invariant
                    n == self.buffers@.len() == before_bufs.len(),
                    i < n,
                    len == self.buffers@[i as int]@.len(),
                    k <= len,
                    offset + len <= src@.len(),
                    src@.len() <= usize::MAX,
                    forall|x: int| 0 <= x < n && x != i ==> #[trigger] self.buffers@[x] == before_bufs[x],
                    forall|x: int| 0 <= x < k ==> #[trigger] self.buffers@[i as int]@[x] == src@[offset + x],
                decreases len - k,
            {
                self.buffers[i][k] = src[offset + k];
                k += 1;
            }
            proof {
                assert forall|x: int| 0 <= x < n && x != i implies #[trigger] self@[x] == before[x] by {
                    assert(self.buffers@[x] == before_bufs[x]);
                }
                let t = self@.take(i + 1);
                assert(self@.take(i as int) =~= before.take(i as int));
                assert(t.drop_last() =~= self@.take(i as int));
                assert(t.last() == self@[i as int]);
                assert(self@[i as int] =~= src@.subrange(offset as int, offset + len));
                assert(concat(t) =~= src@.subrange(0, offset + len));
            }
            offset = offset + len;
            i += 1;
        }
        proof {
            assert(self@.take(n as int) =~= self@);
            assert(old(self)@.take(n as int) =~= old(self)@);
        }
    }
}

/// The `count` low bytes of `v`, least significant first: the image of an
/// integer of `count` bytes in the memory of a little-endian machine.
pub open spec fn le_bytes(v: nat, count: nat) -> Seq<u8>
    decreases count,
{
    if count == 0 {
        Seq::empty()
    } else {
        seq![(v % 256) as u8] + le_bytes(v / 256, (count - 1) as nat)
    }
}

pub proof fn lemma_le_bytes_len(v: nat, count: nat)
    ensures
        le_bytes(v, count).len() == count,
    decreases count,
{
    if count > 0 {
        lemma_le_bytes_len(v / 256, (count - 1) as nat);
    }
}

/// Byte `k` of the image of `v` is the digit of weight 256^k of `v` in base
/// 256: the image is the little-endian encoding of `v`.
pub proof fn lemma_le_bytes_digit(v: nat, count: nat, k: nat)
    requires
        k < count,
    ensures
        le_bytes(v, count).len() == count,
        le_bytes(v, count)[k as int] as int == (v as int / vstd::arithmetic::power::pow(256, k)) % 256,
    decreases k,
{
    lemma_le_bytes_len(v, count);
    lemma_le_bytes_len(v / 256, (count - 1) as nat);
    reveal(vstd::arithmetic::power::pow);
    if k == 0 {
        assert(vstd::arithmetic::power::pow(256, 0) == 1);
        assert(le_bytes(v, count)[0] == (v % 256) as u8);
    } else {
        lemma_le_bytes_digit(v / 256, (count - 1) as nat, (k - 1) as nat);
        assert(le_bytes(v, count)[k as int] == le_bytes(v / 256, (count - 1) as nat)[k - 1]);
        vstd::arithmetic::power::lemma_pow_positive(256, (k - 1) as nat);
        vstd::arithmetic::div_mod::lemma_div_denominator(
            v as int,
            256,
            vstd::arithmetic::power::pow(256, (k - 1) as nat),
        );
        assert(vstd::arithmetic::power::pow(256, k) == 256 * vstd::arithmetic::power::pow(
            256,
            (k - 1) as nat,
        ));
    }
}

/// Appends the `count` low bytes of `v`, least significant first.
pub fn push_le(out: &mut Vec<u8>, v: u64, count: u32)
    ensures
        final(out)@ == old(out)@ + le_bytes(v as nat, count as nat),
{
    let mut x: u64 = v;
    let mut i: u32 = 0;
    while i < count
        invariant
            i <= count,
            old(out)@ + le_bytes(v as nat, count as nat) == out@ + le_bytes(x as nat, (count - i) as nat),
        decreases count - i,
    {
        let ghost before = out@;
        out.push((x % 256) as u8);
        proof {
            assert(le_bytes(x as nat, (count - i) as nat) == seq![(x % 256) as u8] + le_bytes(
                (x / 256) as nat,
                (count - i - 1) as nat,
            ));
            assert(out@ + le_bytes((x / 256) as nat, (count - i - 1) as nat) =~= before + le_bytes(
                x as nat,
                (count - i) as nat,
            ));
        }
        x = x / 256;
        i += 1;
    }
    assert(out@ + le_bytes(x as nat, 0) =~= out@);
}

proof fn lemma_total_len_prefix(p: Seq<Seq<u8>>, i: int)
    requires
        0 < i <= p.len(),
    ensures
        total_len(p.take(i)) == total_len(p.take(i - 1)) + p[i - 1].len(),
{
    assert(p.take(i).drop_last() =~= p.take(i - 1));
}

proof fn lemma_total_len_mono(p: Seq<Seq<u8>>, i: int, j: int)
    requires
        0 <= i <= j <= p.len(),
    ensures
        total_len(p.take(i)) <= total_len(p.take(j)),
    decreases j - i,
{
    if i < j {
        lemma_total_len_mono(p, i, j - 1);
        lemma_total_len_prefix(p, j);
    }
}

} // verus!
