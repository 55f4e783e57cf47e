//! The file handle of the storage layers, kept in memory: positioned reads
//! and writes over a byte image that the program persists.

use vstd::prelude::*;

verus! {

/// `c` with `buf` written at `pos`; the gap before `pos`, if any, is zeros.
pub open spec fn write_at(c: Seq<u8>, pos: int, buf: Seq<u8>) -> Seq<u8> {
    let end = if pos + buf.len() > c.len() { pos + buf.len() } else { c.len() as int };
    Seq::new(
        end as nat,
        |i: int|
            if pos <= i < pos + buf.len() {
                buf[i - pos]
            } else if i < c.len() {
                c[i]
            } else {
                0u8
            },
    )
}

/// The `n` bytes of `c` from `pos`, zeros past its end.
pub open spec fn read_at(c: Seq<u8>, pos: int, n: int) -> Seq<u8> {
    Seq::new(n as nat, |i: int| if pos + i < c.len() { c[pos + i] } else { 0u8 })
}

/// Reading back what was just written gives it.
pub proof fn lemma_read_after_write(c: Seq<u8>, pos: int, buf: Seq<u8>)
    requires
        pos >= 0,
    ensures
        read_at(write_at(c, pos, buf), pos, buf.len() as int) == buf,
{
    assert(read_at(write_at(c, pos, buf), pos, buf.len() as int) =~= buf);
}

/// The size of a file.
pub struct MetaData {
    pub size: usize,
}

/// A file image in memory.
pub struct MemFile {
    data: Vec<u8>,
}

impl View for MemFile {
    type V = Seq<u8>;

    closed spec fn view(&self) -> Seq<u8> {
        self.data@
    }
}

impl MemFile {
    /// A file that holds `data`.
    pub fn new(data: Vec<u8>) -> (r: Self)
        ensures
            r@ == data@,
    {
        MemFile { data }
    }

    /// The bytes of the file.
    pub fn bytes(&self) -> (r: &Vec<u8>)
        ensures
            r@ == self@,
    {
        &self.data
    }

    /// The size of the file.
    pub fn meta(&self) -> (r: MetaData)
        ensures
            r.size == self@.len(),
    {
        MetaData { size: self.data.len() }
    }

    /// Writes `buf` at `pos`, growing the file with zeros as needed.
    pub fn set(&mut self, pos: usize, buf: &Vec<u8>)
        requires
            pos + buf@.len() <= usize::MAX,
        ensures
            final(self)@ == write_at(old(self)@, pos as int, buf@),
    {
        assert(self.data@.subrange(0, old(self)@.len() as int) =~= old(self)@);
        while self.data.len() < pos
            invariant
                old(self)@.len() <= self.data@.len(),
                self.data@.len() <= pos || self.data@.len() == old(self)@.len(),
                self.data@.subrange(0, old(self)@.len() as int) == old(self)@,
                forall|j: int| old(self)@.len() <= j < self.data@.len() ==> self.data@[j] == 0u8,
            decreases pos - self.data@.len(),
        {
            self.data.push(0u8);
        }
        let ghost padded = self.data@;
        let mut i: usize = 0;
        while i < buf.len()
            invariant
                i <= buf@.len(),
                pos + buf@.len() <= usize::MAX,
                padded.len() >= pos || padded.len() >= old(self)@.len(),
                padded.len() == if pos > old(self)@.len() { pos as int } else { old(self)@.len() as int },
                padded.subrange(0, old(self)@.len() as int) == old(self)@,
                forall|j: int| old(self)@.len() <= j < padded.len() ==> padded[j] == 0u8,
                self.data@.len() == if pos + i > padded.len() { pos + i } else { padded.len() as int },
                forall|j: int|
                    0 <= j < self.data@.len() ==> #[trigger] self.data@[j] == if pos <= j < pos + i {
                        buf@[j - pos]
                    } else {
                        padded[j]
                    },
            decreases buf@.len() - i,
        {
            if pos + i < self.data.len() {
                self.data.set(pos + i, buf[i]);
            } else {
                self.data.push(buf[i]);
            }
            i = i + 1;
        }
        assert(self.data@ =~= write_at(old(self)@, pos as int, buf@));
    }

    /// The `n` bytes from `pos`, zeros past the end of the file.
    pub fn get(&self, pos: usize, n: usize) -> (r: Vec<u8>)
        ensures
            r@ == read_at(self@, pos as int, n as int),
    {
        let mut out: Vec<u8> = Vec::new();
        let len = self.data.len();
        let mut i: usize = 0;
        while i < n
            invariant
                i <= n,
                len == self@.len(),
                out@ =~= read_at(self@, pos as int, i as int),
            decreases n - i,
        {
            if pos < len && i < len - pos {
                out.push(self.data[pos + i]);
            } else {
                out.push(0u8);
            }
            i = i + 1;
        }
        out
    }

    /// Empties the file.
    pub fn truncate(&mut self)
        ensures
            final(self)@.len() == 0,
    {
        self.data = Vec::new();
    }

    /// Writes `buf` at the start of the file, over what is there.
    pub fn prepend(&mut self, buf: &Vec<u8>)
        requires
            buf@.len() <= usize::MAX,
        ensures
            final(self)@ == write_at(old(self)@, 0, buf@),
    {
        self.set(0, buf);
    }

    /// Writes `buf` at the end of the file.
    pub fn append(&mut self, buf: &Vec<u8>)
        requires
            old(self)@.len() + buf@.len() <= usize::MAX,
        ensures
            final(self)@ == old(self)@ + buf@,
    {
        let n = self.data.len();
        self.set(n, buf);
        assert(self@ =~= old(self)@ + buf@);
    }
}

} // verus!
