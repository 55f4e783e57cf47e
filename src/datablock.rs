//! The data block pool: fixed-size blocks in one file, handed out by the
//! block allocator. In delay mode writes wait in memory, by position, until
//! the next flush.

use vstd::prelude::*;
use crate::bitmap::{malloc_result, BitMap};
use crate::bits::with_range;
use crate::error::Error;
use crate::state::{read_at, write_at, MemFile};

verus! {

/// Blocks needed for `size` bytes.
pub open spec fn blocks_for(size: int, block_size: int) -> int {
    size / block_size + if size % block_size == 0 { 0int } else { 1int }
}

/// Blocks needed for `size` bytes, counted.
fn count_blocks(size: usize, block_size: usize) -> (r: usize)
    requires
        block_size > 0,
    ensures
        r == blocks_for(size as int, block_size as int),
{
    let q = size / block_size;
    let rem = size % block_size;
    assert(q + (if rem == 0 { 0int } else { 1int }) <= size) by (nonlinear_arith)
        requires
            block_size > 0,
            q == size / block_size,
            rem == size % block_size,
    ;
    if rem == 0 {
        q
    } else {
        q + 1
    }
}

/// The views of the delayed writes.
pub open spec fn bufs_view(b: Seq<(usize, Vec<u8>)>) -> Seq<(usize, Seq<u8>)> {
    b.map_values(|e: (usize, Vec<u8>)| (e.0, e.1@))
}

/// The delayed write at `pos`, if any.
pub open spec fn buf_at(b: Seq<(usize, Seq<u8>)>, pos: int) -> Option<Seq<u8>> {
    if exists|i: int| 0 <= i < b.len() && #[trigger] b[i].0 == pos {
        Some(b[choose|i: int| 0 <= i < b.len() && #[trigger] b[i].0 == pos].1)
    } else {
        None
    }
}

/// The file `f` after the writes `w`, made in order.
pub open spec fn apply_writes(f: Seq<u8>, w: Seq<(usize, Seq<u8>)>) -> Seq<u8>
    decreases w.len(),
{
    if w.len() == 0 {
        f
    } else {
        write_at(apply_writes(f, w.drop_last()), w.last().0 as int, w.last().1)
    }
}

/// Delayed writes ascend strictly by position and each fits a `usize` range.
pub open spec fn bufs_ok(b: Seq<(usize, Seq<u8>)>) -> bool {
    &&& forall|i: int, j: int| #![trigger b[i], b[j]] 0 <= i < j < b.len() ==> b[i].0 < b[j].0
    &&& forall|i: int| #![trigger b[i]] 0 <= i < b.len() ==> b[i].0 + b[i].1.len() <= usize::MAX
}

pub struct DataBlock {
    state: MemFile,
    bitmap: BitMap,
    block_size: usize,
    delay: bool,
    delay_bufs: Vec<(usize, Vec<u8>)>,
}

impl DataBlock {
    /// The bytes of the pool file.
    pub closed spec fn file(&self) -> Seq<u8> {
        self.state@
    }

    /// The writes waiting for the next flush.
    pub closed spec fn bufs(&self) -> Seq<(usize, Seq<u8>)> {
        bufs_view(self.delay_bufs@)
    }

    pub closed spec fn bitmap(&self) -> BitMap {
        self.bitmap
    }

    pub closed spec fn spec_block_size(&self) -> usize {
        self.block_size
    }

    pub closed spec fn spec_delay(&self) -> bool {
        self.delay
    }

    pub open spec fn wf(&self) -> bool {
        &&& self.spec_block_size() > 0
        &&& self.bitmap().wf()
        &&& bufs_ok(self.bufs())
    }

    /// What a read of `size` bytes at block `index` returns: in delay mode
    /// the waiting write at that position, if any; else the file's bytes.
    pub open spec fn data_read(&self, index: int, size: int) -> Seq<u8> {
        let pos = index * self.spec_block_size();
        if self.spec_delay() && buf_at(self.bufs(), pos) is Some {
            buf_at(self.bufs(), pos)->Some_0
        } else {
            read_at(self.file(), pos, size)
        }
    }

    /// A pool over the file bytes `data` and the allocator `bitmap`.
    pub fn new(data: Vec<u8>, bitmap: BitMap, block_size: usize, delay: bool) -> (r: Self)
        requires
            block_size > 0,
            bitmap.wf(),
        ensures
            r.wf(),
            r.file() == data@,
            r.bitmap() == bitmap,
            r.spec_block_size() == block_size,
            r.spec_delay() == delay,
            r.bufs().len() == 0,
    {
        let r = DataBlock { state: MemFile::new(data), bitmap, block_size, delay, delay_bufs: Vec::new() };
        assert(r.bufs() =~= Seq::empty());
        r
    }

    /// The bytes of the pool file.
    pub fn file_bytes(&self) -> (r: &Vec<u8>)
        ensures
            r@ == self.file(),
    {
        self.state.bytes()
    }

    /// The allocator.
    pub fn allocator(&self) -> (r: &BitMap)
        ensures
            *r == self.bitmap(),
    {
        &self.bitmap
    }

    fn find_buf(&self, pos: usize) -> (r: Option<usize>)
        requires
            bufs_ok(self.bufs()),
        ensures
            match r {
                Some(i) => i < self.bufs().len() && self.bufs()[i as int].0 == pos && buf_at(
                    self.bufs(),
                    pos as int,
                ) == Some(self.bufs()[i as int].1),
                None => buf_at(self.bufs(), pos as int) is None,
            },
    {
        let ghost b = self.bufs();
        let mut i: usize = 0;
        while i < self.delay_bufs.len()
            invariant
                i <= b.len(),
                b == bufs_view(self.delay_bufs@),
                bufs_ok(b),
                forall|j: int| 0 <= j < i ==> #[trigger] b[j].0 != pos,
            decreases b.len() - i,
        {
            assert(b[i as int].0 == self.delay_bufs@[i as int].0);
            if self.delay_bufs[i].0 == pos {
                proof {
                    let k = choose|k: int| 0 <= k < b.len() && #[trigger] b[k].0 == pos;
                    assert(k == i);
                }
                return Some(i);
            }
            i = i + 1;
        }
        None
    }

    /// Records `buf` as the waiting write at `pos`, replacing one there.
    fn put_buf(&mut self, pos: usize, buf: Vec<u8>)
        requires
            bufs_ok(old(self).bufs()),
            pos + buf@.len() <= usize::MAX,
        ensures
            bufs_ok(final(self).bufs()),
            buf_at(final(self).bufs(), pos as int) == Some(buf@),
            final(self).state == old(self).state,
            final(self).bitmap == old(self).bitmap,
            final(self).block_size == old(self).block_size,
            final(self).delay == old(self).delay,
    {
        let ghost b = self.bufs();
        let mut i: usize = 0;
        while i < self.delay_bufs.len() && self.delay_bufs[i].0 < pos
            invariant
                i <= b.len(),
                b == bufs_view(self.delay_bufs@),
                bufs_ok(b),
                forall|j: int| 0 <= j < i ==> #[trigger] b[j].0 < pos,
            decreases b.len() - i,
        {
            assert(b[i as int].0 == self.delay_bufs@[i as int].0);
            i = i + 1;
        }
        if i < self.delay_bufs.len() && self.delay_bufs[i].0 == pos {
            self.delay_bufs.set(i, (pos, buf));
            let ghost nb = b.update(i as int, (pos, buf@));
            assert(self.bufs() =~= nb);
            proof {
                assert(b[i as int].0 == pos);
                assert forall|x: int, y: int| 0 <= x < y < nb.len() implies nb[x].0 < nb[y].0 by {
                    assert(b[x].0 < b[y].0);
                }
                assert forall|x: int| 0 <= x < nb.len() implies nb[x].0 + nb[x].1.len() <= usize::MAX by {
                    if x != i as int {
                        assert(nb[x] == b[x]);
                    }
                }
            }
        } else {
            self.delay_bufs.insert(i, (pos, buf));
            let ghost nb = b.insert(i as int, (pos, buf@));
            assert(self.bufs() =~= nb);
            proof {
                if i < b.len() {
                    assert(b[i as int].0 == self.delay_bufs@[i + 1].0);
                    assert(b[i as int].0 > pos);
                }
                assert forall|x: int, y: int| 0 <= x < y < nb.len() implies nb[x].0 < nb[y].0 by {
                    if y > i as int && y - 1 > i as int {
                        assert(b[i as int].0 < b[y - 1].0);
                    }
                    if x > i as int {
                        assert(b[x - 1].0 < b[y - 1].0);
                    } else if x < i as int && y < i as int {
                        assert(b[x].0 < b[y].0);
                    }
                }
                assert forall|x: int| 0 <= x < nb.len() implies nb[x].0 + nb[x].1.len() <= usize::MAX by {
                    if x < i as int {
                        assert(nb[x] == b[x]);
                    } else if x > i as int {
                        assert(nb[x] == b[x - 1]);
                    }
                }
            }
        }
        proof {
            let nb = self.bufs();
            assert(bufs_ok(nb));
            assert(nb[i as int].0 == pos);
            let k = choose|k: int| 0 <= k < nb.len() && #[trigger] nb[k].0 == pos;
            if k < i {
                assert(nb[k].0 < nb[i as int].0);
            } else if k > i {
                assert(nb[i as int].0 < nb[k].0);
            }
        }
    }

    /// The `size` bytes at block `index`; in delay mode a waiting write at
    /// that position instead. Fails when the position does not fit a `usize`.
    pub fn get(&self, index: usize, size: usize) -> (r: Result<Vec<u8>, Error>)
        requires
            self.wf(),
        ensures
            index * self.spec_block_size() <= usize::MAX ==> r is Ok && r->Ok_0@ == self.data_read(
                index as int,
                size as int,
            ),
            index * self.spec_block_size() > usize::MAX ==> r == Err::<Vec<u8>, Error>(
                Error::BlockDataGetFailed,
            ),
    {
        let pos = match index.checked_mul(self.block_size) {
            Some(p) => p,
            None => {
                return Err(Error::BlockDataGetFailed);
            },
        };
        if self.delay {
            match self.find_buf(pos) {
                Some(i) => {
                    return Ok(crate::codec::copy_all(&self.delay_bufs[i].1));
                },
                None => {},
            }
        }
        Ok(self.state.get(pos, size))
    }

    /// Writes `buf` at block `index`: now, or at the next flush in delay mode.
    fn write_blocks(&mut self, index: usize, buf: &Vec<u8>)
        requires
            old(self).wf(),
            index * old(self).spec_block_size() + buf@.len() <= usize::MAX,
        ensures
            final(self).wf(),
            final(self).data_read(index as int, buf@.len() as int) == buf@,
            final(self).bitmap() == old(self).bitmap(),
            final(self).spec_block_size() == old(self).spec_block_size(),
            final(self).spec_delay() == old(self).spec_delay(),
    {
        let pos = index * self.block_size;
        if self.delay {
            self.put_buf(pos, crate::codec::copy_all(buf));
        } else {
            self.state.set(pos, buf);
            proof {
                crate::state::lemma_read_after_write(old(self).state@, pos as int, buf@);
            }
        }
    }

    /// Whether `n` more blocks and `len` bytes after them keep every position
    /// inside a `usize`.
    pub open spec fn has_room(&self, n: int, len: int) -> bool {
        (self.bitmap()@.len() + n + 8) * self.spec_block_size() + len <= usize::MAX
    }

    /// Allocates blocks for `buf` and writes it there; returns the first block.
    pub fn set(&mut self, buf: &Vec<u8>) -> (r: Result<usize, Error>)
        requires
            old(self).wf(),
        ensures
            final(self).wf(),
            final(self).spec_block_size() == old(self).spec_block_size(),
            final(self).spec_delay() == old(self).spec_delay(),
            match r {
                Ok(index) => {
                    &&& malloc_result(
                        old(self).bitmap()@,
                        blocks_for(buf@.len() as int, old(self).spec_block_size() as int),
                        index as int,
                        final(self).bitmap()@,
                    )
                    &&& final(self).data_read(index as int, buf@.len() as int) == buf@
                    &&& index * old(self).spec_block_size() <= usize::MAX
                    &&& final(self).bitmap().spec_checkpoint() == old(self).bitmap().spec_checkpoint()
                },
                Err(e) => e == Error::BlockDataSetFailed && *final(self) == *old(self),
            },
            old(self).has_room(
                blocks_for(buf@.len() as int, old(self).spec_block_size() as int),
                buf@.len() as int,
            ) ==> r is Ok,
    {
        let n = count_blocks(buf.len(), self.block_size);
        self.alloc_and_write(n, buf)
    }

    /// Takes `n` blocks and writes `buf` at the first.
    fn alloc_and_write(&mut self, n: usize, buf: &Vec<u8>) -> (r: Result<usize, Error>)
        requires
            old(self).wf(),
        ensures
            final(self).wf(),
            final(self).spec_block_size() == old(self).spec_block_size(),
            final(self).spec_delay() == old(self).spec_delay(),
            match r {
                Ok(index) => {
                    &&& malloc_result(old(self).bitmap()@, n as int, index as int, final(self).bitmap()@)
                    &&& index * old(self).spec_block_size() <= usize::MAX
                    &&& final(self).data_read(index as int, buf@.len() as int) == buf@
                    &&& final(self).bitmap().spec_checkpoint() == old(self).bitmap().spec_checkpoint()
                },
                Err(e) => e == Error::BlockDataSetFailed && *final(self) == *old(self),
            },
            old(self).has_room(n as int, buf@.len() as int) ==> r is Ok,
    {
        let bits = self.bitmap.len();
        let room = match bits.checked_add(n) {
            Some(x) => x.checked_add(8),
            None => None,
        };
        let limit = match room {
            Some(x) => x.checked_mul(self.block_size),
            None => None,
        };
        match limit {
            Some(l) => {
                if l > usize::MAX - buf.len() {
                    return Err(Error::BlockDataSetFailed);
                }
            },
            None => {
                proof {
                    let bs = self.block_size as int;
                    let x = bits + n + 8;
                    assert(x * bs >= x) by (nonlinear_arith)
                        requires
                            bs > 0,
                            x >= 0,
                    ;
                }
                return Err(Error::BlockDataSetFailed);
            },
        }
        let ghost before = self.bitmap@;
        let index = self.bitmap.malloc(n);
        proof {
            let bs = self.block_size as int;
            let x = bits + n + 8;
            assert(index + n <= x) by {
                if crate::bitmap::has_fit(before, n as int) {
                    let l = choose|l: int| crate::bitmap::best_fit_run(before, index as int, l, n as int);
                }
            }
            assert(index * bs <= x * bs) by (nonlinear_arith)
                requires
                    index <= x,
                    bs > 0,
            ;
        }
        self.write_blocks(index, buf);
        Ok(index)
    }

    /// Releases the blocks of `size` bytes from block `index`. Fails, changing
    /// nothing, when those blocks lie past the end of the map.
    pub fn free(&mut self, index: usize, size: usize) -> (r: Result<(), Error>)
        requires
            old(self).wf(),
        ensures
            final(self).wf(),
            final(self).spec_block_size() == old(self).spec_block_size(),
            final(self).spec_delay() == old(self).spec_delay(),
            final(self).file() == old(self).file(),
            final(self).bufs() == old(self).bufs(),
            final(self).bitmap().spec_checkpoint() == old(self).bitmap().spec_checkpoint(),
            index + blocks_for(size as int, old(self).spec_block_size() as int) <= old(
                self,
            ).bitmap()@.len() ==> r is Ok && final(self).bitmap()@ == with_range(
                old(self).bitmap()@,
                old(self).bitmap()@.len(),
                index as int,
                blocks_for(size as int, old(self).spec_block_size() as int),
                false,
            ),
            index + blocks_for(size as int, old(self).spec_block_size() as int) > old(
                self,
            ).bitmap()@.len() ==> r == Err::<(), Error>(Error::BlockDataSetFailed)
                && *final(self) == *old(self),
    {
        let n = count_blocks(size, self.block_size);
        let len = self.bitmap.len();
        if index > len || n > len - index {
            return Err(Error::BlockDataSetFailed);
        }
        self.bitmap.free(index, n);
        Ok(())
    }

    /// Replaces the `old_size` bytes at block `index` with `new_buf`: in
    /// place when the block count stays, else released and allocated anew.
    /// Returns the first block.
    pub fn update(&mut self, index: usize, old_size: usize, new_buf: &Vec<u8>) -> (r: Result<
        usize,
        Error,
    >)
        requires
            old(self).wf(),
        ensures
            final(self).wf(),
            final(self).spec_block_size() == old(self).spec_block_size(),
            final(self).spec_delay() == old(self).spec_delay(),
            final(self).bitmap().spec_checkpoint() == old(self).bitmap().spec_checkpoint(),
            match r {
                Ok(i) => i * old(self).spec_block_size() <= usize::MAX && final(self).data_read(i as int, new_buf@.len() as int) == new_buf@ && (
                blocks_for(new_buf@.len() as int, old(self).spec_block_size() as int)
                    == blocks_for(old_size as int, old(self).spec_block_size() as int) ==> i
                    == index && final(self).bitmap() == old(self).bitmap()),
                Err(e) => e == Error::BlockDataSetFailed,
            },
            r is Ok && blocks_for(new_buf@.len() as int, old(self).spec_block_size() as int)
                != blocks_for(old_size as int, old(self).spec_block_size() as int) ==> malloc_result(
                with_range(
                    old(self).bitmap()@,
                    old(self).bitmap()@.len(),
                    index as int,
                    blocks_for(old_size as int, old(self).spec_block_size() as int),
                    false,
                ),
                blocks_for(new_buf@.len() as int, old(self).spec_block_size() as int),
                r->Ok_0 as int,
                final(self).bitmap()@,
            ),
            blocks_for(new_buf@.len() as int, old(self).spec_block_size() as int) == blocks_for(
                old_size as int,
                old(self).spec_block_size() as int,
            ) && index * old(self).spec_block_size() + new_buf@.len() <= usize::MAX ==> r is Ok,
            blocks_for(new_buf@.len() as int, old(self).spec_block_size() as int) != blocks_for(
                old_size as int,
                old(self).spec_block_size() as int,
            ) && index + blocks_for(old_size as int, old(self).spec_block_size() as int) <= old(
                self,
            ).bitmap()@.len() && old(self).has_room(
                blocks_for(new_buf@.len() as int, old(self).spec_block_size() as int),
                new_buf@.len() as int,
            ) ==> r is Ok,
    {
        let bs = self.block_size;
        let n = count_blocks(new_buf.len(), bs);
        let old_n = count_blocks(old_size, bs);
        if n == old_n {
            let pos = match index.checked_mul(bs) {
                Some(p) => p,
                None => {
                    return Err(Error::BlockDataSetFailed);
                },
            };
            if pos > usize::MAX - new_buf.len() {
                return Err(Error::BlockDataSetFailed);
            }
            self.write_blocks(index, new_buf);
            Ok(index)
        } else {
            match self.free(index, old_size) {
                Ok(()) => {},
                Err(e) => {
                    return Err(e);
                },
            }
            self.alloc_and_write(n, new_buf)
        }
    }

    /// Writes the waiting writes in ascending position order, records
    /// `version` in the allocator and returns the allocator's full image.
    pub fn flush(&mut self, version: u64) -> (r: Vec<u8>)
        requires
            old(self).wf(),
        ensures
            final(self).wf(),
            final(self).bufs().len() == 0,
            final(self).bitmap()@ == old(self).bitmap()@,
            final(self).bitmap().spec_checkpoint() == version,
            final(self).spec_block_size() == old(self).spec_block_size(),
            final(self).spec_delay() == old(self).spec_delay(),
            r@ == old(self).bitmap().meta().bytes() + crate::codec::u64_to_be(version),
            final(self).file() == apply_writes(old(self).file(), old(self).bufs()),
    {
        let ghost b = self.bufs();
        let mut i: usize = 0;
        assert(b.take(0) =~= Seq::<(usize, Seq<u8>)>::empty());
        while i < self.delay_bufs.len()
            invariant
                i <= self.delay_bufs@.len(),
                self.state@ == apply_writes(old(self).file(), b.take(i as int)),
                b == bufs_view(self.delay_bufs@),
                bufs_ok(b),
                self.bitmap == old(self).bitmap,
                self.block_size == old(self).block_size,
                self.delay == old(self).delay,
                old(self).wf(),
            decreases self.delay_bufs@.len() - i,
        {
            assert(b[i as int] == (self.delay_bufs@[i as int].0, self.delay_bufs@[i as int].1@));
            assert(b.take(i + 1).drop_last() =~= b.take(i as int));
            self.state.set(self.delay_bufs[i].0, &self.delay_bufs[i].1);
            i = i + 1;
        }
        assert(b.take(i as int) =~= b);
        self.delay_bufs = Vec::new();
        assert(self.bufs() =~= Seq::empty());
        self.bitmap.flush_all(version)
    }

    /// The version recorded by the allocator's last full flush.
    pub fn checkpoint(&self) -> (r: u64)
        ensures
            r == self.bitmap().spec_checkpoint(),
    {
        self.bitmap.checkpoint()
    }

    /// Empties the pool file, the allocator and the waiting writes.
    pub fn truncate(&mut self)
        requires
            old(self).wf(),
        ensures
            final(self).wf(),
            final(self).file().len() == 0,
            final(self).bitmap()@.len() == 0,
            final(self).bufs().len() == 0,
            final(self).spec_block_size() == old(self).spec_block_size(),
            final(self).spec_delay() == old(self).spec_delay(),
    {
        self.state.truncate();
        self.bitmap.truncate();
        self.delay_bufs = Vec::new();
        assert(self.bufs() =~= Seq::empty());
    }
}

} // verus!
