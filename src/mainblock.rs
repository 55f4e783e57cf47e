//! The main block: a table of fixed-size records. Each record is a 17-byte
//! header (flag, size, pool position) and the first bytes of its value; the
//! rest of a longer value spills into the data block pool.

use vstd::prelude::*;
use crate::codec::{push_u64_be, read_u64_be, u64_from_be, u64_to_be, lemma_u64_be_round_trip};
use crate::bitmap::malloc_result;
use crate::bits::with_range;
use crate::datablock::{blocks_for, DataBlock};
use crate::error::Error;
use crate::state::{read_at, write_at, MemFile};

verus! {

/// Bytes in a record header.
pub const HEADER_SIZE: usize = 17;

/// The record is deleted.
pub const FLAG_DEL: u8 = 0;

/// The value lies wholly in the record.
pub const FLAG_NORMAL: u8 = 1;

/// The value spills into the data block pool.
pub const FLAG_OVERFLOW: u8 = 2;

/// The header of a record.
pub struct Header {
    pub flag: u8,
    pub size: u64,
    pub pos: u64,
}

/// The bytes of a header.
pub open spec fn header_bytes(flag: u8, size: u64, pos: u64) -> Seq<u8> {
    seq![flag] + u64_to_be(size) + u64_to_be(pos)
}

/// The header at the start of `rec`: flag, size and pool position.
pub open spec fn header_of(rec: Seq<u8>) -> (u8, u64, u64) {
    (rec[0], u64_from_be(rec.subrange(1, 9)), u64_from_be(rec.subrange(9, 17)))
}

/// Whether `bytes` start with the header `(flag, size, pos)`.
pub proof fn lemma_header_round_trip(flag: u8, size: u64, pos: u64, rest: Seq<u8>)
    ensures
        header_of(header_bytes(flag, size, pos) + rest) == (flag, size, pos),
{
    lemma_u64_be_round_trip(size);
    lemma_u64_be_round_trip(pos);
    let b = header_bytes(flag, size, pos) + rest;
    assert(b.subrange(1, 9) =~= u64_to_be(size));
    assert(b.subrange(9, 17) =~= u64_to_be(pos));
}

/// A write of at most `f` bytes at record `index` leaves every other
/// record as it reads.
proof fn lemma_other_records(m: Seq<u8>, index: int, block: Seq<u8>, f: int, j: int)
    requires
        f > 0,
        index >= 0,
        j >= 0,
        j != index,
        block.len() <= f,
    ensures
        read_at(write_at(m, index * f, block), j * f, f) == read_at(m, j * f, f),
{
    if j < index {
        assert(j * f + f <= index * f) by (nonlinear_arith)
            requires
                j < index,
                f > 0,
        ;
    } else {
        assert(j * f >= index * f + f) by (nonlinear_arith)
            requires
                j > index,
                f > 0,
        ;
    }
    assert(read_at(write_at(m, index * f, block), j * f, f) =~= read_at(m, j * f, f));
}

pub struct MainBlock {
    state: MemFile,
    fetch_size: usize,
    datablock: DataBlock,
}

impl MainBlock {
    /// The bytes of the main file.
    pub closed spec fn main_file(&self) -> Seq<u8> {
        self.state@
    }

    /// The data block pool.
    pub closed spec fn data(&self) -> DataBlock {
        self.datablock
    }

    /// Bytes per record.
    pub closed spec fn spec_fetch_size(&self) -> usize {
        self.fetch_size
    }

    pub open spec fn wf(&self) -> bool {
        &&& self.spec_fetch_size() >= HEADER_SIZE
        &&& self.data().wf()
    }

    /// Value bytes a record holds itself.
    pub open spec fn inline_cap(&self) -> int {
        self.spec_fetch_size() - HEADER_SIZE
    }

    /// The record at `index` as read: zeros past the end of the file.
    pub open spec fn record(&self, index: int) -> Seq<u8> {
        read_at(self.main_file(), index * self.spec_fetch_size(), self.spec_fetch_size() as int)
    }

    /// The header of the record at `index`.
    pub open spec fn header(&self, index: int) -> (u8, u64, u64) {
        header_of(self.record(index))
    }

    /// The value stored at `index`: empty for a deleted record; else the
    /// record's bytes after the header, up to its size, followed for a
    /// spilled value by the rest from the pool.
    pub open spec fn value_of(&self, index: int) -> Seq<u8> {
        let rec = self.record(index);
        let (flag, size, pos) = header_of(rec);
        let fetch = self.spec_fetch_size() as int;
        if flag == FLAG_DEL {
            Seq::empty()
        } else {
            let stop = if size + HEADER_SIZE >= fetch { fetch } else { size + HEADER_SIZE };
            let head = rec.subrange(HEADER_SIZE as int, stop);
            if flag == FLAG_OVERFLOW && size > fetch - HEADER_SIZE {
                head + self.data().data_read(pos as int, size + HEADER_SIZE - fetch)
            } else {
                head
            }
        }
    }

    /// Bytes of the record at `index` that spill into the pool, by its header.
    pub open spec fn tail_len(&self, index: int) -> int {
        let size = self.header(index).1 as int;
        if size > self.inline_cap() { size - self.inline_cap() } else { 0 }
    }

    /// Whether reading the record at `index` stays within `usize` positions.
    pub open spec fn get_ok(&self, index: int) -> bool {
        let (flag, size, pos) = self.header(index);
        &&& index * self.spec_fetch_size() + self.spec_fetch_size() <= usize::MAX
        &&& (flag == FLAG_OVERFLOW && size > self.inline_cap()) ==> {
            &&& size + HEADER_SIZE <= usize::MAX
            &&& pos * self.data().spec_block_size() <= usize::MAX
        }
    }

    /// A table of `fetch_size`-byte records over the main file bytes `data`
    /// and the pool `datablock`.
    pub fn new(data: Vec<u8>, fetch_size: usize, datablock: DataBlock) -> (r: Self)
        requires
            fetch_size >= HEADER_SIZE,
            datablock.wf(),
        ensures
            r.wf(),
            r.main_file() == data@,
            r.spec_fetch_size() == fetch_size,
            r.data() == datablock,
    {
        MainBlock { state: MemFile::new(data), fetch_size, datablock }
    }

    /// The bytes of the main file.
    pub fn main_bytes(&self) -> (r: &Vec<u8>)
        ensures
            r@ == self.main_file(),
    {
        self.state.bytes()
    }

    /// The data block pool.
    pub fn datablock(&self) -> (r: &DataBlock)
        ensures
            *r == self.data(),
    {
        &self.datablock
    }

    /// The header at the start of `buf`.
    pub fn cast_to_header(buf: &Vec<u8>) -> (r: Header)
        requires
            buf@.len() >= HEADER_SIZE,
        ensures
            (r.flag, r.size, r.pos) == header_of(buf@),
    {
        Header { flag: buf[0], size: read_u64_be(buf, 1), pos: read_u64_be(buf, 9) }
    }

    /// The bytes of `header`.
    pub fn cast_header_to_buf(header: &Header) -> (r: Vec<u8>)
        ensures
            r@ == header_bytes(header.flag, header.size, header.pos),
    {
        let mut buf: Vec<u8> = Vec::new();
        buf.push(header.flag);
        push_u64_be(&mut buf, header.size);
        push_u64_be(&mut buf, header.pos);
        assert(buf@ =~= header_bytes(header.flag, header.size, header.pos));
        buf
    }

    /// The record at `index`, with its position in the main file.
    fn read_record(&self, index: usize) -> (r: Result<(usize, Vec<u8>), Error>)
        requires
            self.wf(),
        ensures
            match r {
                Ok((at, rec)) => {
                    &&& at == index * self.spec_fetch_size()
                    &&& at + self.spec_fetch_size() <= usize::MAX
                    &&& rec@ == self.record(index as int)
                },
                Err(e) => e == Error::BlockDataGetFailed && index * self.spec_fetch_size()
                    + self.spec_fetch_size() > usize::MAX,
            },
    {
        let at = match index.checked_mul(self.fetch_size) {
            Some(p) => p,
            None => {
                proof {
                    let f = self.fetch_size as int;
                    assert(index * f + f >= index * f) by (nonlinear_arith)
                        requires
                            f >= 0,
                            index >= 0,
                    ;
                }
                return Err(Error::BlockDataGetFailed);
            },
        };
        if at > usize::MAX - self.fetch_size {
            return Err(Error::BlockDataGetFailed);
        }
        Ok((at, self.state.get(at, self.fetch_size)))
    }

    /// The header of the record at `index`.
    pub fn get_header(&self, index: usize) -> (r: Result<Header, Error>)
        requires
            self.wf(),
        ensures
            match r {
                Ok(h) => (h.flag, h.size, h.pos) == self.header(index as int),
                Err(e) => e == Error::BlockDataGetFailed,
            },
            index * self.spec_fetch_size() + self.spec_fetch_size() <= usize::MAX ==> r is Ok,
    {
        match self.read_record(index) {
            Ok((_, rec)) => Ok(Self::cast_to_header(&rec)),
            Err(e) => Err(e),
        }
    }

    /// The value stored at `index`: empty for a deleted or never written
    /// record.
    pub fn get(&self, index: usize) -> (r: Result<Vec<u8>, Error>)
        requires
            self.wf(),
        ensures
            self.get_ok(index as int) ==> r is Ok && r->Ok_0@ == self.value_of(index as int),
            !self.get_ok(index as int) ==> r == Err::<Vec<u8>, Error>(Error::BlockDataGetFailed),
    {
        let (_, rec) = match self.read_record(index) {
            Ok(x) => x,
            Err(e) => {
                return Err(e);
            },
        };
        let header = Self::cast_to_header(&rec);
        if header.flag == FLAG_DEL {
            return Ok(Vec::new());
        }
        let fetch = self.fetch_size;
        let cap = fetch - HEADER_SIZE;
        let stop = if header.size >= cap as u64 {
            fetch
        } else {
            header.size as usize + HEADER_SIZE
        };
        let mut data = crate::codec::copy_range(&rec, HEADER_SIZE, stop);
        if header.flag == FLAG_OVERFLOW && header.size > cap as u64 {
            if header.size > (usize::MAX - HEADER_SIZE) as u64 || header.pos > usize::MAX as u64 {
                proof {
                    let bs = self.datablock.spec_block_size() as int;
                    let p = header.pos as int;
                    assert(p * bs >= p) by (nonlinear_arith)
                        requires
                            bs > 0,
                            p >= 0,
                    ;
                }
                return Err(Error::BlockDataGetFailed);
            }
            let remain = header.size as usize + HEADER_SIZE - fetch;
            match self.datablock.get(header.pos as usize, remain) {
                Ok(tail) => {
                    crate::codec::extend_range(&mut data, &tail, 0, tail.len());
                    assert(tail@.subrange(0, tail@.len() as int) =~= tail@);
                },
                Err(e) => {
                    return Err(e);
                },
            }
        }
        Ok(data)
    }

    /// Writes a record: the header and the value's first `inline_cap` bytes.
    fn write_record(&mut self, at: usize, index: usize, header: &Header, buf: &Vec<u8>, inline: usize)
        requires
            old(self).wf(),
            at == index * old(self).spec_fetch_size(),
            at + old(self).spec_fetch_size() <= usize::MAX,
            inline <= buf@.len(),
            inline <= old(self).inline_cap(),
        ensures
            final(self).wf(),
            final(self).data() == old(self).data(),
            final(self).spec_fetch_size() == old(self).spec_fetch_size(),
            final(self).record(index as int).subrange(0, HEADER_SIZE + inline) == header_bytes(
                header.flag,
                header.size,
                header.pos,
            ) + buf@.subrange(0, inline as int),
            forall|j: int| 0 <= j && j != index ==> #[trigger] final(self).record(j) == old(self).record(j),
    {
        let mut block = Self::cast_header_to_buf(header);
        crate::codec::extend_range(&mut block, buf, 0, inline);
        let ghost m = self.state@;
        self.state.set(at, &block);
        proof {
            let f = self.fetch_size as int;
            assert forall|j: int| 0 <= j && j != index implies #[trigger] self.record(j) == old(self).record(j) by {
                lemma_other_records(m, index as int, block@, f, j);
            }
            let rec = read_at(write_at(m, at as int, block@), at as int, f);
            assert(rec.subrange(0, HEADER_SIZE + inline) =~= block@);
        }
    }

    /// Stores `buf` at `index`: bytes past the record's room spill into the
    /// pool (reusing, growing or releasing the record's earlier spill), and
    /// the record is rewritten with its flag and the full size.
    pub fn set(&mut self, index: usize, buf: &Vec<u8>) -> (r: Result<(), Error>)
        requires
            old(self).wf(),
        ensures
            final(self).wf(),
            final(self).spec_fetch_size() == old(self).spec_fetch_size(),
            r is Ok ==> {
                &&& final(self).value_of(index as int) == buf@
                &&& final(self).header(index as int).0 == if buf@.len() > old(self).inline_cap() {
                    FLAG_OVERFLOW
                } else {
                    FLAG_NORMAL
                }
                &&& final(self).header(index as int).1 == buf@.len()
                &&& buf@.len() > old(self).inline_cap() ==> final(self).data().data_read(
                    final(self).header(index as int).2 as int,
                    buf@.len() - old(self).inline_cap(),
                ) == buf@.subrange(old(self).inline_cap(), buf@.len() as int)
                &&& buf@.len() <= old(self).inline_cap() ==> final(self).header(index as int).2 == 0
            },
            r is Err ==> r == Err::<(), Error>(Error::BlockDataGetFailed) || r == Err::<(), Error>(
                Error::BlockDataSetFailed,
            ),
            index * old(self).spec_fetch_size() + old(self).spec_fetch_size() <= usize::MAX
                && old(self).header(index as int).0 != FLAG_OVERFLOW && buf@.len()
                <= old(self).inline_cap() ==> r is Ok,
            index * old(self).spec_fetch_size() + old(self).spec_fetch_size() <= usize::MAX
                && old(self).header(index as int).0 != FLAG_OVERFLOW && buf@.len()
                > old(self).inline_cap() && buf@.len() + HEADER_SIZE <= usize::MAX && old(self).data().has_room(
                blocks_for(buf@.len() - old(self).inline_cap(), old(self).data().spec_block_size() as int),
                buf@.len() - old(self).inline_cap(),
            ) ==> r is Ok,
            r is Ok ==> forall|j: int|
                0 <= j && j != index ==> #[trigger] final(self).record(j) == old(self).record(j),
            r is Ok ==> final(self).get_ok(index as int),
            final(self).data().spec_block_size() == old(self).data().spec_block_size(),
            r is Ok && old(self).header(index as int).0 != FLAG_OVERFLOW && buf@.len()
                <= old(self).inline_cap() ==> final(self).data() == old(self).data(),
            r is Ok && old(self).header(index as int).0 != FLAG_OVERFLOW && buf@.len()
                > old(self).inline_cap() ==> malloc_result(
                old(self).data().bitmap()@,
                blocks_for(buf@.len() - old(self).inline_cap(), old(self).data().spec_block_size() as int),
                final(self).header(index as int).2 as int,
                final(self).data().bitmap()@,
            ),
    {
        let (at, rec) = match self.read_record(index) {
            Ok(x) => x,
            Err(e) => {
                return Err(e);
            },
        };
        let old_header = Self::cast_to_header(&rec);
        let fetch = self.fetch_size;
        let cap = fetch - HEADER_SIZE;
        let total = buf.len();
        let inline = if total < cap {
            total
        } else {
            cap
        };
        if total as u128 >= 0x1_0000_0000_0000_0000u128 || total > usize::MAX - HEADER_SIZE {
            return Err(Error::BlockDataSetFailed);
        }
        let mut pos: u64 = 0;
        let flag: u8;
        let tail = crate::codec::copy_range(buf, inline, total);
        if old_header.flag == FLAG_OVERFLOW {
            let old_tail: usize = if old_header.size > cap as u64 {
                if old_header.size - cap as u64 > usize::MAX as u64 || old_header.pos
                    > usize::MAX as u64 {
                    return Err(Error::BlockDataSetFailed);
                }
                (old_header.size - cap as u64) as usize
            } else {
                0
            };
            if old_header.pos > usize::MAX as u64 {
                return Err(Error::BlockDataSetFailed);
            }
            if total > inline {
                match self.datablock.update(old_header.pos as usize, old_tail, &tail) {
                    Ok(p) => {
                        pos = p as u64;
                    },
                    Err(e) => {
                        return Err(e);
                    },
                }
                flag = FLAG_OVERFLOW;
            } else {
                match self.datablock.free(old_header.pos as usize, old_tail) {
                    Ok(()) => {},
                    Err(e) => {
                        return Err(e);
                    },
                }
                flag = FLAG_NORMAL;
            }
        } else {
            if total > inline {
                match self.datablock.set(&tail) {
                    Ok(p) => {
                        pos = p as u64;
                    },
                    Err(e) => {
                        return Err(e);
                    },
                }
                flag = FLAG_OVERFLOW;
            } else {
                flag = FLAG_NORMAL;
            }
        }
        let header = Header { flag, size: total as u64, pos };
        self.write_record(at, index, &header, buf, inline);
        proof {
            let rec2 = self.record(index as int);
            let hb = header_bytes(flag, total as u64, pos);
            assert(rec2.subrange(0, HEADER_SIZE + inline) == hb + buf@.subrange(0, inline as int));
            lemma_header_round_trip(flag, total as u64, pos, rec2.subrange(HEADER_SIZE as int, rec2.len() as int));
            assert(rec2 =~= hb + rec2.subrange(HEADER_SIZE as int, rec2.len() as int)) by {
                assert forall|i: int| 0 <= i < HEADER_SIZE implies rec2[i] == hb[i] by {
                    assert(rec2.subrange(0, HEADER_SIZE + inline)[i] == rec2[i]);
                }
            }
            assert(self.header(index as int) == (flag, total as u64, pos));
            assert(rec2.subrange(HEADER_SIZE as int, HEADER_SIZE + inline) =~= buf@.subrange(0, inline as int)) by {
                assert forall|i: int| 0 <= i < inline implies rec2[HEADER_SIZE + i] == buf@[i] by {
                    assert(rec2.subrange(0, HEADER_SIZE + inline)[HEADER_SIZE + i] == rec2[HEADER_SIZE + i]);
                }
            }
            if total > inline {
                assert(buf@ =~= buf@.subrange(0, inline as int) + buf@.subrange(inline as int, total as int));
            } else {
                assert(buf@.subrange(0, inline as int) =~= buf@);
            }
        }
        Ok(())
    }

    /// Deletes the record at `index`: its spill, if any, goes back to the
    /// pool and the record's header becomes a deleted one of size 0.
    pub fn del(&mut self, index: usize) -> (r: Result<(), Error>)
        requires
            old(self).wf(),
        ensures
            final(self).wf(),
            final(self).spec_fetch_size() == old(self).spec_fetch_size(),
            r is Ok ==> final(self).get_ok(index as int),
            final(self).data().spec_block_size() == old(self).data().spec_block_size(),
            r is Ok ==> final(self).header(index as int).0 == FLAG_DEL && final(self).header(
                index as int,
            ).1 == 0 && final(self).value_of(index as int) == Seq::<u8>::empty(),
            r is Err ==> r == Err::<(), Error>(Error::BlockDataGetFailed) || r == Err::<(), Error>(
                Error::MainDataDelFailed,
            ),
            index * old(self).spec_fetch_size() + old(self).spec_fetch_size() <= usize::MAX
                && old(self).header(index as int).0 != FLAG_OVERFLOW ==> r is Ok,
            index * old(self).spec_fetch_size() + old(self).spec_fetch_size() <= usize::MAX
                && old(self).header(index as int).0 == FLAG_OVERFLOW && old(self).header(
                index as int,
            ).1 <= usize::MAX && old(self).header(index as int).2 + blocks_for(
                old(self).tail_len(index as int),
                old(self).data().spec_block_size() as int,
            ) <= old(self).data().bitmap()@.len() ==> r is Ok,
            r is Ok && old(self).header(index as int).0 == FLAG_OVERFLOW ==> final(self).data().bitmap()@
                == with_range(
                old(self).data().bitmap()@,
                old(self).data().bitmap()@.len(),
                old(self).header(index as int).2 as int,
                blocks_for(old(self).tail_len(index as int), old(self).data().spec_block_size() as int),
                false,
            ),
            r is Ok && old(self).header(index as int).0 != FLAG_OVERFLOW ==> final(self).data() == old(
                self,
            ).data(),
            r is Ok ==> forall|j: int|
                0 <= j && j != index ==> #[trigger] final(self).record(j) == old(self).record(j),
    {
        let (at, rec) = match self.read_record(index) {
            Ok(x) => x,
            Err(e) => {
                return Err(e);
            },
        };
        let old_header = Self::cast_to_header(&rec);
        let cap = self.fetch_size - HEADER_SIZE;
        if old_header.flag == FLAG_OVERFLOW {
            proof {
                let bs = self.datablock.spec_block_size() as int;
                self.datablock.bitmap().meta().lemma_wf();
                let t = self.tail_len(index as int);
                assert(t / bs >= 0) by (nonlinear_arith)
                    requires
                        bs > 0,
                        t >= 0,
                ;
            }
            if old_header.pos > usize::MAX as u64 || old_header.size > usize::MAX as u64 {
                return Err(Error::MainDataDelFailed);
            }
            let old_tail: usize = if old_header.size > cap as u64 {
                old_header.size as usize - cap
            } else {
                0
            };
            match self.datablock.free(old_header.pos as usize, old_tail) {
                Ok(()) => {},
                Err(_) => {
                    return Err(Error::MainDataDelFailed);
                },
            }
        }
        let header = Header { flag: FLAG_DEL, size: 0, pos: old_header.pos };
        let empty: Vec<u8> = Vec::new();
        self.write_record(at, index, &header, &empty, 0);
        proof {
            let rec2 = self.record(index as int);
            let hb = header_bytes(FLAG_DEL, 0, old_header.pos);
            lemma_header_round_trip(FLAG_DEL, 0, old_header.pos, rec2.subrange(HEADER_SIZE as int, rec2.len() as int));
            assert(rec2.subrange(0, HEADER_SIZE as int) =~= hb);
            assert(rec2 =~= hb + rec2.subrange(HEADER_SIZE as int, rec2.len() as int)) by {
                assert forall|i: int| 0 <= i < HEADER_SIZE implies rec2[i] == hb[i] by {
                    assert(rec2.subrange(0, HEADER_SIZE as int)[i] == rec2[i]);
                }
            }
        }
        Ok(())
    }

    /// The version recorded by the allocator's last full flush.
    pub fn checkpoint(&self) -> (r: u64)
        ensures
            r == self.data().bitmap().spec_checkpoint(),
    {
        self.datablock.checkpoint()
    }

    /// Empties the main file and the pool.
    pub fn truncate(&mut self)
        requires
            old(self).wf(),
        ensures
            final(self).wf(),
            final(self).main_file().len() == 0,
            final(self).spec_fetch_size() == old(self).spec_fetch_size(),
            final(self).data().file().len() == 0,
            final(self).data().bitmap()@.len() == 0,
            final(self).data().bufs().len() == 0,
            final(self).data().spec_block_size() == old(self).data().spec_block_size(),
            final(self).data().spec_delay() == old(self).data().spec_delay(),
    {
        self.datablock.truncate();
        self.state.truncate();
    }

    /// Writes the pool's waiting writes, records `version` as the checkpoint
    /// and returns the allocator's full image.
    pub fn flush_datablock(&mut self, version: u64) -> (r: Vec<u8>)
        requires
            old(self).wf(),
        ensures
            final(self).wf(),
            final(self).spec_fetch_size() == old(self).spec_fetch_size(),
            final(self).data().bitmap().spec_checkpoint() == version,
            r@ == old(self).data().bitmap().meta().bytes() + u64_to_be(version),
            final(self).main_file() == old(self).main_file(),
            final(self).data().file() == crate::datablock::apply_writes(old(self).data().file(), old(self).data().bufs()),
            final(self).data().bufs().len() == 0,
            final(self).data().bitmap()@ == old(self).data().bitmap()@,
            final(self).data().spec_block_size() == old(self).data().spec_block_size(),
    {
        self.datablock.flush(version)
    }
}

} // verus!
