//! The storage layer: a block write is logged in the storage WAL, buffered
//! in the change buffer and later flushed into the main block. Reads look in
//! the buffer first, then in the main block.

use vstd::prelude::*;
use crate::assoc::{distinct, lemma_assoc_has, lemma_assoc_lacks};
use crate::cbf::{entries_view, Cbf};
use crate::mainblock::FLAG_OVERFLOW;
use crate::codec::{copy_range, extend_range, push_u64_be, read_u64_be, u64_from_be, u64_to_be};
use crate::error::Error;
use crate::mainblock::MainBlock;
use crate::wal::{payload_bytes, read_range, sealed_segments, segs_after_append, Payload, Wal};

verus! {

/// A block write.
pub const BLOCK_OP_SET: u8 = 1;

/// A block delete.
pub const BLOCK_OP_DEL: u8 = 3;

/// An operation on one block position.
pub enum BlockOp {
    Put(u64, Vec<u8>),
    Del(u64),
}

/// The bytes of a block operation: `op:1 | pos:8` (big-endian), then the
/// data unless it is a delete.
pub open spec fn block_op_bytes(op: u8, pos: u64, data: Seq<u8>) -> Seq<u8> {
    seq![op] + u64_to_be(pos) + if op != BLOCK_OP_DEL { data } else { Seq::empty() }
}

/// What a read returns for a buffered operation: the data of a write,
/// nothing for anything else.
pub open spec fn op_value(c: Seq<u8>) -> Seq<u8> {
    if c[0] == BLOCK_OP_SET { c.skip(9) } else { Seq::empty() }
}

impl BlockOp {
    pub fn encode_from(op: u8, pos: u64, data: Vec<u8>) -> (r: Vec<u8>)
        ensures
            r@ == block_op_bytes(op, pos, data@),
    {
        let mut buf: Vec<u8> = Vec::new();
        buf.push(op);
        push_u64_be(&mut buf, pos);
        if op != BLOCK_OP_DEL {
            extend_range(&mut buf, &data, 0, data.len());
            assert(data@.subrange(0, data@.len() as int) =~= data@);
        }
        assert(buf@ =~= block_op_bytes(op, pos, data@));
        buf
    }

    /// The operation held by `buf`: a write for op code 1, else a delete.
    pub fn decode(buf: &Vec<u8>) -> (r: BlockOp)
        requires
            buf@.len() >= 9,
        ensures
            buf@[0] == BLOCK_OP_SET ==> (r matches BlockOp::Put(p, d) && p == u64_from_be(
                buf@.subrange(1, 9),
            ) && d@ == buf@.skip(9)),
            buf@[0] != BLOCK_OP_SET ==> (r matches BlockOp::Del(p) && p == u64_from_be(
                buf@.subrange(1, 9),
            )),
    {
        let pos = read_u64_be(buf, 1);
        if buf[0] == BLOCK_OP_SET {
            let d = copy_range(buf, 9, buf.len());
            assert(d@ =~= buf@.skip(9));
            BlockOp::Put(pos, d)
        } else {
            BlockOp::Del(pos)
        }
    }

    pub fn get_pos(block_op: BlockOp) -> (r: u64)
        ensures
            r == match block_op {
                BlockOp::Put(p, _) => p,
                BlockOp::Del(p) => p,
            },
    {
        match block_op {
            BlockOp::Put(pos, _) => pos,
            BlockOp::Del(pos) => pos,
        }
    }
}

/// A write of `data` read back through `op_value` gives `data`; a delete
/// gives nothing.
pub proof fn lemma_block_op_value(pos: u64, data: Seq<u8>)
    ensures
        op_value(block_op_bytes(BLOCK_OP_SET, pos, data)) == data,
        op_value(block_op_bytes(BLOCK_OP_DEL, pos, data)) == Seq::<u8>::empty(),
        block_op_bytes(BLOCK_OP_SET, pos, data).len() >= 9,
        block_op_bytes(BLOCK_OP_DEL, pos, data).len() >= 9,
{
    assert(block_op_bytes(BLOCK_OP_SET, pos, data).skip(9) =~= data);
}

/// The last logged operation on block `pos` among `payloads`: the data of
/// the last payload that holds an operation (nine bytes or more) naming
/// `pos`.
pub open spec fn last_op(payloads: Seq<(Seq<u8>, u64)>, pos: usize) -> Option<Seq<u8>>
    decreases payloads.len(),
{
    if payloads.len() == 0 {
        None
    } else {
        let p = payloads.last().0;
        if p.len() >= 9 && u64_from_be(p.subrange(1, 9)) == pos as u64 {
            Some(p)
        } else {
            last_op(payloads.drop_last(), pos)
        }
    }
}

/// Whether the log went from `before` to `after` by appending `op` as its
/// next version (when `ok`), or stayed as it was.
pub open spec fn logged(before: Wal, after: Wal, op: Seq<u8>, ok: bool) -> bool {
    if ok {
        &&& after.spec_seq() == before.spec_seq() + 1
        &&& exists|now: u64|
            after.segments() == #[trigger] segs_after_append(
                before.segments(),
                payload_bytes(op, after.spec_seq()),
                after.spec_seq(),
                before.spec_file_max_size(),
                before.spec_rotation_live_time(),
                before.spec_rotation_time(),
                now,
            )
    } else {
        &&& after.segments() == before.segments()
        &&& after.spec_seq() == before.spec_seq()
    }
}

/// Whether block `q` is among the first `i` entries.
pub open spec fn seen(e: Seq<(usize, Seq<u8>)>, i: int, q: int) -> bool {
    exists|t: int| 0 <= t < i && #[trigger] e[t].0 == q
}

/// Whether flushing the buffered operation `c` on block `pos` into `mb`
/// cannot fail: the record lies within `usize` positions and does not spill,
/// and a write fits in the record (shorter operations are passed over).
pub open spec fn simple_op(mb: MainBlock, pos: usize, c: Seq<u8>) -> bool {
    c.len() >= 9 ==> {
        &&& pos * mb.spec_fetch_size() + mb.spec_fetch_size() <= usize::MAX
        &&& mb.header(pos as int).0 != FLAG_OVERFLOW
        &&& (c[0] == BLOCK_OP_SET ==> c.len() - 9 <= mb.inline_cap())
    }
}

/// What a flush pass promises, from the layer `before` to `after`.
pub open spec fn flushed(before: Serve, after: Serve, r: Result<Option<(Vec<u8>, Vec<u64>)>, Error>) -> bool {
    &&& (before.buffer().retired().len() == 0 <==> r matches Ok(None))
    &&& (before.buffer().retired().len() > 0 && (forall|p: usize|
            #[trigger] before.buffer().retired()[0].map().contains_key(p) ==> simple_op(
                before.blocks(),
                p,
                before.buffer().retired()[0].map()[p],
            )) ==> r is Ok)
    &&& (match r {
            Ok(Some((_, retired))) => {
                &&& before.buffer().retired().len() > 0
                &&& after.buffer().pages() == before.buffer().pages().skip(1)
                &&& after.log().spec_seq() == before.log().spec_seq()
                &&& after.log().segments() == sealed_segments(
                    before.log().segments(),
                    before.log().spec_seq(),
                    before.buffer().retired()[0].max_version as u64,
                ).skip(retired@.len() as int)
                &&& after.blocks().data().bitmap().spec_checkpoint()
                    == before.buffer().retired()[0].max_version as u64
                &&& forall|p: usize|
                    #[trigger] before.buffer().retired()[0].map().contains_key(p)
                        && before.buffer().retired()[0].map()[p].len() >= 9 && simple_op(
                        before.blocks(),
                        p,
                        before.buffer().retired()[0].map()[p],
                    ) ==> after.blocks().value_of(p as int) == op_value(
                        before.buffer().retired()[0].map()[p],
                    )
            },
            Ok(None) => after.blocks() == before.blocks(),
            Err(_) => true,
        })
}

/// The storage layer.
pub struct Serve {
    mainblock: MainBlock,
    wal: Wal,
    cbf: Cbf,
}

impl Serve {
    pub closed spec fn blocks(&self) -> MainBlock {
        self.mainblock
    }

    pub closed spec fn log(&self) -> Wal {
        self.wal
    }

    pub closed spec fn buffer(&self) -> Cbf {
        self.cbf
    }

    pub open spec fn wf(&self) -> bool {
        &&& self.blocks().wf()
        &&& self.log().wf()
        &&& self.buffer().wf()
    }

    /// Whether every buffered operation has reached the main block.
    pub open spec fn drained(&self) -> bool {
        self.buffer().retired().len() == 0 && self.buffer().active().spec_cap() == 0
    }

    /// Whether every buffered operation has reached the main block.
    pub fn is_drained(&self) -> (r: bool)
        requires
            self.wf(),
        ensures
            r == self.drained(),
    {
        self.cbf.is_drained()
    }

    /// What a read of `pos` finds in the buffer: none when nothing is
    /// buffered for it.
    pub open spec fn buffered(&self, pos: usize) -> Option<Seq<u8>> {
        match self.buffer().value(pos) {
            Some(c) => if c.len() >= 9 { Some(op_value(c)) } else { None },
            None => None,
        }
    }

    /// What `get` returns for `pos`: the buffered operation's value, else the
    /// main block's value; none where the read fails.
    pub open spec fn read_value(&self, pos: usize) -> Option<Seq<u8>> {
        match self.buffer().value(pos) {
            Some(c) => if c.len() >= 9 { Some(op_value(c)) } else { None },
            None => if self.blocks().get_ok(pos as int) {
                Some(self.blocks().value_of(pos as int))
            } else {
                None
            },
        }
    }

    /// A storage layer over a main block and its WAL, with a change buffer
    /// of pages of `page_max_cap` bytes. Every logged operation from the
    /// main block's checkpoint on is put back into the buffer.
    pub fn new(mainblock: MainBlock, wal: Wal, page_max_cap: usize) -> (r: Self)
        requires
            mainblock.wf(),
            wal.wf(),
        ensures
            r.wf(),
            r.blocks() == mainblock,
            r.log() == wal,
            forall|q: usize| #[trigger] r.buffer().value(q) == last_op(
                read_range(wal.segments(), mainblock.data().bitmap().spec_checkpoint(), 0),
                q,
            ),
    {
        let mut serve = Serve { mainblock, wal, cbf: Cbf::new(page_max_cap) };
        proof {
            assert forall|q: usize| #[trigger] serve.buffer().value(q) is None by {
                let pages = serve.buffer().pages();
                assert(pages.len() == 1);
                assert(pages.last() == Map::<usize, Seq<u8>>::empty());
                assert(!pages.last().contains_key(q));
                assert(pages.drop_last() =~= Seq::<Map<usize, Seq<u8>>>::empty());
                assert(crate::cbf::lookup(pages.drop_last(), q) is None);
            }
        }
        serve.init_wait_block();
        serve
    }

    /// Puts every logged operation from the main block's checkpoint on back
    /// into the buffer, by version.
    fn init_wait_block(&mut self)
        requires
            old(self).wf(),
            forall|q: usize| #[trigger] old(self).buffer().value(q) is None,
        ensures
            final(self).wf(),
            final(self).blocks() == old(self).blocks(),
            final(self).log() == old(self).log(),
            forall|q: usize| #[trigger] final(self).buffer().value(q) == last_op(
                read_range(
                    old(self).log().segments(),
                    old(self).blocks().data().bitmap().spec_checkpoint(),
                    0,
                ),
                q,
            ),
    {
        let checkpoint = self.mainblock.checkpoint();
        let payloads = self.wal.reader(checkpoint, 0);
        let ghost all = payloads@.map_values(|p: Payload| (p.data@, p.version));
        let mut i: usize = 0;
        while i < payloads.len()
            invariant
                self.wf(),
                self.blocks() == old(self).blocks(),
                self.log() == old(self).log(),
                i <= payloads@.len(),
                all == payloads@.map_values(|p: Payload| (p.data@, p.version)),
                forall|q: usize| #[trigger] self.buffer().value(q) == last_op(all.take(i as int), q),
            decreases payloads@.len() - i,
        {
            let p = &payloads[i];
            assert(all.take(i + 1).drop_last() =~= all.take(i as int));
            assert(all.take(i + 1).last() == (p.data@, p.version));
            if p.data.len() >= 9 {
                let pos = read_u64_be(&p.data, 1);
                assert(p.data@.subrange(1, 9) == all.take(i + 1).last().0.subrange(1, 9));
                if pos <= usize::MAX as u64 {
                    let data = crate::codec::copy_all(&p.data);
                    let _ = self.cbf.insert(p.version as usize, pos as usize, data);
                    assert forall|q: usize| #[trigger] self.buffer().value(q) == last_op(all.take(i + 1), q) by {
                        if q != pos as usize {
                            assert(q as u64 != pos);
                        }
                    }
                } else {
                    assert forall|q: usize| #[trigger] self.buffer().value(q) == last_op(all.take(i + 1), q) by {
                        assert(q as u64 != pos);
                    }
                }
            }
            i = i + 1;
        }
        assert(all.take(i as int) =~= all);
    }

    /// The value at `pos`: the buffered write or delete if there is one,
    /// else the main block's value.
    pub fn get(&self, pos: usize) -> (r: Result<Vec<u8>, Error>)
        requires
            self.wf(),
        ensures
            match self.read_value(pos) {
                Some(v) => r is Ok && r->Ok_0@ == v,
                None => r == Err::<Vec<u8>, Error>(Error::BlockDataGetFailed),
            },
    {
        match self.cbf.get(pos) {
            Some(cached) => {
                if cached.len() < 9 {
                    return Err(Error::BlockDataGetFailed);
                }
                match BlockOp::decode(&cached) {
                    BlockOp::Del(_) => Ok(Vec::new()),
                    BlockOp::Put(_, data) => Ok(data),
                }
            },
            None => self.mainblock.get(pos),
        }
    }

    /// Logs and buffers the write of `buf` at `pos`.
    pub fn set(&mut self, pos: usize, buf: Vec<u8>) -> (r: Result<(), Error>)
        requires
            old(self).wf(),
        ensures
            final(self).wf(),
            final(self).blocks() == old(self).blocks(),
            r is Ok ==> final(self).buffered(pos) == Some(buf@),
            r is Ok ==> forall|q: usize| q != pos ==> final(self).buffered(q) == old(self).buffered(q),
            r is Err ==> r == Err::<(), Error>(Error::AppendWalDataFailed) && final(self).buffer()
                == old(self).buffer(),
            logged(old(self).log(), final(self).log(), block_op_bytes(BLOCK_OP_SET, pos as u64, buf@), r is Ok),
            old(self).log().can_append((9 + buf@.len()) as int) ==> r is Ok,
    {
        let ghost data = buf@;
        let op = BlockOp::encode_from(BLOCK_OP_SET, pos as u64, buf);
        assert(op@.len() == 9 + data.len());
        proof {
            lemma_block_op_value(pos as u64, data);
        }
        self.log_and_buffer(pos, op)
    }

    /// Logs and buffers the delete of `pos`, so that reads find nothing there
    /// and the flusher deletes the record.
    pub fn del(&mut self, pos: usize) -> (r: Result<(), Error>)
        requires
            old(self).wf(),
        ensures
            final(self).wf(),
            final(self).blocks() == old(self).blocks(),
            r is Ok ==> final(self).buffered(pos) == Some(Seq::<u8>::empty()),
            r is Ok ==> forall|q: usize| q != pos ==> final(self).buffered(q) == old(self).buffered(q),
            r is Err ==> r == Err::<(), Error>(Error::AppendWalDataFailed) && final(self).buffer()
                == old(self).buffer(),
            logged(old(self).log(), final(self).log(), block_op_bytes(BLOCK_OP_DEL, pos as u64, Seq::<u8>::empty()), r is Ok),
            old(self).log().can_append((9) as int) ==> r is Ok,
    {
        let op = BlockOp::encode_from(BLOCK_OP_DEL, pos as u64, Vec::new());
        assert(op@ == block_op_bytes(BLOCK_OP_DEL, pos as u64, Seq::<u8>::empty()));
        proof {
            lemma_block_op_value(pos as u64, Seq::empty());
        }
        self.log_and_buffer(pos, op)
    }

    fn log_and_buffer(&mut self, pos: usize, op: Vec<u8>) -> (r: Result<(), Error>)
        requires
            old(self).wf(),
            op@.len() >= 9,
        ensures
            final(self).wf(),
            final(self).blocks() == old(self).blocks(),
            r is Ok ==> final(self).buffer().value(pos) == Some(op@),
            r is Ok ==> forall|q: usize| q != pos ==> final(self).buffered(q) == old(self).buffered(q),
            r is Err ==> r == Err::<(), Error>(Error::AppendWalDataFailed) && final(self).buffer()
                == old(self).buffer(),
            logged(old(self).log(), final(self).log(), op@, r is Ok),
            old(self).log().can_append(op@.len() as int) ==> r is Ok,
    {
        match self.wal.append(&op) {
            Ok(version) => {
                let r = self.cbf.insert(version as usize, pos, op);
                assert forall|q: usize| q != pos implies self.buffered(q) == old(self).buffered(q) by {
                    assert(self.cbf.value(q) == old(self).cbf.value(q));
                }
                r
            },
            Err(e) => Err(e),
        }
    }

    /// One pass of the flusher: takes the oldest buffered page, applies its
    /// writes and deletes to the main block, persists the pool at the page's
    /// highest version and retires the WAL segments below it. Returns the
    /// allocator image and the retired segment starts, or nothing when no
    /// page was ready.
    pub fn flush_once(&mut self) -> (r: Result<Option<(Vec<u8>, Vec<u64>)>, Error>)
        requires
            old(self).wf(),
        ensures
            final(self).wf(),
            flushed(*old(self), *final(self), r),
    {
        let (_, page) = match self.cbf.pop_first_page() {
            Some(x) => x,
            None => {
                return Ok(None);
            },
        };
        let ghost popped = self.cbf;
        let ghost e = entries_view(page.entrys@);
        let ghost mb0 = self.mainblock;
        let ghost all_simple = forall|p: usize| #[trigger] page.map().contains_key(p) ==> simple_op(mb0, p, page.map()[p]);
        proof {
            assert forall|t: int| 0 <= t < e.len() implies #[trigger] page.map().contains_key(e[t].0) && page.map()[e[t].0] == e[t].1 by {
                lemma_assoc_has(e, t);
            }
        }
        let mut i: usize = 0;
        while i < page.entrys.len()
            invariant
                self.wf(),
                self.cbf == popped,
                self.wal == old(self).wal,
                i <= e.len(),
                e == entries_view(page.entrys@),
                distinct(e),
                mb0.wf(),
                self.mainblock.spec_fetch_size() == mb0.spec_fetch_size(),
                forall|t: int| 0 <= t < e.len() ==> #[trigger] page.map().contains_key(e[t].0) && page.map()[e[t].0] == e[t].1,
                all_simple == forall|p: usize| #[trigger] page.map().contains_key(p) ==> simple_op(mb0, p, page.map()[p]),
                forall|q: int| 0 <= q && !seen(e, i as int, q) ==> #[trigger] self.mainblock.record(q) == mb0.record(q),
                old(self).buffer().retired().len() > 0,
                page == old(self).buffer().retired()[0],
                mb0 == old(self).blocks(),
                forall|t: int| 0 <= t < i && e[t].1.len() >= 9 && simple_op(mb0, e[t].0, e[t].1) ==> self.mainblock.header(#[trigger] e[t].0 as int).0 != FLAG_OVERFLOW && self.mainblock.value_of(e[t].0 as int) == op_value(e[t].1),
            decreases page.entrys@.len() - i,
        {
            let pos = page.entrys[i].0;
            let buf = &page.entrys[i].1;
            assert(e[i as int] == (pos, buf@));
            let ghost before = self.mainblock;
            proof {
                if seen(e, i as int, pos as int) {
                    let t = choose|t: int| 0 <= t < i && #[trigger] e[t].0 == pos as int;
                    assert(e[t].0 != e[i as int].0);
                }
                assert(self.mainblock.record(pos as int) == mb0.record(pos as int));
                if all_simple {
                    assert(page.map().contains_key(pos));
                    assert(simple_op(mb0, pos, buf@));
                }
            }
            if buf.len() >= 9 {
                match BlockOp::decode(buf) {
                    BlockOp::Put(_, data) => {
                        assert(data@ == op_value(buf@));
                        match self.mainblock.set(pos, &data) {
                            Ok(()) => {},
                            Err(err) => {
                                return Err(err);
                            },
                        }
                    },
                    BlockOp::Del(_) => {
                        match self.mainblock.del(pos) {
                            Ok(()) => {},
                            Err(err) => {
                                return Err(err);
                            },
                        }
                    },
                }
            }
            proof {
                assert forall|t: int| 0 <= t < i && e[t].1.len() >= 9 && simple_op(mb0, e[t].0, e[t].1) implies self.mainblock.header(#[trigger] e[t].0 as int).0 != FLAG_OVERFLOW && self.mainblock.value_of(e[t].0 as int) == op_value(e[t].1) by {
                    assert(e[t].0 != e[i as int].0);
                    assert(self.mainblock.record(e[t].0 as int) == before.record(e[t].0 as int));
                }
                assert forall|q: int| 0 <= q && !seen(e, i + 1, q) implies #[trigger] self.mainblock.record(q) == mb0.record(q) by {
                    assert(!seen(e, i as int, q)) by {
                        if seen(e, i as int, q) {
                            let t = choose|t: int| 0 <= t < i && #[trigger] e[t].0 == q;
                            assert(0 <= t < i + 1 && e[t].0 == q);
                        }
                    }
                    assert(e[i as int].0 != q);
                }
                if simple_op(mb0, pos, buf@) && buf@.len() >= 9 {
                    assert(self.mainblock.header(pos as int).0 != FLAG_OVERFLOW);
                    assert(self.mainblock.value_of(pos as int) == op_value(buf@));
                }
            }
            i = i + 1;
        }
        let ghost flushed = self.mainblock;
        let image = self.mainblock.flush_datablock(page.max_version as u64);
        let retired = self.wal.checked_version(page.max_version as u64);
        proof {
            assert forall|p: usize| #[trigger] page.map().contains_key(p) && page.map()[p].len() >= 9 && simple_op(mb0, p, page.map()[p]) implies self.mainblock.value_of(p as int) == op_value(page.map()[p]) by {
                if forall|t: int| 0 <= t < e.len() ==> #[trigger] e[t].0 != p {
                    lemma_assoc_lacks(e, p);
                }
                let t = choose|t: int| 0 <= t < e.len() && #[trigger] e[t].0 == p;
                assert(flushed.header(e[t].0 as int).0 != FLAG_OVERFLOW);
                assert(self.mainblock.record(p as int) == flushed.record(p as int));
            }
        }
        Ok(Some((image, retired)))
    }

    /// The main block.
    pub fn mainblock(&self) -> (r: &MainBlock)
        ensures
            *r == self.blocks(),
    {
        &self.mainblock
    }

    /// The storage WAL.
    pub fn wal(&self) -> (r: &Wal)
        ensures
            *r == self.log(),
    {
        &self.wal
    }
}

} // verus!
