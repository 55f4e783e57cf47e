//! The write-ahead log: records framed into chunks inside 32 KiB pages of a
//! segment, segments named by the version they start at, and the manager that
//! numbers records, rotates segments and retires them at checkpoints.

use vstd::prelude::*;
use crate::codec::{
    be2,
    copy_range, extend_range, push_u16_be, push_u32_be, push_u64_be, read_u16_be, read_u32_be,
    read_u64_be, u16_from_be, u16_to_be, u32_from_be, u32_to_be, u64_from_be, u64_to_be,
};
use crate::error::Error;

verus! {

/// Bytes in a chunk header: crc32, data length, chunk type.
pub const HEADER_LEN: usize = 7;

/// Bytes in a segment page.
pub const PAGE_SIZE: usize = 32768;

/// A chunk that holds a whole record.
pub const STYPE_FULL: u8 = 4;

/// The first chunk of a split record.
pub const STYPE_FIRST: u8 = 1;

/// An inner chunk of a split record.
pub const STYPE_MIDDLE: u8 = 2;

/// The last chunk of a split record.
pub const STYPE_LAST: u8 = 3;

/// The CRC-32 (IEEE) checksum of `data`.
pub uninterp spec fn crc32_of(data: Seq<u8>) -> u32;

/// Relies on crc32fast::hash: the CRC-32 of the bytes, which depends on the
/// bytes alone.
#[verifier::external_body]
fn checksum(buf: &Vec<u8>) -> (r: u32)
    ensures
        r == crc32_of(buf@),
{
    crc32fast::hash(buf.as_slice())
}

/// `n` zero bytes.
pub open spec fn zeros(n: int) -> Seq<u8> {
    Seq::new(n as nat, |i: int| 0u8)
}

/// The bytes of a chunk of type `stype` that carries `data`.
pub open spec fn chunk_bytes(stype: u8, data: Seq<u8>) -> Seq<u8> {
    u32_to_be(crc32_of(data)) + u16_to_be(data.len() as u16) + seq![stype] + data
}

/// The bytes that append `data` as one record to a segment of `pos` bytes:
/// zero padding up to the next page when fewer than `HEADER_LEN + 1` bytes
/// are left in the page, then a FULL chunk if the rest of the page holds the
/// data, else a FIRST chunk that fills the page, MIDDLE chunks that fill
/// whole pages and a LAST chunk.
pub open spec fn frame(pos: int, data: Seq<u8>, first: bool) -> Seq<u8>
    decreases data.len(),
{
    let left = PAGE_SIZE - pos % (PAGE_SIZE as int);
    let pad = if left < HEADER_LEN + 1 { left } else { 0 };
    let room = if left < HEADER_LEN + 1 { PAGE_SIZE as int } else { left };
    let cap = room - HEADER_LEN;
    if cap >= data.len() {
        zeros(pad) + chunk_bytes(if first { STYPE_FULL } else { STYPE_LAST }, data)
    } else {
        zeros(pad) + chunk_bytes(if first { STYPE_FIRST } else { STYPE_MIDDLE }, data.take(cap))
            + frame(pos + pad + room, data.skip(cap), false)
    }
}

/// The chunk at the start of `buf`: its type and data, if its header and all
/// its data are there and the checksum matches.
pub open spec fn entry_at(buf: Seq<u8>) -> Option<(u8, Seq<u8>)> {
    if buf.len() < HEADER_LEN {
        None
    } else {
        let dend = HEADER_LEN + u16_from_be(buf.subrange(4, 6));
        if dend > buf.len() {
            None
        } else if crc32_of(buf.subrange(HEADER_LEN as int, dend)) != u32_from_be(buf.subrange(0, 4)) {
            None
        } else {
            Some((buf[6], buf.subrange(HEADER_LEN as int, dend)))
        }
    }
}

/// The chunk at `pos`, read no further than `end`: its type and data, if a
/// whole chunk with a matching checksum is there.
pub open spec fn chunk_at(seg: Seq<u8>, pos: int, end: int) -> Option<(u8, Seq<u8>)> {
    if pos < 0 || end > seg.len() || end - pos < HEADER_LEN {
        None
    } else {
        let crc = u32_from_be(seg.subrange(pos, pos + 4));
        let dlen = u16_from_be(seg.subrange(pos + 4, pos + 6));
        let dend = pos + HEADER_LEN + dlen;
        if dend > end {
            None
        } else if crc32_of(seg.subrange(pos + HEADER_LEN, dend)) != crc {
            None
        } else {
            Some((seg[pos + 6], seg.subrange(pos + HEADER_LEN, dend)))
        }
    }
}

/// The record a chunk completes, if any, and the bytes pending after it.
pub open spec fn chunk_step(stype: u8, acc: Seq<u8>, data: Seq<u8>) -> (Option<Seq<u8>>, Seq<u8>) {
    if stype == STYPE_FULL {
        (Some(data), Seq::empty())
    } else if stype == STYPE_LAST {
        (Some(acc + data), Seq::empty())
    } else if stype == STYPE_FIRST {
        (None, data)
    } else {
        (None, acc + data)
    }
}

/// The end of the page that holds `pos`, cut at the end of the segment.
pub open spec fn page_end(len: int, pos: int) -> int {
    let e = next_page(pos);
    if e < len { e } else { len }
}

/// The start of the page after the one that holds `pos`.
pub open spec fn next_page(pos: int) -> int {
    pos - pos % (PAGE_SIZE as int) + PAGE_SIZE
}

/// The records of `seg` from `pos` on, with `acc` pending from chunks before:
/// chunks are read in order within each page; at the first chunk that is cut
/// off or fails its checksum, reading goes on at the next page.
pub open spec fn parse_from(seg: Seq<u8>, pos: int, acc: Seq<u8>) -> Seq<Seq<u8>>
    decreases seg.len() - pos,
{
    if pos < 0 || pos >= seg.len() {
        Seq::empty()
    } else {
        match chunk_at(seg, pos, page_end(seg.len() as int, pos)) {
            None => {
                proof {
                    lemma_next_page(pos);
                }
                if next_page(pos) >= seg.len() {
                    Seq::empty()
                } else {
                    parse_from(seg, next_page(pos), acc)
                }
            },
            Some((stype, data)) => {
                let (done, rest) = chunk_step(stype, acc, data);
                let tail = parse_from(seg, pos + HEADER_LEN + data.len(), rest);
                match done {
                    Some(r) => seq![r] + tail,
                    None => tail,
                }
            },
        }
    }
}

/// The next page starts after `pos`.
pub proof fn lemma_next_page(pos: int)
    ensures
        pos < next_page(pos),
{
    assert(0 <= pos % 32768 < 32768) by (nonlinear_arith);
}

/// The records of a segment.
pub open spec fn parse_segment(seg: Seq<u8>) -> Seq<Seq<u8>> {
    parse_from(seg, 0, Seq::empty())
}

/// The views of a vector of byte vectors.
pub open spec fn views(v: Seq<Vec<u8>>) -> Seq<Seq<u8>> {
    v.map_values(|x: Vec<u8>| x@)
}

/// A record: its data followed by the big-endian version the log gave it.
pub struct Payload {
    pub data: Vec<u8>,
    pub version: u64,
}

/// The bytes of a payload.
pub open spec fn payload_bytes(data: Seq<u8>, version: u64) -> Seq<u8> {
    data + u64_to_be(version)
}

impl Payload {
    pub fn new(version: u64, data: &Vec<u8>) -> (r: Self)
        ensures
            r.version == version,
            r.data@ == data@,
    {
        Payload { version, data: crate::codec::copy_all(data) }
    }

    /// The payload held by `buf`: all but the last eight bytes are the data,
    /// those are the version.
    pub fn decode(buf: &Vec<u8>) -> (r: Self)
        requires
            buf@.len() >= 8,
        ensures
            r.data@ == buf@.subrange(0, buf@.len() - 8),
            r.version == u64_from_be(buf@.subrange(buf@.len() - 8, buf@.len() as int)),
    {
        let n = buf.len();
        Payload { version: read_u64_be(buf, n - 8), data: copy_range(buf, 0, n - 8) }
    }

    pub fn encode(&self) -> (r: Vec<u8>)
        ensures
            r@ == payload_bytes(self.data@, self.version),
    {
        let mut buf = crate::codec::copy_all(&self.data);
        push_u64_be(&mut buf, self.version);
        buf
    }
}

/// Decoding an encoded payload gives back its data and version.
pub proof fn lemma_payload_round_trip(data: Seq<u8>, version: u64)
    ensures
        payload_bytes(data, version).len() >= 8,
        payload_bytes(data, version).subrange(0, data.len() as int) == data,
        u64_from_be(
            payload_bytes(data, version).subrange(
                data.len() as int,
                payload_bytes(data, version).len() as int,
            ),
        ) == version,
{
    crate::codec::lemma_u64_be_round_trip(version);
    let b = payload_bytes(data, version);
    assert(b.subrange(0, data.len() as int) =~= data);
    assert(b.subrange(data.len() as int, b.len() as int) =~= u64_to_be(version));
}

/// The header of a chunk.
pub struct Header {
    pub crc32: u32,
    pub dlen: u16,
    pub stype: u8,
}

/// A chunk: its header and the data it carries.
pub struct Entry {
    pub header: Header,
    pub data: Vec<u8>,
}

impl Entry {
    /// A chunk of type `stype` carrying `data`, with its checksum.
    pub fn new(stype: u8, data: &Vec<u8>) -> (r: Self)
        requires
            data@.len() <= u16::MAX,
        ensures
            r.header.crc32 == crc32_of(data@),
            r.header.dlen == data@.len(),
            r.header.stype == stype,
            r.data@ == data@,
    {
        let header = Header { crc32: checksum(data), dlen: data.len() as u16, stype };
        Entry { header, data: crate::codec::copy_all(data) }
    }

    /// The header at the start of `buf`.
    pub fn to_header(buf: &Vec<u8>) -> (r: Header)
        requires
            buf@.len() >= HEADER_LEN,
        ensures
            r.crc32 == u32_from_be(buf@.subrange(0, 4)),
            r.dlen == u16_from_be(buf@.subrange(4, 6)),
            r.stype == buf@[6],
    {
        Header { crc32: read_u32_be(buf, 0), dlen: read_u16_be(buf, 4), stype: buf[6] }
    }

    /// The chunk at the start of `buf`; an error when it is cut off or fails
    /// its checksum.
    pub fn decode(buf: &Vec<u8>) -> (r: Result<Entry, Error>)
        ensures
            match entry_at(buf@) {
                Some((t, d)) => r is Ok && r->Ok_0.header.stype == t && r->Ok_0.data@ == d
                    && r->Ok_0.header.dlen == d.len() && r->Ok_0.header.crc32 == crc32_of(d),
                None => r == Err::<Entry, Error>(Error::InvalidWalData),
            },
    {
        if buf.len() < HEADER_LEN {
            return Err(Error::InvalidWalData);
        }
        let header = Self::to_header(buf);
        let dend = HEADER_LEN + header.dlen as usize;
        if dend > buf.len() {
            return Err(Error::InvalidWalData);
        }
        let data = copy_range(buf, HEADER_LEN, dend);
        if checksum(&data) != header.crc32 {
            return Err(Error::InvalidWalData);
        }
        Ok(Entry { header, data })
    }

    /// The bytes of the chunk.
    pub fn encode(&self) -> (r: Vec<u8>)
        requires
            self.header.dlen == self.data@.len(),
            self.header.crc32 == crc32_of(self.data@),
        ensures
            r@ == chunk_bytes(self.header.stype, self.data@),
    {
        let mut buf = self.to_header_buf();
        extend_range(&mut buf, &self.data, 0, self.data.len());
        assert(self.data@.subrange(0, self.data@.len() as int) =~= self.data@);
        buf
    }

    /// The bytes of the header.
    pub fn to_header_buf(&self) -> (r: Vec<u8>)
        ensures
            r@ == u32_to_be(self.header.crc32) + u16_to_be(self.header.dlen) + seq![
                self.header.stype,
            ],
    {
        let mut buf: Vec<u8> = Vec::new();
        push_u32_be(&mut buf, self.header.crc32);
        push_u16_be(&mut buf, self.header.dlen);
        buf.push(self.header.stype);
        assert(buf@ =~= u32_to_be(self.header.crc32) + u16_to_be(self.header.dlen) + seq![
            self.header.stype,
        ]);
        buf
    }
}

/// Appends the bytes of a chunk of type `stype` carrying `src[lo..hi]`.
fn push_chunk(out: &mut Vec<u8>, stype: u8, src: &Vec<u8>, lo: usize, hi: usize)
    requires
        lo <= hi <= src@.len(),
        hi - lo <= u16::MAX,
    ensures
        final(out)@ == old(out)@ + chunk_bytes(stype, src@.subrange(lo as int, hi as int)),
{
    let data = copy_range(src, lo, hi);
    let entry = Entry::new(stype, &data);
    let bytes = entry.encode();
    extend_range(out, &bytes, 0, bytes.len());
    assert(bytes@.subrange(0, bytes@.len() as int) =~= bytes@);
}

/// The bytes that append `buf` as one record to a segment of `file_size` bytes.
pub fn frame_record(file_size: usize, buf: &Vec<u8>) -> (r: Vec<u8>)
    requires
        file_size + 8 * buf@.len() + 2 * PAGE_SIZE <= usize::MAX,
    ensures
        r@ == frame(file_size as int, buf@, true),
{
    let mut out: Vec<u8> = Vec::new();
    let mut pos: usize = file_size;
    let mut off: usize = 0;
    let mut first = true;
    assert(buf@.skip(0) =~= buf@);
    loop
        invariant
            off <= buf@.len(),
            pos + 8 * (buf@.len() - off) + 2 * PAGE_SIZE <= usize::MAX,
            out@ + frame(pos as int, buf@.skip(off as int), first) == frame(
                file_size as int,
                buf@,
                true,
            ),
        decreases buf@.len() - off,
    {
        let ghost rest = buf@.skip(off as int);
        let left = PAGE_SIZE - pos % PAGE_SIZE;
        let pad = if left < HEADER_LEN + 1 {
            left
        } else {
            0
        };
        let room = if left < HEADER_LEN + 1 {
            PAGE_SIZE
        } else {
            left
        };
        let cap = room - HEADER_LEN;
        let ghost before = out@;
        let mut k: usize = 0;
        while k < pad
            invariant
                k <= pad,
                out@ == before + zeros(k as int),
            decreases pad - k,
        {
            out.push(0u8);
            k = k + 1;
            assert(out@ =~= before + zeros(k as int));
        }
        let remaining = buf.len() - off;
        if cap >= remaining {
            let stype = if first {
                STYPE_FULL
            } else {
                STYPE_LAST
            };
            push_chunk(&mut out, stype, buf, off, buf.len());
            assert(buf@.subrange(off as int, buf@.len() as int) =~= rest);
            assert(out@ =~= before + frame(pos as int, rest, first));
            return out;
        } else {
            let stype = if first {
                STYPE_FIRST
            } else {
                STYPE_MIDDLE
            };
            push_chunk(&mut out, stype, buf, off, off + cap);
            assert(buf@.subrange(off as int, off + cap) =~= rest.take(cap as int));
            assert(buf@.skip(off + cap) =~= rest.skip(cap as int));
            assert(before + frame(pos as int, rest, first) =~= out@ + frame(
                pos + pad + room,
                rest.skip(cap as int),
                false,
            ));
            pos = pos + pad + room;
            off = off + cap;
            first = false;
        }
    }
}

/// The chunk at `pos`, read no further than `end`.
fn read_chunk(seg: &Vec<u8>, pos: usize, end: usize) -> (r: Option<(u8, Vec<u8>)>)
    requires
        pos <= end <= seg@.len(),
    ensures
        match r {
            Some((t, d)) => chunk_at(seg@, pos as int, end as int) == Some((t, d@)),
            None => chunk_at(seg@, pos as int, end as int) is None,
        },
{
    if end - pos < HEADER_LEN {
        return None;
    }
    let crc = read_u32_be(seg, pos);
    let dlen = read_u16_be(seg, pos + 4);
    let stype = seg[pos + 6];
    if dlen as usize > end - pos - HEADER_LEN {
        return None;
    }
    let dend = pos + HEADER_LEN + dlen as usize;
    let data = copy_range(seg, pos + HEADER_LEN, dend);
    if checksum(&data) != crc {
        return None;
    }
    Some((stype, data))
}

/// The records of a segment, in order.
pub fn read_records(seg: &Vec<u8>) -> (r: Vec<Vec<u8>>)
    ensures
        views(r@) == parse_segment(seg@),
{
    let mut out: Vec<Vec<u8>> = Vec::new();
    let mut acc: Vec<u8> = Vec::new();
    let mut pos: usize = 0;
    let len = seg.len();
    while pos < len
        invariant
            len == seg@.len(),
            views(out@) + parse_from(seg@, pos as int, acc@) == parse_segment(seg@),
        decreases len - pos,
    {
        let ghost before = views(out@);
        let ghost old_acc = acc@;
        let base = pos - pos % PAGE_SIZE;
        let pend = if len - base > PAGE_SIZE {
            base + PAGE_SIZE
        } else {
            len
        };
        assert(pend == page_end(len as int, pos as int));
        match read_chunk(seg, pos, pend) {
            None => {
                if pend == len {
                    assert(parse_from(seg@, next_page(pos as int), acc@) =~= Seq::empty());
                    assert(views(out@) =~= parse_segment(seg@));
                    return out;
                }
                pos = pend;
            },
            Some((stype, data)) => {
                let next = pos + HEADER_LEN + data.len();
                if stype == STYPE_FULL {
                    acc = Vec::new();
                    out.push(data);
                } else if stype == STYPE_LAST {
                    let mut rec = acc;
                    extend_range(&mut rec, &data, 0, data.len());
                    assert(data@.subrange(0, data@.len() as int) =~= data@);
                    acc = Vec::new();
                    out.push(rec);
                } else if stype == STYPE_FIRST {
                    acc = data;
                } else {
                    extend_range(&mut acc, &data, 0, data.len());
                    assert(data@.subrange(0, data@.len() as int) =~= data@);
                }
                assert(views(out@) + parse_from(seg@, next as int, acc@) =~= before + parse_from(
                    seg@,
                    pos as int,
                    old_acc,
                ));
                pos = next;
            },
        }
    }
    assert(parse_from(seg@, pos as int, acc@) =~= Seq::empty());
    assert(views(out@) =~= parse_segment(seg@));
    out
}


/// The bytes of a segment written record by record from empty.
pub open spec fn frames(records: Seq<Seq<u8>>) -> Seq<u8>
    decreases records.len(),
{
    if records.len() == 0 {
        Seq::empty()
    } else {
        let prev = frames(records.drop_last());
        prev + frame(prev.len() as int, records.last(), true)
    }
}

/// A whole chunk that lies in one page is read back as its type and data.
proof fn lemma_chunk_at(s: Seq<u8>, q: int, stype: u8, d: Seq<u8>)
    requires
        q >= 0,
        d.len() <= PAGE_SIZE - HEADER_LEN,
        q + HEADER_LEN + d.len() <= s.len(),
        q + HEADER_LEN + d.len() <= next_page(q),
        s.subrange(q, q + HEADER_LEN + d.len()) == chunk_bytes(stype, d),
    ensures
        chunk_at(s, q, page_end(s.len() as int, q)) == Some((stype, d)),
{
    let c = chunk_bytes(stype, d);
    let dend = q + HEADER_LEN + d.len();
    let sub = s.subrange(q, dend);
    crate::codec::lemma_u32_be_round_trip(crc32_of(d));
    crate::codec::lemma_u16_be_round_trip(d.len() as u16);
    assert(s.subrange(q, q + 4) =~= u32_to_be(crc32_of(d))) by {
        assert forall|i: int| 0 <= i < 4 implies #[trigger] s.subrange(q, q + 4)[i] == u32_to_be(crc32_of(d))[i] by {
            assert(sub[i] == c[i]);
        }
    }
    assert(s.subrange(q + 4, q + 6) =~= u16_to_be(d.len() as u16)) by {
        assert forall|i: int| 0 <= i < 2 implies #[trigger] s.subrange(q + 4, q + 6)[i] == u16_to_be(d.len() as u16)[i] by {
            assert(sub[4 + i] == c[4 + i]);
        }
    }
    assert(s[q + 6] == stype) by {
        assert(sub[6] == c[6]);
    }
    assert(s.subrange(q + HEADER_LEN, dend) =~= d) by {
        assert forall|i: int| 0 <= i < d.len() implies #[trigger] s.subrange(q + HEADER_LEN, dend)[i] == d[i] by {
            assert(sub[HEADER_LEN + i] == c[HEADER_LEN + i]);
        }
    }
}

/// Padding of fewer than eight zero bytes before the end of a page is read
/// over: reading goes on at the next page with the same pending bytes.
proof fn lemma_skip_padding(s: Seq<u8>, p: int, q: int, acc: Seq<u8>)
    requires
        p >= 0,
        q == next_page(p),
        q - p < HEADER_LEN + 1,
        q < s.len(),
        s.subrange(p, q) == zeros(q - p),
    ensures
        parse_from(s, p, acc) == parse_from(s, q, acc),
{
    lemma_next_page(p);
    assert(page_end(s.len() as int, p) == q);
    if q - p == HEADER_LEN {
        // seven bytes of padding read as a chunk with no data and type 0, or
        // fail their checksum: either way reading goes on at `q`
        assert(s.subrange(p, p + 4) =~= seq![0u8, 0u8, 0u8, 0u8]) by {
            assert forall|i: int| 0 <= i < 4 implies #[trigger] s.subrange(p, p + 4)[i] == 0u8 by {
                assert(s.subrange(p, q)[i] == 0u8);
            }
        }
        assert(s.subrange(p + 4, p + 6) =~= seq![0u8, 0u8]) by {
            assert forall|i: int| 0 <= i < 2 implies #[trigger] s.subrange(p + 4, p + 6)[i] == 0u8 by {
                assert(s.subrange(p, q)[4 + i] == 0u8);
            }
        }
        assert(s[p + 6] == 0u8) by {
            assert(s.subrange(p, q)[6] == 0u8);
        }
        assert(be2(0u8, 0u8) == 0u16) by (bit_vector);
        assert(u16_from_be(s.subrange(p + 4, p + 6)) == 0u16);
        assert(s.subrange(p + HEADER_LEN, p + HEADER_LEN) =~= Seq::<u8>::empty());
        assert(acc + Seq::<u8>::empty() =~= acc);
    } else {
        assert(chunk_at(s, p, page_end(s.len() as int, p)) is None);
    }
}

/// Reading a segment at the start of a record's frame gives the record
/// (pending bytes `acc` before it when it continues an earlier chunk), then
/// whatever follows the frame.
proof fn lemma_parse_frame(s: Seq<u8>, p: int, data: Seq<u8>, first: bool, acc: Seq<u8>)
    requires
        p >= 0,
        p + frame(p, data, first).len() <= s.len(),
        s.subrange(p, p + frame(p, data, first).len()) == frame(p, data, first),
    ensures
        parse_from(s, p, acc) == seq![if first { data } else { acc + data }] + parse_from(
            s,
            p + frame(p, data, first).len(),
            Seq::empty(),
        ),
    decreases data.len(),
{
    let f = frame(p, data, first);
    let left = PAGE_SIZE - p % (PAGE_SIZE as int);
    let pad = if left < HEADER_LEN + 1 { left } else { 0 };
    let room = if left < HEADER_LEN + 1 { PAGE_SIZE as int } else { left };
    let cap = room - HEADER_LEN;
    let q = p + pad;
    let whole = cap >= data.len();
    let d = if whole { data } else { data.take(cap) };
    let stype = if whole {
        if first { STYPE_FULL } else { STYPE_LAST }
    } else {
        if first { STYPE_FIRST } else { STYPE_MIDDLE }
    };
    let c = chunk_bytes(stype, d);
    lemma_next_page(p);
    assert(0 <= p % (PAGE_SIZE as int) < PAGE_SIZE);
    assert(next_page(p) == p + left);
    if pad > 0 {
        assert(q % (PAGE_SIZE as int) == 0);
    }
    assert(next_page(q) == q + room);
    let sub = s.subrange(p, p + f.len());
    if whole {
        assert(f == zeros(pad) + c);
    } else {
        assert(f == zeros(pad) + c + frame(p + pad + room, data.skip(cap), false));
    }
    assert(s.subrange(q, q + c.len()) =~= c) by {
        assert forall|i: int| 0 <= i < c.len() implies #[trigger] s.subrange(q, q + c.len())[i] == c[i] by {
            assert(sub[pad + i] == f[pad + i]);
        }
    }
    lemma_chunk_at(s, q, stype, d);
    let dend = q + HEADER_LEN + d.len();
    if pad > 0 {
        assert(s.subrange(p, q) =~= zeros(pad)) by {
            assert forall|i: int| 0 <= i < pad implies #[trigger] s.subrange(p, q)[i] == zeros(pad)[i] by {
                assert(sub[i] == f[i]);
            }
        }
        lemma_skip_padding(s, p, q, acc);
    }
    if whole {
        assert(p + f.len() == dend);
    } else {
        let rest = data.skip(cap);
        let f2 = frame(q + room, rest, false);
        assert(dend == q + room);
        assert(p + f.len() == dend + f2.len());
        let acc2 = if first { d } else { acc + d };
        assert(s.subrange(dend, dend + f2.len()) =~= f2) by {
            assert forall|i: int| 0 <= i < f2.len() implies #[trigger] s.subrange(dend, dend + f2.len())[i] == f2[i] by {
                assert(sub[pad + c.len() + i] == f[pad + c.len() + i]);
            }
        }
        lemma_parse_frame(s, dend, rest, false, acc2);
        assert(acc2 + rest =~= if first { data } else { acc + data });
    }
}

proof fn lemma_frames_take(records: Seq<Seq<u8>>, k: int)
    requires
        0 <= k < records.len(),
    ensures
        frames(records.take(k + 1)) == frames(records.take(k)) + frame(
            frames(records.take(k)).len() as int,
            records[k],
            true,
        ),
{
    assert(records.take(k + 1).drop_last() =~= records.take(k));
}

proof fn lemma_frames_prefix(records: Seq<Seq<u8>>, k: int)
    requires
        0 <= k <= records.len(),
    ensures
        frames(records.take(k)).len() <= frames(records).len(),
        frames(records).subrange(0, frames(records.take(k)).len() as int) == frames(records.take(k)),
    decreases records.len(),
{
    if k == records.len() {
        assert(records.take(k) =~= records);
    } else {
        let p = records.drop_last();
        assert(p.take(k) =~= records.take(k));
        lemma_frames_prefix(p, k);
        let a = frames(p);
        let b = frame(a.len() as int, records.last(), true);
        assert(frames(records) == a + b);
        assert((a + b).subrange(0, frames(records.take(k)).len() as int) =~= a.subrange(0, frames(records.take(k)).len() as int));
    }
}

proof fn lemma_frames_parse(records: Seq<Seq<u8>>, k: int)
    requires
        0 <= k <= records.len(),
    ensures
        parse_from(frames(records), frames(records.take(k)).len() as int, Seq::empty())
            == records.skip(k),
    decreases records.len() - k,
{
    let s = frames(records);
    let pk = frames(records.take(k)).len() as int;
    lemma_frames_prefix(records, k);
    if k == records.len() {
        assert(records.take(k) =~= records);
        assert(records.skip(k) =~= Seq::<Seq<u8>>::empty());
    } else {
        lemma_frames_take(records, k);
        lemma_frames_prefix(records, k + 1);
        let f = frame(pk, records[k], true);
        let t = frames(records.take(k + 1));
        assert(s.subrange(pk, pk + f.len()) =~= f) by {
            assert forall|i: int| 0 <= i < f.len() implies #[trigger] s.subrange(pk, pk + f.len())[i] == f[i] by {
                assert(s.subrange(0, t.len() as int)[pk + i] == t[pk + i]);
            }
        }
        lemma_parse_frame(s, pk, records[k], true, Seq::empty());
        lemma_frames_parse(records, k + 1);
        assert(records.skip(k) =~= seq![records[k]] + records.skip(k + 1));
    }
}

/// Reading back a segment written record by record gives the records, in
/// order.
pub proof fn lemma_segment_round_trip(records: Seq<Seq<u8>>)
    ensures
        parse_segment(frames(records)) == records,
{
    lemma_frames_parse(records, 0);
    assert(records.take(0) =~= Seq::<Seq<u8>>::empty());
    assert(records.skip(0) =~= records);
}

/// One segment of the log: the version of its first record and its bytes.
pub struct Wlog {
    pub version: u64,
    pub data: Vec<u8>,
}

impl Wlog {
    /// The segment that starts at `version` and holds `data`.
    pub fn new(version: u64, data: Vec<u8>) -> (r: Self)
        ensures
            r.version == version,
            r.data@ == data@,
    {
        Wlog { version, data }
    }

    /// Whether `n` more record bytes can be framed onto the segment.
    pub open spec fn has_room(&self, n: int) -> bool {
        self.data@.len() + 8 * n + 2 * PAGE_SIZE <= usize::MAX
    }

    /// Appends `buf` as one record, framed into chunks.
    pub fn append(&mut self, buf: &Vec<u8>) -> (r: Result<(), Error>)
        ensures
            final(self).version == old(self).version,
            old(self).has_room(buf@.len() as int) ==> r is Ok && final(self).data@ == old(
                self,
            ).data@ + frame(old(self).data@.len() as int, buf@, true),
            !old(self).has_room(buf@.len() as int) ==> r == Err::<(), Error>(
                Error::AppendWalDataFailed,
            ) && final(self).data@ == old(self).data@,
    {
        let size = self.data.len();
        if size > usize::MAX - 2 * PAGE_SIZE || buf.len() > (usize::MAX - 2 * PAGE_SIZE - size)
            / 8 {
            return Err(Error::AppendWalDataFailed);
        }
        let bytes = frame_record(size, buf);
        extend_range(&mut self.data, &bytes, 0, bytes.len());
        assert(bytes@.subrange(0, bytes@.len() as int) =~= bytes@);
        Ok(())
    }

    /// The records of the segment, in order.
    pub fn read_all(&self) -> (r: Vec<Vec<u8>>)
        ensures
            views(r@) == parse_segment(self.data@),
    {
        read_records(&self.data)
    }

    /// The version in the last eight bytes of the segment, 0 when it is shorter.
    pub fn get_latest_version(&self) -> (r: u64)
        ensures
            self.data@.len() >= 8 ==> r == u64_from_be(
                self.data@.subrange(self.data@.len() - 8, self.data@.len() as int),
            ),
            self.data@.len() < 8 ==> r == 0,
    {
        let n = self.data.len();
        if n >= 8 {
            read_u64_be(&self.data, n - 8)
        } else {
            0
        }
    }
}

/// The value of a string of decimal digits.
pub open spec fn decimal_value(d: Seq<u8>) -> int
    decreases d.len(),
{
    if d.len() == 0 {
        0
    } else {
        decimal_value(d.drop_last()) * 10 + (d.last() - 48)
    }
}

/// Whether `d` is a non-empty string of decimal digits.
pub open spec fn is_decimal(d: Seq<u8>) -> bool {
    d.len() > 0 && forall|i: int| 0 <= i < d.len() ==> 48 <= #[trigger] d[i] <= 57
}

/// Where the part of `name` after its last `-` starts (0 when there is none).
pub open spec fn last_part_start(name: Seq<u8>) -> int
    decreases name.len(),
{
    if name.len() == 0 {
        0
    } else if name.last() == 45u8 {
        name.len() as int
    } else {
        last_part_start(name.drop_last())
    }
}

/// The start version a segment file name carries: the part after the
/// name's last `-`, read as a decimal `u64`.
pub open spec fn name_version(name: Seq<u8>) -> Option<u64> {
    let d = name.skip(last_part_start(name));
    if is_decimal(d) && decimal_value(d) <= u64::MAX {
        Some(decimal_value(d) as u64)
    } else {
        None
    }
}

proof fn lemma_last_part_start(name: Seq<u8>, k: int)
    requires
        0 <= k <= name.len(),
        forall|i: int| k <= i < name.len() ==> name[i] != 45u8,
        k == 0 || name[k - 1] == 45u8,
    ensures
        last_part_start(name) == k,
    decreases name.len(),
{
    if name.len() > k {
        let p = name.drop_last();
        assert(name.last() == name[name.len() - 1]);
        assert forall|i: int| k <= i < p.len() implies p[i] != 45u8 by {
            assert(p[i] == name[i]);
        }
        if k > 0 {
            assert(p[k - 1] == name[k - 1]);
        }
        lemma_last_part_start(p, k);
    } else if k > 0 {
        assert(name.last() == name[k - 1]);
    }
}

/// The start version carried by a segment file name, if its part after the
/// last `-` is a decimal number that fits a `u64`.
pub fn segment_version(name: &Vec<u8>) -> (r: Option<u64>)
    ensures
        r == name_version(name@),
{
    let n = name.len();
    let mut k: usize = n;
    while k > 0 && name[k - 1] != 45u8
        invariant
            k <= n,
            n == name@.len(),
            forall|i: int| k <= i < n ==> name@[i] != 45u8,
        decreases k,
    {
        k = k - 1;
    }
    proof {
        lemma_last_part_start(name@, k as int);
    }
    let ghost d = name@.skip(k as int);
    if k == n {
        assert(d.len() == 0);
        return None;
    }
    let mut v: u64 = 0;
    let mut i: usize = k;
    while i < n
        invariant
            k <= i <= n,
            n == name@.len(),
            d == name@.skip(k as int),
            last_part_start(name@) == k,
            forall|j: int| 0 <= j < i - k ==> 48 <= #[trigger] d[j] <= 57,
            v == decimal_value(d.take(i - k)),
        decreases n - i,
    {
        let c = name[i];
        assert(d[i - k] == c);
        assert(d.take(i - k + 1).drop_last() =~= d.take(i - k));
        if c < 48 || c > 57 {
            assert(!is_decimal(d)) by {
                assert(!(48 <= d[i - k] <= 57));
            }
            return None;
        }
        let digit = (c - 48) as u64;
        let next = match v.checked_mul(10) {
            Some(x) => x.checked_add(digit),
            None => None,
        };
        match next {
            Some(x) => {
                v = x;
            },
            None => {
                proof {
                    assert(d.take(i - k + 1).last() == c);
                    assert(decimal_value(d.take(i - k + 1)) > u64::MAX);
                    if is_decimal(d) {
                        lemma_decimal_prefix(d, i - k + 1, d.len() as int);
                        assert(d.take(d.len() as int) =~= d);
                    }
                }
                return None;
            },
        }
        i = i + 1;
    }
    assert(d.take(n - k) =~= d);
    Some(v)
}

/// A longer run of digits never has a smaller value.
proof fn lemma_decimal_prefix(d: Seq<u8>, m: int, j: int)
    requires
        0 <= m <= j <= d.len(),
        forall|t: int| 0 <= t < j ==> 48 <= #[trigger] d[t] <= 57,
    ensures
        decimal_value(d.take(j)) >= decimal_value(d.take(m)),
    decreases j - m,
{
    if j > m {
        lemma_decimal_prefix(d, m, j - 1);
        assert(d.take(j).drop_last() =~= d.take(j - 1));
        assert(decimal_value(d.take(j - 1)) >= 0) by {
            lemma_decimal_nonneg(d.take(j - 1));
        }
    }
}

proof fn lemma_decimal_nonneg(d: Seq<u8>)
    requires
        forall|t: int| 0 <= t < d.len() ==> 48 <= #[trigger] d[t] <= 57,
    ensures
        decimal_value(d) >= 0,
    decreases d.len(),
{
    if d.len() > 0 {
        let p = d.drop_last();
        assert forall|t: int| 0 <= t < p.len() implies 48 <= #[trigger] p[t] <= 57 by {
            assert(p[t] == d[t]);
        }
        lemma_decimal_nonneg(p);
        assert(d.last() == d[d.len() - 1]);
    }
}

/// Adds a segment found on disk to a list kept by ascending start; a
/// second segment with a start already listed is passed over.
pub fn insert_segment(logs: &mut Vec<Wlog>, w: Wlog)
    requires
        ascending(segs_view(old(logs)@)),
    ensures
        ascending(segs_view(final(logs)@)),
        forall|i: int| 0 <= i < old(logs)@.len() ==> #[trigger] segs_view(final(logs)@).contains(
            segs_view(old(logs)@)[i],
        ),
        exists|i: int| 0 <= i < final(logs)@.len() && #[trigger] final(logs)@[i].version == w.version,
        forall|i: int|
            0 <= i < final(logs)@.len() ==> #[trigger] segs_view(old(logs)@).contains(
                segs_view(final(logs)@)[i],
            ) || segs_view(final(logs)@)[i] == (w.version, w.data@),
{
    let ghost sv = segs_view(logs@);
    let mut i: usize = 0;
    while i < logs.len() && logs[i].version < w.version
        invariant
            i <= logs@.len(),
            sv == segs_view(logs@),
            forall|j: int| 0 <= j < i ==> #[trigger] sv[j].0 < w.version,
        decreases logs@.len() - i,
    {
        assert(sv[i as int].0 == logs@[i as int].version);
        i = i + 1;
    }
    if i < logs.len() && logs[i].version == w.version {
        assert(sv[i as int].0 == logs@[i as int].version);
        assert forall|x: int| 0 <= x < sv.len() implies #[trigger] sv.contains(sv[x]) by {}
        return;
    }
    let ghost item = (w.version, w.data@);
    logs.insert(i, w);
    proof {
        let nv = segs_view(logs@);
        assert(nv =~= sv.insert(i as int, item));
        if i < sv.len() {
            assert(sv[i as int].0 == old(logs)@[i as int].version);
        }
        assert forall|x: int, y: int| #![trigger nv[x], nv[y]] 0 <= x < y < nv.len() implies nv[x].0 < nv[y].0 by {
            if y < i {
                assert(sv[x].0 < sv[y].0);
            } else if y == i {
            } else if x < i {
                assert(sv[y - 1].0 >= sv[i as int].0 || y - 1 == i);
                if y - 1 > i {
                    assert(sv[i as int].0 < sv[y - 1].0);
                }
            } else if x == i {
                if y - 1 > i {
                    assert(sv[i as int].0 < sv[y - 1].0);
                }
            } else {
                assert(sv[x - 1].0 < sv[y - 1].0);
            }
        }
        assert forall|x: int| 0 <= x < sv.len() implies #[trigger] nv.contains(sv[x]) by {
            if x < i {
                assert(nv[x] == sv[x]);
            } else {
                assert(nv[x + 1] == sv[x]);
            }
        }
        assert(logs@[i as int].version == item.0);
        assert forall|x: int| 0 <= x < nv.len() implies #[trigger] sv.contains(nv[x]) || nv[x] == item by {
            if x < i {
                assert(nv[x] == sv[x]);
            } else if x > i {
                assert(nv[x] == sv[x - 1]);
            }
        }
    }
}

/// The versions and bytes of a list of segments.
pub open spec fn segs_view(logs: Seq<Wlog>) -> Seq<(u64, Seq<u8>)> {
    logs.map_values(|w: Wlog| (w.version, w.data@))
}

/// The payloads held by a list of records; records too short to carry a
/// version are passed over.
pub open spec fn payloads_of(records: Seq<Seq<u8>>) -> Seq<(Seq<u8>, u64)>
    decreases records.len(),
{
    if records.len() == 0 {
        Seq::empty()
    } else {
        let r = records[0];
        let rest = payloads_of(records.skip(1));
        if r.len() >= 8 {
            seq![(r.subrange(0, r.len() - 8), u64_from_be(r.subrange(r.len() - 8, r.len() as int)))]
                + rest
        } else {
            rest
        }
    }
}

/// Whether a segment that starts at `v` is read for the range `[min, max]`
/// (`max == 0` for no upper bound).
pub open spec fn in_range(v: u64, min: u64, max: u64) -> bool {
    min <= v && (max == 0 || v <= max)
}

/// The payloads of the segments whose start is in range, in segment order.
pub open spec fn read_range(segs: Seq<(u64, Seq<u8>)>, min: u64, max: u64) -> Seq<(Seq<u8>, u64)>
    decreases segs.len(),
{
    if segs.len() == 0 {
        Seq::empty()
    } else {
        let head = if in_range(segs[0].0, min, max) {
            payloads_of(parse_segment(segs[0].1))
        } else {
            Seq::empty()
        };
        head + read_range(segs.skip(1), min, max)
    }
}

/// Whether segment starts ascend strictly.
pub open spec fn ascending(segs: Seq<(u64, Seq<u8>)>) -> bool {
    forall|i: int, j: int| #![trigger segs[i], segs[j]] 0 <= i < j < segs.len() ==> segs[i].0 < segs[j].0
}

/// The segments after an append of `payload` at time `now`: a new segment
/// that starts at `v` when the active one would pass `max_size` or has lived
/// longer than `live` seconds (and does not already start at `v`), else the
/// active segment grown.
pub open spec fn segs_after_append(
    segs: Seq<(u64, Seq<u8>)>,
    payload: Seq<u8>,
    v: u64,
    max_size: u64,
    live: u64,
    since: u64,
    now: u64,
) -> Seq<(u64, Seq<u8>)> {
    let last = segs[segs.len() - 1];
    let rotate = last.0 < v && (payload.len() + last.1.len() > max_size || (live > 0 && now
        > since && now - since > live));
    if rotate {
        segs.push((v, frame(0, payload, true)))
    } else {
        segs.update(segs.len() - 1, (last.0, last.1 + frame(last.1.len() as int, payload, true)))
    }
}

/// The version in the last eight bytes of a segment, 0 when it is shorter.
pub open spec fn tail_version(seg: Seq<u8>) -> u64 {
    if seg.len() >= 8 {
        u64_from_be(seg.subrange(seg.len() - 8, seg.len() as int))
    } else {
        0
    }
}

/// The last version given out by a log reopened over `segs`: read from the
/// end of the active segment, or of the one before when the active one is
/// empty (0 when there is none).
pub open spec fn initial_seq(segs: Seq<(u64, Seq<u8>)>) -> u64 {
    let n = segs.len() as int;
    let last = segs[n - 1];
    let found = if last.1.len() > 0 {
        tail_version(last.1)
    } else if n > 1 {
        tail_version(segs[n - 2].1)
    } else {
        0
    };
    found
}

/// The write-ahead log: its segments, the active one last, and the last
/// version it gave out.
pub struct Wal {
    seq: u64,
    file_max_size: u64,
    rotation_live_time: u64,
    rotation_time: u64,
    logs: Vec<Wlog>,
}

impl Wal {
    /// The last version given out.
    pub closed spec fn spec_seq(&self) -> u64 {
        self.seq
    }

    /// The segments, by ascending start; the last one is active.
    pub closed spec fn segments(&self) -> Seq<(u64, Seq<u8>)> {
        segs_view(self.logs@)
    }

    pub closed spec fn spec_file_max_size(&self) -> u64 {
        self.file_max_size
    }

    pub closed spec fn spec_rotation_live_time(&self) -> u64 {
        self.rotation_live_time
    }

    /// When the active segment was opened, in Unix seconds.
    pub closed spec fn spec_rotation_time(&self) -> u64 {
        self.rotation_time
    }

    /// There is an active segment and starts ascend.
    pub open spec fn wf(&self) -> bool {
        &&& self.segments().len() > 0
        &&& ascending(self.segments())
    }

    /// A log over the segments found on disk, by ascending start (none: one
    /// empty segment at version 0). The last version given out is read from
    /// the end of the active segment, or of the one before when the active
    /// one is empty.
    pub fn new(logs: Vec<Wlog>) -> (r: Self)
        requires
            ascending(segs_view(logs@)),
        ensures
            r.wf(),
            logs@.len() > 0 ==> r.segments() == segs_view(logs@),
            logs@.len() == 0 ==> r.segments() == seq![(0u64, Seq::<u8>::empty())],
            r.spec_file_max_size() == 12624855040,
            r.spec_rotation_live_time() == 1800,
            r.spec_seq() == initial_seq(r.segments()),
    {
        let mut logs = logs;
        if logs.len() == 0 {
            logs.push(Wlog::new(0, Vec::new()));
            assert(segs_view(logs@) =~= seq![(0u64, Seq::<u8>::empty())]);
        }
        let n = logs.len();
        let seq = if logs[n - 1].data.len() > 0 {
            logs[n - 1].get_latest_version()
        } else if n > 1 {
            logs[n - 2].get_latest_version()
        } else {
            0
        };
        let active = logs[n - 1].version;
        let ghost sv = segs_view(logs@);
        assert(sv[n - 1].0 == active);
        assert(sv[n - 1].1 == logs@[n - 1].data@);
        assert(n > 1 ==> sv[n - 2].1 == logs@[n - 2].data@);
        Wal {
            seq,
            file_max_size: 12624855040,
            rotation_live_time: 1800,
            rotation_time: crate::clock::now_secs(),
            logs,
        }
    }

    /// Sets the size past which the active segment is rotated.
    pub fn set_file_max_size(&mut self, size: u64)
        ensures
            final(self).spec_file_max_size() == size,
            final(self).segments() == old(self).segments(),
            final(self).spec_seq() == old(self).spec_seq(),
            final(self).spec_rotation_live_time() == old(self).spec_rotation_live_time(),
            final(self).spec_rotation_time() == old(self).spec_rotation_time(),
    {
        self.file_max_size = size;
    }

    /// Sets the age in seconds past which the active segment is rotated (0: never).
    pub fn set_rotation_live_time(&mut self, secs: u64)
        ensures
            final(self).spec_rotation_live_time() == secs,
            final(self).segments() == old(self).segments(),
            final(self).spec_seq() == old(self).spec_seq(),
            final(self).spec_file_max_size() == old(self).spec_file_max_size(),
            final(self).spec_rotation_time() == old(self).spec_rotation_time(),
    {
        self.rotation_live_time = secs;
    }

    /// The last version given out.
    pub fn seq(&self) -> (r: u64)
        ensures
            r == self.spec_seq(),
    {
        self.seq
    }

    /// The start versions of the segments.
    pub fn versions(&self) -> (r: Vec<u64>)
        ensures
            r@.len() == self.segments().len(),
            forall|i: int| 0 <= i < r@.len() ==> r@[i] == self.segments()[i].0,
    {
        let mut out: Vec<u64> = Vec::new();
        let mut i: usize = 0;
        while i < self.logs.len()
            invariant
                i <= self.logs@.len(),
                out@.len() == i,
                forall|j: int| 0 <= j < i ==> out@[j] == self.logs@[j].version,
            decreases self.logs@.len() - i,
        {
            out.push(self.logs[i].version);
            i = i + 1;
        }
        out
    }

    /// The segments as they stand: start version and bytes.
    pub fn segment_bytes(&self, i: usize) -> (r: (u64, Vec<u8>))
        requires
            i < self.segments().len(),
        ensures
            r.0 == self.segments()[i as int].0,
            r.1@ == self.segments()[i as int].1,
    {
        (self.logs[i].version, crate::codec::copy_all(&self.logs[i].data))
    }

    /// Whether a record of `n` bytes is owed a successful append: versions
    /// remain and the active segment's size leaves room for its frame.
    pub open spec fn can_append(&self, n: int) -> bool {
        &&& self.spec_seq() < u64::MAX
        &&& n + 8 <= usize::MAX
        &&& self.segments().last().1.len() + 8 * (n + 8) + 2 * PAGE_SIZE <= usize::MAX
    }

    /// Appends `buf` as the record with the next version at time `now`,
    /// rotating first when the active segment is full or old; returns the
    /// version. Fails when versions or the segment's size run out.
    pub fn append_at(&mut self, buf: &Vec<u8>, now: u64) -> (r: Result<u64, Error>)
        requires
            old(self).wf(),
        ensures
            final(self).wf(),
            final(self).spec_file_max_size() == old(self).spec_file_max_size(),
            final(self).spec_rotation_live_time() == old(self).spec_rotation_live_time(),
            match r {
                Ok(v) => {
                    &&& v == old(self).spec_seq() + 1
                    &&& final(self).spec_seq() == v
                    &&& final(self).segments() == segs_after_append(
                        old(self).segments(),
                        payload_bytes(buf@, v),
                        v,
                        old(self).spec_file_max_size(),
                        old(self).spec_rotation_live_time(),
                        old(self).spec_rotation_time(),
                        now,
                    )
                },
                Err(e) => {
                    &&& e == Error::AppendWalDataFailed
                    &&& final(self).segments() == old(self).segments()
                    &&& final(self).spec_seq() == old(self).spec_seq()
                },
            },
            old(self).can_append(buf@.len() as int) ==> r is Ok,
    {
        if self.seq == u64::MAX || buf.len() > usize::MAX - 8 {
            return Err(Error::AppendWalDataFailed);
        }
        let v = self.seq + 1;
        let payload = Payload::new(v, buf).encode();
        let n = self.logs.len();
        let ghost segs = self.segments();
        let last_version = self.logs[n - 1].version;
        let last_size = self.logs[n - 1].data.len();
        let over_size = last_size as u64 > self.file_max_size || payload.len() as u64
            > self.file_max_size - last_size as u64;
        let too_old = self.rotation_live_time > 0 && now > self.rotation_time && now
            - self.rotation_time > self.rotation_live_time;
        assert(segs[n - 1] == (last_version, self.logs@[n - 1].data@));
        if last_version < v && (over_size || too_old) {
            let mut fresh = Wlog::new(v, Vec::new());
            match fresh.append(&payload) {
                Ok(()) => {},
                Err(e) => {
                    return Err(e);
                },
            }
            self.logs.push(fresh);
            self.rotation_time = now;
            self.seq = v;
            assert(self.segments() =~= segs.push((v, frame(0, payload@, true))));
        } else {
            let mut active = self.logs.pop().unwrap();
            match active.append(&payload) {
                Ok(()) => {},
                Err(e) => {
                    self.logs.push(active);
                    assert(self.segments() =~= segs);
                    return Err(e);
                },
            }
            self.logs.push(active);
            self.seq = v;
            assert(self.segments() =~= segs.update(
                n - 1,
                (segs[n - 1].0, segs[n - 1].1 + frame(segs[n - 1].1.len() as int, payload@, true)),
            ));
        }
        Ok(v)
    }

    /// Appends `buf` as the record with the next version, rotating by the
    /// wall clock; returns the version.
    pub fn append(&mut self, buf: &Vec<u8>) -> (r: Result<u64, Error>)
        requires
            old(self).wf(),
        ensures
            final(self).wf(),
            final(self).spec_file_max_size() == old(self).spec_file_max_size(),
            final(self).spec_rotation_live_time() == old(self).spec_rotation_live_time(),
            match r {
                Ok(v) => {
                    &&& v == old(self).spec_seq() + 1
                    &&& final(self).spec_seq() == v
                    &&& exists|now: u64|
                        final(self).segments() == #[trigger] segs_after_append(
                            old(self).segments(),
                            payload_bytes(buf@, v),
                            v,
                            old(self).spec_file_max_size(),
                            old(self).spec_rotation_live_time(),
                            old(self).spec_rotation_time(),
                            now,
                        )
                },
                Err(e) => e == Error::AppendWalDataFailed && final(self).segments() == old(
                    self,
                ).segments() && final(self).spec_seq() == old(self).spec_seq(),
            },
            old(self).can_append(buf@.len() as int) ==> r is Ok,
    {
        let now = crate::clock::now_secs();
        self.append_at(buf, now)
    }

    /// The payloads of every segment whose start is in `[min_version,
    /// max_version]` (`max_version == 0`: no upper bound), in order.
    pub fn reader(&self, min_version: u64, max_version: u64) -> (r: Vec<Payload>)
        ensures
            r@.map_values(|p: Payload| (p.data@, p.version)) == read_range(
                self.segments(),
                min_version,
                max_version,
            ),
    {
        let mut out: Vec<Payload> = Vec::new();
        let mut i: usize = 0;
        let ghost segs = self.segments();
        assert(segs.skip(0) =~= segs);
        assert(out@.map_values(|p: Payload| (p.data@, p.version)) =~= Seq::empty());
        while i < self.logs.len()
            invariant
                i <= self.logs@.len(),
                segs == segs_view(self.logs@),
                out@.map_values(|p: Payload| (p.data@, p.version)) + read_range(
                    segs.skip(i as int),
                    min_version,
                    max_version,
                ) == read_range(segs, min_version, max_version),
            decreases self.logs@.len() - i,
        {
            let ghost before = out@.map_values(|p: Payload| (p.data@, p.version));
            let w = &self.logs[i];
            assert(segs.skip(i as int)[0] == (w.version, w.data@));
            assert(segs.skip(i as int).skip(1) =~= segs.skip(i + 1));
            if min_version <= w.version && (max_version == 0 || w.version <= max_version) {
                let records = w.read_all();
                let mut k: usize = 0;
                assert(views(records@).skip(0) =~= views(records@));
                while k < records.len()
                    invariant
                        k <= records@.len(),
                        out@.map_values(|p: Payload| (p.data@, p.version)) + payloads_of(
                            views(records@).skip(k as int),
                        ) == before + payloads_of(views(records@)),
                    decreases records@.len() - k,
                {
                    let ghost mid = out@.map_values(|p: Payload| (p.data@, p.version));
                    assert(views(records@).skip(k as int).skip(1) =~= views(records@).skip(
                        k + 1,
                    ));
                    if records[k].len() >= 8 {
                        out.push(Payload::decode(&records[k]));
                        assert(out@.map_values(|p: Payload| (p.data@, p.version)) =~= mid.push(
                            payloads_of(views(records@).skip(k as int))[0],
                        ));
                    }
                    k = k + 1;
                }
                assert(views(records@).skip(records@.len() as int) =~= Seq::<Seq<u8>>::empty());
            }
            i = i + 1;
        }
        assert(segs.skip(i as int) =~= Seq::<(u64, Seq<u8>)>::empty());
        out
    }

    /// Drops every segment and starts over with one empty segment at
    /// version 0; returns the starts of the dropped segments.
    pub fn truncate_all(&mut self) -> (r: Vec<u64>)
        requires
            old(self).wf(),
        ensures
            final(self).wf(),
            final(self).spec_seq() == 0,
            final(self).segments() == seq![(0u64, Seq::<u8>::empty())],
            r@.len() == old(self).segments().len(),
            forall|i: int| 0 <= i < r@.len() ==> r@[i] == old(self).segments()[i].0,
            final(self).spec_file_max_size() == old(self).spec_file_max_size(),
            final(self).spec_rotation_live_time() == old(self).spec_rotation_live_time(),
    {
        let dropped = self.versions();
        let mut logs: Vec<Wlog> = Vec::new();
        logs.push(Wlog::new(0, Vec::new()));
        self.logs = logs;
        self.seq = 0;
        self.rotation_time = crate::clock::now_secs();
        assert(self.segments() =~= seq![(0u64, Seq::<u8>::empty())]);
        dropped
    }

    /// Retires every segment but the active one whose start is below
    /// `lt_version`, first sealing the active segment (a new empty one takes
    /// its place) when it starts no later than `lt_version` and holds data.
    /// Returns the starts of the retired segments, ascending.
    pub fn checked_version(&mut self, lt_version: u64) -> (r: Vec<u64>)
        requires
            old(self).wf(),
        ensures
            final(self).wf(),
            final(self).spec_seq() == old(self).spec_seq(),
            r@.len() < sealed_segments(old(self).segments(), old(self).spec_seq(), lt_version).len(),
            final(self).segments() == sealed_segments(
                old(self).segments(),
                old(self).spec_seq(),
                lt_version,
            ).skip(r@.len() as int),
            forall|i: int|
                #![trigger r@[i]]
                0 <= i < r@.len() ==> r@[i] == sealed_segments(
                    old(self).segments(),
                    old(self).spec_seq(),
                    lt_version,
                )[i].0 && sealed_segments(
                    old(self).segments(),
                    old(self).spec_seq(),
                    lt_version,
                )[i].0 < lt_version,
            r@.len() == sealed_segments(old(self).segments(), old(self).spec_seq(), lt_version).len()
                - 1 || sealed_segments(old(self).segments(), old(self).spec_seq(), lt_version)[r@.len() as int].0
                >= lt_version,
    {
        let ghost s = self.segments();
        let n = self.logs.len();
        let last_version = self.logs[n - 1].version;
        let has_data = self.logs[n - 1].data.len() > 0;
        if last_version <= lt_version && has_data && last_version < self.seq {
            self.logs.push(Wlog::new(self.seq, Vec::new()));
            self.rotation_time = crate::clock::now_secs();
            assert(self.segments() =~= s.push((self.seq, Seq::<u8>::empty())));
        }
        assert(self.segments() == sealed_segments(s, old(self).seq, lt_version));
        self.retire_below(lt_version)
    }

    /// Removes the segments but the last whose start is below `lt_version`,
    /// from the first on; returns their starts.
    fn retire_below(&mut self, lt_version: u64) -> (r: Vec<u64>)
        requires
            old(self).wf(),
        ensures
            final(self).wf(),
            final(self).spec_seq() == old(self).spec_seq(),
            r@.len() < old(self).segments().len(),
            final(self).segments() == old(self).segments().skip(r@.len() as int),
            forall|i: int| 0 <= i < r@.len() ==> (#[trigger] r@[i]) == old(self).segments()[i].0,
            forall|i: int| 0 <= i < r@.len() ==> (#[trigger] old(self).segments()[i]).0 < lt_version,
            r@.len() == old(self).segments().len() - 1 || old(self).segments()[r@.len() as int].0
                >= lt_version,
    {
        let ghost sealed = self.segments();
        let mut out: Vec<u64> = Vec::new();
        assert(sealed.skip(0) =~= sealed);
        while self.logs.len() > 1 && self.logs[0].version < lt_version
            invariant
                self.logs@.len() >= 1,
                self.seq == old(self).seq,
                self.wf(),
                sealed.len() == out@.len() + self.logs@.len(),
                out@.len() < sealed.len(),
                self.segments() == sealed.skip(out@.len() as int),
                forall|i: int|
                    #![trigger out@[i]]
                    0 <= i < out@.len() ==> out@[i] == sealed[i].0 && sealed[i].0 < lt_version,
            decreases self.logs@.len(),
        {
            let ghost before = self.segments();
            assert(before[0].0 == self.logs@[0].version);
            let w = self.logs.remove(0);
            out.push(w.version);
            assert(self.segments() =~= before.skip(1));
            assert(before.skip(1) =~= sealed.skip(out@.len() as int));
        }
        proof {
            if self.logs@.len() > 1 {
                assert(self.segments()[0].0 == self.logs@[0].version);
                assert(sealed.skip(out@.len() as int)[0] == sealed[out@.len() as int]);
            }
            assert(sealed == old(self).segments());
            assert forall|i: int| 0 <= i < out@.len() implies (#[trigger] old(self).segments()[i]).0
                < lt_version by {
                assert(out@[i] == sealed[i].0);
            }
        }
        out
    }
}

/// The segments once the active one is sealed for a checkpoint at
/// `lt_version`: a new empty segment named by the last version `seq` follows
/// it when it starts no later than `lt_version`, holds data and starts before
/// `seq` (a segment already named `seq` stays active).
pub open spec fn sealed_segments(s: Seq<(u64, Seq<u8>)>, seq: u64, lt_version: u64) -> Seq<(u64, Seq<u8>)> {
    let last = s[s.len() - 1];
    if last.0 <= lt_version && last.1.len() > 0 && last.0 < seq {
        s.push((seq, Seq::<u8>::empty()))
    } else {
        s
    }
}

/// Versions that successive appends to one log return go up by one.
pub proof fn lemma_versions_consecutive(a: Wal, b: Wal, c: Wal, v1: u64, v2: u64)
    requires
        v1 == a.spec_seq() + 1,
        b.spec_seq() == v1,
        v2 == b.spec_seq() + 1,
        c.spec_seq() == v2,
    ensures
        v2 == v1 + 1,
        v1 < v2,
{
}

} // verus!
