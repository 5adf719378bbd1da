//! Records: the entries that a block's payload is made of.

use vstd::prelude::*;
use crate::block::BlkNum;
use crate::bytes::{
    byte_value, lemma_le_u16_bytes, le_bytes_u16, le_u16_at, le_u32_at, read_le_u16, read_le_u32,
    write_le_u16,
};
use crate::key::{find_terminator, value_start};
use crate::{RecordError, ValueError};

verus! {

/// The number of bytes that a record's header takes.
pub const REC_HDR_SIZE: usize = 4;

/// The size of the sentinel record that ends an index block.
pub const STAR_REC_SIZE: u16 = 8;

/// The header in front of every record.
#[derive(Debug, Clone, Copy, PartialEq, Eq, Structural)]
pub struct RecHdr {
    /// The size of the record, header included.
    pub rsiz: u16,
    /// How many leading bytes the key shares with the key of the record before.
    pub cmpc: u8,
    /// Not used.
    pub cmpc2: u8,
}

impl RecHdr {
    /// The size of the record as a number.
    pub open spec fn size(self) -> int {
        self.rsiz as int
    }

    /// The compression count as a number.
    pub open spec fn shared(self) -> int {
        byte_value(self.cmpc)
    }

    /// The header marks the sentinel record of an index block.
    pub open spec fn is_star(self) -> bool {
        self.rsiz == STAR_REC_SIZE
    }

    /// The header that the first four bytes of `bytes` hold.
    pub open spec fn decode(bytes: Seq<u8>) -> RecHdr {
        RecHdr { rsiz: le_u16_at(bytes, 0), cmpc: bytes[2], cmpc2: bytes[3] }
    }

    /// The four bytes that hold the header.
    pub open spec fn encode(self) -> Seq<u8> {
        le_bytes_u16(self.rsiz).push(self.cmpc).push(self.cmpc2)
    }

    /// Reads the header that `bytes` starts with.
    pub fn from_bytes(bytes: &[u8]) -> (r: Option<RecHdr>)
        ensures
            bytes@.len() < REC_HDR_SIZE ==> r is None,
            bytes@.len() >= REC_HDR_SIZE ==> r == Some(RecHdr::decode(bytes@)),
    {
        if bytes.len() < REC_HDR_SIZE {
            return None;
        }
        Some(RecHdr { rsiz: read_le_u16(bytes, 0), cmpc: bytes[2], cmpc2: bytes[3] })
    }

    /// Writes the header as it lies in a block.
    pub fn to_bytes(&self) -> (out: Vec<u8>)
        ensures
            out@ == self.encode(),
    {
        let mut out: Vec<u8> = Vec::new();
        write_le_u16(&mut out, self.rsiz);
        out.push(self.cmpc);
        out.push(self.cmpc2);
        assert(out@ =~= self.encode());
        out
    }
}

/// A record as plain values: its header and its payload.
pub struct RecView {
    pub header: RecHdr,
    pub data: Seq<u8>,
}

/// A compressed record as it lies in a block.
#[derive(Debug, Clone, Copy)]
pub struct RawRec<'a> {
    pub header: RecHdr,
    pub data: &'a [u8],
    pub offset: usize,
}

/// An expanded record: its full key and its value.
#[derive(Debug, Clone, Copy)]
pub struct Rec<'a> {
    pub key: &'a [u8],
    pub data: &'a [u8],
}

impl<'a> View for RawRec<'a> {
    type V = RecView;

    open spec fn view(&self) -> RecView {
        RecView { header: self.header, data: self.data@ }
    }
}

/// `rest` starts with a whole record: a header, and a size in it that covers
/// the header and does not reach past the end of `rest`.
pub open spec fn record_fits(rest: Seq<u8>) -> bool {
    &&& rest.len() >= REC_HDR_SIZE
    &&& REC_HDR_SIZE <= RecHdr::decode(rest).size() <= rest.len()
}

/// The record that `rest` starts with.
pub open spec fn first_record(rest: Seq<u8>) -> RecView
    recommends
        record_fits(rest),
{
    RecView {
        header: RecHdr::decode(rest),
        data: rest.subrange(REC_HDR_SIZE as int, RecHdr::decode(rest).size()),
    }
}

/// What follows the first record in `rest`.
pub open spec fn after_first_record(rest: Seq<u8>) -> Seq<u8>
    recommends
        record_fits(rest),
{
    rest.skip(RecHdr::decode(rest).size())
}

/// The block that the last four bytes of a record's payload name, or
/// `Unknown` where the payload is shorter than that.
pub open spec fn pointer_of(data: Seq<u8>) -> BlkNum {
    if data.len() >= 4 {
        BlkNum::Block(le_u32_at(data, data.len() - 4) as usize)
    } else {
        BlkNum::Unknown
    }
}

/// The records that `rest` holds, in their order, up to its end or to the
/// first place where no whole record starts.
pub open spec fn records_of(rest: Seq<u8>) -> Seq<RecView>
    decreases rest.len(),
{
    if record_fits(rest) {
        seq![first_record(rest)] + records_of(after_first_record(rest))
    } else {
        Seq::empty()
    }
}

/// Reads the record that `rest` starts with, `offset` being where `rest`
/// starts in its block.
///
/// Fails with `TooSmall` where `rest` is too short for a header, or the size
/// in the header is smaller than the header or larger than `rest`.
pub fn record_header<'a>(rest: &'a [u8], offset: usize) -> (r: Result<(&'a [u8], RawRec<'a>), ValueError>)
    ensures
        record_fits(rest@) ==> r is Ok && r->Ok_0.0@ == after_first_record(rest@) && r->Ok_0.1@
            == first_record(rest@) && r->Ok_0.1.offset == offset,
        !record_fits(rest@) ==> r == Err::<(&'a [u8], RawRec<'a>), ValueError>(
            ValueError::RecordError(RecordError::TooSmall),
        ),
{
    let header = match RecHdr::from_bytes(rest) {
        Some(h) => h,
        None => { return Err(ValueError::RecordError(RecordError::TooSmall)); },
    };
    let size: usize = usize::from(header.rsiz);
    if size < REC_HDR_SIZE || size > rest.len() {
        return Err(ValueError::RecordError(RecordError::TooSmall));
    }
    let data = vstd::slice::slice_subrange(rest, REC_HDR_SIZE, size);
    let tail = vstd::slice::slice_subrange(rest, size, rest.len());
    Ok((tail, RawRec { header, data, offset }))
}

impl<'a> RawRec<'a> {
    /// The block that the record points to: the last four bytes of its
    /// payload, read as a little-endian number.
    pub fn ptr(&self) -> (r: BlkNum)
        ensures
            r == pointer_of(self.data@),
    {
        let len: usize = self.data.len();
        if len >= 4 {
            let block: u32 = read_le_u32(self.data, len - 4);
            BlkNum::Block(block as usize)
        } else {
            BlkNum::Unknown
        }
    }

    /// The value of the record: what follows the key's terminator in its
    /// payload.
    pub fn data(&self) -> (r: &'a [u8])
        ensures
            r@ == self.data@.skip(value_start(self.data@)),
    {
        let len: usize = self.data.len();
        match find_terminator(self.data) {
            Some(at) => vstd::slice::slice_subrange(self.data, at + 2, len),
            None => if len == 0 {
                self.data
            } else {
                vstd::slice::slice_subrange(self.data, len - 1, len)
            },
        }
    }
}

/// Where record `i` of `rest` starts in `rest`.
pub open spec fn record_start(rest: Seq<u8>, i: int) -> int
    decreases i,
{
    if i <= 0 {
        0
    } else {
        RecHdr::decode(rest).size() + record_start(after_first_record(rest), i - 1)
    }
}

/// Every record of a payload has a size that covers its header, and lies
/// entirely within the payload: its header and its payload are the bytes of
/// the payload from where it starts to where its size says it ends.
pub proof fn lemma_records_fit(rest: Seq<u8>, i: int)
    requires
        0 <= i < records_of(rest).len(),
    ensures
        records_of(rest)[i].header.size() >= REC_HDR_SIZE,
        0 <= record_start(rest, i),
        record_start(rest, i) + records_of(rest)[i].header.size() <= rest.len(),
        records_of(rest)[i].header == RecHdr::decode(rest.skip(record_start(rest, i))),
        records_of(rest)[i].data == rest.subrange(
            record_start(rest, i) + REC_HDR_SIZE,
            record_start(rest, i) + records_of(rest)[i].header.size(),
        ),
    decreases i,
{
    let tail = after_first_record(rest);
    let size = RecHdr::decode(rest).size();
    if i == 0 {
        assert(rest.skip(0) =~= rest);
    } else {
        assert(records_of(rest)[i] == records_of(tail)[i - 1]);
        lemma_records_fit(tail, i - 1);
        let at = record_start(tail, i - 1);
        assert(tail.skip(at) =~= rest.skip(size + at));
        assert(tail.subrange(at + REC_HDR_SIZE, at + records_of(tail)[i - 1].header.size())
            =~= rest.subrange(
            size + at + REC_HDR_SIZE,
            size + at + records_of(tail)[i - 1].header.size(),
        ));
    }
}

/// An empty payload holds no records.
pub proof fn lemma_empty_payload_has_no_records()
    ensures
        records_of(Seq::<u8>::empty()).len() == 0,
{
}

/// A payload that one record fills holds that record and no other.
pub proof fn lemma_single_record(rest: Seq<u8>)
    requires
        record_fits(rest),
        RecHdr::decode(rest).size() == rest.len(),
    ensures
        records_of(rest) == seq![first_record(rest)],
{
    assert(after_first_record(rest).len() == 0);
    assert(records_of(after_first_record(rest)) =~= Seq::<RecView>::empty());
    assert(records_of(rest) =~= seq![first_record(rest)]);
}

/// Decoding a record header and encoding it again gives the same four bytes.
pub proof fn lemma_rec_hdr_bytes_round_trip(bytes: Seq<u8>)
    requires
        bytes.len() >= REC_HDR_SIZE,
    ensures
        RecHdr::decode(bytes).encode() == bytes.subrange(0, REC_HDR_SIZE as int),
{
    lemma_le_u16_bytes(bytes, 0);
    assert(bytes.subrange(0, 2).push(bytes[2]).push(bytes[3]) =~= bytes.subrange(
        0,
        REC_HDR_SIZE as int,
    ));
}

/// Encoding a record header and decoding the bytes gives the same header.
pub proof fn lemma_rec_hdr_round_trip(h: RecHdr)
    ensures
        h.encode().len() == REC_HDR_SIZE,
        RecHdr::decode(h.encode()) == h,
{
}

} // verus!
