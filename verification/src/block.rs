//! Blocks: the fixed-size regions that the database file is made of, and the
//! cursor that walks the records of one.

use vstd::prelude::*;
use crate::bytes::{
    lemma_le_at_subrange, lemma_le_u16_bytes, lemma_le_u32_bytes, lemma_le_u64_bytes,
    lemma_le_u16_round_trip, lemma_le_u32_round_trip, lemma_le_u64_round_trip, le_bytes_u16,
    le_bytes_u32, le_bytes_u64, le_u16_at, le_u32_at, le_u64_at, read_le_u16, read_le_u32,
    read_le_u64, write_le_u16, write_le_u32, write_le_u64,
};
use crate::key::{
    agree_until, append_bytes, common_prefix_len, compare_spec, expanded_key, find_terminator,
    has_terminator, keep_prefix, key_len, key_room, lemma_terminator_from, lex_order, match_key,
    overwrite, unterminated_key, State,
};
use crate::rec::{
    after_first_record, first_record, record_fits, record_header, RawRec, REC_HDR_SIZE,
};
use crate::{RecordError, SortOrder, ValueError};

verus! {

/// The number of bytes that a block's header takes.
pub const BLK_HDR_SIZE: usize = 16;

/// The number of a block, where it is known.
#[derive(Debug, Clone, Copy, PartialEq, Eq, Structural)]
pub enum BlkNum {
    Unknown,
    NewBlock,
    Block(usize),
}

/// The role of a block, which its place in the tree gives it.
#[derive(Debug, Clone, Copy, PartialEq, Eq, Structural)]
pub enum BlkType {
    DirectoryTree,
    IndexBlock,
    DataBlock,
    LocalBitmap,
    MasterBitmap,
}

/// The header in front of every block.
#[derive(Debug, Clone, Copy, PartialEq, Eq, Structural)]
pub struct BlkHdr {
    /// The version of the block format.
    pub bver: u16,
    /// Not used.
    pub filler: u8,
    /// The level of the block in its tree; 0 is a leaf.
    pub levl: u8,
    /// The number of bytes in use, header included.
    pub bsiz: u32,
    /// The transaction number of the last write.
    pub tn: u64,
}

impl BlkHdr {
    /// The header that the first sixteen bytes of `bytes` hold.
    pub open spec fn decode(bytes: Seq<u8>) -> BlkHdr {
        BlkHdr {
            bver: le_u16_at(bytes, 0),
            filler: bytes[2],
            levl: bytes[3],
            bsiz: le_u32_at(bytes, 4),
            tn: le_u64_at(bytes, 8),
        }
    }

    /// The sixteen bytes that hold the header.
    pub open spec fn encode(self) -> Seq<u8> {
        le_bytes_u16(self.bver).push(self.filler).push(self.levl) + le_bytes_u32(self.bsiz)
            + le_bytes_u64(self.tn)
    }

    /// Reads the header that `bytes` starts with.
    pub fn from_bytes(bytes: &[u8]) -> (r: Option<BlkHdr>)
        ensures
            bytes@.len() < BLK_HDR_SIZE ==> r is None,
            bytes@.len() >= BLK_HDR_SIZE ==> r == Some(BlkHdr::decode(bytes@)),
    {
        if bytes.len() < BLK_HDR_SIZE {
            return None;
        }
        Some(
            BlkHdr {
                bver: read_le_u16(bytes, 0),
                filler: bytes[2],
                levl: bytes[3],
                bsiz: read_le_u32(bytes, 4),
                tn: read_le_u64(bytes, 8),
            },
        )
    }

    /// Writes the header as it lies in a block.
    pub fn to_bytes(&self) -> (out: Vec<u8>)
        ensures
            out@ == self.encode(),
    {
        let mut out: Vec<u8> = Vec::new();
        write_le_u16(&mut out, self.bver);
        out.push(self.filler);
        out.push(self.levl);
        write_le_u32(&mut out, self.bsiz);
        write_le_u64(&mut out, self.tn);
        assert(out@ =~= self.encode());
        out
    }
}

/// Encoding a block header and decoding the bytes gives the same header.
pub proof fn lemma_blk_hdr_round_trip(h: BlkHdr)
    ensures
        h.encode().len() == BLK_HDR_SIZE,
        BlkHdr::decode(h.encode()) == h,
{
    lemma_le_u16_round_trip(h.bver);
    lemma_le_u32_round_trip(h.bsiz);
    lemma_le_u64_round_trip(h.tn);
    let bytes = h.encode();
    let size = le_bytes_u32(h.bsiz);
    let tn = le_bytes_u64(h.tn);
    assert(bytes.subrange(4, 8) =~= size);
    assert(bytes.subrange(8, 16) =~= tn);
    lemma_le_at_subrange(bytes, 4, 8);
    lemma_le_at_subrange(bytes, 8, 16);
}

/// Decoding a block header and encoding it again gives the same sixteen
/// bytes.
pub proof fn lemma_blk_hdr_bytes_round_trip(bytes: Seq<u8>)
    requires
        bytes.len() >= BLK_HDR_SIZE,
    ensures
        BlkHdr::decode(bytes).encode() == bytes.subrange(0, BLK_HDR_SIZE as int),
{
    lemma_le_u16_bytes(bytes, 0);
    lemma_le_u32_bytes(bytes, 4);
    lemma_le_u64_bytes(bytes, 8);
    let head = bytes.subrange(0, 2).push(bytes[2]).push(bytes[3]);
    assert(head =~= bytes.subrange(0, 4));
    assert(bytes.subrange(0, 4) + bytes.subrange(4, 8) + bytes.subrange(8, 16) =~= bytes.subrange(
        0,
        BLK_HDR_SIZE as int,
    ));
}

/// A block as plain values: its header, the bytes in use behind the header,
/// its number and its role.
pub struct BlkView {
    pub header: BlkHdr,
    pub data: Seq<u8>,
    pub blk_num: BlkNum,
    pub typ: BlkType,
}

/// A database block, trimmed to exactly fit the data in use.
#[derive(Debug, Clone, Copy)]
pub struct Blk<'a> {
    header: BlkHdr,
    data: &'a [u8],
    blk_num: BlkNum,
    typ: BlkType,
}

impl<'a> View for Blk<'a> {
    type V = BlkView;

    closed spec fn view(&self) -> BlkView {
        BlkView { header: self.header, data: self.data@, blk_num: self.blk_num, typ: self.typ }
    }
}

/// `bytes` holds a block: a header, and a size in it that covers the header
/// and does not reach past the end of `bytes`.
pub open spec fn block_fits(bytes: Seq<u8>) -> bool {
    &&& bytes.len() >= BLK_HDR_SIZE
    &&& BLK_HDR_SIZE <= BlkHdr::decode(bytes).bsiz <= bytes.len()
}

/// The block that `bytes` holds.
pub open spec fn block_of(bytes: Seq<u8>, blk_num: usize, typ: BlkType) -> BlkView
    recommends
        block_fits(bytes),
{
    BlkView {
        header: BlkHdr::decode(bytes),
        data: bytes.subrange(BLK_HDR_SIZE as int, BlkHdr::decode(bytes).bsiz as int),
        blk_num: BlkNum::Block(blk_num),
        typ,
    }
}

/// Parses the raw bytes of block `blk_num`, which the caller knows to have
/// the role `typ`.
///
/// Fails with `TooSmall` where `data` is too short for a block header, and
/// with `MalformedBlock` where the size in the header is smaller than the
/// header or larger than `data`.
pub fn get_block<'a>(data: &'a [u8], blk_num: usize, typ: BlkType) -> (r: Result<Blk<'a>, ValueError>)
    ensures
        block_fits(data@) ==> r is Ok && r->Ok_0@ == block_of(data@, blk_num, typ),
        data@.len() < BLK_HDR_SIZE ==> r == Err::<Blk<'a>, ValueError>(
            ValueError::RecordError(RecordError::TooSmall),
        ),
        data@.len() >= BLK_HDR_SIZE && !block_fits(data@) ==> r == Err::<Blk<'a>, ValueError>(
            ValueError::MalformedBlock,
        ),
{
    let header = match BlkHdr::from_bytes(data) {
        Some(h) => h,
        None => { return Err(ValueError::RecordError(RecordError::TooSmall)); },
    };
    if header.bsiz < BLK_HDR_SIZE as u32 || header.bsiz as u64 > data.len() as u64 {
        return Err(ValueError::MalformedBlock);
    }
    let used: usize = header.bsiz as usize;
    let payload = vstd::slice::slice_subrange(data, BLK_HDR_SIZE, used);
    Ok(Blk { header, data: payload, blk_num: BlkNum::Block(blk_num), typ })
}

impl<'a> Blk<'a> {
    /// The payload was cut from bytes that held the header in front of it,
    /// so offsets into the block fit the machine's word.
    #[verifier::type_invariant]
    spec fn inv(self) -> bool {
        self.data@.len() + BLK_HDR_SIZE <= usize::MAX
    }

    /// The header of the block.
    pub fn header(&self) -> (h: &BlkHdr)
        ensures
            *h == self@.header,
    {
        &self.header
    }

    /// The bytes in use behind the header.
    pub fn data(&self) -> (d: &'a [u8])
        ensures
            d@ == self@.data,
    {
        self.data
    }

    /// The number of the block.
    pub fn blk_num(&self) -> (n: BlkNum)
        ensures
            n == self@.blk_num,
    {
        self.blk_num
    }

    /// The role of the block.
    pub fn typ(&self) -> (t: BlkType)
        ensures
            t == self@.typ,
    {
        self.typ
    }
}

/// A cursor as plain values: the payload of its block, what of it is still
/// to be read, and where in the block that starts.
pub struct CursorView {
    pub payload: Seq<u8>,
    pub remaining: Seq<u8>,
    pub offset: int,
}

impl CursorView {
    /// What is still to be read is the end of the payload, and starts at the
    /// cursor's offset.
    pub open spec fn wf(self) -> bool {
        &&& BLK_HDR_SIZE <= self.offset <= BLK_HDR_SIZE + self.payload.len()
        &&& self.remaining == self.payload.skip(self.offset - BLK_HDR_SIZE)
    }
}

/// Walks the records of one block, first to last.
pub struct RecordCursor<'a> {
    remaining_data: &'a [u8],
    current_offset: usize,
    blk: &'a Blk<'a>,
}

impl<'a> View for RecordCursor<'a> {
    type V = CursorView;

    closed spec fn view(&self) -> CursorView {
        CursorView {
            payload: self.blk@.data,
            remaining: self.remaining_data@,
            offset: self.current_offset as int,
        }
    }
}

impl<'a> RecordCursor<'a> {
    /// The cursor stands within the payload of its block.
    #[verifier::type_invariant]
    spec fn inv(self) -> bool {
        &&& self@.wf()
        &&& self.blk.inv()
    }

    /// A cursor in front of the first record of `block`.
    pub fn new(block: &'a Blk<'a>) -> (c: RecordCursor<'a>)
        ensures
            c@.wf(),
            c@.payload == block@.data,
            c@.remaining == block@.data,
            c@.offset == BLK_HDR_SIZE,
    {
        proof {
            use_type_invariant(block);
            assert(block.data@.skip(0) =~= block.data@);
        }
        RecordCursor { remaining_data: block.data, current_offset: BLK_HDR_SIZE, blk: block }
    }

    /// Compares `a` to `b` in lexicographic byte order: `SortsBefore` where
    /// `a` comes before `b`, `SortsAfter` where it comes after, `SortsEqual`
    /// where they are the same string.
    pub fn compare_strings(a: &[u8], b: &[u8]) -> (r: SortOrder)
        ensures
            r == lex_order(a@, b@),
    {
        let mut i: usize = 0;
        while i < a.len() && i < b.len()
            invariant
                i <= a@.len(),
                i <= b@.len(),
                agree_until(a@, b@, i as int) == common_prefix_len(a@, b@),
            decreases a@.len() - i,
        {
            if a[i] < b[i] {
                return SortOrder::SortsBefore;
            } else if a[i] > b[i] {
                return SortOrder::SortsAfter;
            }
            i += 1;
        }
        if i < a.len() {
            return SortOrder::SortsAfter;
        }
        if i < b.len() {
            return SortOrder::SortsBefore;
        }
        SortOrder::SortsEqual
    }

    /// Writes the full key of `record` into `key`, which holds the full key
    /// of the record before it. Must be called for every record in turn.
    ///
    /// Fails with `NoTerminatingCharacter` where the payload of `record`
    /// holds no terminator. The key is then what the search for the
    /// terminator leaves of it: as long as the room that the record gives it,
    /// with the payload bytes that the search has passed written into it.
    ///
    /// No exit leaves the key of a record that the cursor yields longer than
    /// that room.
    pub fn expand_key(record: &RawRec, key: &mut Vec<u8>) -> (r: Result<(), ValueError>)
        ensures
            has_terminator(record@.data) ==> r is Ok && final(key)@ == expanded_key(
                old(key)@,
                record@,
            ),
            !has_terminator(record@.data) ==> r == Err::<(), ValueError>(
                ValueError::RecordError(RecordError::NoTerminatingCharacter),
            ) && final(key)@ == unterminated_key(old(key)@, record@),
            record@.data.len() <= record@.header.size() ==> final(key)@.len() <= key_room(record@),
    {
        let shared: usize = usize::from(record.header.cmpc);
        let end: usize = match find_terminator(record.data) {
            Some(at) => at + 2,
            None => {
                let room: usize = shared + 2 + usize::from(record.header.rsiz);
                let passed: usize = if record.data.len() == 0 {
                    0
                } else {
                    record.data.len() - 1
                };
                keep_prefix(key, room);
                overwrite(key, shared, record.data, passed);
                assert(key@ =~= unterminated_key(old(key)@, record@));
                return Err(ValueError::RecordError(RecordError::NoTerminatingCharacter));
            },
        };
        proof {
            lemma_terminator_from(record.data@, 0);
        }
        keep_prefix(key, shared);
        append_bytes(key, record.data, end);
        Ok(())
    }

    /// Classifies `record` against the goal of the scan `state`, and takes
    /// note in `state` of how much of the goal is matched now.
    pub fn compare(record: &RawRec, state: &mut State) -> (r: SortOrder)
        ensures
            (r, final(state)@) == compare_spec(record@, old(state)@),
    {
        if record.header.rsiz == 8 {
            return SortOrder::SortsAfter;
        }
        let shared: usize = usize::from(record.header.cmpc);
        if shared < state.compression {
            return SortOrder::SortsAfter;
        }
        if shared > state.compression {
            return SortOrder::SortsBefore;
        }
        match_key(record.data, key_len(record.data), state)
    }

    /// Reads the next record and moves behind it.
    ///
    /// Returns `None` at the end of the payload. Fails with `TooSmall`, and
    /// stays where it is, where what is left does not start with a whole
    /// record.
    pub fn next(&mut self) -> (r: Option<Result<RawRec<'a>, ValueError>>)
        ensures
            final(self)@.wf(),
            final(self)@.payload == old(self)@.payload,
            old(self)@.remaining.len() == 0 ==> r is None && final(self)@ == old(self)@,
            old(self)@.remaining.len() > 0 && !record_fits(old(self)@.remaining) ==> r == Some(
                Err::<RawRec<'a>, ValueError>(ValueError::RecordError(RecordError::TooSmall)),
            ) && final(self)@ == old(self)@,
            record_fits(old(self)@.remaining) ==> {
                &&& r is Some
                &&& r->Some_0 is Ok
                &&& r->Some_0->Ok_0@ == first_record(old(self)@.remaining)
                &&& r->Some_0->Ok_0.offset == old(self)@.offset
                &&& final(self)@.remaining == after_first_record(old(self)@.remaining)
                &&& final(self)@.offset == old(self)@.offset + r->Some_0->Ok_0.header.rsiz
            },
            r matches Some(Ok(rec)) ==> {
                &&& rec.header.rsiz >= REC_HDR_SIZE
                &&& rec.offset + rec.header.rsiz <= BLK_HDR_SIZE + old(self)@.payload.len()
                &&& rec.data@ == old(self)@.payload.subrange(
                    rec.offset - BLK_HDR_SIZE + REC_HDR_SIZE,
                    rec.offset - BLK_HDR_SIZE + rec.header.rsiz,
                )
            },
    {
        proof {
            use_type_invariant(&*self);
        }
        if self.remaining_data.len() == 0 {
            return None;
        }
        match record_header(self.remaining_data, self.current_offset) {
            Err(e) => Some(Err(e)),
            Ok((rest, rec)) => {
                let size: usize = usize::from(rec.header.rsiz);
                proof {
                    let skipped = self.current_offset - BLK_HDR_SIZE;
                    assert(self.blk@.data.skip(skipped).skip(size as int) =~= self.blk@.data.skip(
                        skipped + size,
                    ));
                    assert(rec.data@ =~= self.blk@.data.subrange(
                        skipped + REC_HDR_SIZE,
                        skipped + size,
                    ));
                }
                *self = RecordCursor {
                    remaining_data: rest,
                    current_offset: self.current_offset + size,
                    blk: self.blk,
                };
                Some(Ok(rec))
            },
        }
    }
}

} // verus!
