//! The database file as the engine sees it: what its header says of the
//! layout, where each block lies, and what the bitmaps say.

use vstd::prelude::*;
use crate::bitmap::{block_status, check_master, local_status, master_agrees};
use crate::block::{Blk, RecordCursor};
use crate::bytes::{le_i32_at, read_le_i32};
use crate::key::{ScanView, State};
use crate::lookup::{find_in, lookup_step, Lookup, LookupStep};
use crate::{LocalBitmapStatus, SortOrder, ValueError};

verus! {

/// The size in bytes of the units in which the header counts where the
/// first block starts.
pub const PHYSICAL_DATABASE_BLOCK_SIZE: i32 = 512;

/// The size in bytes of the master bitmap, which follows the file header.
pub const MASTER_MAP_SIZE: usize = 253952;

/// What the file header says of the layout of the file.
#[derive(Debug, Clone, Copy, PartialEq, Eq, Structural)]
pub struct FileHeader {
    /// The size of a block in bytes.
    pub blk_size: i32,
    /// Where block 0 starts, counted from 1 in units of 512 bytes.
    pub start_vbn: i32,
    /// The length of the master bitmap.
    pub master_map_len: i32,
}

/// Where the fields that the engine reads lie in the file header, as the
/// producer of the file lays it out: the size of the header, and the offset
/// of each field in it.
#[derive(Debug, Clone, Copy, PartialEq, Eq, Structural)]
pub struct HeaderLayout {
    pub size: usize,
    pub blk_size_at: usize,
    pub start_vbn_at: usize,
    pub master_map_len_at: usize,
}

impl HeaderLayout {
    /// Each field lies within the header.
    pub open spec fn fits(self) -> bool {
        &&& self.blk_size_at + 4 <= self.size
        &&& self.start_vbn_at + 4 <= self.size
        &&& self.master_map_len_at + 4 <= self.size
    }
}

impl FileHeader {
    /// What a file header laid out as `layout` says in `bytes`.
    pub open spec fn decode(bytes: Seq<u8>, layout: HeaderLayout) -> FileHeader {
        FileHeader {
            blk_size: le_i32_at(bytes, layout.blk_size_at as int),
            start_vbn: le_i32_at(bytes, layout.start_vbn_at as int),
            master_map_len: le_i32_at(bytes, layout.master_map_len_at as int),
        }
    }

    /// Reads from `bytes` the file header that they start with; `None` where
    /// `bytes` is shorter than the header, or a field does not lie within it.
    pub fn from_bytes(bytes: &[u8], layout: &HeaderLayout) -> (r: Option<FileHeader>)
        ensures
            r is Some <==> layout.fits() && layout.size <= bytes@.len(),
            r matches Some(fhead) ==> fhead == FileHeader::decode(bytes@, *layout),
    {
        let size: usize = layout.size;
        if bytes.len() < size || size < 4 {
            return None;
        }
        if layout.blk_size_at > size - 4 || layout.start_vbn_at > size - 4
            || layout.master_map_len_at > size - 4 {
            return None;
        }
        Some(
            FileHeader {
                blk_size: read_le_i32(bytes, layout.blk_size_at),
                start_vbn: read_le_i32(bytes, layout.start_vbn_at),
                master_map_len: read_le_i32(bytes, layout.master_map_len_at),
            },
        )
    }
}

/// An open database: its header and its master bitmap.
#[derive(Debug)]
pub struct Database {
    pub fhead: FileHeader,
    pub master_bitmap: [u8; MASTER_MAP_SIZE],
}

/// The byte of the file at which block `blk_num` starts.
pub open spec fn block_start(fhead: FileHeader, blk_num: int) -> int {
    (fhead.start_vbn - 1) * PHYSICAL_DATABASE_BLOCK_SIZE + fhead.blk_size * blk_num
}

/// The header describes a layout: the first block starts at a unit that
/// exists, and blocks have a size.
pub open spec fn layout_ok(fhead: FileHeader) -> bool {
    fhead.start_vbn >= 1 && fhead.blk_size >= 0
}

/// The bytes of block `blk_num` in a file that holds the bytes `file`; `None`
/// where the header describes no layout or the file ends before the block
/// does.
pub open spec fn block_in(fhead: FileHeader, file: Seq<u8>, blk_num: int) -> Option<Seq<u8>> {
    if layout_ok(fhead) && block_start(fhead, blk_num) + fhead.blk_size <= file.len() {
        Some(
            file.subrange(
                block_start(fhead, blk_num),
                block_start(fhead, blk_num) + fhead.blk_size,
            ),
        )
    } else {
        None
    }
}

/// Makes the error of a read that found the file to end before the block:
/// calls `std::io::Error::from` on `ErrorKind::UnexpectedEof`. Nothing is
/// claimed of the value.
#[verifier::external_body]
fn end_of_file() -> std::io::Error {
    std::io::Error::from(std::io::ErrorKind::UnexpectedEof)
}

impl Database {
    /// Reads block `blk_num` from the bytes `file` of the database file: the
    /// bytes of one block, from where the block starts. Fails where the
    /// header describes no layout or the file ends before the block does.
    pub fn get_block(&self, file: &[u8], blk_num: usize) -> (r: Result<Vec<u8>, std::io::Error>)
        ensures
            match block_in(self.fhead, file@, blk_num as int) {
                Some(block) => r is Ok && r->Ok_0@ == block,
                None => r is Err,
            },
    {
        let len: u64 = file.len() as u64;
        let at: u64 = match self.block_offset(blk_num) {
            Some(at) => at,
            None => {
                return Err(end_of_file());
            },
        };
        let size: u64 = self.fhead.blk_size as u64;
        if at > len || size > len - at {
            return Err(end_of_file());
        }
        let from: usize = at as usize;
        let to: usize = (at + size) as usize;
        Ok(vstd::slice::slice_to_vec(vstd::slice::slice_subrange(file, from, to)))
    }

    /// The byte of the file at which block `blk_num` starts; `None` where
    /// the header describes no layout or the place lies beyond what an
    /// offset can hold.
    pub fn block_offset(&self, blk_num: usize) -> (r: Option<u64>)
        ensures
            r is Some <==> layout_ok(self.fhead) && block_start(self.fhead, blk_num as int)
                <= u64::MAX,
            r matches Some(at) ==> at == block_start(self.fhead, blk_num as int),
    {
        if self.fhead.start_vbn < 1 || self.fhead.blk_size < 0 {
            return None;
        }
        let units: u128 = (self.fhead.start_vbn - 1) as u128;
        let size: u128 = self.fhead.blk_size as u128;
        let count: u128 = blk_num as u128;
        assert(size * count <= 0x8000_0000 * 0x1_0000_0000_0000_0000) by (nonlinear_arith)
            requires
                0 <= size <= 0x8000_0000,
                0 <= count <= 0x1_0000_0000_0000_0000,
        ;
        let at: u128 = units * 512 + size * count;
        if at > u64::MAX as u128 {
            None
        } else {
            Some(at as u64)
        }
    }

    /// What the local bitmap says of block `blk_num`; `bitmap` holds the
    /// bytes of the local bitmap block of its group.
    pub fn local_block_status(&self, bitmap: &[u8], blk_num: usize) -> (r: Result<
        LocalBitmapStatus,
        ValueError,
    >)
        ensures
            r == local_status(bitmap@, blk_num as int),
    {
        block_status(bitmap, blk_num)
    }

    /// Holds the master bitmap's entry of group `group` against the local
    /// bitmap block of that group, whose bytes `bitmap` holds.
    pub fn check_master_map(&self, group: usize, bitmap: &[u8]) -> (r: Result<(), ValueError>)
        ensures
            r == master_agrees(self.master_bitmap@, group as int, bitmap@),
    {
        check_master(self.master_bitmap.as_slice(), group, bitmap)
    }

    /// Takes the descent towards the data block of the key `item` one block
    /// further: `at` is where the descent stands, and `read` is what came of
    /// reading the block that it waits for. The descent starts at
    /// `Lookup::start()` and ends with `LookupStep::Found` or an error.
    ///
    /// A failed read ends the descent with its error.
    pub fn find_value_block(
        &self,
        at: Lookup,
        item: &[u8],
        read: Result<Vec<u8>, std::io::Error>,
    ) -> (r: Result<LookupStep, ValueError>)
        ensures
            match read {
                Ok(raw) => r == lookup_step(at, item@, raw@),
                Err(e) => r == Err::<LookupStep, ValueError>(ValueError::IoError(e)),
            },
    {
        let raw = match read {
            Ok(raw) => raw,
            Err(e) => {
                return Err(ValueError::IoError(e));
            },
        };
        at.step_on(item, raw.as_slice())
    }

    /// Searches `block` for `item` and returns its value.
    pub fn find_value(&self, item: &[u8], block: &Blk) -> (r: Result<Vec<u8>, ValueError>)
        ensures
            match find_in(block@.data, ScanView::fresh(item@)) {
                Ok(value) => r is Ok && r->Ok_0@ == value,
                Err(e) => r == Err::<Vec<u8>, ValueError>(e),
            },
    {
        let mut state = State::new(item);
        let mut cursor = RecordCursor::new(block);
        loop
            invariant
                cursor@.wf(),
                find_in(cursor@.remaining, state@) == find_in(block@.data, ScanView::fresh(item@)),
            decreases cursor@.remaining.len(),
        {
            let record = match cursor.next() {
                None => {
                    return Err(ValueError::SubscriptNotFound);
                },
                Some(Err(e)) => {
                    return Err(e);
                },
                Some(Ok(record)) => record,
            };
            match RecordCursor::compare(&record, &mut state) {
                SortOrder::SortsEqual => {
                    return Ok(vstd::slice::slice_to_vec(record.data()));
                },
                SortOrder::SortsAfter => {
                    return Err(ValueError::SubscriptNotFound);
                },
                SortOrder::SortsBefore => {},
            }
        }
    }
}

} // verus!
