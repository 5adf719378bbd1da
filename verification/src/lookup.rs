//! Point lookup: the scan of one block for a key, and the descent from the
//! root of the directory tree to the data block of a key, one block at a
//! time.

use vstd::prelude::*;
use crate::block::{
    block_fits, block_of, get_block, Blk, BlkNum, BlkType, RecordCursor, BLK_HDR_SIZE,
};
use crate::key::{compare_spec, value_start, ScanView, State};
use crate::rec::{after_first_record, first_record, pointer_of, record_fits};
use crate::{RecordError, SortOrder, ValueError};

verus! {

/// The value that the records in `rest` hold for the goal of `scan`.
///
/// The records are compared with the goal in turn. The first that sorts
/// equal gives its value. The search fails with `SubscriptNotFound` at the
/// first that sorts after the goal and at the end of the records, and with
/// `TooSmall` where no whole record starts.
pub open spec fn find_in(rest: Seq<u8>, scan: ScanView) -> Result<Seq<u8>, ValueError>
    decreases rest.len(),
{
    if rest.len() == 0 {
        Err(ValueError::SubscriptNotFound)
    } else if !record_fits(rest) {
        Err(ValueError::RecordError(RecordError::TooSmall))
    } else {
        let rec = first_record(rest);
        match compare_spec(rec, scan).0 {
            SortOrder::SortsEqual => Ok(rec.data.skip(value_start(rec.data))),
            SortOrder::SortsAfter => Err(ValueError::SubscriptNotFound),
            SortOrder::SortsBefore => find_in(after_first_record(rest), compare_spec(rec, scan).1),
        }
    }
}

/// The record that a descent follows: one that sorts after the goal or,
/// where `or_equal` allows it, equal to it.
pub open spec fn leads_on(order: SortOrder, or_equal: bool) -> bool {
    order == SortOrder::SortsAfter || (or_equal && order == SortOrder::SortsEqual)
}

/// The pointer of the first record in `rest` that leads on towards the goal
/// of `scan`; `None` where no record does, `TooSmall` where no whole record
/// starts before one is found.
pub open spec fn pick_in(rest: Seq<u8>, scan: ScanView, or_equal: bool) -> Result<
    Option<BlkNum>,
    ValueError,
>
    decreases rest.len(),
{
    if rest.len() == 0 {
        Ok(None)
    } else if !record_fits(rest) {
        Err(ValueError::RecordError(RecordError::TooSmall))
    } else {
        let rec = first_record(rest);
        if leads_on(compare_spec(rec, scan).0, or_equal) {
            Ok(Some(pointer_of(rec.data)))
        } else {
            pick_in(after_first_record(rest), compare_spec(rec, scan).1, or_equal)
        }
    }
}

/// Scans `block` for the record that leads on towards `goal`, and returns
/// its pointer.
pub fn pick_child(block: &Blk, goal: &[u8], or_equal: bool) -> (r: Result<Option<BlkNum>, ValueError>)
    ensures
        r == pick_in(block@.data, ScanView::fresh(goal@), or_equal),
{
    let mut state = State::new(goal);
    let mut cursor = RecordCursor::new(block);
    loop
        invariant
            cursor@.wf(),
            pick_in(cursor@.remaining, state@, or_equal) == pick_in(
                block@.data,
                ScanView::fresh(goal@),
                or_equal,
            ),
        decreases cursor@.remaining.len(),
    {
        let record = match cursor.next() {
            None => {
                return Ok(None);
            },
            Some(Err(e)) => {
                return Err(e);
            },
            Some(Ok(record)) => record,
        };
        let found = match RecordCursor::compare(&record, &mut state) {
            SortOrder::SortsAfter => true,
            SortOrder::SortsEqual => or_equal,
            SortOrder::SortsBefore => false,
        };
        if found {
            return Ok(Some(record.ptr()));
        }
    }
}

/// The first position at or after `i` where `item` holds a zero byte, or the
/// length of `item` where it holds none.
pub open spec fn zero_from(item: Seq<u8>, i: int) -> int
    decreases item.len() - i,
{
    if i < 0 || i >= item.len() {
        item.len() as int
    } else if item[i] == 0 {
        i
    } else {
        zero_from(item, i + 1)
    }
}

/// The name of the global that the key `item` belongs to: its bytes up to
/// the first zero byte.
pub open spec fn global_name(item: Seq<u8>) -> Seq<u8> {
    item.take(zero_from(item, 0))
}

/// The length of the global's name in `item`.
pub fn global_name_len(item: &[u8]) -> (n: usize)
    ensures
        n <= item@.len(),
        item@.take(n as int) == global_name(item@),
{
    let mut end: usize = 0;
    while end < item.len() && item[end] != 0
        invariant
            end <= item@.len(),
            zero_from(item@, end as int) == zero_from(item@, 0),
        decreases item@.len() - end,
    {
        end += 1;
    }
    end
}

/// Where a descent stands: in the directory tree, at the root of the
/// global's tree, or further down in it.
#[derive(Debug, Clone, Copy, PartialEq, Eq, Structural)]
pub enum LookupPhase {
    Directory,
    GlobalRoot,
    Subtree,
}

/// A descent that waits for a block: the phase it is in, and the number of
/// the block it has to see next.
#[derive(Debug, Clone, Copy, PartialEq, Eq, Structural)]
pub struct Lookup {
    pub phase: LookupPhase,
    pub blk_num: usize,
}

/// What a descent does after it has seen a block: read another, or stop at
/// the data block it has found.
#[derive(Debug, Clone, Copy, PartialEq, Eq, Structural)]
pub enum LookupStep {
    Read(Lookup),
    Found(BlkNum),
}

/// The number that a pointer names; 0 where it names none.
pub open spec fn block_number(p: BlkNum) -> usize {
    match p {
        BlkNum::Block(x) => x,
        _ => 0,
    }
}

/// Why `raw` holds no block: `TooSmall` where it is too short for a header,
/// `MalformedBlock` where the size in the header is out of range.
pub open spec fn block_error(raw: Seq<u8>) -> ValueError
    recommends
        !block_fits(raw),
{
    if raw.len() < BLK_HDR_SIZE {
        ValueError::RecordError(RecordError::TooSmall)
    } else {
        ValueError::MalformedBlock
    }
}

/// The error of a descent that finds no record to follow.
pub open spec fn dead_end(phase: LookupPhase) -> ValueError {
    match phase {
        LookupPhase::Directory => ValueError::MalformedBlock,
        LookupPhase::GlobalRoot => ValueError::GlobalNotFound,
        LookupPhase::Subtree => ValueError::SubscriptNotFound,
    }
}

/// One step of the descent for the key `item`: what follows from the bytes
/// `raw` of the block that the descent `at` waited for.
///
/// In the directory tree the descent looks for the global's name and
/// follows the first record that sorts after it; a block without such a
/// record, or a pointer that names no block, is malformed. In the global's
/// tree a block at level 0 is the data block looked for; in any other the
/// descent looks for the whole key and follows the first record that sorts
/// after it or equal to it. Without such a record the global is not found
/// at the root of its tree, and the subscript is not found further down.
pub open spec fn lookup_step(at: Lookup, item: Seq<u8>, raw: Seq<u8>) -> Result<LookupStep, ValueError> {
    if !block_fits(raw) {
        Err(block_error(raw))
    } else if at.phase == LookupPhase::Directory {
        let blk = block_of(raw, at.blk_num, BlkType::DirectoryTree);
        match pick_in(blk.data, ScanView::fresh(global_name(item)), false) {
            Err(e) => Err(e),
            Ok(None) => Err(dead_end(at.phase)),
            Ok(Some(p)) => if block_number(p) == 0 {
                Err(ValueError::MalformedBlock)
            } else {
                Ok(
                    LookupStep::Read(
                        Lookup { phase: LookupPhase::GlobalRoot, blk_num: block_number(p) },
                    ),
                )
            },
        }
    } else {
        let blk = block_of(raw, at.blk_num, BlkType::IndexBlock);
        if blk.header.levl == 0 {
            Ok(LookupStep::Found(BlkNum::Block(at.blk_num)))
        } else {
            match pick_in(blk.data, ScanView::fresh(item), true) {
                Err(e) => Err(e),
                Ok(None) => Err(dead_end(at.phase)),
                Ok(Some(p)) => Ok(
                    LookupStep::Read(
                        Lookup { phase: LookupPhase::Subtree, blk_num: block_number(p) },
                    ),
                ),
            }
        }
    }
}

impl Lookup {
    /// The descent before it has seen any block: it waits for block 1, the
    /// root of the directory tree.
    pub fn start() -> (at: Lookup)
        ensures
            at == (Lookup { phase: LookupPhase::Directory, blk_num: 1 }),
    {
        Lookup { phase: LookupPhase::Directory, blk_num: 1 }
    }

    /// Takes the descent for `item` one block further: `raw` holds the bytes
    /// of the block that the descent waited for.
    pub fn step_on(&self, item: &[u8], raw: &[u8]) -> (r: Result<LookupStep, ValueError>)
        ensures
            r == lookup_step(*self, item@, raw@),
    {
        match self.phase {
            LookupPhase::Directory => {
                let block = match get_block(raw, self.blk_num, BlkType::DirectoryTree) {
                    Ok(block) => block,
                    Err(e) => {
                        return Err(e);
                    },
                };
                let name_len = global_name_len(item);
                let name = vstd::slice::slice_subrange(item, 0, name_len);
                match pick_child(&block, name, false) {
                    Err(e) => Err(e),
                    Ok(None) => Err(ValueError::MalformedBlock),
                    Ok(Some(BlkNum::Block(next))) => if next == 0 {
                        Err(ValueError::MalformedBlock)
                    } else {
                        Ok(LookupStep::Read(Lookup { phase: LookupPhase::GlobalRoot, blk_num: next }))
                    },
                    Ok(Some(_)) => Err(ValueError::MalformedBlock),
                }
            },
            _ => {
                let block = match get_block(raw, self.blk_num, BlkType::IndexBlock) {
                    Ok(block) => block,
                    Err(e) => {
                        return Err(e);
                    },
                };
                if block.header().levl == 0 {
                    return Ok(LookupStep::Found(BlkNum::Block(self.blk_num)));
                }
                match pick_child(&block, item, true) {
                    Err(e) => Err(e),
                    Ok(None) => match self.phase {
                        LookupPhase::GlobalRoot => Err(ValueError::GlobalNotFound),
                        _ => Err(ValueError::SubscriptNotFound),
                    },
                    Ok(Some(p)) => {
                        let next: usize = match p {
                            BlkNum::Block(x) => x,
                            _ => 0,
                        };
                        Ok(LookupStep::Read(Lookup { phase: LookupPhase::Subtree, blk_num: next }))
                    },
                }
            },
        }
    }
}

} // verus!
