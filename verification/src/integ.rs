//! The integrity check of one block: the order and compression of its
//! records, and the blocks that it sends the traversal on to.

use vstd::prelude::*;
use crate::block::{Blk, BlkNum, BlkType, BlkView, RecordCursor};
use crate::key::{expanded_key, has_terminator, lemma_lex_order_transitive, lex_order};
use crate::rec::{after_first_record, first_record, pointer_of, record_fits, records_of, RecView};
use crate::{RecordError, SortOrder, ValueError};

verus! {

/// A block that the traversal has still to check: its number, its role, and
/// the keys between which its parent placed it.
#[derive(Debug, Clone, PartialEq)]
pub struct IntegBlock {
    pub blk_num: BlkNum,
    pub typ: BlkType,
    pub start: Vec<u8>,
    pub end: Vec<u8>,
}

/// A block to check, as plain values.
pub struct IntegBlockView {
    pub blk_num: BlkNum,
    pub typ: BlkType,
    pub start: Seq<u8>,
    pub end: Seq<u8>,
}

impl View for IntegBlock {
    type V = IntegBlockView;

    open spec fn view(&self) -> IntegBlockView {
        IntegBlockView { blk_num: self.blk_num, typ: self.typ, start: self.start@, end: self.end@ }
    }
}

/// The blocks to check in `items`, each as plain values.
pub open spec fn views(items: Seq<IntegBlock>) -> Seq<IntegBlockView> {
    items.map_values(|b: IntegBlock| b@)
}

/// Blocks of this role hold no records to check.
pub open spec fn is_bitmap(typ: BlkType) -> bool {
    typ == BlkType::MasterBitmap || typ == BlkType::LocalBitmap
}

/// Blocks of this role point to blocks below them.
pub open spec fn has_children(typ: BlkType) -> bool {
    typ == BlkType::IndexBlock || typ == BlkType::DirectoryTree
}

/// The role of a block that a record in a block of role `parent` at level
/// `levl` points to.
///
/// Below the directory tree's upper levels lies more of the directory tree,
/// below its level 1 the root of a global's tree; below the upper levels of
/// a global's tree lie its index blocks, below its level 1 its data blocks.
/// A block at level 0 has no business pointing anywhere: what it points to
/// is taken for an index block.
pub open spec fn child_type(parent: BlkType, levl: u8) -> BlkType {
    if levl == 0 {
        BlkType::IndexBlock
    } else if parent == BlkType::DirectoryTree {
        if levl >= 2 {
            BlkType::DirectoryTree
        } else {
            BlkType::IndexBlock
        }
    } else if levl >= 2 {
        BlkType::IndexBlock
    } else {
        BlkType::DataBlock
    }
}

/// Computes the role of the blocks below a block of role `parent` at level
/// `levl`.
pub fn child_type_of(parent: BlkType, levl: u8) -> (t: BlkType)
    ensures
        t == child_type(parent, levl),
{
    if levl == 0 {
        BlkType::IndexBlock
    } else if parent == BlkType::DirectoryTree {
        if levl >= 2 {
            BlkType::DirectoryTree
        } else {
            BlkType::IndexBlock
        }
    } else if levl >= 2 {
        BlkType::IndexBlock
    } else {
        BlkType::DataBlock
    }
}

/// The block to check that the record `rec` of a block of role `typ` at
/// level `levl` sends on: the block it points to, between the key before it
/// and its own.
pub open spec fn child_of(rec: RecView, typ: BlkType, levl: u8, prev: Seq<u8>) -> IntegBlockView {
    IntegBlockView {
        blk_num: pointer_of(rec.data),
        typ: child_type(typ, levl),
        start: prev,
        end: expanded_key(prev, rec),
    }
}

/// `later`, where it succeeded, with `item` in front of it.
pub open spec fn after_item(
    item: IntegBlockView,
    later: Result<Seq<IntegBlockView>, ValueError>,
) -> Result<Seq<IntegBlockView>, ValueError> {
    match later {
        Ok(items) => Ok(seq![item] + items),
        Err(e) => Err(e),
    }
}

/// The check of the records in `rest`, the tail of the payload of a block of
/// role `typ` at level `levl`; `first` says that `rest` is the whole payload,
/// and `prev` is the full key of the last record before `rest` that has one.
///
/// The records are taken in turn, and the first that fails a test decides
/// the error: `TooSmall` where no whole record starts, `ZeroCompressionCount`
/// where a record of a data block that is not its first shares nothing with
/// the key before, `NoTerminatingCharacter` where the payload holds no
/// terminator, `IncorrectSort` where the key before does not sort before the
/// record's full key. The sentinel record has no key and passes the last two.
/// Where all pass, each record but the sentinel of a block that has children
/// sends on the block it points to.
pub open spec fn check_records(
    typ: BlkType,
    levl: u8,
    rest: Seq<u8>,
    first: bool,
    prev: Seq<u8>,
) -> Result<Seq<IntegBlockView>, ValueError>
    decreases rest.len(),
{
    if rest.len() == 0 {
        Ok(Seq::empty())
    } else if !record_fits(rest) {
        Err(ValueError::RecordError(RecordError::TooSmall))
    } else {
        let rec = first_record(rest);
        let tail = after_first_record(rest);
        if typ == BlkType::DataBlock && !first && rec.header.shared() == 0 {
            Err(ValueError::RecordError(RecordError::ZeroCompressionCount))
        } else if rec.header.is_star() {
            check_records(typ, levl, tail, false, prev)
        } else if !has_terminator(rec.data) {
            Err(ValueError::RecordError(RecordError::NoTerminatingCharacter))
        } else if lex_order(prev, expanded_key(prev, rec)) != SortOrder::SortsBefore {
            Err(ValueError::RecordError(RecordError::IncorrectSort))
        } else if has_children(typ) {
            after_item(
                child_of(rec, typ, levl, prev),
                check_records(typ, levl, tail, false, expanded_key(prev, rec)),
            )
        } else {
            check_records(typ, levl, tail, false, expanded_key(prev, rec))
        }
    }
}

/// The integrity check of a block: nothing to check in a bitmap, and the
/// check of all its records, from an empty key, in any other block.
pub open spec fn integ_spec(blk: BlkView) -> Result<Seq<IntegBlockView>, ValueError> {
    if is_bitmap(blk.typ) {
        Ok(Seq::empty())
    } else {
        check_records(blk.typ, blk.header.levl, blk.data, true, Seq::empty())
    }
}

/// `later`, where it succeeded, with `done` in front of it.
pub open spec fn after_items(
    done: Seq<IntegBlockView>,
    later: Result<Seq<IntegBlockView>, ValueError>,
) -> Result<Seq<IntegBlockView>, ValueError> {
    match later {
        Ok(items) => Ok(done + items),
        Err(e) => Err(e),
    }
}

/// The result `r` of a check is what `expected` says: the same error, or the
/// same blocks to check in the same order.
pub open spec fn integ_result_is(
    r: Result<Vec<IntegBlock>, ValueError>,
    expected: Result<Seq<IntegBlockView>, ValueError>,
) -> bool {
    match expected {
        Ok(items) => r is Ok && views(r->Ok_0@) == items,
        Err(e) => r == Err::<Vec<IntegBlock>, ValueError>(e),
    }
}

/// The full keys of the records in `rest`, in their order; `prev` is the
/// full key of the record before `rest`. The sentinel record has no key.
pub open spec fn keys_of(rest: Seq<u8>, prev: Seq<u8>) -> Seq<Seq<u8>>
    decreases rest.len(),
{
    if !record_fits(rest) {
        Seq::empty()
    } else if first_record(rest).header.is_star() {
        keys_of(after_first_record(rest), prev)
    } else {
        seq![expanded_key(prev, first_record(rest))] + keys_of(
            after_first_record(rest),
            expanded_key(prev, first_record(rest)),
        )
    }
}

/// The full keys of the records of a block.
pub open spec fn block_keys(blk: BlkView) -> Seq<Seq<u8>> {
    keys_of(blk.data, Seq::empty())
}

/// Each of `keys` sorts before all that follow it.
pub open spec fn strictly_increasing(keys: Seq<Seq<u8>>) -> bool {
    forall|i: int, j: int|
        0 <= i < j < keys.len() ==> lex_order(#[trigger] keys[i], #[trigger] keys[j])
            == SortOrder::SortsBefore
}

/// Where the check of the records in `rest` passes, their full keys are in
/// strictly increasing order, and all of them sort after the key before.
pub proof fn lemma_checked_keys_increase(
    typ: BlkType,
    levl: u8,
    rest: Seq<u8>,
    first: bool,
    prev: Seq<u8>,
)
    requires
        check_records(typ, levl, rest, first, prev) is Ok,
    ensures
        strictly_increasing(keys_of(rest, prev)),
        forall|i: int|
            0 <= i < keys_of(rest, prev).len() ==> lex_order(prev, #[trigger] keys_of(rest, prev)[i])
                == SortOrder::SortsBefore,
    decreases rest.len(),
{
    if rest.len() > 0 {
        let rec = first_record(rest);
        let tail = after_first_record(rest);
        if rec.header.is_star() {
            lemma_checked_keys_increase(typ, levl, tail, false, prev);
        } else {
            let key = expanded_key(prev, rec);
            lemma_checked_keys_increase(typ, levl, tail, false, key);
            let later = keys_of(tail, key);
            let keys = keys_of(rest, prev);
            assert forall|i: int| 0 <= i < keys.len() implies lex_order(prev, #[trigger] keys[i])
                == SortOrder::SortsBefore by {
                if i > 0 {
                    assert(keys[i] == later[i - 1]);
                    lemma_lex_order_transitive(prev, key, later[i - 1]);
                }
            }
            assert forall|i: int, j: int| 0 <= i < j < keys.len() implies lex_order(
                #[trigger] keys[i],
                #[trigger] keys[j],
            ) == SortOrder::SortsBefore by {
                assert(keys[j] == later[j - 1]);
                if i > 0 {
                    assert(keys[i] == later[i - 1]);
                }
            }
        }
    }
}

/// In a block that passes the integrity check, the full keys of the records
/// are in strictly increasing order; the sentinel record is exempt.
pub proof fn lemma_integ_keys_increase(blk: BlkView)
    requires
        !is_bitmap(blk.typ),
        integ_spec(blk) is Ok,
    ensures
        strictly_increasing(block_keys(blk)),
{
    lemma_checked_keys_increase(blk.typ, blk.header.levl, blk.data, true, Seq::empty());
}

/// Where the check of the records in `rest` passes, `rest` is made of whole
/// records from its first byte to its last, and in a data block each of
/// them, but for the first of the block, shares at least one byte with the
/// key before.
pub proof fn lemma_checked_records(
    typ: BlkType,
    levl: u8,
    rest: Seq<u8>,
    first: bool,
    prev: Seq<u8>,
)
    requires
        check_records(typ, levl, rest, first, prev) is Ok,
    ensures
        rest.len() == 0 || record_fits(rest),
        typ == BlkType::DataBlock ==> forall|i: int|
            (if first {
                1
            } else {
                0int
            }) <= i < records_of(rest).len() ==> (#[trigger] records_of(rest)[i]).header.shared()
                >= 1,
    decreases rest.len(),
{
    if rest.len() > 0 {
        let rec = first_record(rest);
        let tail = after_first_record(rest);
        let key = if rec.header.is_star() {
            prev
        } else {
            expanded_key(prev, rec)
        };
        lemma_checked_records(typ, levl, tail, false, key);
        assert forall|i: int|
            (if first {
                1
            } else {
                0int
            }) <= i < records_of(rest).len() && typ == BlkType::DataBlock implies (
        #[trigger] records_of(rest)[i]).header.shared() >= 1 by {
            if i > 0 {
                assert(records_of(rest)[i] == records_of(tail)[i - 1]);
            }
        }
    }
}

/// In a data block that passes the integrity check, every record but the
/// first shares at least one byte with the key before.
pub proof fn lemma_integ_compression_counts(blk: BlkView)
    requires
        blk.typ == BlkType::DataBlock,
        integ_spec(blk) is Ok,
    ensures
        forall|i: int|
            1 <= i < records_of(blk.data).len() ==> (#[trigger] records_of(
                blk.data,
            )[i]).header.shared() >= 1,
{
    lemma_checked_records(blk.typ, blk.header.levl, blk.data, true, Seq::empty());
}

impl<'a> Blk<'a> {
    /// Checks the records of the block and lists the blocks below it.
    ///
    /// `start` is the key below which the parent placed this block; the
    /// checks compare each record with the one before it in this block and
    /// do not depend on it.
    #[allow(unused_variables)]
    pub fn integ(&self, start: &[u8]) -> (r: Result<Vec<IntegBlock>, ValueError>)
        ensures
            integ_result_is(r, integ_spec(self@)),
    {
        let typ = self.typ();
        let levl: u8 = self.header().levl;
        let mut out: Vec<IntegBlock> = Vec::new();
        if typ == BlkType::MasterBitmap || typ == BlkType::LocalBitmap {
            assert(views(out@) =~= Seq::empty());
            return Ok(out);
        }
        let mut cursor = RecordCursor::new(self);
        let mut goal: Vec<u8> = Vec::new();
        let mut first = true;
        assert(views(out@) =~= Seq::empty());
        assert(forall|later: Seq<IntegBlockView>| Seq::<IntegBlockView>::empty() + later =~= later);
        loop
            invariant
                cursor@.wf(),
                typ == self@.typ,
                levl == self@.header.levl,
                !is_bitmap(typ),
                after_items(views(out@), check_records(typ, levl, cursor@.remaining, first, goal@))
                    == integ_spec(self@),
            decreases cursor@.remaining.len(),
        {
            let ghost rest = cursor@.remaining;
            let ghost done = views(out@);
            let record = match cursor.next() {
                None => {
                    assert(done + Seq::<IntegBlockView>::empty() =~= done);
                    return Ok(out);
                },
                Some(Err(e)) => {
                    return Err(e);
                },
                Some(Ok(record)) => record,
            };
            if typ == BlkType::DataBlock && !first && record.header.cmpc == 0 {
                return Err(ValueError::RecordError(RecordError::ZeroCompressionCount));
            }
            first = false;
            if record.header.rsiz != 8 {
                let before = vstd::slice::slice_to_vec(goal.as_slice());
                match RecordCursor::expand_key(&record, &mut goal) {
                    Err(e) => {
                        return Err(e);
                    },
                    Ok(()) => {},
                }
                match RecordCursor::compare_strings(before.as_slice(), goal.as_slice()) {
                    SortOrder::SortsBefore => {},
                    _ => {
                        return Err(ValueError::RecordError(RecordError::IncorrectSort));
                    },
                }
                if typ == BlkType::IndexBlock || typ == BlkType::DirectoryTree {
                    let after = vstd::slice::slice_to_vec(goal.as_slice());
                    let item = IntegBlock {
                        blk_num: record.ptr(),
                        typ: child_type_of(typ, levl),
                        start: before,
                        end: after,
                    };
                    proof {
                        let later = check_records(typ, levl, cursor@.remaining, false, goal@);
                        assert(views(out@.push(item)) =~= done.push(item@));
                        match later {
                            Ok(items) => {
                                assert(done + (seq![item@] + items) =~= done.push(item@) + items);
                            },
                            Err(_) => {},
                        }
                    }
                    out.push(item);
                }
            }
        }
    }
}

} // verus!
