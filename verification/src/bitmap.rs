//! Bitmaps: the two-bit entries by which a local bitmap describes each block
//! of its group of 512, and the master bitmap describes each group.

use vstd::prelude::*;
use fnv::FnvHashSet;
use crate::block::BLK_HDR_SIZE;
use crate::busy::busy_insert;
use crate::{LocalBitmapStatus, RecordError, ValueError};

verus! {

/// The number of blocks that one local bitmap describes, itself included.
pub const BLOCKS_PER_MAP: usize = 512;

/// Entry `k` of a bitmap: two bits of byte `k / 4`, the lowest two for the
/// first entry of the byte.
pub open spec fn map_entry(map: Seq<u8>, k: int) -> int
    recommends
        0 <= k,
        k / 4 < map.len(),
{
    let b = map[k / 4] as int;
    if k % 4 == 0 {
        b % 4
    } else if k % 4 == 1 {
        b / 4 % 4
    } else if k % 4 == 2 {
        b / 16 % 4
    } else {
        b / 64
    }
}

/// What an entry of a local bitmap says of its block.
pub open spec fn status_of(entry: int) -> LocalBitmapStatus {
    if entry == 0 {
        LocalBitmapStatus::Busy
    } else if entry == 1 {
        LocalBitmapStatus::NeverUsed
    } else if entry == 3 {
        LocalBitmapStatus::Free
    } else {
        LocalBitmapStatus::Invalid
    }
}

/// The entries of the bitmap block `raw`: what follows its header.
pub open spec fn map_of(raw: Seq<u8>) -> Seq<u8>
    recommends
        raw.len() >= BLK_HDR_SIZE,
{
    raw.skip(BLK_HDR_SIZE as int)
}

/// The number of the local bitmap that describes block `blk_num`.
pub open spec fn local_map_of(blk_num: int) -> int {
    blk_num / 512 * 512
}

/// What the local bitmap block `raw` says of block `blk_num` of its group.
///
/// Fails with `TooSmall` where `raw` is too short for a block header, and
/// with `MalformedBlock` where the bitmap ends before the block's entry.
pub open spec fn local_status(raw: Seq<u8>, blk_num: int) -> Result<LocalBitmapStatus, ValueError> {
    if raw.len() < BLK_HDR_SIZE {
        Err(ValueError::RecordError(RecordError::TooSmall))
    } else if blk_num % 512 / 4 >= map_of(raw).len() {
        Err(ValueError::MalformedBlock)
    } else {
        Ok(status_of(map_entry(map_of(raw), blk_num % 512)))
    }
}

/// Block `slot` of its group is one that the bitmap `map` marks busy. The
/// bitmap block itself, at slot 0, does not count.
pub open spec fn marks_busy(map: Seq<u8>, slot: int) -> bool {
    &&& 1 <= slot < 512
    &&& slot / 4 < map.len()
    &&& map_entry(map, slot) == 0
}

/// The blocks of group `group`, below slot `upto`, that the bitmap `map`
/// marks busy.
pub open spec fn busy_below(map: Seq<u8>, group: int, upto: int) -> Set<usize> {
    Set::new(|b: usize| b - group * 512 < upto && marks_busy(map, b - group * 512))
}

/// The blocks of group `group` that the bitmap `map` marks busy.
pub open spec fn busy_in(map: Seq<u8>, group: int) -> Set<usize> {
    busy_below(map, group, 512)
}

/// The bitmap `map` marks some block of its group busy.
pub open spec fn any_busy(map: Seq<u8>) -> bool {
    exists|slot: int| marks_busy(map, slot)
}

/// The master bitmap `master` has the entry of group `group` set: the group
/// holds blocks in use.
pub open spec fn group_marked(master: Seq<u8>, group: int) -> bool
    recommends
        0 <= group,
        group / 4 < master.len(),
{
    map_entry(master, group) != 0
}

/// What the master bitmap and the local bitmap block `raw` of group `group`
/// say of each other.
///
/// The two agree where the master's entry is set exactly when the local
/// bitmap marks a block busy. A group that holds busy blocks and is not
/// marked is `BlockIncorrectlyMarkedFree`; one that is marked and holds none
/// is `BlockIncorrectlyMarkedBusy`. Fails with `TooSmall` where `raw` is too
/// short for a block header, and with `MalformedBlock` where the master
/// bitmap ends before the group's entry.
pub open spec fn master_agrees(master: Seq<u8>, group: int, raw: Seq<u8>) -> Result<(), ValueError> {
    if raw.len() < BLK_HDR_SIZE {
        Err(ValueError::RecordError(RecordError::TooSmall))
    } else if group / 4 >= master.len() {
        Err(ValueError::MalformedBlock)
    } else if any_busy(map_of(raw)) && !group_marked(master, group) {
        Err(ValueError::BlockIncorrectlyMarkedFree)
    } else if !any_busy(map_of(raw)) && group_marked(master, group) {
        Err(ValueError::BlockIncorrectlyMarkedBusy)
    } else {
        Ok(())
    }
}

/// The master bitmap and a local bitmap agree exactly when the entry of the
/// group is set if and only if the local bitmap marks a block busy.
pub proof fn lemma_master_agrees(master: Seq<u8>, group: int, raw: Seq<u8>)
    requires
        raw.len() >= BLK_HDR_SIZE,
        0 <= group,
        group / 4 < master.len(),
    ensures
        master_agrees(master, group, raw) is Ok <==> (group_marked(master, group) <==> any_busy(
            map_of(raw),
        )),
{
}

/// A local bitmap marks a block busy exactly when its group holds a block
/// that counts as busy.
pub proof fn lemma_any_busy(map: Seq<u8>, group: int)
    requires
        0 <= group,
        group * 512 + 511 <= usize::MAX,
    ensures
        any_busy(map) <==> exists|b: usize| busy_in(map, group).contains(b),
{
    if any_busy(map) {
        let slot = choose|slot: int| marks_busy(map, slot);
        let b = (group * 512 + slot) as usize;
        assert(busy_in(map, group).contains(b));
    }
    if exists|b: usize| busy_in(map, group).contains(b) {
        let b = choose|b: usize| busy_in(map, group).contains(b);
        assert(marks_busy(map, b - group * 512));
    }
}

/// The number of the local bitmap block that describes block `blk_num`.
pub fn local_map_for(blk_num: usize) -> (map: usize)
    ensures
        map == local_map_of(blk_num as int),
{
    blk_num / BLOCKS_PER_MAP * BLOCKS_PER_MAP
}

/// Reads entry `k` of the bitmap `map`.
pub fn read_entry(map: &[u8], k: usize) -> (entry: u8)
    requires
        k / 4 < map@.len(),
    ensures
        entry == map_entry(map@, k as int),
        entry < 4,
{
    let b: u8 = map[k / 4];
    let slot: usize = k % 4;
    if slot == 0 {
        b % 4
    } else if slot == 1 {
        b / 4 % 4
    } else if slot == 2 {
        b / 16 % 4
    } else {
        b / 64
    }
}

/// Reads what the local bitmap block `raw` says of block `blk_num`, which
/// lies in its group.
pub fn block_status(raw: &[u8], blk_num: usize) -> (r: Result<LocalBitmapStatus, ValueError>)
    ensures
        r == local_status(raw@, blk_num as int),
{
    if raw.len() < BLK_HDR_SIZE {
        return Err(ValueError::RecordError(RecordError::TooSmall));
    }
    let map = vstd::slice::slice_subrange(raw, BLK_HDR_SIZE, raw.len());
    let slot: usize = blk_num % BLOCKS_PER_MAP;
    if slot / 4 >= map.len() {
        return Err(ValueError::MalformedBlock);
    }
    let entry: u8 = read_entry(map, slot);
    Ok(
        if entry == 0 {
            LocalBitmapStatus::Busy
        } else if entry == 1 {
            LocalBitmapStatus::NeverUsed
        } else if entry == 3 {
            LocalBitmapStatus::Free
        } else {
            LocalBitmapStatus::Invalid
        },
    )
}

/// Adds to `to_visit` the blocks that the local bitmap block `raw`, the
/// bitmap of group `group`, marks busy.
///
/// Fails with `TooSmall`, and adds nothing, where `raw` is too short for a
/// block header.
pub fn mark_busy(raw: &[u8], group: usize, to_visit: &mut FnvHashSet<usize>) -> (r: Result<
    (),
    ValueError,
>)
    requires
        group * 512 + 511 <= usize::MAX,
    ensures
        raw@.len() >= BLK_HDR_SIZE ==> r is Ok && final(to_visit)@ == old(to_visit)@.union(
            busy_in(map_of(raw@), group as int),
        ),
        raw@.len() < BLK_HDR_SIZE ==> r == Err::<(), ValueError>(
            ValueError::RecordError(RecordError::TooSmall),
        ) && final(to_visit)@ == old(to_visit)@,
{
    if raw.len() < BLK_HDR_SIZE {
        return Err(ValueError::RecordError(RecordError::TooSmall));
    }
    let map = vstd::slice::slice_subrange(raw, BLK_HDR_SIZE, raw.len());
    let base: usize = group * BLOCKS_PER_MAP;
    let mut slot: usize = 1;
    assert(to_visit@ =~= old(to_visit)@.union(busy_below(map@, group as int, 1)));
    while slot < BLOCKS_PER_MAP
        invariant
            1 <= slot <= 512,
            base == group * 512,
            base + 511 <= usize::MAX,
            map@ == map_of(raw@),
            to_visit@ == old(to_visit)@.union(busy_below(map@, group as int, slot as int)),
        decreases 512 - slot,
    {
        if slot / 4 < map.len() && read_entry(map, slot) == 0 {
            busy_insert(to_visit, base + slot);
        }
        slot += 1;
        assert(to_visit@ =~= old(to_visit)@.union(busy_below(map@, group as int, slot as int)));
    }
    Ok(())
}

/// Tells whether the bitmap `map` marks some block of its group busy.
pub fn holds_busy(map: &[u8]) -> (found: bool)
    ensures
        found == any_busy(map@),
{
    let mut slot: usize = 1;
    while slot < BLOCKS_PER_MAP
        invariant
            1 <= slot <= 512,
            forall|k: int| 1 <= k < slot ==> !marks_busy(map@, k),
        decreases 512 - slot,
    {
        if slot / 4 < map.len() && read_entry(map, slot) == 0 {
            assert(marks_busy(map@, slot as int));
            return true;
        }
        slot += 1;
    }
    false
}

/// Holds the entry of group `group` in the master bitmap `master` against
/// the local bitmap block `raw` of that group.
pub fn check_master(master: &[u8], group: usize, raw: &[u8]) -> (r: Result<(), ValueError>)
    ensures
        r == master_agrees(master@, group as int, raw@),
{
    if raw.len() < BLK_HDR_SIZE {
        return Err(ValueError::RecordError(RecordError::TooSmall));
    }
    if group / 4 >= master.len() {
        return Err(ValueError::MalformedBlock);
    }
    let map = vstd::slice::slice_subrange(raw, BLK_HDR_SIZE, raw.len());
    let busy = holds_busy(map);
    let marked = read_entry(master, group) != 0;
    if busy && !marked {
        Err(ValueError::BlockIncorrectlyMarkedFree)
    } else if !busy && marked {
        Err(ValueError::BlockIncorrectlyMarkedBusy)
    } else {
        Ok(())
    }
}

} // verus!
