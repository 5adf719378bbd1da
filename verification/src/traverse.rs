//! The traversal of the whole tree: which blocks are let into the queue,
//! what the visit of one block yields, and what is left to report when the
//! queue has run dry.

use vstd::prelude::*;
use fnv::FnvHashSet;
use crate::block::{block_fits, block_of, get_block, BlkNum, BlkType};
use crate::busy::{busy_contains, busy_numbers, busy_remove};
use crate::integ::{integ_result_is, integ_spec, views, IntegBlock, IntegBlockView};
use crate::lookup::block_error;
use crate::ValueError;

verus! {

/// The number of the block at the root of the directory tree.
pub const ROOT_BLOCK: usize = 1;

/// One finding of the integrity check: the block it is about, and what is
/// wrong with it.
#[derive(Debug)]
pub struct IntegFailure {
    pub blk_num: usize,
    pub cause: ValueError,
}

/// The item that the traversal starts from: the root of the directory tree,
/// with no keys around it.
pub open spec fn root_view() -> IntegBlockView {
    IntegBlockView {
        blk_num: BlkNum::Block(ROOT_BLOCK),
        typ: BlkType::DirectoryTree,
        start: Seq::empty(),
        end: Seq::empty(),
    }
}

/// The queue takes `child` while `waiting` holds its number: it names a
/// block, and that block is marked busy and was not taken before.
pub open spec fn lets_in(child: IntegBlockView, waiting: Set<usize>) -> bool {
    child.blk_num matches BlkNum::Block(n) && waiting.contains(n)
}

/// The number of the block that a queued item names.
pub open spec fn number_of(child: IntegBlockView) -> usize {
    match child.blk_num {
        BlkNum::Block(n) => n,
        _ => 0,
    }
}

/// What has come of offering the first `n` of `children` to the queue, in
/// their order, while `waiting` held the blocks still to reach: the items
/// taken, and the blocks that wait after that. An item that is taken takes
/// its number out of the waiting blocks, so no later item gets in with the
/// same number.
pub open spec fn queued_upto(children: Seq<IntegBlockView>, waiting: Set<usize>, n: int) -> (
    Seq<IntegBlockView>,
    Set<usize>,
)
    decreases n,
{
    if n <= 0 {
        (Seq::empty(), waiting)
    } else {
        let before = queued_upto(children, waiting, n - 1);
        let child = children[n - 1];
        if lets_in(child, before.1) {
            (before.0.push(child), before.1.remove(number_of(child)))
        } else {
            before
        }
    }
}

/// What comes of offering all of `children` to the queue.
pub open spec fn queued_of(children: Seq<IntegBlockView>, waiting: Set<usize>) -> (
    Seq<IntegBlockView>,
    Set<usize>,
) {
    queued_upto(children, waiting, children.len() as int)
}

/// The numbers of the blocks that `items` name.
pub open spec fn numbers_of(items: Seq<IntegBlockView>) -> Set<usize> {
    Set::new(|b: usize| exists|i: int| 0 <= i < items.len() && items[i].blk_num == BlkNum::Block(b))
}

/// What the visit of the block of `next` yields from the bytes `raw` read
/// for it: the block is parsed in the role that `next` gives it and
/// checked. An item that names no block is malformed.
pub open spec fn visit_spec(next: IntegBlockView, raw: Seq<u8>) -> Result<
    Seq<IntegBlockView>,
    ValueError,
> {
    match next.blk_num {
        BlkNum::Block(n) => if block_fits(raw) {
            integ_spec(block_of(raw, n, next.typ))
        } else {
            Err(block_error(raw))
        },
        _ => Err(ValueError::MalformedBlock),
    }
}

/// The blocks that wait after the visit of `item` has struck its own.
pub open spec fn struck(waiting: Set<usize>, item: IntegBlockView) -> Set<usize> {
    match item.blk_num {
        BlkNum::Block(n) => waiting.remove(n),
        _ => waiting,
    }
}

/// What the queue takes of the first `n` children are blocks that waited,
/// each once; they wait no longer, and nothing else has changed.
pub proof fn lemma_queued_upto(children: Seq<IntegBlockView>, waiting: Set<usize>, n: int)
    requires
        0 <= n <= children.len(),
    ensures
        numbers_of(queued_upto(children, waiting, n).0).union(queued_upto(children, waiting, n).1)
            == waiting,
        numbers_of(queued_upto(children, waiting, n).0).disjoint(
            queued_upto(children, waiting, n).1,
        ),
        forall|i: int|
            0 <= i < queued_upto(children, waiting, n).0.len() ==> (#[trigger] queued_upto(
                children,
                waiting,
                n,
            ).0[i]).blk_num is Block,
        forall|i: int, j: int|
            0 <= i < j < queued_upto(children, waiting, n).0.len() ==> (#[trigger] queued_upto(
                children,
                waiting,
                n,
            ).0[i]).blk_num != (#[trigger] queued_upto(children, waiting, n).0[j]).blk_num,
    decreases n,
{
    let now = queued_upto(children, waiting, n);
    if n <= 0 {
        assert(numbers_of(now.0).union(now.1) =~= waiting);
    } else {
        lemma_queued_upto(children, waiting, n - 1);
        let before = queued_upto(children, waiting, n - 1);
        let child = children[n - 1];
        if lets_in(child, before.1) {
            let b = number_of(child);
            assert(now.0[now.0.len() - 1] == child);
            assert forall|x: usize| numbers_of(now.0).contains(x) <==> (numbers_of(
                before.0,
            ).contains(x) || x == b) by {
                if numbers_of(now.0).contains(x) {
                    let i = choose|i: int|
                        0 <= i < now.0.len() && now.0[i].blk_num == BlkNum::Block(x);
                    if i < before.0.len() {
                        assert(before.0[i].blk_num == BlkNum::Block(x));
                    }
                }
                if numbers_of(before.0).contains(x) {
                    let i = choose|i: int|
                        0 <= i < before.0.len() && before.0[i].blk_num == BlkNum::Block(x);
                    assert(now.0[i].blk_num == BlkNum::Block(x));
                }
            }
            assert(numbers_of(now.0).union(now.1) =~= waiting);
            assert forall|i: int, j: int| 0 <= i < j < now.0.len() implies (#[trigger] now.0[i]).blk_num
                != (#[trigger] now.0[j]).blk_num by {
                if j == now.0.len() - 1 {
                    assert(before.0[i].blk_num is Block);
                    assert(numbers_of(before.0).contains(number_of(before.0[i])));
                }
            }
        }
    }
}

/// The item that the traversal starts from.
pub fn root_item() -> (root: IntegBlock)
    ensures
        root@ == root_view(),
{
    IntegBlock {
        blk_num: BlkNum::Block(ROOT_BLOCK),
        typ: BlkType::DirectoryTree,
        start: Vec::new(),
        end: Vec::new(),
    }
}

/// Visits the block of `next`: strikes it from the blocks still to reach,
/// and checks the bytes that `read` brought for it.
///
/// A failed read ends the visit with its error.
pub fn do_integ(
    next: &IntegBlock,
    read: Result<Vec<u8>, std::io::Error>,
    to_visit: &mut FnvHashSet<usize>,
) -> (r: Result<Vec<IntegBlock>, ValueError>)
    ensures
        final(to_visit)@ == struck(old(to_visit)@, next@),
        match read {
            Ok(raw) => integ_result_is(r, visit_spec(next@, raw@)),
            Err(e) => next@.blk_num is Block ==> r == Err::<Vec<IntegBlock>, ValueError>(
                ValueError::IoError(e),
            ),
        },
        !(next@.blk_num is Block) ==> r == Err::<Vec<IntegBlock>, ValueError>(
            ValueError::MalformedBlock,
        ),
{
    let blk_num: usize = match next.blk_num {
        BlkNum::Block(x) => x,
        _ => {
            return Err(ValueError::MalformedBlock);
        },
    };
    busy_remove(to_visit, blk_num);
    let raw = match read {
        Ok(raw) => raw,
        Err(e) => {
            return Err(ValueError::IoError(e));
        },
    };
    let blk = match get_block(raw.as_slice(), blk_num, next.typ) {
        Ok(blk) => blk,
        Err(e) => {
            return Err(e);
        },
    };
    blk.integ(next.start.as_slice())
}

/// Offers `children` to the queue, in their order: returns those that the
/// queue takes, and strikes their numbers from `to_visit`.
pub fn queue_children(children: Vec<IntegBlock>, to_visit: &mut FnvHashSet<usize>) -> (queued: Vec<
    IntegBlock,
>)
    ensures
        (views(queued@), final(to_visit)@) == queued_of(views(children@), old(to_visit)@),
{
    let ghost all = views(children@);
    let mut queued: Vec<IntegBlock> = Vec::new();
    assert(views(queued@) =~= Seq::empty());
    for child in it: children.into_iter()
        invariant
            it.seq() == children@,
            all == views(children@),
            (views(queued@), to_visit@) == queued_upto(all, old(to_visit)@, it.index() as int),
    {
        let ghost done = views(queued@);
        let take = match child.blk_num {
            BlkNum::Block(n) => busy_contains(to_visit, n) && busy_remove(to_visit, n),
            _ => false,
        };
        if take {
            proof {
                assert(views(queued@.push(child)) =~= done.push(child@));
            }
            queued.push(child);
        }
    }
    queued
}

/// Lists what is left in `to_visit` when the traversal is over: each block
/// that is marked busy and was not reached, once, as
/// `BlockIncorrectlyMarkedBusy`.
pub fn unreachable_blocks(to_visit: &FnvHashSet<usize>) -> (report: Vec<IntegFailure>)
    ensures
        report@.len() == to_visit@.len(),
        to_visit@.finite(),
        forall|i: int|
            0 <= i < report@.len() ==> (#[trigger] report@[i]).cause
                == ValueError::BlockIncorrectlyMarkedBusy && to_visit@.contains(report@[i].blk_num),
        forall|i: int, j: int|
            0 <= i < j < report@.len() ==> (#[trigger] report@[i]).blk_num != (
            #[trigger] report@[j]).blk_num,
        forall|b: usize|
            to_visit@.contains(b) ==> exists|i: int|
                0 <= i < report@.len() && (#[trigger] report@[i]).blk_num == b,
{
    let numbers = busy_numbers(to_visit);
    proof {
        numbers@.unique_seq_to_set();
        vstd::seq_lib::seq_to_set_is_finite(numbers@);
    }
    let mut report: Vec<IntegFailure> = Vec::new();
    let mut i: usize = 0;
    while i < numbers.len()
        invariant
            i <= numbers@.len(),
            report@.len() == i,
            forall|k: int|
                0 <= k < i ==> (#[trigger] report@[k]).cause
                    == ValueError::BlockIncorrectlyMarkedBusy && report@[k].blk_num == numbers@[k],
        decreases numbers@.len() - i,
    {
        report.push(
            IntegFailure { blk_num: numbers[i], cause: ValueError::BlockIncorrectlyMarkedBusy },
        );
        i += 1;
    }
    proof {
        assert forall|b: usize| to_visit@.contains(b) implies exists|k: int|
            0 <= k < report@.len() && (#[trigger] report@[k]).blk_num == b by {
            assert(numbers@.to_set().contains(b));
            let k = choose|k: int| 0 <= k < numbers@.len() && numbers@[k] == b;
            assert(report@[k].blk_num == b);
        }
        assert forall|k: int| 0 <= k < report@.len() implies to_visit@.contains(
            (#[trigger] report@[k]).blk_num,
        ) by {
            assert(numbers@.to_set().contains(numbers@[k]));
        }
    }
    report
}

} // verus!
