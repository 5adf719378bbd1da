//! The traversal as a whole: every run of it, in whatever order the queued
//! blocks are taken, reaches each busy block of a well-formed file once.
//!
//! A run is made of visits. Each visit is one call of `do_integ`, which
//! strikes the block from those that wait and checks it, and one call of
//! `queue_children`, which offers what the check lists to the queue; the
//! steps of a run are put together here from what those two ensure.

use vstd::prelude::*;
use crate::block::BlkNum;
use crate::integ::IntegBlockView;
use crate::traverse::{
    lemma_queued_upto, lets_in, number_of, numbers_of, queued_of, queued_upto, root_view, struck,
    visit_spec, ROOT_BLOCK,
};

verus! {

/// The blocks that the visit of `item` sends on in a file whose readable
/// blocks are `file`: those that the check of its block lists, and none
/// where the block cannot be read or fails the check.
pub open spec fn children_of(file: Map<usize, Seq<u8>>, item: IntegBlockView) -> Seq<
    IntegBlockView,
> {
    match item.blk_num {
        BlkNum::Block(n) => if file.contains_key(n) {
            match visit_spec(item, file[n]) {
                Ok(children) => children,
                Err(_) => Seq::empty(),
            }
        } else {
            Seq::empty()
        },
        _ => Seq::empty(),
    }
}

/// A run of the traversal: the items that are queued and not visited yet,
/// the items visited so far, in the order of their visits, and the busy
/// blocks that wait to be reached.
pub struct Run {
    pub pending: Seq<IntegBlockView>,
    pub visited: Seq<IntegBlockView>,
    pub waiting: Set<usize>,
}

/// The run before its first visit: the root is queued, and every busy block
/// waits.
pub open spec fn run_start(busy: Set<usize>) -> Run {
    Run { pending: seq![root_view()], visited: Seq::empty(), waiting: busy }
}

/// The run after the visit of the queued item at position `i`: the item is
/// visited, its block no longer waits, and of the blocks that it sends on
/// the queue has taken those that waited.
pub open spec fn run_step(file: Map<usize, Seq<u8>>, run: Run, i: int) -> Run
    recommends
        0 <= i < run.pending.len(),
{
    let item = run.pending[i];
    let offered = queued_of(children_of(file, item), struck(run.waiting, item));
    Run {
        pending: run.pending.subrange(0, i) + run.pending.subrange(i + 1, run.pending.len() as int)
            + offered.0,
        visited: run.visited.push(item),
        waiting: offered.1,
    }
}

/// The run after the visits that `choices` names: each choice is the
/// position in the queue of the item visited next; a choice that names no
/// queued item changes nothing.
pub open spec fn run_after(file: Map<usize, Seq<u8>>, busy: Set<usize>, choices: Seq<int>) -> Run
    decreases choices.len(),
{
    if choices.len() == 0 {
        run_start(busy)
    } else {
        let before = run_after(file, busy, choices.drop_last());
        if 0 <= choices.last() < before.pending.len() {
            run_step(file, before, choices.last())
        } else {
            before
        }
    }
}

/// `item` is sent on by the visit of `parent`.
pub open spec fn sends_on(
    file: Map<usize, Seq<u8>>,
    parent: IntegBlockView,
    item: IntegBlockView,
) -> bool {
    children_of(file, parent).contains(item)
}

/// `item` is reached from the root in `steps` steps, each from a block to a
/// busy block that it sends on.
pub open spec fn reaches(
    file: Map<usize, Seq<u8>>,
    busy: Set<usize>,
    item: IntegBlockView,
    steps: nat,
) -> bool
    decreases steps,
{
    if steps == 0 {
        item == root_view()
    } else {
        exists|parent: IntegBlockView|
            #[trigger] sends_on(file, parent, item) && reaches(
                file,
                busy,
                parent,
                (steps - 1) as nat,
            ) && lets_in(item, busy)
    }
}

/// `item` is reached from the root.
pub open spec fn reachable(
    file: Map<usize, Seq<u8>>,
    busy: Set<usize>,
    item: IntegBlockView,
) -> bool {
    exists|steps: nat| reaches(file, busy, item, steps)
}

/// The file is well formed: the root is marked busy, every busy block is
/// reached from the root, and no block is reached in two ways.
pub open spec fn well_formed(file: Map<usize, Seq<u8>>, busy: Set<usize>) -> bool {
    &&& busy.contains(ROOT_BLOCK)
    &&& forall|n: usize| #[trigger]
        busy.contains(n) ==> exists|item: IntegBlockView|
            #[trigger] reachable(file, busy, item) && item.blk_num == BlkNum::Block(n)
    &&& forall|a: IntegBlockView, b: IntegBlockView|
        #[trigger] reachable(file, busy, a) && #[trigger] reachable(file, busy, b) && a.blk_num
            == b.blk_num ==> a == b
}

/// No two of `items` name the same block.
pub open spec fn distinct(items: Seq<IntegBlockView>) -> bool {
    forall|i: int, j: int|
        0 <= i < j < items.len() ==> (#[trigger] items[i]).blk_num != (#[trigger] items[j]).blk_num
}

/// No item of `a` names the block of an item of `b`.
pub open spec fn apart(a: Seq<IntegBlockView>, b: Seq<IntegBlockView>) -> bool {
    forall|i: int, j: int|
        0 <= i < a.len() && 0 <= j < b.len() ==> (#[trigger] a[i]).blk_num != (#[trigger] b[j]).blk_num
}

/// Each of `items` names a block and is reached from the root.
pub open spec fn all_reached(
    file: Map<usize, Seq<u8>>,
    busy: Set<usize>,
    items: Seq<IntegBlockView>,
) -> bool {
    forall|i: int|
        0 <= i < items.len() ==> (#[trigger] items[i]).blk_num is Block && reachable(
            file,
            busy,
            items[i],
        )
}

/// The run knows block `n`: an item that names it is queued or visited.
pub open spec fn knows(run: Run, n: usize) -> bool {
    numbers_of(run.pending).contains(n) || numbers_of(run.visited).contains(n)
}

/// The busy blocks that a visited item sends on are known.
pub open spec fn closed_under(file: Map<usize, Seq<u8>>, busy: Set<usize>, run: Run, i: int) -> bool {
    forall|k: int|
        0 <= k < children_of(file, run.visited[i]).len() && lets_in(
            #[trigger] children_of(file, run.visited[i])[k],
            busy,
        ) ==> knows(run, number_of(children_of(file, run.visited[i])[k]))
}

/// What holds of a run at every moment.
///
/// The root is queued or visited. Every item queued or visited names a
/// block and is reached from the root, and no two of them name the same
/// block. A block that waits is busy and not visited, and is queued only
/// before the first visit. Every busy block waits or is known, and so is
/// every busy block that a visited item sends on.
pub open spec fn run_ok(file: Map<usize, Seq<u8>>, busy: Set<usize>, run: Run) -> bool {
    &&& run.pending.contains(root_view()) || run.visited.contains(root_view())
    &&& all_reached(file, busy, run.pending)
    &&& all_reached(file, busy, run.visited)
    &&& distinct(run.pending)
    &&& distinct(run.visited)
    &&& apart(run.pending, run.visited)
    &&& forall|n: usize| #[trigger]
        run.waiting.contains(n) ==> busy.contains(n) && !numbers_of(run.visited).contains(n) && (
        numbers_of(run.pending).contains(n) ==> run.pending.len() == 1)
    &&& forall|n: usize| #[trigger] busy.contains(n) ==> run.waiting.contains(n) || knows(run, n)
    &&& forall|i: int| 0 <= i < run.visited.len() ==> #[trigger] closed_under(file, busy, run, i)
}

/// What the queue takes are children that waited, and no child that names a
/// block leaves it waiting.
pub proof fn lemma_queued_children(children: Seq<IntegBlockView>, waiting: Set<usize>, n: int)
    requires
        0 <= n <= children.len(),
    ensures
        queued_upto(children, waiting, n).1.subset_of(waiting),
        forall|j: int|
            0 <= j < queued_upto(children, waiting, n).0.len() ==> children.contains(
                #[trigger] queued_upto(children, waiting, n).0[j],
            ) && lets_in(queued_upto(children, waiting, n).0[j], waiting),
        forall|i: int|
            0 <= i < n && (#[trigger] children[i]).blk_num is Block ==> !queued_upto(
                children,
                waiting,
                n,
            ).1.contains(number_of(children[i])),
    decreases n,
{
    if n > 0 {
        lemma_queued_children(children, waiting, n - 1);
        let before = queued_upto(children, waiting, n - 1);
        let now = queued_upto(children, waiting, n);
        let child = children[n - 1];
        assert forall|j: int| 0 <= j < now.0.len() implies children.contains(#[trigger] now.0[j])
            && lets_in(now.0[j], waiting) by {
            if j < before.0.len() {
                assert(now.0[j] == before.0[j]);
            } else {
                assert(now.0[j] == child);
            }
        }
    }
}

/// A block is named in a sequence of items put together from two exactly
/// when it is named in one of the two.
pub proof fn lemma_numbers_of_add(a: Seq<IntegBlockView>, b: Seq<IntegBlockView>)
    ensures
        numbers_of(a + b) == numbers_of(a).union(numbers_of(b)),
{
    assert forall|n: usize| numbers_of(a + b).contains(n) <==> numbers_of(a).union(
        numbers_of(b),
    ).contains(n) by {
        if numbers_of(a + b).contains(n) {
            let i = choose|i: int| 0 <= i < (a + b).len() && (a + b)[i].blk_num == BlkNum::Block(n);
            if i < a.len() {
                assert(a[i].blk_num == BlkNum::Block(n));
            } else {
                assert(b[i - a.len()].blk_num == BlkNum::Block(n));
            }
        }
        if numbers_of(a).contains(n) {
            let i = choose|i: int| 0 <= i < a.len() && a[i].blk_num == BlkNum::Block(n);
            assert((a + b)[i].blk_num == BlkNum::Block(n));
        }
        if numbers_of(b).contains(n) {
            let i = choose|i: int| 0 <= i < b.len() && b[i].blk_num == BlkNum::Block(n);
            assert((a + b)[a.len() + i].blk_num == BlkNum::Block(n));
        }
    }
    assert(numbers_of(a + b) =~= numbers_of(a).union(numbers_of(b)));
}

/// The run is in order before its first visit.
pub proof fn lemma_run_start(file: Map<usize, Seq<u8>>, busy: Set<usize>)
    ensures
        run_ok(file, busy, run_start(busy)),
{
    let run = run_start(busy);
    assert(run.pending[0] == root_view());
    assert(reaches(file, busy, root_view(), 0));
    assert(numbers_of(run.visited) =~= Set::<usize>::empty());
}

/// The one block that a single item names.
pub proof fn lemma_numbers_of_one(item: IntegBlockView)
    requires
        item.blk_num is Block,
    ensures
        numbers_of(seq![item]) == set![number_of(item)],
{
    assert forall|n: usize| numbers_of(seq![item]).contains(n) <==> set![number_of(item)].contains(
        n,
    ) by {
        if n == number_of(item) {
            assert(seq![item][0].blk_num == BlkNum::Block(n));
        }
    }
    assert(numbers_of(seq![item]) =~= set![number_of(item)]);
}

/// A visit leaves the run in order, whichever queued item it takes.
pub proof fn lemma_run_step(file: Map<usize, Seq<u8>>, busy: Set<usize>, run: Run, i: int)
    requires
        run_ok(file, busy, run),
        0 <= i < run.pending.len(),
    ensures
        run_ok(file, busy, run_step(file, run, i)),
{
    let after = run_step(file, run, i);
    let item = run.pending[i];
    let own = number_of(item);
    let children = children_of(file, item);
    let open = struck(run.waiting, item);
    let queued = queued_of(children, open).0;
    let left = queued_of(children, open).1;
    let pre = run.pending.subrange(0, i);
    let post = run.pending.subrange(i + 1, run.pending.len() as int);
    let rest = pre + post;
    assert(item.blk_num == BlkNum::Block(own));
    assert(open == run.waiting.remove(own));
    lemma_queued_upto(children, open, children.len() as int);
    lemma_queued_children(children, open, children.len() as int);

    // What the sequences name.
    assert(run.pending =~= pre + seq![item] + post);
    lemma_numbers_of_one(item);
    lemma_numbers_of_add(pre, seq![item]);
    lemma_numbers_of_add(pre + seq![item], post);
    lemma_numbers_of_add(pre, post);
    lemma_numbers_of_add(rest, queued);
    assert(run.visited.push(item) =~= run.visited + seq![item]);
    lemma_numbers_of_add(run.visited, seq![item]);
    assert(numbers_of(run.pending) =~= numbers_of(rest).insert(own));
    assert(numbers_of(after.pending) =~= numbers_of(rest).union(numbers_of(queued)));
    assert(numbers_of(after.visited) =~= numbers_of(run.visited).insert(own));
    assert forall|k: int| 0 <= k < rest.len() implies #[trigger] rest[k] == run.pending[if k < i {
        k
    } else {
        k + 1
    }] by {}
    assert(!numbers_of(rest).contains(own)) by {
        if numbers_of(rest).contains(own) {
            let k = choose|k: int| 0 <= k < rest.len() && rest[k].blk_num == BlkNum::Block(own);
            let at = if k < i {
                k
            } else {
                k + 1
            };
            assert(rest[k] == run.pending[at]);
            assert(run.pending[at].blk_num == run.pending[i].blk_num);
        }
    }
    assert(!numbers_of(run.visited).contains(own)) by {
        if numbers_of(run.visited).contains(own) {
            let k = choose|k: int|
                0 <= k < run.visited.len() && run.visited[k].blk_num == BlkNum::Block(own);
            assert(run.pending[i].blk_num == run.visited[k].blk_num);
        }
    }

    // No block that is open to the queue is known.
    assert forall|n: usize| open.contains(n) implies !numbers_of(run.pending).contains(n)
        && !numbers_of(run.visited).contains(n) && busy.contains(n) by {
        assert(run.waiting.contains(n));
        if numbers_of(run.pending).contains(n) {
            assert(run.pending.len() == 1);
            assert(rest.len() == 0);
        }
    }
    assert forall|j: int| 0 <= j < queued.len() implies open.contains(
        number_of(#[trigger] queued[j]),
    ) && queued[j].blk_num == BlkNum::Block(number_of(queued[j])) by {
        assert(lets_in(queued[j], open));
    }

    // The root.
    if run.visited.contains(root_view()) {
        let k = choose|k: int| 0 <= k < run.visited.len() && run.visited[k] == root_view();
        assert(after.visited[k] == root_view());
    } else {
        let k = choose|k: int| 0 <= k < run.pending.len() && run.pending[k] == root_view();
        if k == i {
            assert(after.visited[run.visited.len() as int] == root_view());
        } else {
            let at = if k < i {
                k
            } else {
                k - 1
            };
            assert(rest[at] == run.pending[k]);
            assert(after.pending[at] == root_view());
        }
    }

    // Every item is reached.
    let far = choose|steps: nat| reaches(file, busy, item, steps);
    assert(reachable(file, busy, item));
    assert forall|k: int| 0 <= k < after.pending.len() implies (
    #[trigger] after.pending[k]).blk_num is Block && reachable(file, busy, after.pending[k]) by {
        if k < rest.len() {
            assert(after.pending[k] == rest[k]);
        } else {
            let child = queued[k - rest.len()];
            assert(after.pending[k] == child);
            assert(children.contains(child));
            assert(sends_on(file, item, child));
            assert(open.contains(number_of(child)));
            assert(lets_in(child, busy));
            assert(reaches(file, busy, child, far + 1));
        }
    }
    assert forall|k: int| 0 <= k < after.visited.len() implies (
    #[trigger] after.visited[k]).blk_num is Block && reachable(file, busy, after.visited[k]) by {
        if k < run.visited.len() {
            assert(after.visited[k] == run.visited[k]);
        }
    }

    // No two items name the same block.
    assert forall|a: int, b: int| 0 <= a < b < after.pending.len() implies (
    #[trigger] after.pending[a]).blk_num != (#[trigger] after.pending[b]).blk_num by {
        if b < rest.len() {
            assert(after.pending[a] == rest[a]);
            assert(after.pending[b] == rest[b]);
        } else if a < rest.len() {
            let child = queued[b - rest.len()];
            assert(after.pending[a] == rest[a]);
            assert(after.pending[b] == child);
            assert(open.contains(number_of(child)));
            if rest[a].blk_num == child.blk_num {
                assert(numbers_of(rest).contains(number_of(child)));
            }
        } else {
            assert(after.pending[a] == queued[a - rest.len()]);
            assert(after.pending[b] == queued[b - rest.len()]);
        }
    }
    assert forall|a: int, b: int| 0 <= a < b < after.visited.len() implies (
    #[trigger] after.visited[a]).blk_num != (#[trigger] after.visited[b]).blk_num by {
        assert(after.visited[a] == run.visited[a]);
        if b < run.visited.len() {
            assert(after.visited[b] == run.visited[b]);
        } else {
            assert(run.pending[i].blk_num != run.visited[a].blk_num);
        }
    }
    assert forall|a: int, b: int|
        0 <= a < after.pending.len() && 0 <= b < after.visited.len() implies (
    #[trigger] after.pending[a]).blk_num != (#[trigger] after.visited[b]).blk_num by {
        let seen = after.visited[b];
        if a < rest.len() {
            assert(after.pending[a] == rest[a]);
            let at = if a < i {
                a
            } else {
                a + 1
            };
            if b < run.visited.len() {
                assert(seen == run.visited[b]);
                assert(run.pending[at].blk_num != run.visited[b].blk_num);
            } else {
                assert(seen == item);
                if a < i {
                    assert(run.pending[at].blk_num != run.pending[i].blk_num);
                } else {
                    assert(run.pending[i].blk_num != run.pending[at].blk_num);
                }
            }
        } else {
            let child = queued[a - rest.len()];
            assert(after.pending[a] == child);
            assert(open.contains(number_of(child)));
            if b < run.visited.len() {
                assert(seen == run.visited[b]);
                if child.blk_num == seen.blk_num {
                    assert(numbers_of(run.visited).contains(number_of(child)));
                }
            }
        }
    }

    // What waits, and what is known.
    assert forall|n: usize| #[trigger] after.waiting.contains(n) implies busy.contains(n)
        && !numbers_of(after.visited).contains(n) && (numbers_of(after.pending).contains(n)
        ==> after.pending.len() == 1) by {
        assert(open.contains(n));
        assert(!numbers_of(queued).contains(n));
    }
    assert forall|n: usize| knows(run, n) implies knows(after, n) by {}
    assert forall|n: usize| #[trigger] busy.contains(n) implies after.waiting.contains(n) || knows(
        after,
        n,
    ) by {
        if !knows(run, n) && n != own {
            assert(open.contains(n));
            assert(numbers_of(queued).union(left).contains(n));
        }
    }
    assert forall|v: int| 0 <= v < after.visited.len() implies #[trigger] closed_under(
        file,
        busy,
        after,
        v,
    ) by {
        if v < run.visited.len() {
            assert(after.visited[v] == run.visited[v]);
            assert(closed_under(file, busy, run, v));
        } else {
            assert(after.visited[v] == item);
            assert forall|k: int|
                0 <= k < children.len() && lets_in(#[trigger] children[k], busy) implies knows(
                after,
                number_of(children[k]),
            ) by {
                let m = number_of(children[k]);
                assert(busy.contains(m));
                if !knows(run, m) && m != own {
                    assert(open.contains(m));
                    assert(!left.contains(m));
                    assert(numbers_of(queued).union(left).contains(m));
                }
            }
        }
    }
}

/// At the end of a run over a well-formed file, every item that is reached
/// from the root is visited.
pub proof fn lemma_reached_is_visited(
    file: Map<usize, Seq<u8>>,
    busy: Set<usize>,
    run: Run,
    item: IntegBlockView,
    steps: nat,
)
    requires
        well_formed(file, busy),
        run_ok(file, busy, run),
        run.pending.len() == 0,
        reaches(file, busy, item, steps),
    ensures
        run.visited.contains(item),
    decreases steps,
{
    if steps > 0 {
        let parent = choose|parent: IntegBlockView|
            #[trigger] sends_on(file, parent, item) && reaches(
                file,
                busy,
                parent,
                (steps - 1) as nat,
            ) && lets_in(item, busy);
        lemma_reached_is_visited(file, busy, run, parent, (steps - 1) as nat);
        let at = choose|at: int| 0 <= at < run.visited.len() && run.visited[at] == parent;
        assert(closed_under(file, busy, run, at));
        let k = choose|k: int|
            0 <= k < children_of(file, parent).len() && children_of(file, parent)[k] == item;
        assert(knows(run, number_of(item)));
        assert(numbers_of(run.pending) =~= Set::<usize>::empty());
        let seen = choose|seen: int|
            0 <= seen < run.visited.len() && run.visited[seen].blk_num == BlkNum::Block(
                number_of(item),
            );
        assert(reachable(file, busy, item));
        assert(reachable(file, busy, run.visited[seen]));
        assert(run.visited[seen] == item);
    }
}

/// When a run over a well-formed file has nothing queued any more, no block
/// waits, the blocks visited are exactly the busy blocks, and each was
/// visited once.
pub proof fn lemma_run_end(file: Map<usize, Seq<u8>>, busy: Set<usize>, run: Run)
    requires
        well_formed(file, busy),
        run_ok(file, busy, run),
        run.pending.len() == 0,
    ensures
        run.waiting == Set::<usize>::empty(),
        numbers_of(run.visited) == busy,
        distinct(run.visited),
{
    assert(numbers_of(run.pending) =~= Set::<usize>::empty());
    assert forall|n: usize| busy.contains(n) implies numbers_of(run.visited).contains(n) by {
        let item = choose|item: IntegBlockView|
            #[trigger] reachable(file, busy, item) && item.blk_num == BlkNum::Block(n);
        let steps = choose|steps: nat| reaches(file, busy, item, steps);
        lemma_reached_is_visited(file, busy, run, item, steps);
        let at = choose|at: int| 0 <= at < run.visited.len() && run.visited[at] == item;
        assert(run.visited[at].blk_num == BlkNum::Block(n));
    }
    assert forall|n: usize| numbers_of(run.visited).contains(n) implies busy.contains(n) by {
        let at = choose|at: int|
            0 <= at < run.visited.len() && run.visited[at].blk_num == BlkNum::Block(n);
        let item = run.visited[at];
        assert(reachable(file, busy, item));
        let steps = choose|steps: nat| reaches(file, busy, item, steps);
        if steps > 0 {
            assert(lets_in(item, busy));
        }
    }
    assert(numbers_of(run.visited) =~= busy);
    assert(run.waiting =~= Set::<usize>::empty());
}

/// Every run is in order after every visit.
pub proof fn lemma_run_after(file: Map<usize, Seq<u8>>, busy: Set<usize>, choices: Seq<int>)
    ensures
        run_ok(file, busy, run_after(file, busy, choices)),
    decreases choices.len(),
{
    if choices.len() == 0 {
        lemma_run_start(file, busy);
    } else {
        lemma_run_after(file, busy, choices.drop_last());
        let before = run_after(file, busy, choices.drop_last());
        if 0 <= choices.last() < before.pending.len() {
            lemma_run_step(file, busy, before, choices.last());
        }
    }
}

/// The traversal of a well-formed file reaches exactly its busy blocks: in
/// whatever order the queued blocks are visited, once nothing is queued any
/// more, the check has run on every busy block once and on no other, and
/// no block is left waiting.
pub proof fn lemma_traversal_reaches_busy(
    file: Map<usize, Seq<u8>>,
    busy: Set<usize>,
    choices: Seq<int>,
)
    requires
        well_formed(file, busy),
        run_after(file, busy, choices).pending.len() == 0,
    ensures
        numbers_of(run_after(file, busy, choices).visited) == busy,
        distinct(run_after(file, busy, choices).visited),
        run_after(file, busy, choices).waiting == Set::<usize>::empty(),
{
    lemma_run_after(file, busy, choices);
    lemma_run_end(file, busy, run_after(file, busy, choices));
}

} // verus!
