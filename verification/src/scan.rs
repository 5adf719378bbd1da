//! Why a scan over compressed keys is right: in a block whose records are
//! compressed exactly, comparing each record by its compression count finds
//! what comparing the full keys finds.

use vstd::prelude::*;
use crate::block::BlkNum;
use crate::key::{
    common_prefix_len, compare_spec, expanded_key, has_terminator, key_part, lemma_agree_until,
    lemma_lex_order_antisymmetric, lemma_lex_order_equal, lemma_lex_order_transitive,
    lemma_parts_at_unique, lemma_terminator_from, lex_order, parts_at, value_start, ScanView,
};
use crate::lookup::{find_in, leads_on, pick_in};
use crate::rec::{after_first_record, first_record, pointer_of, record_fits, RecView};
use crate::{RecordError, SortOrder, ValueError};

verus! {

/// The record `rec` is compressed exactly against the full key `prev` of
/// the record before it: it has a key, it shares no more bytes than the key
/// before has, and where it leaves bytes of the key before unshared, its own
/// first byte is larger than the first of those. Its full key then sorts
/// after the key before, and shares with it exactly what it says.
pub open spec fn follows(prev: Seq<u8>, rec: RecView) -> bool {
    &&& has_terminator(rec.data)
    &&& rec.header.shared() <= prev.len()
    &&& (rec.header.shared() < prev.len() ==> key_part(rec.data)[0] > prev[rec.header.shared()])
}

/// Every record in `rest` up to the first sentinel is compressed exactly
/// against the record before it; `prev` is the full key of the record before
/// `rest`.
pub open spec fn compressed_exactly(rest: Seq<u8>, prev: Seq<u8>) -> bool
    decreases rest.len(),
{
    if !record_fits(rest) || first_record(rest).header.is_star() {
        true
    } else {
        &&& follows(prev, first_record(rest))
        &&& compressed_exactly(after_first_record(rest), expanded_key(prev, first_record(rest)))
    }
}

/// The scan `scan` has kept track of the full key `prev` of the last record
/// it saw: that key did not sort after the goal, and the scan has matched
/// what the two have in common.
pub open spec fn tracks(scan: ScanView, prev: Seq<u8>) -> bool {
    &&& lex_order(prev, scan.goal) != SortOrder::SortsAfter
    &&& scan.matched == common_prefix_len(prev, scan.goal)
}

/// The value that the records in `rest` hold for `goal`, found by their
/// full keys: that of the first record whose full key is `goal`, if no
/// record before it sorts after `goal`.
pub open spec fn find_by_key(rest: Seq<u8>, prev: Seq<u8>, goal: Seq<u8>) -> Result<
    Seq<u8>,
    ValueError,
>
    decreases rest.len(),
{
    if rest.len() == 0 {
        Err(ValueError::SubscriptNotFound)
    } else if !record_fits(rest) {
        Err(ValueError::RecordError(RecordError::TooSmall))
    } else {
        let rec = first_record(rest);
        if rec.header.is_star() {
            Err(ValueError::SubscriptNotFound)
        } else {
            match lex_order(expanded_key(prev, rec), goal) {
                SortOrder::SortsEqual => Ok(rec.data.skip(value_start(rec.data))),
                SortOrder::SortsAfter => Err(ValueError::SubscriptNotFound),
                SortOrder::SortsBefore => find_by_key(
                    after_first_record(rest),
                    expanded_key(prev, rec),
                    goal,
                ),
            }
        }
    }
}

/// The pointer that a descent towards `goal` follows in `rest`, found by
/// full keys: that of the sentinel, or of the first record whose full key
/// sorts after `goal` or, where `or_equal` allows it, is `goal`.
pub open spec fn pick_by_key(rest: Seq<u8>, prev: Seq<u8>, goal: Seq<u8>, or_equal: bool) -> Result<
    Option<BlkNum>,
    ValueError,
>
    decreases rest.len(),
{
    if rest.len() == 0 {
        Ok(None)
    } else if !record_fits(rest) {
        Err(ValueError::RecordError(RecordError::TooSmall))
    } else {
        let rec = first_record(rest);
        if rec.header.is_star() || leads_on(lex_order(expanded_key(prev, rec), goal), or_equal) {
            Ok(Some(pointer_of(rec.data)))
        } else {
            pick_by_key(after_first_record(rest), expanded_key(prev, rec), goal, or_equal)
        }
    }
}

/// The full key of a record that is compressed exactly sorts after the key
/// before it.
pub proof fn lemma_follows_sorts_after(prev: Seq<u8>, rec: RecView)
    requires
        follows(prev, rec),
    ensures
        lex_order(prev, expanded_key(prev, rec)) == SortOrder::SortsBefore,
{
    let c = rec.header.shared();
    let full = expanded_key(prev, rec);
    lemma_terminator_from(rec.data, 0);
    assert(full =~= prev.take(c) + key_part(rec.data));
    assert(full[c] == key_part(rec.data)[0]);
    assert forall|j: int| 0 <= j < c implies prev[j] == full[j] by {}
    lemma_parts_at_unique(prev, full, c);
}

/// The full key and the value of each record in `rest`, in their order, up
/// to the first sentinel or the first place where no whole record starts;
/// `prev` is the full key of the record before `rest`.
pub open spec fn entries_of(rest: Seq<u8>, prev: Seq<u8>) -> Seq<(Seq<u8>, Seq<u8>)>
    decreases rest.len(),
{
    if !record_fits(rest) || first_record(rest).header.is_star() {
        Seq::empty()
    } else {
        seq![
            (
                expanded_key(prev, first_record(rest)),
                first_record(rest).data.skip(value_start(first_record(rest).data)),
            ),
        ] + entries_of(after_first_record(rest), expanded_key(prev, first_record(rest)))
    }
}

/// In records that are compressed exactly, every full key sorts after the
/// key before the first of them.
pub proof fn lemma_entries_sort_after(rest: Seq<u8>, prev: Seq<u8>, i: int)
    requires
        compressed_exactly(rest, prev),
        0 <= i < entries_of(rest, prev).len(),
    ensures
        lex_order(prev, entries_of(rest, prev)[i].0) == SortOrder::SortsBefore,
    decreases rest.len(),
{
    let rec = first_record(rest);
    let full = expanded_key(prev, rec);
    lemma_follows_sorts_after(prev, rec);
    if i > 0 {
        let tail = after_first_record(rest);
        assert(entries_of(rest, prev)[i] == entries_of(tail, full)[i - 1]);
        lemma_entries_sort_after(tail, full, i - 1);
        lemma_lex_order_transitive(prev, full, entries_of(tail, full)[i - 1].0);
    }
}

/// In records that are compressed exactly, the search by full keys finds a
/// value exactly when a record before the first sentinel has the goal as
/// its full key, and the value found is the value of that record.
pub proof fn lemma_find_by_key_is_lookup(rest: Seq<u8>, prev: Seq<u8>, goal: Seq<u8>, value: Seq<u8>)
    requires
        compressed_exactly(rest, prev),
    ensures
        find_by_key(rest, prev, goal) == Ok::<Seq<u8>, ValueError>(value) <==> exists|i: int|
            0 <= i < entries_of(rest, prev).len() && #[trigger] entries_of(rest, prev)[i] == (
                goal,
                value,
            ),
    decreases rest.len(),
{
    let entries = entries_of(rest, prev);
    if record_fits(rest) && !first_record(rest).header.is_star() {
        let rec = first_record(rest);
        let tail = after_first_record(rest);
        let full = expanded_key(prev, rec);
        let later = entries_of(tail, full);
        lemma_lex_order_equal(full, goal);
        lemma_find_by_key_is_lookup(tail, full, goal, value);
        assert forall|i: int| 0 < i < entries.len() implies #[trigger] entries[i] == later[i - 1] by {}
        if lex_order(full, goal) == SortOrder::SortsBefore {
            if exists|i: int| 0 <= i < entries.len() && #[trigger] entries[i] == (goal, value) {
                let i = choose|i: int| 0 <= i < entries.len() && #[trigger] entries[i] == (goal, value);
                assert(later[i - 1] == (goal, value));
            }
            if exists|i: int| 0 <= i < later.len() && #[trigger] later[i] == (goal, value) {
                let i = choose|i: int| 0 <= i < later.len() && #[trigger] later[i] == (goal, value);
                assert(entries[i + 1] == (goal, value));
            }
        } else {
            assert forall|i: int| 0 < i < entries.len() implies (#[trigger] entries[i]).0
                != goal by {
                lemma_entries_sort_after(tail, full, i - 1);
                lemma_lex_order_equal(full, later[i - 1].0);
                if lex_order(full, goal) == SortOrder::SortsAfter {
                    lemma_lex_order_antisymmetric(full, goal);
                    lemma_lex_order_transitive(goal, full, later[i - 1].0);
                    lemma_lex_order_equal(goal, later[i - 1].0);
                }
            }
            if lex_order(full, goal) == SortOrder::SortsEqual {
                if find_by_key(rest, prev, goal) == Ok::<Seq<u8>, ValueError>(value) {
                    assert(entries[0] == (goal, value));
                }
            }
        }
    }
}

/// A common beginning changes neither the order of two strings nor where
/// they part, counted from its end.
pub proof fn lemma_common_beginning(p: Seq<u8>, a: Seq<u8>, b: Seq<u8>)
    ensures
        common_prefix_len(p + a, p + b) == p.len() + common_prefix_len(a, b),
        lex_order(p + a, p + b) == lex_order(a, b),
{
    lemma_agree_until(a, b, 0);
    let k = common_prefix_len(a, b);
    assert forall|j: int| 0 <= j < p.len() + k implies (p + a)[j] == (p + b)[j] by {
        if j >= p.len() {
            assert(a[j - p.len()] == b[j - p.len()]);
        }
    }
    assert(parts_at(p + a, p + b, p.len() + k));
    lemma_parts_at_unique(p + a, p + b, p.len() + k);
}

/// What the comparison by compression count says of a record that is
/// compressed exactly is what the order of its full key and the goal says;
/// and where the record does not sort after the goal, the scan keeps track
/// of its full key.
pub proof fn lemma_compare_by_full_key(prev: Seq<u8>, rec: RecView, scan: ScanView)
    requires
        !rec.header.is_star(),
        follows(prev, rec),
        tracks(scan, prev),
    ensures
        compare_spec(rec, scan).0 == lex_order(expanded_key(prev, rec), scan.goal),
        compare_spec(rec, scan).1.goal == scan.goal,
        compare_spec(rec, scan).0 != SortOrder::SortsAfter ==> tracks(
            compare_spec(rec, scan).1,
            expanded_key(prev, rec),
        ),
{
    let goal = scan.goal;
    let m = scan.matched;
    let c = rec.header.shared();
    let own = key_part(rec.data);
    let full = expanded_key(prev, rec);
    lemma_agree_until(prev, goal, 0);
    lemma_terminator_from(rec.data, 0);
    assert(own.len() >= 2);
    assert(full =~= prev.take(c) + own);
    if c == m {
        let shared = goal.take(m);
        assert(prev.take(c) =~= shared);
        assert(goal =~= shared + goal.skip(m));
        lemma_common_beginning(shared, own, goal.skip(m));
    } else if c > m {
        assert(m < goal.len());
        assert(prev[m] < goal[m]);
        assert(full[m] == prev[m]);
        lemma_parts_at_unique(full, goal, m);
    } else {
        assert(full[c] == own[0]);
        assert(prev[c] == goal[c]);
        assert forall|j: int| 0 <= j < c implies full[j] == goal[j] by {
            assert(full[j] == prev[j]);
        }
        lemma_parts_at_unique(full, goal, c);
    }
}

/// In records that are compressed exactly, the search by compression
/// counts finds the value that the search by full keys finds.
pub proof fn lemma_find_by_key(rest: Seq<u8>, prev: Seq<u8>, scan: ScanView)
    requires
        compressed_exactly(rest, prev),
        tracks(scan, prev),
    ensures
        find_in(rest, scan) == find_by_key(rest, prev, scan.goal),
    decreases rest.len(),
{
    if rest.len() > 0 && record_fits(rest) {
        let rec = first_record(rest);
        if !rec.header.is_star() {
            lemma_compare_by_full_key(prev, rec, scan);
            if compare_spec(rec, scan).0 == SortOrder::SortsBefore {
                lemma_find_by_key(
                    after_first_record(rest),
                    expanded_key(prev, rec),
                    compare_spec(rec, scan).1,
                );
            }
        }
    }
}

/// In records that are compressed exactly, the descent by compression
/// counts follows the pointer that the descent by full keys follows.
pub proof fn lemma_pick_by_key(rest: Seq<u8>, prev: Seq<u8>, scan: ScanView, or_equal: bool)
    requires
        compressed_exactly(rest, prev),
        tracks(scan, prev),
    ensures
        pick_in(rest, scan, or_equal) == pick_by_key(rest, prev, scan.goal, or_equal),
    decreases rest.len(),
{
    if rest.len() > 0 && record_fits(rest) {
        let rec = first_record(rest);
        if !rec.header.is_star() {
            lemma_compare_by_full_key(prev, rec, scan);
            if !leads_on(compare_spec(rec, scan).0, or_equal) {
                lemma_pick_by_key(
                    after_first_record(rest),
                    expanded_key(prev, rec),
                    compare_spec(rec, scan).1,
                    or_equal,
                );
            }
        }
    }
}

/// In a block whose records are compressed exactly, a descent that scans
/// from the start of the block follows the pointer that the full keys give.
pub proof fn lemma_block_pick_by_key(payload: Seq<u8>, goal: Seq<u8>, or_equal: bool)
    requires
        compressed_exactly(payload, Seq::empty()),
    ensures
        pick_in(payload, ScanView::fresh(goal), or_equal) == pick_by_key(
            payload,
            Seq::empty(),
            goal,
            or_equal,
        ),
{
    lemma_pick_by_key(payload, Seq::empty(), ScanView::fresh(goal), or_equal);
}

/// In a block whose records are compressed exactly, a search from the start
/// of the block finds the value of the record whose full key is the goal.
pub proof fn lemma_block_find_by_key(payload: Seq<u8>, goal: Seq<u8>)
    requires
        compressed_exactly(payload, Seq::empty()),
    ensures
        find_in(payload, ScanView::fresh(goal)) == find_by_key(payload, Seq::empty(), goal),
{
    lemma_find_by_key(payload, Seq::empty(), ScanView::fresh(goal));
}

} // verus!
