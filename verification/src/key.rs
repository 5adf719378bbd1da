//! Keys as byte strings: their order, their terminator, and the state of a
//! scan that looks for one of them.

use vstd::prelude::*;
use crate::rec::RecView;
use crate::SortOrder;

verus! {

/// The state of one scan through one block: the key looked for, and how many
/// of its leading bytes the records seen so far have matched.
#[derive(Debug, Clone, Copy)]
pub struct State<'a> {
    pub compression: usize,
    pub goal: &'a [u8],
}

/// The state of a scan as plain values.
pub struct ScanView {
    pub matched: int,
    pub goal: Seq<u8>,
}

impl<'a> View for State<'a> {
    type V = ScanView;

    open spec fn view(&self) -> ScanView {
        ScanView { matched: self.compression as int, goal: self.goal@ }
    }
}

impl ScanView {
    /// What of the goal no record has matched yet.
    pub open spec fn unmatched(self) -> Seq<u8> {
        if 0 <= self.matched <= self.goal.len() {
            self.goal.skip(self.matched)
        } else {
            Seq::empty()
        }
    }

    /// The scan for `goal` that has matched nothing yet.
    pub open spec fn fresh(goal: Seq<u8>) -> ScanView {
        ScanView { matched: 0, goal }
    }
}

impl<'a> State<'a> {
    /// A scan for `goal` that has matched nothing yet.
    pub fn new(goal: &'a [u8]) -> (s: State<'a>)
        ensures
            s@ == ScanView::fresh(goal@),
    {
        State { compression: 0, goal }
    }
}

/// The first position at or after `i` where `a` and `b` differ or one of
/// them ends.
pub open spec fn agree_until(a: Seq<u8>, b: Seq<u8>, i: int) -> int
    decreases a.len() - i,
{
    if 0 <= i < a.len() && i < b.len() && a[i] == b[i] {
        agree_until(a, b, i + 1)
    } else {
        i
    }
}

/// The length of the longest common prefix of `a` and `b`.
pub open spec fn common_prefix_len(a: Seq<u8>, b: Seq<u8>) -> int {
    agree_until(a, b, 0)
}

/// Lexicographic byte order, a proper prefix sorting before what extends it.
pub open spec fn lex_order(a: Seq<u8>, b: Seq<u8>) -> SortOrder {
    let k = common_prefix_len(a, b);
    if k == a.len() && k == b.len() {
        SortOrder::SortsEqual
    } else if k == a.len() {
        SortOrder::SortsBefore
    } else if k == b.len() {
        SortOrder::SortsAfter
    } else if a[k] < b[k] {
        SortOrder::SortsBefore
    } else {
        SortOrder::SortsAfter
    }
}

/// `k` is where `a` and `b` first part: they agree below `k`, and at `k` they
/// differ or one of them ends.
pub open spec fn parts_at(a: Seq<u8>, b: Seq<u8>, k: int) -> bool {
    &&& 0 <= k <= a.len()
    &&& k <= b.len()
    &&& forall|j: int| 0 <= j < k ==> a[j] == b[j]
    &&& (k < a.len() && k < b.len() ==> a[k] != b[k])
}

/// Scanning on from a position below which the strings agree ends where they
/// first part.
pub proof fn lemma_agree_until(a: Seq<u8>, b: Seq<u8>, i: int)
    requires
        0 <= i <= a.len(),
        i <= b.len(),
        forall|j: int| 0 <= j < i ==> a[j] == b[j],
    ensures
        parts_at(a, b, agree_until(a, b, i)),
        i <= agree_until(a, b, i),
    decreases a.len() - i,
{
    if i < a.len() && i < b.len() && a[i] == b[i] {
        lemma_agree_until(a, b, i + 1);
    }
}

/// Two strings part at one position only, the length of their common prefix.
pub proof fn lemma_parts_at_unique(a: Seq<u8>, b: Seq<u8>, k: int)
    requires
        parts_at(a, b, k),
    ensures
        k == common_prefix_len(a, b),
{
    lemma_agree_until(a, b, 0);
    let c = common_prefix_len(a, b);
    if k < c {
        assert(a[k] == b[k]);
    } else if c < k {
        assert(a[c] == b[c]);
    }
}

/// The common prefix of two strings does not depend on their order.
pub proof fn lemma_common_prefix_symmetric(a: Seq<u8>, b: Seq<u8>)
    ensures
        common_prefix_len(a, b) == common_prefix_len(b, a),
{
    lemma_agree_until(a, b, 0);
    lemma_parts_at_unique(b, a, common_prefix_len(a, b));
}

/// The order is antisymmetric: exchanging the two strings exchanges before
/// and after, and keeps equal.
pub proof fn lemma_lex_order_antisymmetric(a: Seq<u8>, b: Seq<u8>)
    ensures
        lex_order(b, a) == lex_order(a, b).flipped(),
{
    lemma_common_prefix_symmetric(a, b);
    lemma_agree_until(a, b, 0);
}

/// Two strings sort equal exactly when they are the same string.
pub proof fn lemma_lex_order_equal(a: Seq<u8>, b: Seq<u8>)
    ensures
        lex_order(a, b) == SortOrder::SortsEqual <==> a == b,
{
    lemma_agree_until(a, b, 0);
    if a == b {
        lemma_parts_at_unique(a, b, a.len() as int);
    } else if lex_order(a, b) == SortOrder::SortsEqual {
        assert(a =~= b);
    }
}

/// The order is transitive on strict steps.
pub proof fn lemma_lex_order_transitive(a: Seq<u8>, b: Seq<u8>, c: Seq<u8>)
    requires
        lex_order(a, b) == SortOrder::SortsBefore,
        lex_order(b, c) == SortOrder::SortsBefore,
    ensures
        lex_order(a, c) == SortOrder::SortsBefore,
{
    lemma_agree_until(a, b, 0);
    lemma_agree_until(b, c, 0);
    let k1 = common_prefix_len(a, b);
    let k2 = common_prefix_len(b, c);
    let k = if k1 <= k2 { k1 } else { k2 };
    assert forall|j: int| 0 <= j < k implies a[j] == c[j] by {
        assert(a[j] == b[j]);
        assert(b[j] == c[j]);
    }
    if k1 < k2 {
        if k1 < a.len() {
            assert(b[k1] == c[k1]);
        }
        lemma_parts_at_unique(a, c, k);
    } else if k2 < k1 {
        assert(a[k2] == b[k2]);
        lemma_parts_at_unique(a, c, k);
    } else {
        lemma_parts_at_unique(a, c, k);
    }
}

/// A key's terminator, two zero bytes, lies at position `i` of `data`.
pub open spec fn terminator_at(data: Seq<u8>, i: int) -> bool {
    0 <= i && i + 1 < data.len() && data[i] == 0 && data[i + 1] == 0
}

/// The first position at or after `i` where a terminator lies, or the length
/// of `data` where none does.
pub open spec fn terminator_from(data: Seq<u8>, i: int) -> int
    decreases data.len() - i,
{
    if i < 0 || i + 1 >= data.len() {
        data.len() as int
    } else if data[i] == 0 && data[i + 1] == 0 {
        i
    } else {
        terminator_from(data, i + 1)
    }
}

/// The position of the first terminator in `data`, or the length of `data`
/// where it holds none.
pub open spec fn first_terminator(data: Seq<u8>) -> int {
    terminator_from(data, 0)
}

/// `data` holds a terminator.
pub open spec fn has_terminator(data: Seq<u8>) -> bool {
    first_terminator(data) < data.len()
}

/// The key bytes that a record's payload starts with, terminator included;
/// the whole payload where it holds no terminator.
pub open spec fn key_part(data: Seq<u8>) -> Seq<u8> {
    if has_terminator(data) {
        data.subrange(0, first_terminator(data) + 2)
    } else {
        data
    }
}

/// Where the value starts in a record's payload: behind the first
/// terminator, or at the last byte where the payload holds no terminator.
pub open spec fn value_start(data: Seq<u8>) -> int {
    if has_terminator(data) {
        first_terminator(data) + 2
    } else if data.len() == 0 {
        0
    } else {
        data.len() - 1
    }
}

/// The leading `shared` bytes of the key before, which a record's key keeps;
/// zero bytes stand in where the key before is shorter than that.
pub open spec fn kept_prefix(prev: Seq<u8>, shared: int) -> Seq<u8> {
    if shared <= prev.len() {
        prev.take(shared)
    } else {
        prev + Seq::new((shared - prev.len()) as nat, |i: int| 0u8)
    }
}

/// The full key of a record: what it keeps of the key before, then its own
/// key bytes, terminator included.
pub open spec fn expanded_key(prev: Seq<u8>, rec: RecView) -> Seq<u8> {
    kept_prefix(prev, rec.header.shared()) + key_part(rec.data)
}

/// The room that the expansion of a record gives the key: what the record
/// shares, its whole size, and two bytes for a terminator.
pub open spec fn key_room(rec: RecView) -> int {
    rec.header.shared() + 2 + rec.header.size()
}

/// How many bytes of a payload without terminator the search for one has
/// passed: all but the last.
pub open spec fn scanned(data: Seq<u8>) -> int {
    if data.len() == 0 {
        0
    } else {
        data.len() - 1
    }
}

/// The key that the expansion of a record without terminator leaves behind:
/// the key before, cut down or filled up with zero bytes to the room of the
/// record, with the payload bytes that the search has passed written over
/// it from where the shared bytes end, as far as the room reaches.
pub open spec fn unterminated_key(prev: Seq<u8>, rec: RecView) -> Seq<u8> {
    Seq::new(
        key_room(rec) as nat,
        |i: int|
            if rec.header.shared() <= i < rec.header.shared() + scanned(rec.data) {
                rec.data[i - rec.header.shared()]
            } else {
                kept_prefix(prev, key_room(rec))[i]
            },
    )
}

/// How a record stands to the goal of a scan, and the scan after it.
///
/// The sentinel record sorts after every goal. A record that shares less
/// with the record before than the scan has matched sorts after the goal;
/// one that shares more sorts before it. One that shares exactly what was
/// matched is compared, key byte by key byte, with the rest of the goal, and
/// the scan then has matched what the two have in common as well.
pub open spec fn compare_spec(rec: RecView, scan: ScanView) -> (SortOrder, ScanView) {
    if rec.header.is_star() {
        (SortOrder::SortsAfter, scan)
    } else if rec.header.shared() < scan.matched {
        (SortOrder::SortsAfter, scan)
    } else if rec.header.shared() > scan.matched {
        (SortOrder::SortsBefore, scan)
    } else {
        (
            lex_order(key_part(rec.data), scan.unmatched()),
            ScanView {
                matched: scan.matched + common_prefix_len(key_part(rec.data), scan.unmatched()),
                goal: scan.goal,
            },
        )
    }
}

/// Finds the first terminator in `data`.
pub fn find_terminator(data: &[u8]) -> (r: Option<usize>)
    ensures
        r is Some <==> has_terminator(data@),
        r matches Some(at) ==> at == first_terminator(data@) && at + 2 <= data@.len()
            <= usize::MAX,
{
    let len: usize = data.len();
    let mut i: usize = 0;
    while len - i > 1
        invariant
            len == data@.len(),
            i <= len,
            terminator_from(data@, i as int) == first_terminator(data@),
        decreases len - i,
    {
        if data[i] == 0 && data[i + 1] == 0 {
            return Some(i);
        }
        i += 1;
    }
    None
}

/// The number of key bytes that `data` starts with, terminator included.
pub fn key_len(data: &[u8]) -> (n: usize)
    ensures
        n <= data@.len(),
        key_part(data@) == data@.take(n as int),
{
    proof {
        lemma_terminator_from(data@, 0);
        assert(data@.take(data@.len() as int) =~= data@);
    }
    match find_terminator(data) {
        Some(at) => at + 2,
        None => data.len(),
    }
}

/// Cuts `key` down to its first `keep` bytes, or fills it up to that length
/// with zero bytes.
pub fn keep_prefix(key: &mut Vec<u8>, keep: usize)
    ensures
        final(key)@ == kept_prefix(old(key)@, keep as int),
{
    if keep <= key.len() {
        key.truncate(keep);
    } else {
        assert(key@ =~= kept_prefix(old(key)@, key@.len() as int));
        while key.len() < keep
            invariant
                old(key)@.len() <= key@.len() <= keep,
                key@ == kept_prefix(old(key)@, key@.len() as int),
            decreases keep - key@.len(),
        {
            key.push(0);
            assert(key@ =~= kept_prefix(old(key)@, key@.len() as int));
        }
    }
}

/// Writes the first `count` bytes of `src` over `key` from position `at`,
/// as far as `key` reaches.
pub fn overwrite(key: &mut Vec<u8>, at: usize, src: &[u8], count: usize)
    requires
        count <= src@.len(),
    ensures
        final(key)@ == Seq::new(
            old(key)@.len(),
            |i: int|
                if at <= i < at + count {
                    src@[i - at]
                } else {
                    old(key)@[i]
                },
        ),
{
    let len: usize = key.len();
    let mut done: usize = 0;
    assert(key@ =~= Seq::new(
        old(key)@.len(),
        |i: int|
            if at <= i < at + 0 {
                src@[i - at]
            } else {
                old(key)@[i]
            },
    ));
    while done < count && at < len && done < len - at
        invariant
            len == old(key)@.len(),
            done <= count <= src@.len(),
            key@ == Seq::new(
                old(key)@.len(),
                |i: int|
                    if at <= i < at + done {
                        src@[i - at]
                    } else {
                        old(key)@[i]
                    },
            ),
        decreases count - done,
    {
        key.set(at + done, src[done]);
        done += 1;
        assert(key@ =~= Seq::new(
            old(key)@.len(),
            |i: int|
                if at <= i < at + done {
                    src@[i - at]
                } else {
                    old(key)@[i]
                },
        ));
    }
    assert(key@ =~= Seq::new(
        old(key)@.len(),
        |i: int|
            if at <= i < at + count {
                src@[i - at]
            } else {
                old(key)@[i]
            },
    ));
}

/// Compares the first `key_end` bytes of `key` with what of its goal the
/// scan `state` has not matched yet, and counts what the two have in common
/// as matched.
pub fn match_key(key: &[u8], key_end: usize, state: &mut State) -> (r: SortOrder)
    requires
        key_end <= key@.len(),
    ensures
        r == lex_order(key@.take(key_end as int), old(state)@.unmatched()),
        final(state)@ == (ScanView {
            matched: old(state)@.matched + common_prefix_len(
                key@.take(key_end as int),
                old(state)@.unmatched(),
            ),
            goal: old(state)@.goal,
        }),
{
    let goal = state.goal;
    let goal_len: usize = goal.len();
    let ghost a = key@.take(key_end as int);
    let ghost b = old(state)@.unmatched();
    let ghost start = old(state)@.matched;
    let mut index: usize = 0;
    let mut matched: usize = state.compression;
    while index < key_end && matched < goal_len && key[index] == goal[matched]
        invariant
            key_end <= key@.len(),
            goal_len == goal@.len(),
            a == key@.take(key_end as int),
            b == old(state)@.unmatched(),
            goal@ == old(state)@.goal,
            start == old(state)@.matched,
            index <= key_end,
            matched == start + index,
            start <= goal_len ==> matched <= goal_len,
            agree_until(a, b, index as int) == common_prefix_len(a, b),
        decreases key_end - index,
    {
        matched += 1;
        index += 1;
    }
    state.compression = matched;
    if index == key_end && matched >= goal_len {
        SortOrder::SortsEqual
    } else if index == key_end {
        SortOrder::SortsBefore
    } else if matched >= goal_len {
        SortOrder::SortsAfter
    } else if key[index] > goal[matched] {
        SortOrder::SortsAfter
    } else {
        SortOrder::SortsBefore
    }
}

/// Appends the first `upto` bytes of `src` to `out`.
pub fn append_bytes(out: &mut Vec<u8>, src: &[u8], upto: usize)
    requires
        upto <= src@.len(),
    ensures
        final(out)@ == old(out)@ + src@.take(upto as int),
{
    let mut i: usize = 0;
    while i < upto
        invariant
            i <= upto <= src@.len(),
            out@ == old(out)@ + src@.take(i as int),
        decreases upto - i,
    {
        out.push(src[i]);
        i += 1;
        assert(out@ =~= old(out)@ + src@.take(i as int));
    }
}

/// Expanding a key again from the key it gave changes nothing: the full key
/// of a record keeps its own leading bytes.
pub proof fn lemma_expand_key_idempotent(prev: Seq<u8>, rec: RecView)
    ensures
        expanded_key(expanded_key(prev, rec), rec) == expanded_key(prev, rec),
{
    let full = expanded_key(prev, rec);
    let shared = rec.header.shared();
    assert(kept_prefix(full, shared) =~= kept_prefix(prev, shared));
}

/// The sentinel record sorts after every goal and leaves the scan as it is.
pub proof fn lemma_star_sorts_after(rec: RecView, scan: ScanView)
    requires
        rec.header.is_star(),
    ensures
        compare_spec(rec, scan) == (SortOrder::SortsAfter, scan),
{
}

/// A scan that has matched the leading bytes `matched` of its goal
/// classifies a record that shares exactly those with the record before by
/// the order of the record's key bytes and the rest of the goal.
pub proof fn lemma_compare_is_lex_order(rec: RecView, matched: Seq<u8>, rest: Seq<u8>)
    requires
        !rec.header.is_star(),
        rec.header.shared() == matched.len(),
    ensures
        compare_spec(rec, ScanView { matched: matched.len() as int, goal: matched + rest }).0
            == lex_order(key_part(rec.data), rest),
{
    assert((matched + rest).skip(matched.len() as int) =~= rest);
}

/// The comparison is antisymmetric: where two records share the same
/// leading bytes with the record before, comparing the first with the key
/// of the second as goal and the second with the key of the first as goal
/// gives opposite results, before for after and equal for equal.
pub proof fn lemma_compare_antisymmetric(a: RecView, b: RecView, matched: Seq<u8>)
    requires
        !a.header.is_star(),
        !b.header.is_star(),
        a.header.shared() == matched.len(),
        b.header.shared() == matched.len(),
    ensures
        compare_spec(
            a,
            ScanView { matched: matched.len() as int, goal: matched + key_part(b.data) },
        ).0 == compare_spec(
            b,
            ScanView { matched: matched.len() as int, goal: matched + key_part(a.data) },
        ).0.flipped(),
{
    lemma_compare_is_lex_order(a, matched, key_part(b.data));
    lemma_compare_is_lex_order(b, matched, key_part(a.data));
    lemma_lex_order_antisymmetric(key_part(b.data), key_part(a.data));
}

/// The byte that parts the subscripts in a list of them.
pub const COMMA: u8 = 0x2c;

/// The subscripts that the list `list` names: what stands between its
/// commas. A list without a comma names one subscript, an empty one where
/// the list is empty.
pub open spec fn split_commas(list: Seq<u8>) -> Seq<Seq<u8>>
    decreases list.len(),
{
    if list.len() == 0 {
        seq![Seq::empty()]
    } else if list.last() == COMMA {
        split_commas(list.drop_last()).push(Seq::empty())
    } else {
        let before = split_commas(list.drop_last());
        before.drop_last().push(before.last().push(list.last()))
    }
}

/// The name of a global with `subs` behind it, each subscript after two
/// zero bytes.
pub open spec fn with_subscripts(global: Seq<u8>, subs: Seq<Seq<u8>>) -> Seq<u8>
    decreases subs.len(),
{
    if subs.len() == 0 {
        global
    } else {
        with_subscripts(global, subs.drop_last()) + seq![0u8, 0u8] + subs.last()
    }
}

/// The key of the node of `global` under the subscripts `subs`: the name,
/// the subscripts, each after two zero bytes, and the terminator.
pub open spec fn key_of(global: Seq<u8>, subs: Seq<Seq<u8>>) -> Seq<u8> {
    with_subscripts(global, subs) + seq![0u8, 0u8]
}

/// The subscripts that a caller asks for: those of the list where one is
/// given, none where none is.
pub open spec fn subscripts_of(list: Option<Seq<u8>>) -> Seq<Seq<u8>> {
    match list {
        Some(list) => split_commas(list),
        None => Seq::empty(),
    }
}

/// Builds the key to search for from the name of a global and, where one is
/// given, a list of subscripts parted by commas.
pub fn search_key(global: &[u8], subscripts: Option<&[u8]>) -> (key: Vec<u8>)
    ensures
        key@ == key_of(
            global@,
            subscripts_of(
                match subscripts {
                    Some(list) => Some(list@),
                    None => None,
                },
            ),
        ),
{
    let mut key: Vec<u8> = Vec::new();
    append_bytes(&mut key, global, global.len());
    assert(key@ =~= global@);
    match subscripts {
        None => {},
        Some(list) => {
            key.push(0);
            key.push(0);
            assert(key@ =~= with_subscripts(global@, split_commas(list@.take(0)))) by {
                let one = split_commas(list@.take(0));
                assert(one.drop_last() =~= Seq::<Seq<u8>>::empty());
                assert(one.last() =~= Seq::<u8>::empty());
                reveal_with_fuel(with_subscripts, 2);
            }
            let mut i: usize = 0;
            while i < list.len()
                invariant
                    i <= list@.len(),
                    key@ == with_subscripts(global@, split_commas(list@.take(i as int))),
                decreases list@.len() - i,
            {
                let ghost before = split_commas(list@.take(i as int));
                let ghost upto = list@.take(i + 1);
                proof {
                    lemma_split_commas_nonempty(list@.take(i as int));
                    assert(upto.drop_last() =~= list@.take(i as int));
                    assert(upto.last() == list@[i as int]);
                }
                if list[i] == COMMA {
                    key.push(0);
                    key.push(0);
                    proof {
                        let now = split_commas(upto);
                        assert(now.drop_last() =~= before);
                        assert(key@ =~= with_subscripts(global@, before) + seq![0u8, 0u8]
                            + now.last());
                    }
                } else {
                    key.push(list[i]);
                    proof {
                        let now = split_commas(upto);
                        assert(now.drop_last() =~= before.drop_last());
                        assert(key@ =~= with_subscripts(global@, before.drop_last()) + seq![
                            0u8,
                            0u8,
                        ] + now.last());
                    }
                }
                i += 1;
            }
            assert(list@.take(list@.len() as int) =~= list@);
        },
    }
    key.push(0);
    key.push(0);
    assert(key@ =~= key_of(
        global@,
        subscripts_of(
            match subscripts {
                Some(list) => Some(list@),
                None => None,
            },
        ),
    ));
    key
}

/// A list of subscripts names at least one subscript.
pub proof fn lemma_split_commas_nonempty(list: Seq<u8>)
    ensures
        split_commas(list).len() >= 1,
    decreases list.len(),
{
    if list.len() > 0 {
        lemma_split_commas_nonempty(list.drop_last());
    }
}

/// The scan for a terminator finds the first one, and reports the length of
/// `data` exactly when there is none at or after `i`.
pub proof fn lemma_terminator_from(data: Seq<u8>, i: int)
    requires
        0 <= i,
    ensures
        i <= terminator_from(data, i) || terminator_from(data, i) == data.len(),
        terminator_from(data, i) <= data.len(),
        terminator_from(data, i) < data.len() ==> terminator_at(data, terminator_from(data, i)),
        forall|j: int| i <= j < terminator_from(data, i) ==> !terminator_at(data, j),
    decreases data.len() - i,
{
    if i + 1 >= data.len() {
    } else if data[i] == 0 && data[i + 1] == 0 {
    } else {
        lemma_terminator_from(data, i + 1);
    }
}

/// A payload holds a terminator exactly when one lies at some position.
pub proof fn lemma_has_terminator(data: Seq<u8>)
    ensures
        has_terminator(data) <==> exists|i: int| terminator_at(data, i),
        has_terminator(data) ==> terminator_at(data, first_terminator(data)),
        forall|j: int| 0 <= j < first_terminator(data) ==> !terminator_at(data, j),
{
    lemma_terminator_from(data, 0);
    if exists|i: int| terminator_at(data, i) {
        let i = choose|i: int| terminator_at(data, i);
        if !has_terminator(data) {
            assert(!terminator_at(data, i));
        }
    }
}

} // verus!
