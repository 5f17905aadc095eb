//! The order in which rows are stored: by primary key, then by time, the last written
//! first.

use vstd::multiset::Multiset;
use vstd::prelude::*;

use crate::text;

verus! {

/// What a row is ordered by: its encoded primary key, its timestamp and its sequence.
pub struct RowKey {
    pub primary_key: Seq<u8>,
    pub timestamp: i64,
    pub sequence: u64,
}

impl RowKey {
    /// Whether a row with this key may come before one with the other.
    pub open spec fn le(self, other: RowKey) -> bool {
        ||| text::lex_lt(self.primary_key, other.primary_key)
        ||| self.primary_key == other.primary_key && self.timestamp < other.timestamp
        ||| self.primary_key == other.primary_key && self.timestamp == other.timestamp
            && self.sequence >= other.sequence
    }

    /// Whether two rows are versions of the same one.
    pub open spec fn same_row(self, other: RowKey) -> bool {
        self.primary_key == other.primary_key && self.timestamp == other.timestamp
    }
}

/// Of two rows, one may come before the other.
pub proof fn lemma_le_total(a: RowKey, b: RowKey)
    ensures
        a.le(b) || b.le(a),
{
    text::lemma_lex_total(a.primary_key, b.primary_key);
}

/// Rows that may come one after the other may do so with others in between.
pub proof fn lemma_le_transitive(a: RowKey, b: RowKey, c: RowKey)
    requires
        a.le(b),
        b.le(c),
    ensures
        a.le(c),
{
    if text::lex_lt(a.primary_key, b.primary_key) && text::lex_lt(b.primary_key, c.primary_key) {
        text::lemma_lex_transitive(a.primary_key, b.primary_key, c.primary_key);
    }
}

/// The keys of rows, column by column.
pub struct RowKeys<'a> {
    pub primary_keys: &'a Vec<Vec<u8>>,
    pub timestamps: &'a Vec<i64>,
    pub sequences: &'a Vec<u64>,
}

impl RowKeys<'_> {
    /// There are as many of each.
    pub open spec fn well_formed(self) -> bool {
        self.primary_keys@.len() == self.timestamps@.len() && self.timestamps@.len()
            == self.sequences@.len()
    }

    /// The keys, row by row.
    pub open spec fn keys(self) -> Seq<RowKey> {
        Seq::new(
            self.primary_keys@.len(),
            |i: int|
                RowKey {
                    primary_key: self.primary_keys@[i]@,
                    timestamp: self.timestamps@[i],
                    sequence: self.sequences@[i],
                },
        )
    }

    /// Whether the row at `a` may come before the one at `b`.
    fn le(&self, a: usize, b: usize) -> (r: bool)
        requires
            self.well_formed(),
            a < self.keys().len(),
            b < self.keys().len(),
        ensures
            r == self.keys()[a as int].le(self.keys()[b as int]),
    {
        if text::bytes_equal(self.primary_keys[a].as_slice(), self.primary_keys[b].as_slice()) {
            proof {
                text::lemma_lex_asymmetric(
                    self.primary_keys@[a as int]@,
                    self.primary_keys@[a as int]@,
                );
            }
            self.timestamps[a] < self.timestamps[b] || (self.timestamps[a] == self.timestamps[b]
                && self.sequences[a] >= self.sequences[b])
        } else {
            text::lex_less(self.primary_keys[a].as_slice(), self.primary_keys[b].as_slice())
        }
    }

    /// Whether two rows are versions of the same one.
    pub fn same_row(&self, a: usize, b: usize) -> (r: bool)
        requires
            self.well_formed(),
            a < self.keys().len(),
            b < self.keys().len(),
        ensures
            r == self.keys()[a as int].same_row(self.keys()[b as int]),
    {
        self.timestamps[a] == self.timestamps[b] && text::bytes_equal(
            self.primary_keys[a].as_slice(),
            self.primary_keys[b].as_slice(),
        )
    }
}

/// Places as numbers.
pub open spec fn places(rows: Seq<usize>) -> Seq<int> {
    rows.map_values(|i: usize| i as int)
}

/// Each of the places is one of `n`.
pub open spec fn in_range(order: Seq<int>, n: nat) -> bool {
    forall|k: int| 0 <= k < order.len() ==> 0 <= #[trigger] order[k] < n
}

/// The rows at the places come in order.
pub open spec fn sorted(keys: Seq<RowKey>, order: Seq<int>) -> bool {
    forall|i: int, j: int|
        0 <= i < j < order.len() ==> keys[#[trigger] order[i]].le(keys[#[trigger] order[j]])
}

/// Every row once, in order.
pub open spec fn is_sorted_order(keys: Seq<RowKey>, order: Seq<int>) -> bool {
    &&& order.len() == keys.len()
    &&& order.no_duplicates()
    &&& in_range(order, keys.len())
    &&& sorted(keys, order)
}

/// Merges two sorted lists of places into one.
fn merge(keys: &RowKeys<'_>, left: &Vec<usize>, right: &Vec<usize>) -> (r: Vec<usize>)
    requires
        keys.well_formed(),
        in_range(places(left@), keys.keys().len()),
        in_range(places(right@), keys.keys().len()),
        sorted(keys.keys(), places(left@)),
        sorted(keys.keys(), places(right@)),
    ensures
        in_range(places(r@), keys.keys().len()),
        sorted(keys.keys(), places(r@)),
        r@.to_multiset() == left@.to_multiset().add(right@.to_multiset()),
{
    broadcast use vstd::multiset::group_multiset_axioms, vstd::seq_lib::group_to_multiset_ensures;

    let ghost all = keys.keys();
    let mut merged: Vec<usize> = Vec::new();
    let mut i: usize = 0;
    let mut j: usize = 0;
    assert(left@.take(0) =~= Seq::<usize>::empty());
    assert(right@.take(0) =~= Seq::<usize>::empty());
    assert(merged@.to_multiset() =~= left@.take(0).to_multiset().add(
        right@.take(0).to_multiset(),
    ));
    while i < left.len() || j < right.len()
        invariant
            keys.well_formed(),
            all == keys.keys(),
            i <= left@.len(),
            j <= right@.len(),
            in_range(places(left@), all.len()),
            in_range(places(right@), all.len()),
            sorted(all, places(left@)),
            sorted(all, places(right@)),
            in_range(places(merged@), all.len()),
            sorted(all, places(merged@)),
            forall|k: int, m: int|
                0 <= k < merged@.len() && i <= m < left@.len() ==> all[#[trigger] places(
                    merged@,
                )[k]].le(all[#[trigger] places(left@)[m]]),
            forall|k: int, m: int|
                0 <= k < merged@.len() && j <= m < right@.len() ==> all[#[trigger] places(
                    merged@,
                )[k]].le(all[#[trigger] places(right@)[m]]),
            merged@.to_multiset() == left@.take(i as int).to_multiset().add(
                right@.take(j as int).to_multiset(),
            ),
        decreases left@.len() - i + right@.len() - j,
    {
        assert(i < left@.len() ==> places(left@)[i as int] == left@[i as int]);
        assert(j < right@.len() ==> places(right@)[j as int] == right@[j as int]);
        let from_left: bool = if j == right.len() {
            true
        } else if i == left.len() {
            false
        } else {
            keys.le(left[i], right[j])
        };
        let ghost before = merged@;
        if from_left {
            let at: usize = left[i];
            merged.push(at);
            proof {
                lemma_le_reflexive(all[at as int]);
                assert(left@.take(i + 1) =~= left@.take(i as int).push(at));
                vstd::seq_lib::to_multiset_build(before, at);
                vstd::seq_lib::to_multiset_build(left@.take(i as int), at);
                assert(merged@.to_multiset() =~= left@.take(i + 1).to_multiset().add(
                    right@.take(j as int).to_multiset(),
                ));
                if j < right@.len() {
                    assert(all[at as int].le(all[right@[j as int] as int]));
                    assert forall|m: int| j <= m < right@.len() implies all[at as int].le(
                        all[#[trigger] places(right@)[m]],
                    ) by {
                        if m > j {
                            assert(all[places(right@)[j as int]].le(all[places(right@)[m]]));
                            lemma_le_transitive(
                                all[at as int],
                                all[places(right@)[j as int]],
                                all[places(right@)[m]],
                            );
                        }
                    }
                }
            }
            i = i + 1;
        } else {
            let at: usize = right[j];
            merged.push(at);
            proof {
                lemma_le_reflexive(all[at as int]);
                assert(right@.take(j + 1) =~= right@.take(j as int).push(at));
                vstd::seq_lib::to_multiset_build(before, at);
                vstd::seq_lib::to_multiset_build(right@.take(j as int), at);
                assert(merged@.to_multiset() =~= left@.take(i as int).to_multiset().add(
                    right@.take(j + 1).to_multiset(),
                ));
                if i < left@.len() {
                    lemma_le_total(all[at as int], all[left@[i as int] as int]);
                    assert forall|m: int| i <= m < left@.len() implies all[at as int].le(
                        all[#[trigger] places(left@)[m]],
                    ) by {
                        if m > i {
                            assert(all[places(left@)[i as int]].le(all[places(left@)[m]]));
                            lemma_le_transitive(
                                all[at as int],
                                all[places(left@)[i as int]],
                                all[places(left@)[m]],
                            );
                        }
                    }
                }
            }
            j = j + 1;
        }
        assert forall|k: int| 0 <= k < merged@.len() implies #[trigger] places(merged@)[k] == (if k
            < before.len() {
            places(before)[k]
        } else {
            merged@[k] as int
        }) by {}
    }
    assert(left@.take(i as int) =~= left@);
    assert(right@.take(j as int) =~= right@);
    merged
}

proof fn lemma_le_reflexive(a: RowKey)
    ensures
        a.le(a),
{
}

/// Sorts the places `from` to `to` by their rows.
fn sort_range(keys: &RowKeys<'_>, from: usize, to: usize) -> (r: Vec<usize>)
    requires
        keys.well_formed(),
        from <= to <= keys.keys().len(),
    ensures
        in_range(places(r@), keys.keys().len()),
        sorted(keys.keys(), places(r@)),
        forall|x: usize| #[trigger]
            r@.to_multiset().count(x) == (if from <= x < to {
                1nat
            } else {
                0
            }),
    decreases to - from,
{
    broadcast use vstd::multiset::group_multiset_axioms, vstd::seq_lib::group_to_multiset_ensures;

    if to - from == 0 {
        let r: Vec<usize> = Vec::new();
        assert(forall|x: usize| #[trigger] r@.to_multiset().count(x) == 0) by {
            assert(r@ =~= Seq::<usize>::empty());
        }
        return r;
    }
    if to - from == 1 {
        let mut r: Vec<usize> = Vec::new();
        r.push(from);
        assert(r@ =~= Seq::<usize>::empty().push(from));
        assert(Seq::<usize>::empty().to_multiset() =~= Multiset::empty());
        return r;
    }
    let mid: usize = from + (to - from) / 2;
    let left = sort_range(keys, from, mid);
    let right = sort_range(keys, mid, to);
    merge(keys, &left, &right)
}

/// Every row once, in the order in which rows are stored.
pub fn sort_rows(keys: &RowKeys<'_>) -> (r: Vec<usize>)
    requires
        keys.well_formed(),
    ensures
        is_sorted_order(keys.keys(), places(r@)),
{
    let n: usize = keys.primary_keys.len();
    let r = sort_range(keys, 0, n);
    proof {
        let order = places(r@);
        let all = Seq::new(n as nat, |i: int| i as usize);
        assert forall|x: usize| r@.to_multiset().contains(x) implies r@.to_multiset().count(x)
            == 1 by {}
        r@.lemma_multiset_has_no_duplicates_conv();
        assert(order.no_duplicates());
        lemma_counted_len(r@, n as nat);
    }
    r
}

/// A list that holds each number below `n` once, and nothing else, has `n` entries.
proof fn lemma_counted_len(list: Seq<usize>, n: nat)
    requires
        n <= usize::MAX,
        forall|x: usize| #[trigger]
            list.to_multiset().count(x) == (if x < n {
                1nat
            } else {
                0
            }),
    ensures
        list.len() == n,
    decreases n,
{
    broadcast use vstd::multiset::group_multiset_axioms, vstd::seq_lib::group_to_multiset_ensures;

    if n == 0 {
        if list.len() > 0 {
            assert(list.contains(list[0]));
            assert(list.to_multiset().count(list[0]) > 0);
        }
    } else {
        let x = (n - 1) as usize;
        assert(list.to_multiset().count(x) == 1);
        assert(list.contains(x));
        let i = choose|i: int| 0 <= i < list.len() && list[i] == x;
        let rest = list.remove(i);
        assert(rest.to_multiset() =~= list.to_multiset().remove(x));
        lemma_counted_len(rest, (n - 1) as nat);
    }
}

/// The places without those whose row is a version of the row just before.
pub open spec fn deduped(keys: Seq<RowKey>, order: Seq<int>) -> Seq<int>
    decreases order.len(),
{
    if order.len() <= 1 {
        order
    } else {
        let before = deduped(keys, order.drop_last());
        if keys[order.last()].same_row(keys[order[order.len() - 2]]) {
            before
        } else {
            before.push(order.last())
        }
    }
}

/// Leaves out the places whose row is a version of the row just before.
pub fn dedup_rows(keys: &RowKeys<'_>, order: &Vec<usize>) -> (r: Vec<usize>)
    requires
        keys.well_formed(),
        in_range(places(order@), keys.keys().len()),
    ensures
        places(r@) == deduped(keys.keys(), places(order@)),
{
    let ghost all = keys.keys();
    let ghost given = places(order@);
    let mut kept: Vec<usize> = Vec::new();
    let mut i: usize = 0;
    assert(places(kept@) =~= given.take(0));
    while i < order.len()
        invariant
            keys.well_formed(),
            all == keys.keys(),
            given == places(order@),
            in_range(given, all.len()),
            i <= order@.len(),
            places(kept@) == deduped(all, given.take(i as int)),
        decreases order@.len() - i,
    {
        assert(given[i as int] == order@[i as int]);
        assert(given.take(i + 1).drop_last() =~= given.take(i as int));
        let keep: bool = if i == 0 {
            true
        } else {
            assert(given[i - 1] == order@[i - 1]);
            !keys.same_row(order[i], order[i - 1])
        };
        let ghost before = places(kept@);
        if keep {
            kept.push(order[i]);
            assert(places(kept@) =~= before.push(given[i as int]));
            if i == 0 {
                assert(places(kept@) =~= given.take(1));
            }
        }
        i = i + 1;
    }
    assert(given.take(i as int) =~= given);
    kept
}

/// What [`deduped`] keeps of a sorted list, place by place.
proof fn lemma_deduped(keys: Seq<RowKey>, order: Seq<int>)
    requires
        sorted(keys, order),
        order.no_duplicates(),
        in_range(order, keys.len()),
    ensures
        ({
            let kept = deduped(keys, order);
            &&& kept.len() <= order.len()
            &&& order.len() > 0 ==> kept.len() > 0 && keys[kept.last()].same_row(
                keys[order.last()],
            )
            &&& forall|k: int| 0 <= k < kept.len() ==> order.contains(#[trigger] kept[k])
            &&& forall|j: int, k: int|
                0 <= j < k < kept.len() ==> !keys[#[trigger] kept[j]].same_row(
                    keys[#[trigger] kept[k]],
                ) && keys[kept[j]].le(keys[kept[k]])
            &&& forall|m: int| 0 <= m < order.len() ==> latest_kept(keys, kept, #[trigger] order[m])
        }),
    decreases order.len(),
{
    let kept = deduped(keys, order);
    if order.len() == 1 {
        assert(order.contains(kept[0]));
        assert forall|m: int| 0 <= m < order.len() implies latest_kept(
            keys,
            kept,
            #[trigger] order[m],
        ) by {
            assert(keys[kept[0]].same_row(keys[order[m]]));
        }
    } else if order.len() > 1 {
        let rest = order.drop_last();
        lemma_deduped(keys, rest);
        let before = deduped(keys, rest);
        let last = order.last();
        let n = order.len() as int;
        assert(rest.last() == order[n - 2]);
        assert forall|k: int| 0 <= k < before.len() implies order.contains(#[trigger] before[k])
            && rest.contains(before[k]) by {
            let m = choose|m: int| 0 <= m < rest.len() && rest[m] == before[k];
            assert(order[m] == before[k]);
        }
        if keys[last].same_row(keys[order[n - 2]]) {
            assert forall|m: int| 0 <= m < order.len() implies latest_kept(
                keys,
                kept,
                #[trigger] order[m],
            ) by {
                assert(latest_kept(keys, before, rest[n - 2]));
                if m < n - 1 {
                    assert(order[m] == rest[m]);
                } else {
                    assert(keys[order[n - 2]].le(keys[order[n - 1]]));
                    text::lemma_lex_asymmetric(keys[last].primary_key, keys[last].primary_key);
                    let k = choose|k: int|
                        0 <= k < before.len() && keys[#[trigger] before[k]].same_row(
                            keys[rest[n - 2]],
                        ) && keys[before[k]].sequence >= keys[rest[n - 2]].sequence;
                    assert(keys[before[k]].same_row(keys[last]));
                }
            }
        } else {
            assert(kept == before.push(last));
            assert(order.contains(last)) by {
                assert(order[n - 1] == last);
            }
            assert forall|k: int| 0 <= k < kept.len() implies order.contains(
                #[trigger] kept[k],
            ) by {
                if k < before.len() {
                    assert(kept[k] == before[k]);
                }
            }
            assert forall|j: int, k: int| 0 <= j < k < kept.len() implies !keys[
            #[trigger] kept[j]].same_row(keys[#[trigger] kept[k]]) && keys[kept[j]].le(
                keys[kept[k]],
            ) by {
                assert(kept[j] == before[j]);
                if k < before.len() {
                    assert(kept[k] == before[k]);
                } else {
                    assert(rest.contains(before[j]));
                    let m = choose|m: int| 0 <= m < rest.len() && rest[m] == before[j];
                    assert(order[m] == before[j]);
                    assert(keys[order[m]].le(keys[order[n - 1]]));
                    if keys[order[m]].same_row(keys[last]) {
                        // What lies between two versions of a row is a version of it.
                        if m < n - 2 {
                            assert(keys[order[m]].le(keys[order[n - 2]]));
                        }
                        assert(keys[order[n - 2]].le(keys[order[n - 1]]));
                        text::lemma_lex_asymmetric(
                            keys[order[m]].primary_key,
                            keys[order[n - 2]].primary_key,
                        );
                    }
                }
            }
            assert forall|m: int| 0 <= m < order.len() implies latest_kept(
                keys,
                kept,
                #[trigger] order[m],
            ) by {
                if m < n - 1 {
                    assert(order[m] == rest[m]);
                    assert(latest_kept(keys, before, rest[m]));
                    let k = choose|k: int|
                        0 <= k < before.len() && keys[#[trigger] before[k]].same_row(
                            keys[rest[m]],
                        ) && keys[before[k]].sequence >= keys[rest[m]].sequence;
                    assert(kept[k] == before[k]);
                } else {
                    assert(kept[before.len() as int] == last);
                }
            }
        }
    }
}

/// Among the places kept is one with a version of the row at `row` that is not older.
pub open spec fn latest_kept(keys: Seq<RowKey>, kept: Seq<int>, row: int) -> bool {
    exists|k: int|
        0 <= k < kept.len() && keys[#[trigger] kept[k]].same_row(keys[row])
            && keys[kept[k]].sequence >= keys[row].sequence
}

/// Without duplicates, each primary key and timestamp is left with one row, which has
/// the highest sequence of all rows with that key and timestamp. The rows that are left
/// come in order.
pub proof fn law_dedup_keeps_latest(keys: Seq<RowKey>, order: Seq<int>)
    requires
        is_sorted_order(keys, order),
    ensures
        in_range(deduped(keys, order), keys.len()),
        sorted(keys, deduped(keys, order)),
        forall|j: int, k: int|
            0 <= j < k < deduped(keys, order).len() ==> !keys[#[trigger] deduped(
                keys,
                order,
            )[j]].same_row(keys[#[trigger] deduped(keys, order)[k]]),
        forall|row: int|
            0 <= row < keys.len() ==> #[trigger] latest_kept(keys, deduped(keys, order), row),
{
    lemma_deduped(keys, order);
    let kept = deduped(keys, order);
    assert forall|k: int| 0 <= k < kept.len() implies 0 <= #[trigger] kept[k] < keys.len() by {
        assert(order.contains(kept[k]));
    }
    assert forall|row: int| 0 <= row < keys.len() implies #[trigger] latest_kept(
        keys,
        kept,
        row,
    ) by {
        lemma_order_covers(order, keys.len(), row);
        let m = choose|m: int| 0 <= m < order.len() && order[m] == row;
        assert(latest_kept(keys, kept, order[m]));
    }
}

/// A list of `n` different numbers below `n` holds each of them.
pub proof fn lemma_order_covers(order: Seq<int>, n: nat, row: int)
    requires
        order.len() == n,
        order.no_duplicates(),
        in_range(order, n),
        0 <= row < n,
    ensures
        order.contains(row),
{
    if !order.contains(row) {
        let held = order.to_set();
        let below = vstd::set_lib::set_int_range(0, n as int);
        order.unique_seq_to_set();
        vstd::set_lib::lemma_int_range(0, n as int);
        assert(held.subset_of(below.remove(row))) by {
            assert forall|x: int| held.contains(x) implies below.remove(row).contains(x) by {
                let k = choose|k: int| 0 <= k < order.len() && order[k] == x;
                assert(0 <= order[k] < n);
            }
        }
        vstd::set_lib::lemma_len_subset(held, below.remove(row));
    }
}

/// Rows that are sorted, and of which only the last version of each is then kept, come by primary
/// key and then by time; no two that are kept are versions of one row; and of each row one is
/// kept that was written no earlier. Gives the place, among those kept, of a version of the row.
pub proof fn law_sorted_and_deduped(
    keys: RowKeys<'_>,
    order: Vec<usize>,
    r: Vec<usize>,
    row: int,
) -> (at: int)
    requires
        keys.well_formed(),
        call_ensures(sort_rows, (&keys,), order),
        call_ensures(dedup_rows, (&keys, &order), r),
        0 <= row < keys.primary_keys@.len(),
    ensures
        order@.len() == keys.primary_keys@.len(),
        r@.len() <= order@.len(),
        forall|k: int| 0 <= k < r@.len() ==> #[trigger] r@[k] < keys.primary_keys@.len(),
        0 <= at < r@.len(),
        keys.primary_keys@[r@[at] as int]@ == keys.primary_keys@[row]@,
        keys.timestamps@[r@[at] as int] == keys.timestamps@[row],
        keys.sequences@[r@[at] as int] >= keys.sequences@[row],
        forall|j: int, k: int|
            0 <= j < k < r@.len() ==> text::lex_lt(
                keys.primary_keys@[#[trigger] r@[j] as int]@,
                keys.primary_keys@[#[trigger] r@[k] as int]@,
            ) || (keys.primary_keys@[r@[j] as int]@ == keys.primary_keys@[r@[k] as int]@
                && keys.timestamps@[r@[j] as int] < keys.timestamps@[r@[k] as int]),
{
    let all = keys.keys();
    let sorted_places = places(order@);
    let kept = places(r@);
    law_dedup_keeps_latest(all, sorted_places);
    assert(kept == deduped(all, sorted_places));
    assert(sorted_places.len() == order@.len());
    assert(kept.len() == r@.len());
    lemma_deduped_shorter(all, sorted_places);
    assert forall|k: int| 0 <= k < r@.len() implies #[trigger] r@[k]
        < keys.primary_keys@.len() by {
        assert(kept[k] == r@[k]);
    }
    assert forall|j: int, k: int| 0 <= j < k < r@.len() implies text::lex_lt(
        keys.primary_keys@[#[trigger] r@[j] as int]@,
        keys.primary_keys@[#[trigger] r@[k] as int]@,
    ) || (keys.primary_keys@[r@[j] as int]@ == keys.primary_keys@[r@[k] as int]@
        && keys.timestamps@[r@[j] as int] < keys.timestamps@[r@[k] as int]) by {
        assert(kept[j] == r@[j] && kept[k] == r@[k]);
        assert(all[kept[j]].le(all[kept[k]]));
        assert(!all[kept[j]].same_row(all[kept[k]]));
    }
    assert(latest_kept(all, kept, row));
    let at = choose|k: int|
        0 <= k < kept.len() && all[#[trigger] kept[k]].same_row(all[row]) && all[kept[k]].sequence
            >= all[row].sequence;
    assert(kept[at] == r@[at]);
    at
}

proof fn lemma_deduped_shorter(keys: Seq<RowKey>, order: Seq<int>)
    ensures
        deduped(keys, order).len() <= order.len(),
    decreases order.len(),
{
    if order.len() > 1 {
        lemma_deduped_shorter(keys, order.drop_last());
    }
}

} // verus!
