//! Lists of neighbour entries: ordered insertion, sorting by distance,
//! removal of repeated positions, and the bound on a list's length.
use std::collections::HashSet;
use vstd::prelude::*;

use crate::distance::Distance;
use crate::node::{GraphNodeIdx, Neighbour, MAX_NEIGHBOURS};

verus! {

/// The list is ascending by distance; equal distances may stand side by side.
pub open spec fn is_ascending(list: Seq<Neighbour>) -> bool {
    forall|i: int, j: int| 0 <= i < j < list.len() ==> list[i].1 <= list[j].1
}

/// The list is ascending by distance and no two entries are equally far.
pub open spec fn is_strictly_ascending(list: Seq<Neighbour>) -> bool {
    forall|i: int, j: int| 0 <= i < j < list.len() ==> list[i].1 < list[j].1
}

/// Some entry of the list stands for the position `id`.
pub open spec fn has_id(list: Seq<Neighbour>, id: GraphNodeIdx) -> bool {
    exists|i: int| 0 <= i < list.len() && (#[trigger] list[i]).0 == id
}

/// Some entry of the list is at the distance `distance`.
pub open spec fn has_distance(list: Seq<Neighbour>, distance: Distance) -> bool {
    exists|i: int| 0 <= i < list.len() && (#[trigger] list[i]).1 == distance
}

/// No position occurs in two entries.
pub open spec fn has_distinct_ids(list: Seq<Neighbour>) -> bool {
    forall|i: int, j: int| 0 <= i < j < list.len() ==> list[i].0 != list[j].0
}

/// The first place at or after `from` whose entry is farther than `distance`,
/// or the list's length when there is none.
pub open spec fn first_farther(list: Seq<Neighbour>, distance: Distance, from: int) -> int
    decreases list.len() - from,
{
    if from < 0 || from >= list.len() {
        list.len() as int
    } else if distance < list[from].1 {
        from
    } else {
        first_farther(list, distance, from + 1)
    }
}

/// The list with `entry` put in before the first entry that is farther than
/// it: behind every entry that is as near or nearer.
pub open spec fn sorted_insert(list: Seq<Neighbour>, entry: Neighbour) -> Seq<Neighbour> {
    list.insert(first_farther(list, entry.1, 0), entry)
}

/// The list cut down to its first `MAX_NEIGHBOURS` entries.
pub open spec fn keep_nearest(list: Seq<Neighbour>) -> Seq<Neighbour> {
    if list.len() > MAX_NEIGHBOURS {
        list.subrange(0, MAX_NEIGHBOURS as int)
    } else {
        list
    }
}

/// The entries in ascending order of distance, equally far entries in the
/// order in which the list has them.
pub open spec fn sort_by_distance(list: Seq<Neighbour>) -> Seq<Neighbour>
    decreases list.len(),
{
    if list.len() == 0 {
        list
    } else {
        sorted_insert(sort_by_distance(list.drop_last()), list.last())
    }
}

/// The list without the entries whose position an earlier entry has already.
pub open spec fn dedup_by_id(list: Seq<Neighbour>) -> Seq<Neighbour>
    decreases list.len(),
{
    if list.len() == 0 {
        list
    } else {
        let head = dedup_by_id(list.drop_last());
        if has_id(head, list.last().0) {
            head
        } else {
            head.push(list.last())
        }
    }
}

/// Where `first_farther` lands: everything it passed is as near or nearer,
/// and what it stops at is farther.
pub proof fn lemma_first_farther(list: Seq<Neighbour>, distance: Distance, from: int)
    requires
        0 <= from <= list.len(),
    ensures
        from <= first_farther(list, distance, from) <= list.len(),
        forall|j: int| from <= j < first_farther(list, distance, from) ==> list[j].1 <= distance,
        first_farther(list, distance, from) < list.len() ==> distance < list[first_farther(
            list,
            distance,
            from,
        )].1,
    decreases list.len() - from,
{
    if from < list.len() && !(distance < list[from].1) {
        lemma_first_farther(list, distance, from + 1);
    }
}

/// What an ordered insertion leaves at each place.
pub proof fn lemma_sorted_insert_entries(list: Seq<Neighbour>, entry: Neighbour)
    ensures
        sorted_insert(list, entry).len() == list.len() + 1,
        0 <= first_farther(list, entry.1, 0) <= list.len(),
        sorted_insert(list, entry)[first_farther(list, entry.1, 0)] == entry,
        forall|j: int|
            0 <= j < first_farther(list, entry.1, 0) ==> sorted_insert(list, entry)[j] == list[j],
        forall|j: int|
            first_farther(list, entry.1, 0) <= j < list.len() ==> sorted_insert(list, entry)[j + 1]
                == list[j],
{
    lemma_first_farther(list, entry.1, 0);
}

/// An ordered insertion into an ascending list leaves it ascending.
pub proof fn lemma_sorted_insert_ascending(list: Seq<Neighbour>, entry: Neighbour)
    requires
        is_ascending(list),
    ensures
        is_ascending(sorted_insert(list, entry)),
{
    let p = first_farther(list, entry.1, 0);
    let out = sorted_insert(list, entry);
    lemma_first_farther(list, entry.1, 0);
    lemma_sorted_insert_entries(list, entry);
    assert forall|i: int, j: int| 0 <= i < j < out.len() implies out[i].1 <= out[j].1 by {
        if j < p {
        } else if j == p {
        } else if i < p {
            assert(out[j] == list[j - 1]);
            if p < list.len() {
                assert(list[p].1 <= list[j - 1].1 || p == j - 1);
            }
        } else if i == p {
            assert(out[j] == list[j - 1]);
            assert(list[p].1 <= list[j - 1].1 || p == j - 1);
        } else {
            assert(out[i] == list[i - 1]);
            assert(out[j] == list[j - 1]);
        }
    }
}

/// An ordered insertion into a strictly ascending list leaves it strictly
/// ascending when no entry of the list is as far as the new one.
pub proof fn lemma_sorted_insert_strictly_ascending(list: Seq<Neighbour>, entry: Neighbour)
    requires
        is_strictly_ascending(list),
        !has_distance(list, entry.1),
    ensures
        is_strictly_ascending(sorted_insert(list, entry)),
{
    let p = first_farther(list, entry.1, 0);
    let out = sorted_insert(list, entry);
    lemma_first_farther(list, entry.1, 0);
    lemma_sorted_insert_entries(list, entry);
    assert forall|i: int, j: int| 0 <= i < j < out.len() implies out[i].1 < out[j].1 by {
        if j < p {
        } else if j == p {
            assert(list[i].1 <= entry.1);
            assert(list[i].1 != entry.1);
        } else if i < p {
            assert(out[j] == list[j - 1]);
        } else if i == p {
            assert(out[j] == list[j - 1]);
            assert(list[p].1 <= list[j - 1].1 || p == j - 1);
        } else {
            assert(out[i] == list[i - 1]);
            assert(out[j] == list[j - 1]);
        }
    }
}

/// An ordered insertion adds the new entry's position to those of the list
/// and takes none away.
pub proof fn lemma_sorted_insert_ids(list: Seq<Neighbour>, entry: Neighbour, id: GraphNodeIdx)
    ensures
        has_id(sorted_insert(list, entry), id) <==> (id == entry.0 || has_id(list, id)),
{
    let p = first_farther(list, entry.1, 0);
    let out = sorted_insert(list, entry);
    lemma_sorted_insert_entries(list, entry);
    if has_id(out, id) {
        let k = choose|k: int| 0 <= k < out.len() && (#[trigger] out[k]).0 == id;
        if k < p {
            assert(list[k].0 == id);
        } else if k > p {
            assert(out[k] == list[k - 1]);
            assert(list[k - 1].0 == id);
        }
    }
    if id == entry.0 {
        assert(out[p].0 == id);
    }
    if has_id(list, id) {
        let k = choose|k: int| 0 <= k < list.len() && (#[trigger] list[k]).0 == id;
        if k < p {
            assert(out[k].0 == id);
        } else {
            assert(out[k + 1] == list[k]);
            assert(out[k + 1].0 == id);
        }
    }
}

/// An ordered insertion of a position that the list lacks keeps the
/// positions distinct.
pub proof fn lemma_sorted_insert_distinct(list: Seq<Neighbour>, entry: Neighbour)
    requires
        has_distinct_ids(list),
        !has_id(list, entry.0),
    ensures
        has_distinct_ids(sorted_insert(list, entry)),
{
    let p = first_farther(list, entry.1, 0);
    let out = sorted_insert(list, entry);
    lemma_sorted_insert_entries(list, entry);
    assert forall|i: int, j: int| 0 <= i < j < out.len() implies out[i].0 != out[j].0 by {
        if i != p {
            let a = if i < p { i } else { i - 1 };
            assert(out[i] == list[a]);
        }
        if j != p {
            let b = if j < p { j } else { j - 1 };
            assert(out[j] == list[b]);
        }
    }
}

/// Cutting a list down keeps its order, takes no position in and leaves at
/// most `MAX_NEIGHBOURS` entries.
pub proof fn lemma_keep_nearest(list: Seq<Neighbour>)
    ensures
        keep_nearest(list).len() <= MAX_NEIGHBOURS,
        keep_nearest(list).len() <= list.len(),
        forall|j: int| 0 <= j < keep_nearest(list).len() ==> keep_nearest(list)[j] == list[j],
        list.len() <= MAX_NEIGHBOURS ==> keep_nearest(list) == list,
        is_ascending(list) ==> is_ascending(keep_nearest(list)),
        is_strictly_ascending(list) ==> is_strictly_ascending(keep_nearest(list)),
        has_distinct_ids(list) ==> has_distinct_ids(keep_nearest(list)),
        forall|id: GraphNodeIdx| has_id(keep_nearest(list), id) ==> has_id(list, id),
{
    let kept = keep_nearest(list);
    assert forall|id: GraphNodeIdx| has_id(kept, id) implies has_id(list, id) by {
        let k = choose|k: int| 0 <= k < kept.len() && (#[trigger] kept[k]).0 == id;
        assert(list[k].0 == id);
    }
}

/// Sorting keeps the entries, each as often as before, and puts them in
/// ascending order.
pub proof fn lemma_sort_by_distance(list: Seq<Neighbour>)
    ensures
        sort_by_distance(list).len() == list.len(),
        is_ascending(sort_by_distance(list)),
        sort_by_distance(list).to_multiset() == list.to_multiset(),
    decreases list.len(),
{
    broadcast use vstd::seq_lib::group_to_multiset_ensures;

    if list.len() > 0 {
        let head = list.drop_last();
        let sorted = sort_by_distance(head);
        lemma_sort_by_distance(head);
        lemma_sorted_insert_entries(sorted, list.last());
        lemma_sorted_insert_ascending(sorted, list.last());
        let p = first_farther(sorted, list.last().1, 0);
        assert(sorted.insert(p, list.last()).to_multiset() == sorted.to_multiset().insert(
            list.last(),
        ));
        assert(head.push(list.last()) =~= list);
    }
}

/// Every entry of the sorted list is an entry of the list.
pub proof fn lemma_sort_by_distance_entries(list: Seq<Neighbour>)
    ensures
        forall|k: int|
            0 <= k < sort_by_distance(list).len() ==> exists|j: int|
                0 <= j < list.len() && list[j] == #[trigger] sort_by_distance(list)[k],
    decreases list.len(),
{
    if list.len() > 0 {
        let head = list.drop_last();
        let sorted = sort_by_distance(head);
        let out = sort_by_distance(list);
        let p = first_farther(sorted, list.last().1, 0);
        lemma_sort_by_distance_entries(head);
        lemma_sorted_insert_entries(sorted, list.last());
        assert forall|k: int| 0 <= k < out.len() implies exists|j: int|
            0 <= j < list.len() && list[j] == #[trigger] out[k] by {
            if k == p {
                assert(list[list.len() - 1] == out[k]);
            } else {
                let m = if k < p {
                    k
                } else {
                    k - 1
                };
                assert(out[k] == sorted[m]);
                let j = choose|j: int| 0 <= j < head.len() && head[j] == sorted[m];
                assert(list[j] == out[k]);
            }
        }
    }
}

/// Every entry that is left after the repeated positions are gone is an
/// entry of the list, and no more are left than there were.
pub proof fn lemma_dedup_by_id_entries(list: Seq<Neighbour>)
    ensures
        dedup_by_id(list).len() <= list.len(),
        forall|k: int|
            0 <= k < dedup_by_id(list).len() ==> exists|j: int|
                0 <= j < list.len() && list[j] == #[trigger] dedup_by_id(list)[k],
    decreases list.len(),
{
    if list.len() > 0 {
        let head = list.drop_last();
        let kept = dedup_by_id(head);
        let out = dedup_by_id(list);
        lemma_dedup_by_id_entries(head);
        assert forall|k: int| 0 <= k < out.len() implies exists|j: int|
            0 <= j < list.len() && list[j] == #[trigger] out[k] by {
            if k < kept.len() {
                let j = choose|j: int| 0 <= j < head.len() && head[j] == kept[k];
                assert(list[j] == out[k]);
            } else {
                assert(list[list.len() - 1] == out[k]);
            }
        }
    }
}

/// What is left after the repeated positions are gone has no position twice.
pub proof fn lemma_dedup_by_id_distinct(list: Seq<Neighbour>)
    ensures
        has_distinct_ids(dedup_by_id(list)),
    decreases list.len(),
{
    if list.len() > 0 {
        lemma_dedup_by_id_distinct(list.drop_last());
    }
}

/// Taking the repeated positions out of an ascending list leaves it
/// ascending.
pub proof fn lemma_dedup_by_id_ascending(list: Seq<Neighbour>)
    requires
        is_ascending(list),
    ensures
        is_ascending(dedup_by_id(list)),
    decreases list.len(),
{
    if list.len() > 0 {
        let head = list.drop_last();
        let last = list.last();
        let kept = dedup_by_id(head);
        let out = dedup_by_id(list);
        assert(is_ascending(head)) by {
            assert forall|i: int, j: int| 0 <= i < j < head.len() implies head[i].1
                <= head[j].1 by {
                assert(head[i] == list[i] && head[j] == list[j]);
            }
        }
        lemma_dedup_by_id_ascending(head);
        lemma_dedup_by_id_entries(head);
        if !has_id(kept, last.0) {
            assert forall|i: int, j: int| 0 <= i < j < out.len() implies out[i].1
                <= out[j].1 by {
                if j == kept.len() {
                    let m = choose|m: int| 0 <= m < head.len() && head[m] == kept[i];
                    assert(list[m].1 <= list[list.len() - 1].1);
                } else {
                    assert(out[i] == kept[i] && out[j] == kept[j]);
                }
            }
        }
    }
}

/// Whether the list is ascending by distance.
pub fn is_ascending_list(list: &Vec<Neighbour>) -> (ok: bool)
    ensures
        ok == is_ascending(list@),
{
    let mut i: usize = 1;
    while i < list.len()
        invariant
            1 <= i,
            forall|a: int, b: int| 0 <= a < b < i && b < list@.len() ==> list@[a].1 <= list@[b].1,
        decreases list.len() - i,
    {
        if list[i - 1].1 > list[i].1 {
            return false;
        }
        proof {
            assert forall|a: int, b: int| 0 <= a < b < i + 1 && b < list@.len() implies list@[a].1
                <= list@[b].1 by {
                if b == i && a < i - 1 {
                    assert(list@[a].1 <= list@[i - 1].1);
                }
            }
        }
        i += 1;
    }
    true
}

/// Whether some entry of the list stands for the position `id`.
pub fn contains_id(list: &Vec<Neighbour>, id: GraphNodeIdx) -> (found: bool)
    ensures
        found == has_id(list@, id),
{
    let mut i: usize = 0;
    while i < list.len()
        invariant
            i <= list.len(),
            forall|k: int| 0 <= k < i ==> (#[trigger] list@[k]).0 != id,
        decreases list.len() - i,
    {
        if list[i].0.index() == id.index() {
            return true;
        }
        i += 1;
    }
    false
}

/// Whether no position occurs in two entries of the list.
pub fn has_distinct_id_list(list: &Vec<Neighbour>) -> (ok: bool)
    ensures
        ok == has_distinct_ids(list@),
{
    let mut j: usize = 0;
    while j < list.len()
        invariant
            j <= list.len(),
            forall|a: int, b: int| 0 <= a < b < j ==> list@[a].0 != list@[b].0,
        decreases list.len() - j,
    {
        let mut i: usize = 0;
        while i < j
            invariant
                i <= j < list.len(),
                forall|a: int| 0 <= a < i ==> list@[a].0 != list@[j as int].0,
            decreases j - i,
        {
            if list[i].0.index() == list[j].0.index() {
                return false;
            }
            i += 1;
        }
        j += 1;
    }
    true
}

/// Puts `entry` into the list before the first entry that is farther than it.
pub fn insert_sorted(list: &mut Vec<Neighbour>, entry: Neighbour)
    ensures
        final(list)@ == sorted_insert(old(list)@, entry),
{
    let mut i: usize = 0;
    while i < list.len() && list[i].1 <= entry.1
        invariant
            i <= list.len(),
            list@ == old(list)@,
            first_farther(list@, entry.1, 0) == first_farther(list@, entry.1, i as int),
        decreases list.len() - i,
    {
        i += 1;
    }
    list.insert(i, entry);
}

/// Sorts the entries by distance, nearest first. Equally far entries keep the
/// order in which they came.
pub fn sorted_by_distance(list: &Vec<Neighbour>) -> (sorted: Vec<Neighbour>)
    ensures
        sorted@ == sort_by_distance(list@),
{
    let mut sorted: Vec<Neighbour> = Vec::new();
    let mut i: usize = 0;
    while i < list.len()
        invariant
            i <= list.len(),
            sorted@ == sort_by_distance(list@.take(i as int)),
        decreases list.len() - i,
    {
        proof {
            let next = list@.take(i + 1);
            assert(next.drop_last() =~= list@.take(i as int));
            assert(next.last() == list@[i as int]);
        }
        insert_sorted(&mut sorted, list[i]);
        i += 1;
    }
    proof {
        assert(list@.take(list.len() as int) =~= list@);
    }
    sorted
}

/// The first `MAX_NEIGHBOURS` entries of the list, or all where it has fewer.
pub fn nearest_entries(list: &Vec<Neighbour>) -> (nearest: Vec<Neighbour>)
    ensures
        nearest@ == keep_nearest(list@),
{
    let mut nearest: Vec<Neighbour> = Vec::new();
    let mut i: usize = 0;
    while i < list.len() && i < MAX_NEIGHBOURS
        invariant
            i <= list.len(),
            i <= MAX_NEIGHBOURS,
            nearest@ == list@.take(i as int),
        decreases list.len() - i,
    {
        nearest.push(list[i]);
        proof {
            assert(nearest@ =~= list@.take(i + 1));
        }
        i += 1;
    }
    proof {
        assert(nearest@ =~= keep_nearest(list@));
    }
    nearest
}

/// Removes every entry whose position an earlier entry has already.
pub fn deduplicated(list: &Vec<Neighbour>) -> (unique: Vec<Neighbour>)
    ensures
        unique@ == dedup_by_id(list@),
{
    broadcast use vstd::std_specs::hash::group_hash_axioms;

    let mut seen: HashSet<usize> = HashSet::new();
    let mut unique: Vec<Neighbour> = Vec::new();
    let mut i: usize = 0;
    while i < list.len()
        invariant
            i <= list.len(),
            unique@ == dedup_by_id(list@.take(i as int)),
            forall|id: GraphNodeIdx| seen@.contains(id.0) <==> has_id(unique@, id),
        decreases list.len() - i,
    {
        let entry = list[i];
        proof {
            let next = list@.take(i + 1);
            assert(next.drop_last() =~= list@.take(i as int));
            assert(next.last() == entry);
        }
        let ghost before = unique@;
        if seen.insert(entry.0.index()) {
            unique.push(entry);
            proof {
                assert forall|id: GraphNodeIdx| seen@.contains(id.0) <==> has_id(
                    unique@,
                    id,
                ) by {
                    if has_id(before, id) {
                        let k = choose|k: int| 0 <= k < before.len() && (#[trigger] before[k]).0
                            == id;
                        assert(unique@[k].0 == id);
                    }
                    if id == entry.0 {
                        assert(unique@[unique@.len() - 1].0 == id);
                    }
                    if has_id(unique@, id) {
                        let k = choose|k: int| 0 <= k < unique@.len() && (#[trigger] unique@[k]).0
                            == id;
                        if k < before.len() {
                            assert(before[k].0 == id);
                        }
                    }
                }
            }
        }
        i += 1;
    }
    proof {
        assert(list@.take(list.len() as int) =~= list@);
    }
    unique
}

} // verus!
