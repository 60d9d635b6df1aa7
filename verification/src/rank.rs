//! The order of results: by sort key, and among equal keys by the order in
//! which the comments were assembled.

use vstd::multiset::Multiset;
use vstd::prelude::*;
use vstd::seq_lib::*;

verus! {

/// True when the comment of index `i` stands before that of index `j` in the
/// results: its key is less, or the keys are equal and it was assembled
/// first. A score of `None` marks a comment that does not match.
pub open spec fn precedes(scores: Seq<Option<int>>, i: int, j: int) -> bool {
    scores[i]->0 < scores[j]->0 || (scores[i]->0 == scores[j]->0 && i < j)
}

/// True when `order` lists the indices of the comments that match, each
/// once, every one before those that it precedes.
pub open spec fn is_ranking(order: Seq<int>, scores: Seq<Option<int>>) -> bool {
    &&& forall|k: int|
        0 <= k < order.len() ==> 0 <= #[trigger] order[k] < scores.len() && scores[order[k]] is Some
    &&& forall|j: int|
        0 <= j < scores.len() && scores[j] is Some ==> #[trigger] order.contains(j)
    &&& forall|a: int, b: int|
        0 <= a < b < order.len() ==> precedes(scores, #[trigger] order[a], #[trigger] order[b])
}

/// `order` with `index` put behind the last entry whose key is not greater
/// than that of `index`.
pub open spec fn insert_ranked(order: Seq<int>, scores: Seq<Option<int>>, index: int) -> Seq<int>
    decreases order.len(),
{
    if order.len() == 0 {
        seq![index]
    } else if scores[order.last()]->0 <= scores[index]->0 {
        order.push(index)
    } else {
        insert_ranked(order.drop_last(), scores, index).push(order.last())
    }
}

/// The indices of the comments that match, in the order of the results: a
/// stable sort of them by key.
pub open spec fn ranking(scores: Seq<Option<int>>) -> Seq<int>
    decreases scores.len(),
{
    if scores.len() == 0 {
        Seq::empty()
    } else {
        let before = ranking(scores.drop_last());
        if scores.last() is Some {
            insert_ranked(before, scores, scores.len() - 1)
        } else {
            before
        }
    }
}

/// True when every entry of `order` precedes the entries behind it.
pub open spec fn strictly_sorted(order: Seq<int>, scores: Seq<Option<int>>) -> bool {
    forall|a: int, b: int|
        0 <= a < b < order.len() ==> precedes(scores, #[trigger] order[a], #[trigger] order[b])
}

/// Putting an index that is greater than all in `order` into its place keeps
/// the order sorted and adds that index and no other.
proof fn lemma_insert_ranked(order: Seq<int>, scores: Seq<Option<int>>, index: int)
    requires
        strictly_sorted(order, scores),
        forall|k: int| 0 <= k < order.len() ==> #[trigger] order[k] < index,
    ensures
        strictly_sorted(insert_ranked(order, scores, index), scores),
        insert_ranked(order, scores, index).len() == order.len() + 1,
        forall|x: int|
            #![trigger insert_ranked(order, scores, index).contains(x)]
            #![trigger order.contains(x)]
            insert_ranked(order, scores, index).contains(x) <==> order.contains(x) || x == index,
        insert_ranked(order, scores, index).contains(index),
    decreases order.len(),
{
    let out = insert_ranked(order, scores, index);
    if order.len() == 0 {
        assert(out[0] == index);
        assert forall|x: int| out.contains(x) <==> order.contains(x) || x == index by {
            if x == index {
                assert(out[0] == x);
            }
        }
    } else if scores[order.last()]->0 <= scores[index]->0 {
        assert forall|a: int, b: int| 0 <= a < b < out.len() implies precedes(
            scores,
            #[trigger] out[a],
            #[trigger] out[b],
        ) by {
            if b == out.len() - 1 {
                assert(out[a] == order[a]);
                if a < order.len() - 1 {
                    assert(precedes(scores, order[a], order[order.len() - 1]));
                }
            } else {
                assert(out[a] == order[a] && out[b] == order[b]);
            }
        }
        assert forall|x: int| out.contains(x) <==> order.contains(x) || x == index by {
            if order.contains(x) {
                let k = choose|k: int| 0 <= k < order.len() && order[k] == x;
                assert(out[k] == x);
            }
            if x == index {
                assert(out[out.len() - 1] == x);
            }
            if out.contains(x) {
                let k = choose|k: int| 0 <= k < out.len() && out[k] == x;
                if k < order.len() {
                    assert(order[k] == x);
                }
            }
        }
    } else {
        let init = order.drop_last();
        let last = order.last();
        let inner = insert_ranked(init, scores, index);
        assert forall|a: int, b: int| 0 <= a < b < init.len() implies precedes(
            scores,
            #[trigger] init[a],
            #[trigger] init[b],
        ) by {
            assert(init[a] == order[a] && init[b] == order[b]);
        }
        assert forall|k: int| 0 <= k < init.len() implies #[trigger] init[k] < index by {
            assert(init[k] == order[k]);
        }
        lemma_insert_ranked(init, scores, index);
        assert(out =~= inner.push(last));
        assert(order[order.len() - 1] < index);
        assert forall|a: int, b: int| 0 <= a < b < out.len() implies precedes(
            scores,
            #[trigger] out[a],
            #[trigger] out[b],
        ) by {
            if b == out.len() - 1 {
                assert(out[a] == inner[a]);
                assert(inner.contains(inner[a]));
                if inner[a] != index {
                    let k = choose|k: int| 0 <= k < init.len() && init[k] == inner[a];
                    assert(order[k] == inner[a]);
                    assert(precedes(scores, order[k], order[order.len() - 1]));
                }
            } else {
                assert(out[a] == inner[a] && out[b] == inner[b]);
            }
        }
        assert forall|x: int| out.contains(x) <==> order.contains(x) || x == index by {
            if order.contains(x) {
                let k = choose|k: int| 0 <= k < order.len() && order[k] == x;
                if k < init.len() {
                    assert(init[k] == x);
                    assert(init.contains(x));
                    let m = choose|m: int| 0 <= m < inner.len() && inner[m] == x;
                    assert(out[m] == x);
                } else {
                    assert(out[out.len() - 1] == x);
                }
            }
            if x == index {
                assert(inner.contains(x));
                let m = choose|m: int| 0 <= m < inner.len() && inner[m] == x;
                assert(out[m] == x);
            }
            if out.contains(x) {
                let k = choose|k: int| 0 <= k < out.len() && out[k] == x;
                if k < inner.len() {
                    assert(inner[k] == x);
                    assert(inner.contains(x));
                    if x != index {
                        let m = choose|m: int| 0 <= m < init.len() && init[m] == x;
                        assert(order[m] == x);
                    }
                } else {
                    assert(order[order.len() - 1] == x);
                }
            }
        }
    }
}

/// The stable sort by key lists the comments that match, each once, every
/// one before those that it precedes.
pub proof fn lemma_ranking_is_ranking(scores: Seq<Option<int>>)
    ensures
        is_ranking(ranking(scores), scores),
    decreases scores.len(),
{
    if scores.len() > 0 {
        let init = scores.drop_last();
        let before = ranking(init);
        let last = scores.len() - 1;
        lemma_ranking_is_ranking(init);
        assert forall|k: int| 0 <= k < before.len() implies 0 <= #[trigger] before[k] < last
            && scores[before[k]] is Some by {
            assert(init[before[k]] == scores[before[k]]);
        }
        assert(strictly_sorted(before, scores)) by {
            assert forall|a: int, b: int| 0 <= a < b < before.len() implies precedes(
                scores,
                #[trigger] before[a],
                #[trigger] before[b],
            ) by {
                assert(precedes(init, before[a], before[b]));
                assert(init[before[a]] == scores[before[a]]);
                assert(init[before[b]] == scores[before[b]]);
            }
        }
        let order = ranking(scores);
        if scores.last() is Some {
            lemma_insert_ranked(before, scores, last);
            assert forall|k: int| 0 <= k < order.len() implies 0 <= #[trigger] order[k]
                < scores.len() && scores[order[k]] is Some by {
                assert(order.contains(order[k]));
                if order[k] != last {
                    let m = choose|m: int| 0 <= m < before.len() && before[m] == order[k];
                }
            }
        }
        assert forall|j: int| 0 <= j < scores.len() && scores[j] is Some implies order.contains(
            j,
        ) by {
            if j < last {
                assert(init[j] == scores[j]);
                assert(before.contains(j));
            }
        }
    }
}

/// Two sorted orders of the same indices are one order.
pub proof fn lemma_sorted_unique(first: Seq<int>, second: Seq<int>, scores: Seq<Option<int>>)
    requires
        strictly_sorted(first, scores),
        strictly_sorted(second, scores),
        forall|x: int| first.contains(x) <==> second.contains(x),
    ensures
        first == second,
    decreases first.len(),
{
    if first.len() == 0 {
        if second.len() > 0 {
            assert(second.contains(second[0]));
        }
        assert(first =~= second);
    } else {
        assert(first.contains(first[0]));
        let p = choose|p: int| 0 <= p < second.len() && second[p] == first[0];
        assert(second.contains(second[0]));
        let q = choose|q: int| 0 <= q < first.len() && first[q] == second[0];
        if p > 0 {
            assert(precedes(scores, second[0], second[p]));
            if q > 0 {
                assert(precedes(scores, first[0], first[q]));
            }
        }
        assert(first[0] == second[0]);
        let first_tail = first.drop_first();
        let second_tail = second.drop_first();
        assert forall|x: int| first_tail.contains(x) <==> second_tail.contains(x) by {
            if first_tail.contains(x) {
                let k = choose|k: int| 0 <= k < first_tail.len() && first_tail[k] == x;
                assert(first[k + 1] == x);
                assert(first.contains(x));
                let r = choose|r: int| 0 <= r < second.len() && second[r] == x;
                if r == 0 {
                    assert(precedes(scores, first[0], first[k + 1]));
                }
                assert(second_tail[r - 1] == x);
            }
            if second_tail.contains(x) {
                let k = choose|k: int| 0 <= k < second_tail.len() && second_tail[k] == x;
                assert(second[k + 1] == x);
                assert(second.contains(x));
                let r = choose|r: int| 0 <= r < first.len() && first[r] == x;
                if r == 0 {
                    assert(precedes(scores, second[0], second[k + 1]));
                }
                assert(first_tail[r - 1] == x);
            }
        }
        assert forall|a: int, b: int| 0 <= a < b < first_tail.len() implies precedes(
            scores,
            #[trigger] first_tail[a],
            #[trigger] first_tail[b],
        ) by {
            assert(first_tail[a] == first[a + 1] && first_tail[b] == first[b + 1]);
        }
        assert forall|a: int, b: int| 0 <= a < b < second_tail.len() implies precedes(
            scores,
            #[trigger] second_tail[a],
            #[trigger] second_tail[b],
        ) by {
            assert(second_tail[a] == second[a + 1] && second_tail[b] == second[b + 1]);
        }
        lemma_sorted_unique(first_tail, second_tail, scores);
        assert(first =~= seq![first[0]] + first_tail);
        assert(second =~= seq![second[0]] + second_tail);
    }
}

/// The order of the results is determined: whatever lists the comments that
/// match, each before those that it precedes, is the stable sort by key.
pub proof fn lemma_ranking_unique(order: Seq<int>, scores: Seq<Option<int>>)
    requires
        is_ranking(order, scores),
    ensures
        order == ranking(scores),
{
    lemma_ranking_is_ranking(scores);
    let expected = ranking(scores);
    assert forall|x: int| order.contains(x) <==> expected.contains(x) by {
        if order.contains(x) {
            let k = choose|k: int| 0 <= k < order.len() && order[k] == x;
        }
        if expected.contains(x) {
            let k = choose|k: int| 0 <= k < expected.len() && expected[k] == x;
        }
    }
    lemma_sorted_unique(order, expected, scores);
}

/// A comment that matches: its sort key and its index among all comments.
#[derive(Clone, Copy, Debug, PartialEq, Eq, Structural)]
pub struct Ranked {
    pub key: u128,
    pub index: usize,
}

/// True when `a` may stand before `b`: its key is less, or the keys are
/// equal and its index is not greater.
pub open spec fn in_order(a: Ranked, b: Ranked) -> bool {
    a.key < b.key || (a.key == b.key && a.index <= b.index)
}

/// True when every entry may stand before the entries behind it.
pub open spec fn sorted(entries: Seq<Ranked>) -> bool {
    forall|a: int, b: int|
        0 <= a < b < entries.len() ==> in_order(#[trigger] entries[a], #[trigger] entries[b])
}

/// Merges two sorted sequences into one.
fn merge(left: &Vec<Ranked>, right: &Vec<Ranked>) -> (out: Vec<Ranked>)
    requires
        sorted(left@),
        sorted(right@),
    ensures
        sorted(out@),
        out@.to_multiset() == left@.to_multiset().add(right@.to_multiset()),
{
    let mut out: Vec<Ranked> = Vec::new();
    let mut i: usize = 0;
    let mut j: usize = 0;
    proof {
        let nothing = Seq::<Ranked>::empty();
        assert(left@.take(0) =~= nothing);
        assert(right@.take(0) =~= nothing);
        assert(out@ =~= nothing);
        to_multiset_len(nothing);
        vstd::multiset::lemma_multiset_empty_len(nothing.to_multiset());
        assert(nothing.to_multiset() =~= nothing.to_multiset().add(nothing.to_multiset()));
    }
    while i < left.len() || j < right.len()
        invariant
            i <= left@.len(),
            j <= right@.len(),
            sorted(left@),
            sorted(right@),
            sorted(out@),
            out@.to_multiset() == left@.take(i as int).to_multiset().add(
                right@.take(j as int).to_multiset(),
            ),
            forall|a: int, b: int|
                0 <= a < out@.len() && i <= b < left@.len() ==> in_order(
                    #[trigger] out@[a],
                    #[trigger] left@[b],
                ),
            forall|a: int, b: int|
                0 <= a < out@.len() && j <= b < right@.len() ==> in_order(
                    #[trigger] out@[a],
                    #[trigger] right@[b],
                ),
        decreases left@.len() - i + right@.len() - j,
    {
        let ghost before = out@;
        let from_left = if i == left.len() {
            false
        } else if j == right.len() {
            true
        } else {
            let a = left[i];
            let b = right[j];
            a.key < b.key || (a.key == b.key && a.index <= b.index)
        };
        if from_left {
            let entry = left[i];
            out.push(entry);
            proof {
                broadcast use group_to_multiset_ensures;

                assert(left@.take(i + 1) =~= left@.take(i as int).push(entry));
                assert(out@.to_multiset() =~= left@.take(i + 1).to_multiset().add(
                    right@.take(j as int).to_multiset(),
                ));
                assert forall|a: int, b: int| 0 <= a < b < out@.len() implies in_order(
                    #[trigger] out@[a],
                    #[trigger] out@[b],
                ) by {
                    if b == out@.len() - 1 {
                        assert(out@[a] == before[a]);
                        assert(in_order(before[a], left@[i as int]));
                    } else {
                        assert(out@[a] == before[a] && out@[b] == before[b]);
                    }
                }
                assert forall|a: int, b: int|
                    0 <= a < out@.len() && i + 1 <= b < left@.len() implies in_order(
                    #[trigger] out@[a],
                    #[trigger] left@[b],
                ) by {
                    if a == out@.len() - 1 {
                        assert(in_order(left@[i as int], left@[b]));
                    } else {
                        assert(out@[a] == before[a]);
                    }
                }
                assert forall|a: int, b: int|
                    0 <= a < out@.len() && j <= b < right@.len() implies in_order(
                    #[trigger] out@[a],
                    #[trigger] right@[b],
                ) by {
                    if a == out@.len() - 1 {
                        assert(in_order(left@[i as int], right@[j as int]));
                        if j < b {
                            assert(in_order(right@[j as int], right@[b]));
                        }
                    } else {
                        assert(out@[a] == before[a]);
                    }
                }
            }
            i += 1;
        } else {
            let entry = right[j];
            out.push(entry);
            proof {
                broadcast use group_to_multiset_ensures;

                assert(right@.take(j + 1) =~= right@.take(j as int).push(entry));
                assert(out@.to_multiset() =~= left@.take(i as int).to_multiset().add(
                    right@.take(j + 1).to_multiset(),
                ));
                assert forall|a: int, b: int| 0 <= a < b < out@.len() implies in_order(
                    #[trigger] out@[a],
                    #[trigger] out@[b],
                ) by {
                    if b == out@.len() - 1 {
                        assert(out@[a] == before[a]);
                        assert(in_order(before[a], right@[j as int]));
                    } else {
                        assert(out@[a] == before[a] && out@[b] == before[b]);
                    }
                }
                assert forall|a: int, b: int|
                    0 <= a < out@.len() && j + 1 <= b < right@.len() implies in_order(
                    #[trigger] out@[a],
                    #[trigger] right@[b],
                ) by {
                    if a == out@.len() - 1 {
                        assert(in_order(right@[j as int], right@[b]));
                    } else {
                        assert(out@[a] == before[a]);
                    }
                }
                assert forall|a: int, b: int|
                    0 <= a < out@.len() && i <= b < left@.len() implies in_order(
                    #[trigger] out@[a],
                    #[trigger] left@[b],
                ) by {
                    if a == out@.len() - 1 {
                        assert(in_order(right@[j as int], left@[i as int]));
                        if i < b {
                            assert(in_order(left@[i as int], left@[b]));
                        }
                    } else {
                        assert(out@[a] == before[a]);
                    }
                }
            }
            j += 1;
        }
    }
    proof {
        assert(left@.take(i as int) =~= left@);
        assert(right@.take(j as int) =~= right@);
    }
    out
}

/// Sorts the entries from `low` up to `high`, by merging.
fn merge_sort(entries: &Vec<Ranked>, low: usize, high: usize) -> (out: Vec<Ranked>)
    requires
        low <= high <= entries@.len(),
    ensures
        sorted(out@),
        out@.to_multiset() == entries@.subrange(low as int, high as int).to_multiset(),
    decreases high - low,
{
    if high - low <= 1 {
        let mut out: Vec<Ranked> = Vec::new();
        if low < high {
            out.push(entries[low]);
        }
        assert(out@ =~= entries@.subrange(low as int, high as int));
        out
    } else {
        let middle = low + (high - low) / 2;
        let left = merge_sort(entries, low, middle);
        let right = merge_sort(entries, middle, high);
        proof {
            let first = entries@.subrange(low as int, middle as int);
            let second = entries@.subrange(middle as int, high as int);
            assert(entries@.subrange(low as int, high as int) =~= first + second);
            lemma_multiset_commutative(first, second);
        }
        merge(&left, &right)
    }
}

/// The indices as mathematical integers, in order.
pub open spec fn indices(order: Seq<usize>) -> Seq<int> {
    order.map_values(|index: usize| index as int)
}

/// The sort keys as mathematical integers, in order.
pub open spec fn keys(scores: Seq<Option<u128>>) -> Seq<Option<int>> {
    scores.map_values(
        |score: Option<u128>|
            match score {
                Some(key) => Some(key as int),
                None => None,
            },
    )
}

/// Orders the comments that match. `scores` holds for every comment its sort
/// key, or `None` where it does not match; the result holds the indices of
/// those that match, by ascending key, and among equal keys by ascending
/// index.
pub fn rank(scores: &[Option<u128>]) -> (order: Vec<usize>)
    ensures
        indices(order@) == ranking(keys(scores@)),
        is_ranking(indices(order@), keys(scores@)),
{
    let n = scores.len();
    let mut entries: Vec<Ranked> = Vec::new();
    let mut j: usize = 0;
    while j < n
        invariant
            n == scores@.len(),
            j <= n,
            forall|k: int|
                0 <= k < entries@.len() ==> (#[trigger] entries@[k]).index < j
                    && scores@[entries@[k].index as int] == Some(entries@[k].key),
            forall|a: int, b: int|
                0 <= a < b < entries@.len() ==> (#[trigger] entries@[a]).index < (
                #[trigger] entries@[b]).index,
            forall|m: int|
                0 <= m < j && (#[trigger] scores@[m]) is Some ==> exists|k: int|
                    0 <= k < entries@.len() && (#[trigger] entries@[k]).index == m,
        decreases n - j,
    {
        let ghost before = entries@;
        match scores[j] {
            Some(key) => {
                entries.push(Ranked { key, index: j });
                proof {
                    assert forall|m: int|
                        0 <= m < j + 1 && (#[trigger] scores@[m]) is Some implies exists|k: int|
                        0 <= k < entries@.len() && (#[trigger] entries@[k]).index == m by {
                        if m < j {
                            let k = choose|k: int|
                                0 <= k < before.len() && (#[trigger] before[k]).index == m;
                            assert(entries@[k].index == m);
                        } else {
                            assert(entries@[entries@.len() - 1].index == m);
                        }
                    }
                }
            },
            None => {},
        }
        j += 1;
    }
    let sorted_entries = merge_sort(&entries, 0, entries.len());
    let mut order: Vec<usize> = Vec::new();
    let mut k: usize = 0;
    while k < sorted_entries.len()
        invariant
            k <= sorted_entries@.len(),
            order@.len() == k,
            forall|m: int| 0 <= m < k ==> #[trigger] order@[m] == sorted_entries@[m].index,
        decreases sorted_entries@.len() - k,
    {
        order.push(sorted_entries[k].index);
        k += 1;
    }
    proof {
        broadcast use group_to_multiset_ensures;

        let listed = sorted_entries@;
        let found = indices(order@);
        let keys = keys(scores@);
        assert(entries@.subrange(0, entries@.len() as int) =~= entries@);
        assert(entries@.no_duplicates());
        entries@.lemma_multiset_has_no_duplicates();
        listed.lemma_multiset_has_no_duplicates_conv();
        assert forall|m: int| 0 <= m < listed.len() implies entries@.contains(
            #[trigger] listed[m],
        ) by {
            assert(listed.contains(listed[m]));
            to_multiset_contains(listed, listed[m]);
            to_multiset_contains(entries@, listed[m]);
        }
        assert forall|m: int| 0 <= m < found.len() implies 0 <= #[trigger] found[m] < keys.len()
            && keys[found[m]] is Some by {
            assert(entries@.contains(listed[m]));
        }
        assert forall|m: int| 0 <= m < keys.len() && keys[m] is Some implies #[trigger] found.contains(
            m,
        ) by {
            assert(scores@[m] is Some);
            let e = choose|e: int| 0 <= e < entries@.len() && (#[trigger] entries@[e]).index == m;
            assert(entries@.contains(entries@[e]));
            to_multiset_contains(listed, entries@[e]);
            to_multiset_contains(entries@, entries@[e]);
            assert(listed.contains(entries@[e]));
            let at = choose|at: int| 0 <= at < listed.len() && listed[at] == entries@[e];
            assert(found[at] == m);
        }
        assert forall|a: int, b: int| 0 <= a < b < found.len() implies precedes(
            keys,
            #[trigger] found[a],
            #[trigger] found[b],
        ) by {
            assert(in_order(listed[a], listed[b]));
            assert(entries@.contains(listed[a]));
            assert(entries@.contains(listed[b]));
            let ea = choose|e: int| 0 <= e < entries@.len() && entries@[e] == listed[a];
            let eb = choose|e: int| 0 <= e < entries@.len() && entries@[e] == listed[b];
            assert(listed[a] != listed[b]);
            if ea < eb {
                assert(entries@[ea].index < entries@[eb].index);
            } else if eb < ea {
                assert(entries@[eb].index < entries@[ea].index);
            }
        }
        lemma_ranking_unique(found, keys);
    }
    order
}

} // verus!
