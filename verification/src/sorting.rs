//! Sorting by a numeric key, stably.

use vstd::prelude::*;

verus! {

/// What items are ordered by: numbers compared from left to right.
pub type Key = (u32, u64, u32, u64, u32);

/// Values that have a key.
pub trait Keyed: Sized {
    spec fn key(self) -> Key;
}

/// Values whose key can be computed.
pub trait OrderKey: Keyed {
    fn order_key(&self) -> (k: Key)
        ensures
            k == self.key(),
    ;
}

/// Whether `a` comes before `b`, compared number by number from the left.
pub open spec fn key_before(a: Key, b: Key) -> bool {
    ||| a.0 < b.0
    ||| a.0 == b.0 && a.1 < b.1
    ||| a.0 == b.0 && a.1 == b.1 && a.2 < b.2
    ||| a.0 == b.0 && a.1 == b.1 && a.2 == b.2 && a.3 < b.3
    ||| a.0 == b.0 && a.1 == b.1 && a.2 == b.2 && a.3 == b.3 && a.4 < b.4
}

/// Whether `order` lists each position below `n` exactly once.
pub open spec fn is_arrangement(order: Seq<int>, n: nat) -> bool {
    &&& order.len() == n
    &&& forall|i: int| 0 <= i < n ==> 0 <= #[trigger] order[i] < n
    &&& forall|i: int, j: int| 0 <= i < j < n ==> #[trigger] order[i] != #[trigger] order[j]
    &&& forall|p: int| 0 <= p < n ==> #[trigger] order.contains(p)
}

/// Whether `output` holds the items of `input` in the order that `order` lists their positions in,
/// ascending by key, and items of one key as they stood.
pub open spec fn sorts<T: Keyed>(input: Seq<T>, output: Seq<T>, order: Seq<int>) -> bool {
    &&& is_arrangement(order, input.len())
    &&& output.len() == input.len()
    &&& forall|i: int| 0 <= i < output.len() ==> #[trigger] output[i] == input[order[i]]
    &&& forall|i: int, j: int|
        0 <= i < j < output.len() ==> {
            ||| key_before((#[trigger] output[i]).key(), (#[trigger] output[j]).key())
            ||| output[i].key() == output[j].key() && order[i] < order[j]
        }
}

/// Whether `output` is `input`, sorted stably by key.
pub open spec fn is_sorted_version<T: Keyed>(input: Seq<T>, output: Seq<T>) -> bool {
    exists|order: Seq<int>| sorts(input, output, order)
}

/// Sorts by key, through the standard library's stable slice sort `sort_by_key`. Claimed of it:
/// the items are the same, they ascend by key in the lexicographic order of tuples, and items of
/// one key keep their order.
#[verifier::external_body]
pub(crate) fn sort_by_order_key<T: OrderKey>(items: &mut Vec<T>)
    ensures
        is_sorted_version(old(items)@, final(items)@),
{
    items.sort_by_key(|item| item.order_key())
}

/// The positions that two arrangements agree on up to `i` are followed by one position that is
/// common to both, if both ascend by key with the input position as tie-break.
proof fn lemma_same_order<T: Keyed>(input: Seq<T>, a: Seq<T>, p: Seq<int>, b: Seq<T>, q: Seq<int>, i: int)
    requires
        sorts(input, a, p),
        sorts(input, b, q),
        0 <= i < input.len(),
        forall|j: int| 0 <= j < i ==> p[j] == q[j],
    ensures
        p[i] == q[i],
{
    assert(q.contains(p[i]));
    let j = choose|j: int| 0 <= j < q.len() && q[j] == p[i];
    assert(p.contains(q[i]));
    let k = choose|k: int| 0 <= k < p.len() && p[k] == q[i];
    if j < i {
        assert(p[j] == q[j]);
        assert(false);
    }
    if k < i {
        assert(p[k] == q[k]);
        assert(false);
    }
    if j > i && k > i {
        assert(b[j] == a[i]);
        assert(a[k] == b[i]);
        assert(key_before(b[i].key(), b[j].key()) || b[i].key() == b[j].key() && q[i] < q[j]);
        assert(key_before(a[i].key(), a[k].key()) || a[i].key() == a[k].key() && p[i] < p[k]);
        assert(false);
    }
}

/// Sorting has one result.
pub proof fn law_sorted_version_unique<T: Keyed>(input: Seq<T>, a: Seq<T>, b: Seq<T>)
    requires
        is_sorted_version(input, a),
        is_sorted_version(input, b),
    ensures
        a == b,
{
    let p = choose|p: Seq<int>| sorts(input, a, p);
    let q = choose|q: Seq<int>| sorts(input, b, q);
    lemma_same_order_throughout(input, a, p, b, q, input.len());
    assert forall|i: int| 0 <= i < input.len() implies a[i] == b[i] by {
        assert(p[i] == q[i]);
    }
    assert(a =~= b);
}

proof fn lemma_same_order_throughout<T: Keyed>(
    input: Seq<T>,
    a: Seq<T>,
    p: Seq<int>,
    b: Seq<T>,
    q: Seq<int>,
    n: nat,
)
    requires
        sorts(input, a, p),
        sorts(input, b, q),
        n <= input.len(),
    ensures
        forall|j: int| 0 <= j < n ==> p[j] == q[j],
    decreases n,
{
    if n > 0 {
        lemma_same_order_throughout(input, a, p, b, q, (n - 1) as nat);
        lemma_same_order(input, a, p, b, q, n - 1);
    }
}

/// Whether no two items share a key.
pub open spec fn keys_distinct<T: Keyed>(items: Seq<T>) -> bool {
    forall|i: int, j: int|
        0 <= i < j < items.len() ==> (#[trigger] items[i]).key() != (#[trigger] items[j]).key()
}

/// Where no two items share a key, the order in which they arrive makes no difference to the
/// sorted result.
pub proof fn law_sorting_ignores_arrival_order<T: Keyed>(
    input: Seq<T>,
    arrival: Seq<int>,
    other: Seq<T>,
    a: Seq<T>,
    b: Seq<T>,
)
    requires
        keys_distinct(input),
        is_arrangement(arrival, input.len()),
        other.len() == input.len(),
        forall|i: int| 0 <= i < other.len() ==> #[trigger] other[i] == input[arrival[i]],
        is_sorted_version(input, a),
        is_sorted_version(other, b),
    ensures
        a == b,
{
    let q = choose|q: Seq<int>| sorts(other, b, q);
    let through = Seq::new(input.len(), |i: int| arrival[q[i]]);
    assert(is_arrangement(through, input.len())) by {
        assert forall|i: int, j: int| 0 <= i < j < input.len() implies #[trigger] through[i]
            != #[trigger] through[j] by {
            assert(q[i] != q[j]);
            assert(arrival[q[i]] != arrival[q[j]]);
        }
        assert forall|p: int| 0 <= p < input.len() implies #[trigger] through.contains(p) by {
            assert(arrival.contains(p));
            let at = choose|at: int| 0 <= at < arrival.len() && arrival[at] == p;
            assert(q.contains(at));
            let i = choose|i: int| 0 <= i < q.len() && q[i] == at;
            assert(through[i] == p);
        }
    }
    assert(sorts(input, b, through)) by {
        assert forall|i: int| 0 <= i < b.len() implies #[trigger] b[i] == input[through[i]] by {
            assert(b[i] == other[q[i]]);
        }
        assert forall|i: int, j: int| 0 <= i < j < b.len() implies {
            ||| key_before((#[trigger] b[i]).key(), (#[trigger] b[j]).key())
            ||| b[i].key() == b[j].key() && through[i] < through[j]
        } by {
            assert(b[i] == input[through[i]]);
            assert(b[j] == input[through[j]]);
            assert(through[i] != through[j]);
        }
    }
    assert(is_sorted_version(input, b));
    law_sorted_version_unique(input, a, b);
}

/// Nothing that is sorted comes before the first item.
pub proof fn law_first_of_sorted_is_least<T: Keyed>(input: Seq<T>, output: Seq<T>, i: int)
    requires
        is_sorted_version(input, output),
        0 <= i < output.len(),
    ensures
        output[0].key() == output[i].key() || key_before(output[0].key(), output[i].key()),
{
}

/// Sorting what is sorted changes nothing.
pub proof fn law_sorting_is_idempotent<T: Keyed>(input: Seq<T>, once: Seq<T>, twice: Seq<T>)
    requires
        is_sorted_version(input, once),
        is_sorted_version(once, twice),
    ensures
        twice == once,
{
    let order = Seq::new(once.len(), |i: int| i);
    assert forall|p: int| 0 <= p < once.len() implies #[trigger] order.contains(p) by {
        assert(order[p] == p);
    }
    assert(sorts(once, once, order));
    assert(is_sorted_version(once, once));
    law_sorted_version_unique(once, twice, once);
}

/// Whether `output` holds the items of `input` in the order that `order` lists their positions in,
/// and items of one key as they stood.
pub open spec fn rearranges<T: Keyed>(input: Seq<T>, output: Seq<T>, order: Seq<int>) -> bool {
    &&& is_arrangement(order, input.len())
    &&& output.len() == input.len()
    &&& forall|i: int| 0 <= i < output.len() ==> #[trigger] output[i] == input[order[i]]
    &&& forall|i: int, j: int|
        0 <= i < j < output.len() && output[i].key() == output[j].key() ==> #[trigger] order[i]
            < #[trigger] order[j]
}

/// Whether `output` holds the items of `input`, and items of one key as they stood.
pub open spec fn is_stable_rearrangement<T: Keyed>(input: Seq<T>, output: Seq<T>) -> bool {
    exists|order: Seq<int>| rearranges(input, output, order)
}

/// Sorting rearranges and keeps items of one key as they stood.
pub proof fn lemma_sorting_rearranges<T: Keyed>(input: Seq<T>, output: Seq<T>)
    requires
        is_sorted_version(input, output),
    ensures
        is_stable_rearrangement(input, output),
{
    let order = choose|order: Seq<int>| sorts(input, output, order);
    assert forall|i: int, j: int|
        0 <= i < j < output.len() && output[i].key() == output[j].key() implies #[trigger] order[i]
        < #[trigger] order[j] by {
        assert(key_before(output[i].key(), output[j].key()) || order[i] < order[j]);
    }
    assert(rearranges(input, output, order));
}

/// Rearrangements of two lists, one after the other, rearrange the lists one after the other.
pub proof fn lemma_rearrangements_join<T: Keyed>(a: Seq<T>, x: Seq<T>, b: Seq<T>, y: Seq<T>)
    requires
        is_stable_rearrangement(a, x),
        is_stable_rearrangement(b, y),
    ensures
        is_stable_rearrangement(a + b, x + y),
{
    let p = choose|p: Seq<int>| rearranges(a, x, p);
    let q = choose|q: Seq<int>| rearranges(b, y, q);
    let n = a.len() as int;
    let order = p + Seq::new(q.len(), |i: int| n + q[i]);
    assert(is_arrangement(order, (a + b).len())) by {
        assert forall|i: int, j: int| 0 <= i < j < (a + b).len() implies #[trigger] order[i]
            != #[trigger] order[j] by {
            if i >= n {
                assert(q[i - n] != q[j - n]);
            }
        }
        assert forall|at: int| 0 <= at < (a + b).len() implies #[trigger] order.contains(at) by {
            if at < n {
                assert(p.contains(at));
                let i = choose|i: int| 0 <= i < p.len() && p[i] == at;
                assert(order[i] == at);
            } else {
                assert(q.contains(at - n));
                let i = choose|i: int| 0 <= i < q.len() && q[i] == at - n;
                assert(order[n + i] == at);
            }
        }
    }
    assert forall|i: int, j: int|
        0 <= i < j < (x + y).len() && (x + y)[i].key() == (x + y)[j].key() implies
        #[trigger] order[i] < #[trigger] order[j] by {
        if j < n {
            assert(p[i] < p[j]);
        }
        if i >= n {
            assert(q[i - n] < q[j - n]);
        }
    }
    assert(rearranges(a + b, x + y, order));
}

/// Sorting a rearrangement that kept items of one key as they stood gives what sorting the items
/// themselves gives.
pub proof fn lemma_sorting_after_rearranging<T: Keyed>(
    input: Seq<T>,
    middle: Seq<T>,
    output: Seq<T>,
)
    requires
        is_stable_rearrangement(input, middle),
        is_sorted_version(middle, output),
    ensures
        is_sorted_version(input, output),
{
    let p = choose|p: Seq<int>| rearranges(input, middle, p);
    let q = choose|q: Seq<int>| sorts(middle, output, q);
    let through = Seq::new(input.len(), |i: int| p[q[i]]);
    assert(is_arrangement(through, input.len())) by {
        assert forall|i: int, j: int| 0 <= i < j < input.len() implies #[trigger] through[i]
            != #[trigger] through[j] by {
            assert(q[i] != q[j]);
            assert(p[q[i]] != p[q[j]]);
        }
        assert forall|at: int| 0 <= at < input.len() implies #[trigger] through.contains(at) by {
            assert(p.contains(at));
            let k = choose|k: int| 0 <= k < p.len() && p[k] == at;
            assert(q.contains(k));
            let i = choose|i: int| 0 <= i < q.len() && q[i] == k;
            assert(through[i] == at);
        }
    }
    assert forall|i: int| 0 <= i < output.len() implies #[trigger] output[i] == input[through[i]] by {
        assert(output[i] == middle[q[i]]);
    }
    assert forall|i: int, j: int| 0 <= i < j < output.len() implies {
        ||| key_before((#[trigger] output[i]).key(), (#[trigger] output[j]).key())
        ||| output[i].key() == output[j].key() && through[i] < through[j]
    } by {
        assert(output[i] == middle[q[i]]);
        assert(output[j] == middle[q[j]]);
        if !key_before(output[i].key(), output[j].key()) {
            assert(q[i] < q[j]);
            assert(p[q[i]] < p[q[j]]);
        }
    }
    assert(sorts(input, output, through));
}

/// Items that are found under different positions of a list are all there as often as in the list.
proof fn lemma_arranged_items<T>(input: Seq<T>, output: Seq<T>, order: Seq<int>)
    requires
        output.len() == input.len(),
        order.len() == input.len(),
        forall|i: int| 0 <= i < order.len() ==> 0 <= #[trigger] order[i] < input.len(),
        forall|i: int, j: int|
            0 <= i < j < order.len() ==> #[trigger] order[i] != #[trigger] order[j],
        forall|i: int| 0 <= i < output.len() ==> #[trigger] output[i] == input[order[i]],
    ensures
        output.to_multiset() == input.to_multiset(),
    decreases input.len(),
{
    broadcast use vstd::seq_lib::group_to_multiset_ensures;

    if input.len() == 0 {
        assert(output =~= input);
    } else {
        let k = order.last();
        let fewer = input.remove(k);
        let shorter = output.drop_last();
        let moved = Seq::new(
            shorter.len(),
            |i: int|
                if order[i] > k {
                    order[i] - 1
                } else {
                    order[i]
                },
        );
        assert forall|i: int| 0 <= i < shorter.len() implies 0 <= #[trigger] moved[i]
            < fewer.len() && shorter[i] == fewer[moved[i]] by {
            assert(order[i] != order[order.len() - 1]);
            assert(output[i] == input[order[i]]);
        }
        assert forall|i: int, j: int| 0 <= i < j < moved.len() implies #[trigger] moved[i]
            != #[trigger] moved[j] by {
            assert(order[i] != order[j]);
            assert(order[i] != order[order.len() - 1]);
            assert(order[j] != order[order.len() - 1]);
        }
        lemma_arranged_items(fewer, shorter, moved);
        assert(output =~= shorter.push(output.last()));
        assert(output.last() == input[k]);
        assert(input.to_multiset().count(input[k]) > 0) by {
            assert(input.contains(input[k]));
        }
        assert(output.to_multiset() =~= input.to_multiset());
    }
}

/// Rearranging neither loses nor adds an item.
pub proof fn law_rearranging_keeps_the_items<T: Keyed>(input: Seq<T>, output: Seq<T>)
    requires
        is_stable_rearrangement(input, output),
    ensures
        output.to_multiset() == input.to_multiset(),
{
    let order = choose|order: Seq<int>| rearranges(input, output, order);
    lemma_arranged_items(input, output, order);
}

/// Sorting neither loses nor adds an item.
pub proof fn law_sorting_keeps_the_items<T: Keyed>(input: Seq<T>, output: Seq<T>)
    requires
        is_sorted_version(input, output),
    ensures
        output.to_multiset() == input.to_multiset(),
{
    lemma_sorting_rearranges(input, output);
    law_rearranging_keeps_the_items(input, output);
}

/// Where the items that were picked out of a list stood in it: the places ascend, and they are those
/// of all items that were to be picked.
pub proof fn lemma_picked_places<T>(items: Seq<T>, pick: spec_fn(T) -> bool) -> (places: Seq<int>)
    ensures
        places.len() == items.filter(pick).len(),
        forall|k: int|
            0 <= k < places.len() ==> 0 <= #[trigger] places[k] < items.len() && pick(
                items[places[k]],
            ) && items[places[k]] == items.filter(pick)[k],
        forall|k: int, l: int|
            0 <= k < l < places.len() ==> #[trigger] places[k] < #[trigger] places[l],
        forall|i: int| 0 <= i < items.len() && pick(#[trigger] items[i]) ==> places.contains(i),
    decreases items.len(),
{
    reveal(Seq::filter);
    if items.len() == 0 {
        Seq::empty()
    } else {
        let shorter = items.drop_last();
        let earlier = lemma_picked_places(shorter, pick);
        let last = items.len() - 1;
        let places = if pick(items[last]) {
            earlier.push(last)
        } else {
            earlier
        };
        assert forall|i: int| 0 <= i < items.len() && pick(#[trigger] items[i]) implies
            places.contains(i) by {
            if i < last {
                assert(shorter[i] == items[i]);
                assert(earlier.contains(i));
                let k = choose|k: int| 0 <= k < earlier.len() && earlier[k] == i;
                assert(places[k] == i);
            } else {
                assert(places[earlier.len() as int] == i);
            }
        }
        assert forall|k: int| 0 <= k < places.len() implies 0 <= #[trigger] places[k]
            < items.len() && pick(items[places[k]]) && items[places[k]] == items.filter(
            pick,
        )[k] by {
            if k < earlier.len() {
                assert(places[k] == earlier[k]);
                assert(shorter[earlier[k]] == items[earlier[k]]);
            }
        }
        assert forall|k: int, l: int| 0 <= k < l < places.len() implies #[trigger] places[k]
            < #[trigger] places[l] by {
            assert(places[k] == earlier[k]);
            if l < earlier.len() {
                assert(places[l] == earlier[l]);
            }
        }
        places
    }
}

/// Where the items of a sorted list stood before: each stood at one place, and of two items of one
/// key the first stood in front of the second.
pub proof fn law_items_of_one_key_keep_their_order<T: Keyed>(input: Seq<T>, output: Seq<T>) -> (places:
    Seq<int>)
    requires
        is_sorted_version(input, output),
    ensures
        places.len() == input.len() == output.len(),
        forall|i: int|
            0 <= i < places.len() ==> 0 <= #[trigger] places[i] < input.len() && output[i]
                == input[places[i]],
        forall|i: int, j: int|
            0 <= i < j < places.len() ==> #[trigger] places[i] != #[trigger] places[j] && (
            output[i].key() == output[j].key() ==> places[i] < places[j]),
{
    let places = choose|order: Seq<int>| sorts(input, output, order);
    assert forall|i: int, j: int| 0 <= i < j < places.len() implies #[trigger] places[i]
        != #[trigger] places[j] && (output[i].key() == output[j].key() ==> places[i]
        < places[j]) by {
        assert(key_before(output[i].key(), output[j].key()) || output[i].key() == output[j].key()
            && places[i] < places[j]);
    }
    places
}

/// Keys are compared from the left: the first number in which two keys differ decides.
pub proof fn law_first_difference_decides(a: Key, b: Key)
    ensures
        a.0 != b.0 ==> (key_before(a, b) <==> a.0 < b.0),
        a.0 == b.0 && a.1 != b.1 ==> (key_before(a, b) <==> a.1 < b.1),
        a.0 == b.0 && a.1 == b.1 && a.2 != b.2 ==> (key_before(a, b) <==> a.2 < b.2),
        a.0 == b.0 && a.1 == b.1 && a.2 == b.2 && a.3 != b.3 ==> (key_before(a, b) <==> a.3 < b.3),
        a.0 == b.0 && a.1 == b.1 && a.2 == b.2 && a.3 == b.3 ==> (key_before(a, b) <==> a.4 < b.4),
{
}

} // verus!
