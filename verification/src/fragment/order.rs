//! The order in which the products of one cleavage are examined: smallest
//! first, so that a split with a fragment too small is given up early.

use vstd::prelude::*;
use vstd::set_lib::*;

verus! {

/// Whether product `a` is examined before product `b`: it has fewer atoms,
/// or as many and an earlier place in the product set.
pub open spec fn comes_before(counts: Seq<usize>, a: int, b: int) -> bool {
    counts[a] < counts[b] || (counts[a] == counts[b] && a < b)
}

/// Whether `order` lists the places `0..counts.len()`, each of them once,
/// ascending by atom count, ties broken by place.
pub open spec fn is_size_order(counts: Seq<usize>, order: Seq<usize>) -> bool {
    &&& order.len() == counts.len()
    &&& forall|k: int| 0 <= k < order.len() ==> (#[trigger] order[k]) < counts.len()
    &&& forall|a: int, b: int|
        0 <= a < b < order.len() ==> comes_before(
            counts,
            #[trigger] order[a] as int,
            #[trigger] order[b] as int,
        )
}

/// The order in which the products with the given atom counts are examined.
pub open spec fn size_order(counts: Seq<usize>) -> Seq<usize> {
    choose|order: Seq<usize>| is_size_order(counts, order)
}

/// A size order names every place of the product set.
pub proof fn lemma_size_order_covers(counts: Seq<usize>, order: Seq<usize>, place: int)
    requires
        is_size_order(counts, order),
        0 <= place < counts.len(),
    ensures
        exists|k: int| 0 <= k < order.len() && #[trigger] order[k] == place,
{
    let n = counts.len() as int;
    let places = Seq::new(order.len(), |k: int| order[k] as int);
    assert forall|a: int, b: int| 0 <= a < places.len() && 0 <= b < places.len() && a != b implies places[a]
        != places[b] by {
        if a < b {
            assert(comes_before(counts, order[a] as int, order[b] as int));
        } else {
            assert(comes_before(counts, order[b] as int, order[a] as int));
        }
    }
    assert(places.no_duplicates());
    places.unique_seq_to_set();
    lemma_int_range(0, n);
    assert forall|x: int| places.to_set().contains(x) implies set_int_range(0, n).contains(x) by {
        let k = choose|k: int| 0 <= k < places.len() && places[k] == x;
        assert(order[k] < counts.len());
    }
    assert(places.to_set().subset_of(set_int_range(0, n)));
    lemma_set_subset_finite(set_int_range(0, n), places.to_set());
    lemma_subset_equality(places.to_set(), set_int_range(0, n));
    assert(set_int_range(0, n).contains(place));
    assert(places.to_set().contains(place));
    let k = choose|k: int| 0 <= k < places.len() && places[k] == place;
    assert(order[k] == place);
}

/// Two size orders of one product set agree on their first `upto` places.
proof fn lemma_size_orders_agree(counts: Seq<usize>, first: Seq<usize>, second: Seq<usize>, upto: int)
    requires
        is_size_order(counts, first),
        is_size_order(counts, second),
        0 <= upto <= counts.len(),
    ensures
        forall|j: int| 0 <= j < upto ==> first[j] == second[j],
    decreases upto,
{
    if upto > 0 {
        let k = upto - 1;
        lemma_size_orders_agree(counts, first, second, k);
        let x = first[k];
        let y = second[k];
        if x != y {
            lemma_size_order_covers(counts, second, x as int);
            let m = choose|m: int| 0 <= m < second.len() && second[m] == x;
            lemma_size_order_covers(counts, first, y as int);
            let w = choose|w: int| 0 <= w < first.len() && first[w] == y;
            // `x` stands in `second` behind place `k`, and `y` in `first` behind it.
            if m < k {
                assert(first[m] == second[m]);
                assert(comes_before(counts, first[m] as int, first[k] as int));
            }
            if w < k {
                assert(first[w] == second[w]);
                assert(comes_before(counts, second[w] as int, second[k] as int));
            }
            assert(comes_before(counts, second[k] as int, second[m] as int));
            assert(comes_before(counts, first[k] as int, first[w] as int));
        }
    }
}

/// A product set has exactly one size order.
pub proof fn lemma_size_order_unique(counts: Seq<usize>, order: Seq<usize>)
    requires
        is_size_order(counts, order),
    ensures
        order == size_order(counts),
{
    let chosen = size_order(counts);
    assert(is_size_order(counts, chosen));
    lemma_size_orders_agree(counts, order, chosen, counts.len() as int);
    assert(order =~= chosen);
}

/// A size order with the last place of the product set put in: it goes
/// behind every place whose product is no larger.
proof fn lemma_size_order_extends(counts: Seq<usize>, shorter: Seq<usize>) -> (order: Seq<usize>)
    requires
        0 < counts.len() <= usize::MAX,
        is_size_order(counts.drop_last(), shorter),
    ensures
        is_size_order(counts, order),
{
    let last = (counts.len() - 1) as usize;
    let p = lemma_size_order_gap(counts, shorter, 0);
    let order = shorter.insert(p, last);
    assert forall|k: int| 0 <= k < order.len() implies (#[trigger] order[k]) < counts.len() by {
        if k < p {
            assert(order[k] == shorter[k]);
        } else if k > p {
            assert(order[k] == shorter[k - 1]);
        }
    }
    assert forall|a: int, b: int| 0 <= a < b < order.len() implies comes_before(
        counts,
        #[trigger] order[a] as int,
        #[trigger] order[b] as int,
    ) by {
        if b < p {
            assert(order[a] == shorter[a] && order[b] == shorter[b]);
            assert(comes_before(counts.drop_last(), shorter[a] as int, shorter[b] as int));
        } else if b == p {
            assert(order[a] == shorter[a]);
        } else if a < p {
            assert(order[a] == shorter[a] && order[b] == shorter[b - 1]);
            assert(comes_before(counts.drop_last(), shorter[a] as int, shorter[b - 1] as int));
        } else if a == p {
            assert(order[b] == shorter[b - 1]);
            if p < b - 1 {
                assert(comes_before(counts.drop_last(), shorter[p] as int, shorter[b - 1] as int));
            }
        } else {
            assert(order[a] == shorter[a - 1] && order[b] == shorter[b - 1]);
            assert(comes_before(counts.drop_last(), shorter[a - 1] as int, shorter[b - 1] as int));
        }
    }
    order
}

/// Where, in a size order of all places but the last, the last place goes:
/// behind the places from `from` on whose products are no larger than its
/// own, given that those before `from` are no larger either.
proof fn lemma_size_order_gap(counts: Seq<usize>, shorter: Seq<usize>, from: int) -> (p: int)
    requires
        0 < counts.len(),
        is_size_order(counts.drop_last(), shorter),
        0 <= from <= shorter.len(),
        forall|k: int| 0 <= k < from ==> counts[(#[trigger] shorter[k]) as int] <= counts.last(),
    ensures
        from <= p <= shorter.len(),
        forall|k: int| 0 <= k < p ==> counts[(#[trigger] shorter[k]) as int] <= counts.last(),
        p < shorter.len() ==> counts[shorter[p] as int] > counts.last(),
    decreases shorter.len() - from,
{
    if from < shorter.len() && counts[shorter[from] as int] <= counts.last() {
        lemma_size_order_gap(counts, shorter, from + 1)
    } else {
        from
    }
}

/// Every product set that a machine integer can count has a size order.
pub proof fn lemma_size_order_exists(counts: Seq<usize>)
    requires
        counts.len() <= usize::MAX,
    ensures
        is_size_order(counts, size_order(counts)),
    decreases counts.len(),
{
    if counts.len() == 0 {
        assert(is_size_order(counts, Seq::<usize>::empty()));
    } else {
        lemma_size_order_exists(counts.drop_last());
        let order = lemma_size_order_extends(counts, size_order(counts.drop_last()));
        assert(is_size_order(counts, order));
    }
}

/// Orders the products of one cleavage by atom count, the smallest first;
/// products of equal size keep the order in which the cleavage gave them.
/// The result lists places in `counts`.
pub fn order_by_size(counts: &Vec<usize>) -> (order: Vec<usize>)
    ensures
        is_size_order(counts@, order@),
        order@ == size_order(counts@),
{
    let mut order: Vec<usize> = Vec::new();
    let mut i: usize = 0;
    while i < counts.len()
        invariant
            i <= counts.len(),
            order.len() == i,
            forall|k: int| 0 <= k < order.len() ==> (#[trigger] order[k]) < i,
            forall|a: int, b: int|
                0 <= a < b < order.len() ==> comes_before(
                    counts@,
                    #[trigger] order[a] as int,
                    #[trigger] order[b] as int,
                ),
        decreases counts.len() - i,
    {
        let mut p: usize = 0;
        while p < order.len() && counts[order[p]] <= counts[i]
            invariant
                p <= order.len(),
                i < counts.len(),
                order.len() == i,
                forall|k: int| 0 <= k < order.len() ==> (#[trigger] order[k]) < i,
                forall|k: int| 0 <= k < p ==> counts[(#[trigger] order[k]) as int] <= counts[i as int],
            decreases order.len() - p,
        {
            p = p + 1;
        }
        let ghost before = order@;
        order.insert(p, i);
        proof {
            assert forall|a: int, b: int| 0 <= a < b < order.len() implies comes_before(
                counts@,
                #[trigger] order[a] as int,
                #[trigger] order[b] as int,
            ) by {
                if b < p {
                    assert(order[a] == before[a] && order[b] == before[b]);
                } else if b == p {
                    assert(order[a] == before[a]);
                } else if a < p {
                    assert(order[a] == before[a] && order[b] == before[b - 1]);
                } else if a == p {
                    assert(order[b] == before[b - 1]);
                    if p < b - 1 {
                        assert(comes_before(counts@, before[p as int] as int, before[b - 1] as int));
                    }
                } else {
                    assert(order[a] == before[a - 1] && order[b] == before[b - 1]);
                }
            }
            assert forall|k: int| 0 <= k < order.len() implies (#[trigger] order[k]) < i + 1 by {
                if k < p {
                    assert(order[k] == before[k]);
                } else if k > p {
                    assert(order[k] == before[k - 1]);
                }
            }
        }
        i = i + 1;
    }
    proof {
        lemma_size_order_unique(counts@, order@);
    }
    order
}

} // verus!
