//! Rankings that keep the order of equals.
use vstd::prelude::*;
use vstd::relations::sorted_by;
use vstd::seq_lib::lemma_sorted_unique;
use vstd::set_lib::*;

verus! {

/// Whether position `a` ranks before position `b`: by its key, and by itself
/// where the keys are equal.
pub open spec fn ranks_before(keys: Seq<int>, a: int, b: int) -> bool {
    keys[a] < keys[b] || (keys[a] == keys[b] && a < b)
}

/// Whether `order` lists every position of `keys` by its rank.
pub open spec fn is_ranking(order: Seq<int>, keys: Seq<int>) -> bool {
    &&& order.len() == keys.len()
    &&& forall|i: int| 0 <= i < order.len() ==> 0 <= #[trigger] order[i] < keys.len()
    &&& forall|i: int, j: int|
        0 <= i < j < order.len() ==> ranks_before(keys, #[trigger] order[i], #[trigger] order[j])
}

/// The positions of `keys` by their rank: those with smaller keys first, and of
/// equal keys the earlier position.
pub open spec fn ranking(keys: Seq<int>) -> Seq<int> {
    choose|order: Seq<int>| is_ranking(order, keys)
}

/// The numbers as integers.
pub open spec fn as_ints(keys: Seq<i128>) -> Seq<int> {
    keys.map_values(|key: i128| key as int)
}

/// The positions as integers.
pub open spec fn as_positions(order: Seq<usize>) -> Seq<int> {
    order.map_values(|position: usize| position as int)
}

/// A ranking lists every position.
pub proof fn law_ranking_lists_every_position(order: Seq<int>, keys: Seq<int>, position: int)
    requires
        is_ranking(order, keys),
        0 <= position < keys.len(),
    ensures
        order.contains(position),
{
    assert(order.no_duplicates()) by {
        assert forall|i: int, j: int| 0 <= i < order.len() && 0 <= j < order.len() && i != j implies order[i]
            != order[j] by {
            if i < j {
                assert(ranks_before(keys, order[i], order[j]));
            } else {
                assert(ranks_before(keys, order[j], order[i]));
            }
        }
    }
    order.unique_seq_to_set();
    let all = set_int_range(0, keys.len() as int);
    lemma_int_range(0, keys.len() as int);
    assert(order.to_set().subset_of(all));
    lemma_subset_equality(order.to_set(), all);
    assert(order.to_set().contains(position));
}

/// Two rankings of one row of keys agree up to `n`.
proof fn lemma_rankings_agree(a: Seq<int>, b: Seq<int>, keys: Seq<int>, n: int)
    requires
        is_ranking(a, keys),
        is_ranking(b, keys),
        0 <= n <= keys.len(),
    ensures
        forall|i: int| 0 <= i < n ==> a[i] == b[i],
    decreases n,
{
    if n > 0 {
        let i = n - 1;
        lemma_rankings_agree(a, b, keys, i);
        law_ranking_lists_every_position(b, keys, a[i]);
        law_ranking_lists_every_position(a, keys, b[i]);
        let j = choose|j: int| 0 <= j < b.len() && b[j] == a[i];
        let k = choose|k: int| 0 <= k < a.len() && a[k] == b[i];
        if j < i {
            assert(ranks_before(keys, a[j], a[i]));
        }
        if k < i {
            assert(ranks_before(keys, b[k], b[i]));
        }
        if i < j && i < k {
            assert(ranks_before(keys, b[i], b[j]));
            assert(ranks_before(keys, a[i], a[k]));
        }
    }
}

/// Every row of keys has a ranking.
pub proof fn law_ranking_exists(keys: Seq<int>)
    ensures
        is_ranking(ranking(keys), keys),
{
    let base = Seq::new(keys.len(), |i: int| i);
    let leq = |a: int, b: int| a == b || ranks_before(keys, a, b);
    base.lemma_sort_by_ensures(leq);
    let order = base.sort_by(leq);
    base.to_multiset_ensures();
    order.to_multiset_ensures();
    assert(base.no_duplicates());
    base.lemma_multiset_has_no_duplicates();
    order.lemma_multiset_has_no_duplicates_conv();
    assert forall|i: int| 0 <= i < order.len() implies 0 <= #[trigger] order[i] < keys.len() by {
        assert(order.contains(order[i]));
        assert(base.contains(order[i]));
    }
    assert forall|i: int, j: int| 0 <= i < j < order.len() implies ranks_before(
        keys,
        #[trigger] order[i],
        #[trigger] order[j],
    ) by {
        assert(leq(order[i], order[j]));
    }
    assert(is_ranking(order, keys));
}

/// There is one ranking of a row of keys only.
pub proof fn law_ranking_is_unique(order: Seq<int>, keys: Seq<int>)
    requires
        is_ranking(order, keys),
    ensures
        order == ranking(keys),
{
    let other = ranking(keys);
    law_ranking_exists(keys);
    lemma_rankings_agree(order, other, keys, keys.len() as int);
    assert(order =~= other);
}

/// The same values in another order stay the same values where each is mapped.
pub proof fn lemma_mapped_values<A, B>(a: Seq<A>, b: Seq<A>, f: spec_fn(A) -> B)
    requires
        a.to_multiset() == b.to_multiset(),
    ensures
        a.map_values(f).to_multiset() == b.map_values(f).to_multiset(),
    decreases a.len(),
{
    a.to_multiset_ensures();
    b.to_multiset_ensures();
    if a.len() == 0 {
        assert(a.map_values(f) =~= b.map_values(f));
    } else {
        let n = a.len() - 1;
        let x = a[n];
        assert(a.contains(x));
        assert(b.to_multiset().count(x) > 0);
        assert(b.contains(x));
        let k = choose|k: int| 0 <= k < b.len() && b[k] == x;
        let rest = b.remove(k);
        assert(a.remove(n) =~= a.drop_last());
        assert(a.drop_last().to_multiset() == rest.to_multiset());
        lemma_mapped_values(a.drop_last(), rest, f);
        let fa = a.map_values(f);
        let fb = b.map_values(f);
        fa.to_multiset_ensures();
        fb.to_multiset_ensures();
        assert(fa.remove(n) =~= a.drop_last().map_values(f));
        assert(fb.remove(k) =~= rest.map_values(f));
        assert(fa[n] == f(x) && fb[k] == f(x));
        let left = fa.to_multiset().remove(f(x));
        assert(fa.contains(f(x)) && fb.contains(f(x)));
        assert(left == fb.to_multiset().remove(f(x)));
        assert(fa.to_multiset() =~= left.insert(f(x)));
        assert(fb.to_multiset() =~= left.insert(f(x)));
    }
}

/// The keys by their rank.
pub open spec fn ranked_keys(keys: Seq<int>) -> Seq<int> {
    ranking(keys).map_values(|position: int| keys[position])
}

/// A ranking holds every key as often as the row does.
proof fn lemma_ranked_keys(keys: Seq<int>)
    ensures
        ranked_keys(keys).to_multiset() == keys.to_multiset(),
{
    let order = ranking(keys);
    let base = Seq::new(keys.len(), |i: int| i);
    let f = |position: int| keys[position];
    law_ranking_exists(keys);
    assert(order.no_duplicates()) by {
        assert forall|i: int, j: int| 0 <= i < order.len() && 0 <= j < order.len() && i != j implies order[i]
            != order[j] by {
            if i < j {
                assert(ranks_before(keys, order[i], order[j]));
            } else {
                assert(ranks_before(keys, order[j], order[i]));
            }
        }
    }
    assert(base.no_duplicates());
    order.lemma_multiset_has_no_duplicates();
    base.lemma_multiset_has_no_duplicates();
    order.to_multiset_ensures();
    base.to_multiset_ensures();
    assert forall|x: int| order.to_multiset().count(x) == base.to_multiset().count(x) by {
        if base.contains(x) {
            law_ranking_lists_every_position(order, keys, x);
            assert(order.to_multiset().count(x) > 0 && base.to_multiset().count(x) > 0);
            assert(order.to_multiset().contains(x) && base.to_multiset().contains(x));
        } else {
            if order.contains(x) {
                let i = choose|i: int| 0 <= i < order.len() && order[i] == x;
                assert(base[x] == x);
            }
        }
    }
    assert(order.to_multiset() =~= base.to_multiset());
    lemma_mapped_values(order, base, f);
    assert(base.map_values(f) =~= keys);
}

/// The keys by their rank are the same in whatever order the row has them.
pub proof fn law_ranked_keys_do_not_depend_on_the_order(a: Seq<int>, b: Seq<int>)
    requires
        a.to_multiset() == b.to_multiset(),
    ensures
        ranked_keys(a) == ranked_keys(b),
{
    let leq = |x: int, y: int| x <= y;
    lemma_ranked_keys(a);
    lemma_ranked_keys(b);
    lemma_ranked_keys_are_sorted(a);
    lemma_ranked_keys_are_sorted(b);
    lemma_sorted_unique(ranked_keys(a), ranked_keys(b), leq);
}

proof fn lemma_ranked_keys_are_sorted(keys: Seq<int>)
    ensures
        sorted_by(ranked_keys(keys), |x: int, y: int| x <= y),
{
    law_ranking_exists(keys);
    let leq = |x: int, y: int| x <= y;
    let order = ranking(keys);
    let ranked = ranked_keys(keys);
    assert forall|i: int, j: int| 0 <= i < j < ranked.len() implies #[trigger] leq(ranked[i], ranked[j]) by {
        assert(ranks_before(keys, order[i], order[j]));
    }
}

/// The positions of `keys` by their rank.
pub fn rank_positions(keys: &Vec<i128>) -> (order: Vec<usize>)
    ensures
        as_positions(order@) == ranking(as_ints(keys@)),
        is_ranking(as_positions(order@), as_ints(keys@)),
{
    let ghost ints = as_ints(keys@);
    let mut order: Vec<usize> = Vec::new();
    let mut n: usize = 0;
    while n < keys.len()
        invariant
            n <= keys@.len(),
            ints == as_ints(keys@),
            order@.len() == n,
            forall|i: int| 0 <= i < n ==> (#[trigger] order@[i]) < n,
            forall|i: int, j: int|
                0 <= i < j < n ==> ranks_before(ints, #[trigger] order@[i] as int, #[trigger] order@[j] as int),
        decreases keys@.len() - n,
    {
        let mut at: usize = n;
        while at > 0 && keys[order[at - 1]] > keys[n]
            invariant
                at <= n < keys@.len(),
                ints == as_ints(keys@),
                order@.len() == n,
                forall|i: int| 0 <= i < n ==> (#[trigger] order@[i]) < n,
                forall|i: int| at <= i < n ==> ints[#[trigger] order@[i] as int] > ints[n as int],
            decreases at,
        {
            at = at - 1;
        }
        let ghost before = order@;
        proof {
            if at > 0 {
                assert forall|i: int| 0 <= i < at implies ints[#[trigger] before[i] as int] <= ints[n as int] by {
                    let last = before[at - 1] as int;
                    assert(ints[last] == keys@[last]);
                    if i < at - 1 {
                        assert(ranks_before(ints, before[i] as int, before[at - 1] as int));
                    }
                }
            }
        }
        order.insert(at, n);
        proof {
            assert forall|i: int, j: int| 0 <= i < j < n + 1 implies ranks_before(
                ints,
                #[trigger] order@[i] as int,
                #[trigger] order@[j] as int,
            ) by {
                let i0 = if i < at { i } else { i - 1 };
                let j0 = if j < at { j } else { j - 1 };
                if i != at && j != at {
                    assert(order@[i] == before[i0] && order@[j] == before[j0]);
                    assert(ranks_before(ints, before[i0] as int, before[j0] as int));
                } else if i == at {
                    assert(order@[j] == before[j0]);
                } else {
                    assert(order@[i] == before[i0]);
                }
            }
            assert forall|i: int| 0 <= i < n + 1 implies (#[trigger] order@[i]) < n + 1 by {
                if i != at {
                    let i0 = if i < at { i } else { i - 1 };
                    assert(order@[i] == before[i0]);
                }
            }
        }
        n = n + 1;
    }
    proof {
        let positions = as_positions(order@);
        assert forall|i: int, j: int| 0 <= i < j < positions.len() implies ranks_before(
            ints,
            #[trigger] positions[i],
            #[trigger] positions[j],
        ) by {
            assert(ranks_before(ints, order@[i] as int, order@[j] as int));
        }
        assert(is_ranking(positions, ints));
        law_ranking_is_unique(positions, ints);
    }
    order
}

} // verus!
