//! Sums of natural-number weights over finite sets of nodes.

use vstd::prelude::*;
use vstd::set::fold::{is_fun_commutative, lemma_fold_empty, lemma_fold_insert};

verus! {

/// The step that adds the weight of one more node.
pub open spec fn add_weight(weight: spec_fn(usize) -> nat) -> spec_fn(nat, usize) -> nat {
    |acc: nat, x: usize| acc + weight(x)
}

/// The sum of `weight(x)` over every `x` in the finite set `s`.
pub open spec fn sum_over(s: Set<usize>, weight: spec_fn(usize) -> nat) -> nat {
    s.fold(0nat, add_weight(weight))
}

/// The empty sum is zero.
pub proof fn lemma_sum_over_empty(weight: spec_fn(usize) -> nat)
    ensures
        sum_over(Set::empty(), weight) == 0,
{
    lemma_fold_empty(0nat, add_weight(weight));
}

/// A new element adds its weight to the sum.
pub proof fn lemma_sum_over_insert(s: Set<usize>, weight: spec_fn(usize) -> nat, x: usize)
    requires
        s.finite(),
        !s.contains(x),
    ensures
        sum_over(s.insert(x), weight) == sum_over(s, weight) + weight(x),
{
    assert(is_fun_commutative(add_weight(weight)));
    lemma_fold_insert(s, 0nat, add_weight(weight), x);
}

/// Any element can be split off the sum.
pub proof fn lemma_sum_over_remove(s: Set<usize>, weight: spec_fn(usize) -> nat, x: usize)
    requires
        s.finite(),
        s.contains(x),
    ensures
        sum_over(s, weight) == sum_over(s.remove(x), weight) + weight(x),
{
    lemma_sum_over_insert(s.remove(x), weight, x);
    assert(s.remove(x).insert(x) =~= s);
}

/// Two weights that agree on `s` have the same sum over it.
pub proof fn lemma_sum_over_agree(
    s: Set<usize>,
    first: spec_fn(usize) -> nat,
    second: spec_fn(usize) -> nat,
)
    requires
        s.finite(),
        forall|x: usize| s.contains(x) ==> first(x) == second(x),
    ensures
        sum_over(s, first) == sum_over(s, second),
    decreases s.len(),
{
    if s.len() == 0 {
        assert(s =~= Set::empty());
        lemma_sum_over_empty(first);
        lemma_sum_over_empty(second);
    } else {
        let x = s.choose();
        lemma_sum_over_remove(s, first, x);
        lemma_sum_over_remove(s, second, x);
        lemma_sum_over_agree(s.remove(x), first, second);
    }
}

/// The sum over a subset is no more than the sum over the whole.
pub proof fn lemma_sum_over_subset(
    part: Set<usize>,
    whole: Set<usize>,
    weight: spec_fn(usize) -> nat,
)
    requires
        whole.finite(),
        part.subset_of(whole),
    ensures
        sum_over(part, weight) <= sum_over(whole, weight),
    decreases whole.len(),
{
    if part =~= whole {
    } else {
        let x = choose|x: usize| whole.contains(x) && !part.contains(x);
        lemma_sum_over_remove(whole, weight, x);
        lemma_sum_over_subset(part, whole.remove(x), weight);
    }
}

} // verus!
