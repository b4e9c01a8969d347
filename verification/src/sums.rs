//! Sums over the pieces of an input, where a piece may have no value, and
//! results that must fit the machine's word.

use vstd::prelude::*;

verus! {

/// The sum of the values that `value` gives to the pieces `items`; there is
/// none as soon as one piece has no value.
pub open spec fn sum_of(items: Seq<Seq<char>>, value: spec_fn(Seq<char>) -> Option<nat>) -> Option<
    nat,
>
    decreases items.len(),
{
    if items.len() == 0 {
        Some(0)
    } else {
        match (sum_of(items.drop_last(), value), value(items.last())) {
            (Some(before), Some(last)) => Some(before + last),
            _ => None,
        }
    }
}

/// A result as the machine holds it: none where the number is too large.
pub open spec fn in_usize(n: Option<nat>) -> Option<usize> {
    match n {
        Some(n) => if n <= usize::MAX {
            Some(n as usize)
        } else {
            None
        },
        None => None,
    }
}

/// One more piece adds its value to the sum.
pub proof fn lemma_sum_of_step(
    items: Seq<Seq<char>>,
    value: spec_fn(Seq<char>) -> Option<nat>,
    k: int,
)
    requires
        0 <= k < items.len(),
    ensures
        sum_of(items.take(k + 1), value) == match (sum_of(items.take(k), value), value(items[k])) {
            (Some(before), Some(last)) => Some(before + last),
            _ => None,
        },
{
    assert(items.take(k + 1).drop_last() =~= items.take(k));
}

/// Where the pieces have a sum, so has every prefix of them, and it is no
/// larger.
pub proof fn lemma_sum_of_prefix(
    items: Seq<Seq<char>>,
    value: spec_fn(Seq<char>) -> Option<nat>,
    k: int,
)
    requires
        0 <= k <= items.len(),
        sum_of(items, value).is_some(),
    ensures
        sum_of(items.take(k), value).is_some(),
        sum_of(items.take(k), value).unwrap() <= sum_of(items, value).unwrap(),
    decreases items.len() - k,
{
    if k == items.len() {
        assert(items.take(k) =~= items);
    } else {
        lemma_sum_of_prefix(items, value, k + 1);
        lemma_sum_of_step(items, value, k);
    }
}

} // verus!
