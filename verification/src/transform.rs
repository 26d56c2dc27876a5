//! Cumulative reductions.

use crate::lanes::{folds, lemma_folds_push};
use vstd::prelude::*;

verus! {

/// `out` holds, place by place, what `reducer` made of the value before it
/// and the element of `data` at that place; the value before the first place
/// is `init`.
pub open spec fn running<T, F: Fn(T, T) -> T>(reducer: F, data: Seq<T>, init: T, out: Seq<T>) -> bool {
    &&& out.len() == data.len()
    &&& forall|i: int|
        0 <= i < data.len() ==> reducer.ensures(
            (
                if i == 0 {
                    init
                } else {
                    out[i - 1]
                },
                data[i],
            ),
            #[trigger] out[i],
        )
}

/// Cumulative reduction: applies `reducer` to the running value and each
/// element in turn and keeps every intermediate value. With addition from
/// zero this is the cumulative sum, with multiplication from one the
/// cumulative product.
pub fn cumreduce<T: Copy, F: Fn(T, T) -> T>(data: &[T], init: T, reducer: F) -> (result: Vec<T>)
    requires
        forall|acc: T, value: T| reducer.requires((acc, value)),
    ensures
        running(reducer, data@, init, result@),
{
    let mut result: Vec<T> = Vec::with_capacity(data.len());
    let mut acc = init;
    let mut i: usize = 0;
    while i < data.len()
        invariant
            i <= data.len(),
            result.len() == i,
            forall|acc: T, value: T| reducer.requires((acc, value)),
            acc == (if i == 0 {
                init
            } else {
                result[i - 1]
            }),
            forall|j: int|
                0 <= j < i ==> reducer.ensures(
                    (
                        if j == 0 {
                            init
                        } else {
                            result[j - 1]
                        },
                        data@[j],
                    ),
                    #[trigger] result[j],
                ),
        decreases data.len() - i,
    {
        acc = reducer(acc, data[i]);
        result.push(acc);
        i = i + 1;
    }
    result
}

/// Each value of a cumulative reduction is the fold of the elements up to
/// and including its place.
pub proof fn lemma_running_is_prefix_fold<T, F: Fn(T, T) -> T>(
    reducer: F,
    data: Seq<T>,
    init: T,
    out: Seq<T>,
    i: int,
)
    requires
        running(reducer, data, init, out),
        0 <= i < data.len(),
    ensures
        folds(reducer, data.take(i + 1), init, out[i]),
    decreases i,
{
    if i == 0 {
        assert(data.take(0) =~= Seq::<T>::empty());
        assert(folds(reducer, data.take(0), init, init));
        lemma_folds_push(reducer, data.take(0), init, init, data[0], out[0]);
        assert(data.take(1) =~= data.take(0).push(data[0]));
    } else {
        lemma_running_is_prefix_fold(reducer, data, init, out, i - 1);
        lemma_folds_push(reducer, data.take(i), init, out[i - 1], data[i], out[i]);
        assert(data.take(i + 1) =~= data.take(i).push(data[i]));
    }
}

} // verus!
