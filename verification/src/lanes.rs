//! Lane accumulators and the geometry of a four-wide, four-times unrolled walk.

use vstd::prelude::*;

verus! {

/// Four consecutive elements of a sample: the content of one vector load.
#[derive(Clone, Copy, Debug)]
pub struct Quad<T> {
    pub e0: T,
    pub e1: T,
    pub e2: T,
    pub e3: T,
}

/// Four consecutive quads: the sixteen elements of one unrolled iteration.
#[derive(Clone, Copy, Debug)]
pub struct Block<T> {
    pub q1: Quad<T>,
    pub q2: Quad<T>,
    pub q3: Quad<T>,
    pub q4: Quad<T>,
}

/// Four independent accumulators, one per unrolled chunk position, so that
/// no accumulator waits on another inside the loop.
#[derive(Clone, Copy, Debug)]
pub struct SimdAccum4<V> {
    pub v1: V,
    pub v2: V,
    pub v3: V,
    pub v4: V,
}

/// Number of whole four-element chunks in a sample of `len` elements.
pub open spec fn chunk_count(len: int) -> int {
    len / 4
}

/// Number of whole unrolled iterations (four chunks each).
pub open spec fn unrolled_count(len: int) -> int {
    (len / 4) / 4
}

/// Index of the first element that no chunk covers.
pub open spec fn tail_start(len: int) -> int {
    4 * (len / 4)
}

/// The chunk with index `c`.
pub open spec fn quad_at<T>(data: Seq<T>, c: int) -> Quad<T> {
    Quad { e0: data[4 * c], e1: data[4 * c + 1], e2: data[4 * c + 2], e3: data[4 * c + 3] }
}

/// The unrolled block with index `b`: chunks `4b` to `4b + 3`.
pub open spec fn block_at<T>(data: Seq<T>, b: int) -> Block<T> {
    Block {
        q1: quad_at(data, 4 * b),
        q2: quad_at(data, 4 * b + 1),
        q3: quad_at(data, 4 * b + 2),
        q4: quad_at(data, 4 * b + 3),
    }
}

/// The blocks of a sample, in order.
pub open spec fn blocks<T>(data: Seq<T>) -> Seq<Block<T>> {
    Seq::new(unrolled_count(data.len() as int) as nat, |b: int| block_at(data, b))
}

/// The chunks that follow the last whole block, in order (at most three).
pub open spec fn spare_quads<T>(data: Seq<T>) -> Seq<Quad<T>> {
    Seq::new(
        (chunk_count(data.len() as int) - 4 * unrolled_count(data.len() as int)) as nat,
        |j: int| quad_at(data, 4 * unrolled_count(data.len() as int) + j),
    )
}

/// The elements that follow the last whole chunk, in order (at most three).
pub open spec fn tail<T>(data: Seq<T>) -> Seq<T> {
    data.subrange(tail_start(data.len() as int), data.len() as int)
}

/// The chunks that accumulator `lane` (0 to 3) receives, in order. Inside the
/// unrolled part chunk `c` goes to lane `c % 4`; the spare chunks all go to
/// lane 0.
pub open spec fn lane_quads<T>(data: Seq<T>, lane: int) -> Seq<Quad<T>> {
    let u = unrolled_count(data.len() as int);
    let own = Seq::new(u as nat, |j: int| quad_at(data, 4 * j + lane));
    if lane == 0 {
        own + spare_quads(data)
    } else {
        own
    }
}

/// The accumulator that chunk `c` of a sample of `len` elements goes to.
pub open spec fn lane_of(len: int, c: int) -> int {
    if c < 4 * unrolled_count(len) {
        c % 4
    } else {
        0
    }
}

/// The place of chunk `c` among the chunks of its accumulator.
pub open spec fn slot_of(len: int, c: int) -> int {
    if c < 4 * unrolled_count(len) {
        c / 4
    } else {
        c - 3 * unrolled_count(len)
    }
}

/// The element of a chunk at offset `k` (0 to 3).
pub open spec fn quad_elem<T>(q: Quad<T>, k: int) -> T {
    if k == 0 {
        q.e0
    } else if k == 1 {
        q.e1
    } else if k == 2 {
        q.e2
    } else {
        q.e3
    }
}

/// Every chunk is handed to exactly one accumulator, at the place that
/// `lane_of` and `slot_of` give.
pub proof fn lemma_chunk_placement<T>(data: Seq<T>, c: int)
    requires
        0 <= c < chunk_count(data.len() as int),
    ensures
        0 <= lane_of(data.len() as int, c) < 4,
        0 <= slot_of(data.len() as int, c) < lane_quads(data, lane_of(data.len() as int, c)).len(),
        lane_quads(data, lane_of(data.len() as int, c))[slot_of(data.len() as int, c)] == quad_at(
            data,
            c,
        ),
{
}

/// Two different chunks never share a place, and within one accumulator the
/// chunks keep the order of the sample.
pub proof fn lemma_chunk_order(len: int, c: int, d: int)
    requires
        0 <= c < d < chunk_count(len),
        lane_of(len, c) == lane_of(len, d),
    ensures
        slot_of(len, c) < slot_of(len, d),
{
}

/// The four accumulators share out all the chunks: their chunk counts add up
/// to the number of chunks.
pub proof fn lemma_lanes_partition<T>(data: Seq<T>)
    ensures
        lane_quads(data, 0).len() + lane_quads(data, 1).len() + lane_quads(data, 2).len()
            + lane_quads(data, 3).len() == chunk_count(data.len() as int),
        16 * blocks(data).len() + 4 * spare_quads(data).len() + tail(data).len() == data.len(),
        spare_quads(data).len() <= 3,
        tail(data).len() <= 3,
{
}

/// Every element is seen once: it lies either in a chunk, at offset `i % 4`
/// of chunk `i / 4`, or in the scalar tail.
pub proof fn lemma_walk_covers<T>(data: Seq<T>, i: int)
    requires
        0 <= i < data.len(),
    ensures
        i < tail_start(data.len() as int) ==> i / 4 < chunk_count(data.len() as int) && quad_elem(
            quad_at(data, i / 4),
            i % 4,
        ) == data[i],
        i >= tail_start(data.len() as int) ==> tail(data)[i - tail_start(data.len() as int)]
            == data[i],
{
}

/// `out` is a value that repeated calls of `step` can produce from `init` by
/// taking the `items` in order. For a closure whose contract fixes its result
/// this is the left fold of `items`.
pub open spec fn folds<A, S, F: Fn(S, A) -> S>(step: F, items: Seq<A>, init: S, out: S) -> bool
    decreases items.len(),
{
    if items.len() == 0 {
        out == init
    } else {
        exists|mid: S|
            #![trigger step.ensures((mid, items.last()), out)]
            folds(step, items.drop_last(), init, mid) && step.ensures((mid, items.last()), out)
    }
}

/// Over no items a fold leaves the state as it was.
pub proof fn lemma_folds_empty<A, S, F: Fn(S, A) -> S>(step: F, items: Seq<A>, init: S, out: S)
    requires
        items.len() == 0,
    ensures
        folds(step, items, init, out) <==> out == init,
{
}

/// A fold over at least one item is a fold over all but the last, followed
/// by one call of `step` on the last.
pub proof fn lemma_folds_last<A, S, F: Fn(S, A) -> S>(step: F, items: Seq<A>, init: S, out: S)
    requires
        items.len() > 0,
    ensures
        folds(step, items, init, out) <==> (exists|mid: S|
            #![trigger step.ensures((mid, items.last()), out)]
            folds(step, items.drop_last(), init, mid) && step.ensures((mid, items.last()), out)),
{
}

/// Where the contract of `step` fixes its result as `f`, a fold is the left
/// fold of `f` over the items.
pub proof fn lemma_folds_is_fold_left<A, S, F: Fn(S, A) -> S>(
    step: F,
    f: spec_fn(S, A) -> S,
    items: Seq<A>,
    init: S,
    out: S,
)
    requires
        forall|s: S, a: A, r: S| step.ensures((s, a), r) ==> r == f(s, a),
        folds(step, items, init, out),
    ensures
        out == items.fold_left(init, f),
    decreases items.len(),
{
    if items.len() > 0 {
        let mid = choose|mid: S|
            #![trigger step.ensures((mid, items.last()), out)]
            folds(step, items.drop_last(), init, mid) && step.ensures((mid, items.last()), out);
        lemma_folds_is_fold_left(step, f, items.drop_last(), init, mid);
    }
}

/// One more call of `step` extends a fold by one item.
pub proof fn lemma_folds_push<A, S, F: Fn(S, A) -> S>(
    step: F,
    items: Seq<A>,
    init: S,
    mid: S,
    item: A,
    out: S,
)
    requires
        folds(step, items, init, mid),
        step.ensures((mid, item), out),
    ensures
        folds(step, items.push(item), init, out),
{
    let longer = items.push(item);
    assert(longer.drop_last() =~= items);
    assert(folds(step, longer.drop_last(), init, mid) && step.ensures((mid, longer.last()), out));
}

/// Extending a fold over the first `n` items by item `n` gives a fold over
/// the first `n + 1` items.
pub proof fn lemma_folds_take_step<A, S, F: Fn(S, A) -> S>(
    step: F,
    items: Seq<A>,
    init: S,
    mid: S,
    n: int,
    out: S,
)
    requires
        0 <= n < items.len(),
        folds(step, items.take(n), init, mid),
        step.ensures((mid, items[n]), out),
    ensures
        folds(step, items.take(n + 1), init, out),
{
    lemma_folds_push(step, items.take(n), init, mid, items[n], out);
    assert(items.take(n + 1) =~= items.take(n).push(items[n]));
}

/// Pairs two sequences of equal length item by item.
pub open spec fn paired<A>(left: Seq<A>, right: Seq<A>) -> Seq<(A, A)> {
    Seq::new(left.len(), |i: int| (left[i], right[i]))
}

/// `result` is what a lane reduction can return: each of four accumulators
/// folds `body` over the items of its own lane, all from `init`; `reduce`
/// combines the four, once; and `scalar` folds the rest into the combined
/// value.
pub open spec fn reduces_to<
    A,
    E,
    V,
    R,
    B: Fn(V, A) -> V,
    G: Fn(SimdAccum4<V>) -> R,
    L: Fn(R, E) -> R,
>(
    body: B,
    reduce: G,
    scalar: L,
    lanes: SimdAccum4<Seq<A>>,
    rest: Seq<E>,
    init: V,
    result: R,
) -> bool {
    exists|acc: SimdAccum4<V>, folded: R|
        #![trigger reduce.ensures((acc,), folded)]
        {
            &&& folds(body, lanes.v1, init, acc.v1)
            &&& folds(body, lanes.v2, init, acc.v2)
            &&& folds(body, lanes.v3, init, acc.v3)
            &&& folds(body, lanes.v4, init, acc.v4)
            &&& reduce.ensures((acc,), folded)
            &&& folds(scalar, rest, folded, result)
        }
}

/// `out` is what a walk with one state can return: `unrolled` folds the
/// blocks into `state`, then `chunk` the spare chunks, then `scalar` the
/// rest.
pub open spec fn walks_to<
    A,
    C,
    E,
    S,
    U: Fn(S, A) -> S,
    K: Fn(S, C) -> S,
    L: Fn(S, E) -> S,
>(
    unrolled: U,
    chunk: K,
    scalar: L,
    whole: Seq<A>,
    spare: Seq<C>,
    rest: Seq<E>,
    state: S,
    out: S,
) -> bool {
    exists|s1: S, s2: S|
        #![trigger folds(unrolled, whole, state, s1), folds(chunk, spare, s1, s2)]
        folds(unrolled, whole, state, s1) && folds(chunk, spare, s1, s2) && folds(
            scalar,
            rest,
            s2,
            out,
        )
}

/// The chunks of a sample, shared out over the four lanes.
pub open spec fn lanes_of<T>(data: Seq<T>) -> SimdAccum4<Seq<Quad<T>>> {
    SimdAccum4 {
        v1: lane_quads(data, 0),
        v2: lane_quads(data, 1),
        v3: lane_quads(data, 2),
        v4: lane_quads(data, 3),
    }
}

/// The chunks of two samples of equal length, paired and shared out over the
/// four lanes.
pub open spec fn lanes_of_zip<T>(x: Seq<T>, y: Seq<T>) -> SimdAccum4<Seq<(Quad<T>, Quad<T>)>> {
    SimdAccum4 {
        v1: paired(lane_quads(x, 0), lane_quads(y, 0)),
        v2: paired(lane_quads(x, 1), lane_quads(y, 1)),
        v3: paired(lane_quads(x, 2), lane_quads(y, 2)),
        v4: paired(lane_quads(x, 3), lane_quads(y, 3)),
    }
}

/// A sample of fewer than four elements has no chunks: its reduction is the
/// scalar fold of all its elements into the reduced seed, and the reduction
/// of the empty sample is the reduced seed itself.
pub proof fn lemma_reduction_without_chunks<
    T,
    V,
    R,
    B: Fn(V, Quad<T>) -> V,
    G: Fn(SimdAccum4<V>) -> R,
    L: Fn(R, T) -> R,
>(body: B, reduce: G, scalar: L, data: Seq<T>, init: V, result: R)
    requires
        data.len() < 4,
        reduces_to(body, reduce, scalar, lanes_of(data), tail(data), init, result),
    ensures
        exists|folded: R|
            #![trigger folds(scalar, data, folded, result)]
            reduce.ensures((SimdAccum4 { v1: init, v2: init, v3: init, v4: init },), folded)
                && folds(scalar, data, folded, result),
        data.len() == 0 ==> reduce.ensures(
            (SimdAccum4 { v1: init, v2: init, v3: init, v4: init },),
            result,
        ),
{
    let lanes = lanes_of(data);
    let (acc, folded) = choose|acc: SimdAccum4<V>, folded: R|
        #![trigger reduce.ensures((acc,), folded)]
        {
            &&& folds(body, lanes.v1, init, acc.v1)
            &&& folds(body, lanes.v2, init, acc.v2)
            &&& folds(body, lanes.v3, init, acc.v3)
            &&& folds(body, lanes.v4, init, acc.v4)
            &&& reduce.ensures((acc,), folded)
            &&& folds(scalar, tail(data), folded, result)
        };
    lemma_folds_empty(body, lanes.v1, init, acc.v1);
    lemma_folds_empty(body, lanes.v2, init, acc.v2);
    lemma_folds_empty(body, lanes.v3, init, acc.v3);
    lemma_folds_empty(body, lanes.v4, init, acc.v4);
    assert(tail(data) =~= data);
    assert(acc == SimdAccum4 { v1: init, v2: init, v3: init, v4: init });
    assert(folds(scalar, data, folded, result));
    if data.len() == 0 {
        lemma_folds_empty(scalar, data, folded, result);
    }
}

/// A lane reduction is reproducible: where the contracts of the three
/// closures fix their results, as `fb`, `fr` and `fs`, the reduction has one
/// possible result, built from left folds in a fixed order.
pub proof fn lemma_reduction_is_reproducible<
    A,
    E,
    V,
    R,
    B: Fn(V, A) -> V,
    G: Fn(SimdAccum4<V>) -> R,
    L: Fn(R, E) -> R,
>(
    body: B,
    reduce: G,
    scalar: L,
    fb: spec_fn(V, A) -> V,
    fr: spec_fn(SimdAccum4<V>) -> R,
    fs: spec_fn(R, E) -> R,
    lanes: SimdAccum4<Seq<A>>,
    rest: Seq<E>,
    init: V,
    result: R,
)
    requires
        forall|v: V, a: A, r: V| body.ensures((v, a), r) ==> r == fb(v, a),
        forall|acc: SimdAccum4<V>, r: R| reduce.ensures((acc,), r) ==> r == fr(acc),
        forall|r: R, e: E, o: R| scalar.ensures((r, e), o) ==> o == fs(r, e),
        reduces_to(body, reduce, scalar, lanes, rest, init, result),
    ensures
        result == rest.fold_left(
            fr(
                SimdAccum4 {
                    v1: lanes.v1.fold_left(init, fb),
                    v2: lanes.v2.fold_left(init, fb),
                    v3: lanes.v3.fold_left(init, fb),
                    v4: lanes.v4.fold_left(init, fb),
                },
            ),
            fs,
        ),
{
    let (acc, folded) = choose|acc: SimdAccum4<V>, folded: R|
        #![trigger reduce.ensures((acc,), folded)]
        {
            &&& folds(body, lanes.v1, init, acc.v1)
            &&& folds(body, lanes.v2, init, acc.v2)
            &&& folds(body, lanes.v3, init, acc.v3)
            &&& folds(body, lanes.v4, init, acc.v4)
            &&& reduce.ensures((acc,), folded)
            &&& folds(scalar, rest, folded, result)
        };
    lemma_folds_is_fold_left(body, fb, lanes.v1, init, acc.v1);
    lemma_folds_is_fold_left(body, fb, lanes.v2, init, acc.v2);
    lemma_folds_is_fold_left(body, fb, lanes.v3, init, acc.v3);
    lemma_folds_is_fold_left(body, fb, lanes.v4, init, acc.v4);
    lemma_folds_is_fold_left(scalar, fs, rest, folded, result);
}

/// A walk with one state is reproducible: where the contracts of the three
/// closures fix their results, the walk has one possible result.
pub proof fn lemma_walk_is_reproducible<
    A,
    C,
    E,
    S,
    U: Fn(S, A) -> S,
    K: Fn(S, C) -> S,
    L: Fn(S, E) -> S,
>(
    unrolled: U,
    chunk: K,
    scalar: L,
    fu: spec_fn(S, A) -> S,
    fc: spec_fn(S, C) -> S,
    fs: spec_fn(S, E) -> S,
    whole: Seq<A>,
    spare: Seq<C>,
    rest: Seq<E>,
    state: S,
    out: S,
)
    requires
        forall|s: S, a: A, r: S| unrolled.ensures((s, a), r) ==> r == fu(s, a),
        forall|s: S, c: C, r: S| chunk.ensures((s, c), r) ==> r == fc(s, c),
        forall|s: S, e: E, r: S| scalar.ensures((s, e), r) ==> r == fs(s, e),
        walks_to(unrolled, chunk, scalar, whole, spare, rest, state, out),
    ensures
        out == rest.fold_left(spare.fold_left(whole.fold_left(state, fu), fc), fs),
{
    let (s1, s2) = choose|s1: S, s2: S|
        #![trigger folds(unrolled, whole, state, s1), folds(chunk, spare, s1, s2)]
        folds(unrolled, whole, state, s1) && folds(chunk, spare, s1, s2) && folds(
            scalar,
            rest,
            s2,
            out,
        );
    lemma_folds_is_fold_left(unrolled, fu, whole, state, s1);
    lemma_folds_is_fold_left(chunk, fc, spare, s1, s2);
    lemma_folds_is_fold_left(scalar, fs, rest, s2, out);
}

impl<V: Copy> SimdAccum4<V> {
    /// Four accumulators that all start from `init`.
    pub fn new(init: V) -> (acc: Self)
        ensures
            acc == (SimdAccum4 { v1: init, v2: init, v3: init, v4: init }),
    {
        SimdAccum4 { v1: init, v2: init, v3: init, v4: init }
    }

    /// Combines the four accumulators as a balanced tree,
    /// `(v1 . v2) . (v3 . v4)`, not left to right.
    pub fn fold_pairwise<F: Fn(V, V) -> V>(self, combine: F) -> (out: V)
        requires
            forall|a: V, b: V| combine.requires((a, b)),
        ensures
            exists|left: V, right: V|
                combine.ensures((self.v1, self.v2), left) && combine.ensures(
                    (self.v3, self.v4),
                    right,
                ) && combine.ensures((left, right), out),
    {
        let left = combine(self.v1, self.v2);
        let right = combine(self.v3, self.v4);
        combine(left, right)
    }
}

impl<T: Copy> Quad<T> {
    /// Combines the four elements as a balanced tree,
    /// `(e0 . e1) . (e2 . e3)`.
    pub fn fold_pairwise<F: Fn(T, T) -> T>(self, combine: F) -> (out: T)
        requires
            forall|a: T, b: T| combine.requires((a, b)),
        ensures
            exists|left: T, right: T|
                combine.ensures((self.e0, self.e1), left) && combine.ensures(
                    (self.e2, self.e3),
                    right,
                ) && combine.ensures((left, right), out),
    {
        let left = combine(self.e0, self.e1);
        let right = combine(self.e2, self.e3);
        combine(left, right)
    }
}

} // verus!
