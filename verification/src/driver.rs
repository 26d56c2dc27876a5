//! The unrolled reduction drivers.
//!
//! Every driver walks a sample in the same three phases: whole blocks of
//! sixteen elements, then the spare chunks of four, then the scalar tail of
//! at most three elements. What is done with the elements is the caller's.

use crate::lanes::{
    block_at, blocks, folds, lane_quads, lanes_of, lanes_of_zip, lemma_folds_take_step, paired,
    quad_at, reduces_to, spare_quads, tail, walks_to, Block, Quad, SimdAccum4,
};
use vstd::prelude::*;

verus! {

/// Reads chunk `c` of `data`.
pub(crate) fn load_quad<T: Copy>(data: &[T], c: usize) -> (q: Quad<T>)
    requires
        4 * c + 3 < data.len(),
    ensures
        q == quad_at(data@, c as int),
{
    Quad { e0: data[4 * c], e1: data[4 * c + 1], e2: data[4 * c + 2], e3: data[4 * c + 3] }
}

/// Reads block `b` of `data`.
fn load_block<T: Copy>(data: &[T], b: usize) -> (blk: Block<T>)
    requires
        16 * b + 15 < data.len(),
    ensures
        blk == block_at(data@, b as int),
{
    Block {
        q1: load_quad(data, 4 * b),
        q2: load_quad(data, 4 * b + 1),
        q3: load_quad(data, 4 * b + 2),
        q4: load_quad(data, 4 * b + 3),
    }
}

/// Folds the scalar tail of `data` into `state`.
fn fold_tail<T: Copy, S, L: Fn(S, T) -> S>(data: &[T], state: S, scalar: &L) -> (out: S)
    requires
        forall|s: S, t: T| scalar.requires((s, t)),
    ensures
        folds(*scalar, tail(data@), state, out),
{
    let len = data.len();
    let start = (len / 4) * 4;
    let ghost items = tail(data@);
    let mut acc = state;
    let mut i: usize = start;
    assert(items.take(0) =~= Seq::<T>::empty());
    while i < len
        invariant
            start == 4 * (len / 4),
            len == data.len(),
            items == tail(data@),
            start <= i <= len,
            forall|s: S, t: T| scalar.requires((s, t)),
            folds(*scalar, items.take(i - start), state, acc),
        decreases len - i,
    {
        let next = scalar(acc, data[i]);
        proof {
            lemma_folds_take_step(*scalar, items, state, acc, i - start, next);
        }
        acc = next;
        i = i + 1;
    }
    assert(items.take(items.len() as int) =~= items);
    acc
}

/// Reduces a sample to one value with four independent accumulators.
///
/// Chunk `c` of a whole block goes to accumulator `c % 4`, spare chunks go to
/// the first accumulator, and the accumulators are combined only once, by
/// `reduce`, after the last chunk. The scalar tail is then folded into the
/// reduced value, element by element.
pub fn simd_reduce<
    T: Copy,
    V: Copy,
    R,
    B: Fn(V, Quad<T>) -> V,
    G: Fn(SimdAccum4<V>) -> R,
    L: Fn(R, T) -> R,
>(data: &[T], init: V, body: B, reduce: G, scalar: L) -> (result: R)
    requires
        forall|acc: V, q: Quad<T>| body.requires((acc, q)),
        forall|acc: SimdAccum4<V>| reduce.requires((acc,)),
        forall|r: R, t: T| scalar.requires((r, t)),
    ensures
        reduces_to(body, reduce, scalar, lanes_of(data@), tail(data@), init, result),
{
    let len = data.len();
    let chunks = len / 4;
    let unrolled = chunks / 4;
    let ghost l0 = lane_quads(data@, 0);
    let ghost l1 = lane_quads(data@, 1);
    let ghost l2 = lane_quads(data@, 2);
    let ghost l3 = lane_quads(data@, 3);
    let mut acc = SimdAccum4::new(init);
    let mut i: usize = 0;
    proof {
        assert(l0.take(0) =~= Seq::<Quad<T>>::empty());
        assert(l1.take(0) =~= Seq::<Quad<T>>::empty());
        assert(l2.take(0) =~= Seq::<Quad<T>>::empty());
        assert(l3.take(0) =~= Seq::<Quad<T>>::empty());
    }
    while i < unrolled
        invariant
            len == data.len(),
            chunks == len / 4,
            unrolled == chunks / 4,
            l0 == lane_quads(data@, 0),
            l1 == lane_quads(data@, 1),
            l2 == lane_quads(data@, 2),
            l3 == lane_quads(data@, 3),
            i <= unrolled,
            forall|a: V, q: Quad<T>| body.requires((a, q)),
            folds(body, l0.take(i as int), init, acc.v1),
            folds(body, l1.take(i as int), init, acc.v2),
            folds(body, l2.take(i as int), init, acc.v3),
            folds(body, l3.take(i as int), init, acc.v4),
        decreases unrolled - i,
    {
        let n1 = body(acc.v1, load_quad(data, 4 * i));
        let n2 = body(acc.v2, load_quad(data, 4 * i + 1));
        let n3 = body(acc.v3, load_quad(data, 4 * i + 2));
        let n4 = body(acc.v4, load_quad(data, 4 * i + 3));
        proof {
            lemma_folds_take_step(body, l0, init, acc.v1, i as int, n1);
            lemma_folds_take_step(body, l1, init, acc.v2, i as int, n2);
            lemma_folds_take_step(body, l2, init, acc.v3, i as int, n3);
            lemma_folds_take_step(body, l3, init, acc.v4, i as int, n4);
        }
        acc = SimdAccum4 { v1: n1, v2: n2, v3: n3, v4: n4 };
        i = i + 1;
    }
    proof {
        assert(l1.take(l1.len() as int) =~= l1);
        assert(l2.take(l2.len() as int) =~= l2);
        assert(l3.take(l3.len() as int) =~= l3);
    }
    let mut c: usize = unrolled * 4;
    while c < chunks
        invariant
            len == data.len(),
            chunks == len / 4,
            unrolled == chunks / 4,
            l0 == lane_quads(data@, 0),
            4 * unrolled <= c <= chunks,
            forall|a: V, q: Quad<T>| body.requires((a, q)),
            folds(body, l0.take(unrolled + (c - 4 * unrolled)), init, acc.v1),
            folds(body, lane_quads(data@, 1), init, acc.v2),
            folds(body, lane_quads(data@, 2), init, acc.v3),
            folds(body, lane_quads(data@, 3), init, acc.v4),
        decreases chunks - c,
    {
        let n1 = body(acc.v1, load_quad(data, c));
        proof {
            lemma_folds_take_step(body, l0, init, acc.v1, unrolled + (c - 4 * unrolled), n1);
        }
        acc = SimdAccum4 { v1: n1, v2: acc.v2, v3: acc.v3, v4: acc.v4 };
        c = c + 1;
    }
    proof {
        assert(l0.take(l0.len() as int) =~= l0);
    }
    let folded = reduce(acc);
    let result = fold_tail(data, folded, &scalar);
    proof {
        let lanes = lanes_of(data@);
        assert(folds(body, lanes.v1, init, acc.v1) && folds(body, lanes.v2, init, acc.v2) && folds(
            body,
            lanes.v3,
            init,
            acc.v3,
        ) && folds(body, lanes.v4, init, acc.v4) && reduce.ensures((acc,), folded) && folds(
            scalar,
            tail(data@),
            folded,
            result,
        ));
    }
    result
}

/// Walks a sample with one state: `unrolled` sees each whole block, `chunk`
/// each spare chunk, `scalar` each element of the tail, in that order.
pub fn for_each_unrolled4<
    T: Copy,
    S,
    U: Fn(S, Block<T>) -> S,
    C: Fn(S, Quad<T>) -> S,
    L: Fn(S, T) -> S,
>(data: &[T], state: S, unrolled: U, chunk: C, scalar: L) -> (out: S)
    requires
        forall|s: S, b: Block<T>| unrolled.requires((s, b)),
        forall|s: S, q: Quad<T>| chunk.requires((s, q)),
        forall|s: S, t: T| scalar.requires((s, t)),
    ensures
        walks_to(
            unrolled,
            chunk,
            scalar,
            blocks(data@),
            spare_quads(data@),
            tail(data@),
            state,
            out,
        ),
{
    let len = data.len();
    let chunks = len / 4;
    let whole = chunks / 4;
    let ghost bs = blocks(data@);
    let ghost qs = spare_quads(data@);
    let mut acc = state;
    let mut i: usize = 0;
    assert(bs.take(0) =~= Seq::<Block<T>>::empty());
    while i < whole
        invariant
            len == data.len(),
            chunks == len / 4,
            whole == chunks / 4,
            bs == blocks(data@),
            i <= whole,
            forall|s: S, b: Block<T>| unrolled.requires((s, b)),
            folds(unrolled, bs.take(i as int), state, acc),
        decreases whole - i,
    {
        let next = unrolled(acc, load_block(data, i));
        proof {
            lemma_folds_take_step(unrolled, bs, state, acc, i as int, next);
        }
        acc = next;
        i = i + 1;
    }
    assert(bs.take(bs.len() as int) =~= bs);
    let ghost s1 = acc;
    let mut c: usize = whole * 4;
    assert(qs.take(0) =~= Seq::<Quad<T>>::empty());
    while c < chunks
        invariant
            len == data.len(),
            chunks == len / 4,
            whole == chunks / 4,
            qs == spare_quads(data@),
            4 * whole <= c <= chunks,
            forall|s: S, q: Quad<T>| chunk.requires((s, q)),
            folds(chunk, qs.take(c - 4 * whole), s1, acc),
        decreases chunks - c,
    {
        let next = chunk(acc, load_quad(data, c));
        proof {
            lemma_folds_take_step(chunk, qs, s1, acc, c - 4 * whole, next);
        }
        acc = next;
        c = c + 1;
    }
    assert(qs.take(qs.len() as int) =~= qs);
    let ghost s2 = acc;
    let out = fold_tail(data, acc, &scalar);
    proof {
        assert(folds(unrolled, blocks(data@), state, s1) && folds(chunk, spare_quads(data@), s1, s2)
            && folds(scalar, tail(data@), s2, out));
    }
    out
}

/// Folds the scalar tails of two samples of equal length into `state`, pair
/// by pair.
fn fold_tail_zip<T: Copy, S, L: Fn(S, (T, T)) -> S>(x: &[T], y: &[T], state: S, scalar: &L) -> (out:
    S)
    requires
        x.len() == y.len(),
        forall|s: S, t: (T, T)| scalar.requires((s, t)),
    ensures
        folds(*scalar, paired(tail(x@), tail(y@)), state, out),
{
    let len = x.len();
    let start = (len / 4) * 4;
    let ghost items = paired(tail(x@), tail(y@));
    let mut acc = state;
    let mut i: usize = start;
    assert(items.take(0) =~= Seq::<(T, T)>::empty());
    while i < len
        invariant
            start == 4 * (len / 4),
            len == x.len(),
            len == y.len(),
            items == paired(tail(x@), tail(y@)),
            start <= i <= len,
            forall|s: S, t: (T, T)| scalar.requires((s, t)),
            folds(*scalar, items.take(i - start), state, acc),
        decreases len - i,
    {
        let next = scalar(acc, (x[i], y[i]));
        proof {
            lemma_folds_take_step(*scalar, items, state, acc, i - start, next);
        }
        acc = next;
        i = i + 1;
    }
    assert(items.take(items.len() as int) =~= items);
    acc
}

/// As `simd_reduce`, for two samples of equal length walked in step: every
/// closure sees the chunk (or element) of `x` together with the one of `y` at
/// the same place.
pub fn simd_reduce_zip<
    T: Copy,
    V: Copy,
    R,
    B: Fn(V, (Quad<T>, Quad<T>)) -> V,
    G: Fn(SimdAccum4<V>) -> R,
    L: Fn(R, (T, T)) -> R,
>(x: &[T], y: &[T], init: V, body: B, reduce: G, scalar: L) -> (result: R)
    requires
        x.len() == y.len(),
        forall|acc: V, q: (Quad<T>, Quad<T>)| body.requires((acc, q)),
        forall|acc: SimdAccum4<V>| reduce.requires((acc,)),
        forall|r: R, t: (T, T)| scalar.requires((r, t)),
    ensures
        reduces_to(
            body,
            reduce,
            scalar,
            lanes_of_zip(x@, y@),
            paired(tail(x@), tail(y@)),
            init,
            result,
        ),
{
    let len = x.len();
    let chunks = len / 4;
    let unrolled = chunks / 4;
    let ghost l0 = paired(lane_quads(x@, 0), lane_quads(y@, 0));
    let ghost l1 = paired(lane_quads(x@, 1), lane_quads(y@, 1));
    let ghost l2 = paired(lane_quads(x@, 2), lane_quads(y@, 2));
    let ghost l3 = paired(lane_quads(x@, 3), lane_quads(y@, 3));
    let mut acc = SimdAccum4::new(init);
    let mut i: usize = 0;
    proof {
        assert(l0.take(0) =~= Seq::<(Quad<T>, Quad<T>)>::empty());
        assert(l1.take(0) =~= Seq::<(Quad<T>, Quad<T>)>::empty());
        assert(l2.take(0) =~= Seq::<(Quad<T>, Quad<T>)>::empty());
        assert(l3.take(0) =~= Seq::<(Quad<T>, Quad<T>)>::empty());
    }
    while i < unrolled
        invariant
            len == x.len(),
            len == y.len(),
            chunks == len / 4,
            unrolled == chunks / 4,
            l0 == paired(lane_quads(x@, 0), lane_quads(y@, 0)),
            l1 == paired(lane_quads(x@, 1), lane_quads(y@, 1)),
            l2 == paired(lane_quads(x@, 2), lane_quads(y@, 2)),
            l3 == paired(lane_quads(x@, 3), lane_quads(y@, 3)),
            i <= unrolled,
            forall|a: V, q: (Quad<T>, Quad<T>)| body.requires((a, q)),
            folds(body, l0.take(i as int), init, acc.v1),
            folds(body, l1.take(i as int), init, acc.v2),
            folds(body, l2.take(i as int), init, acc.v3),
            folds(body, l3.take(i as int), init, acc.v4),
        decreases unrolled - i,
    {
        let n1 = body(acc.v1, (load_quad(x, 4 * i), load_quad(y, 4 * i)));
        let n2 = body(acc.v2, (load_quad(x, 4 * i + 1), load_quad(y, 4 * i + 1)));
        let n3 = body(acc.v3, (load_quad(x, 4 * i + 2), load_quad(y, 4 * i + 2)));
        let n4 = body(acc.v4, (load_quad(x, 4 * i + 3), load_quad(y, 4 * i + 3)));
        proof {
            lemma_folds_take_step(body, l0, init, acc.v1, i as int, n1);
            lemma_folds_take_step(body, l1, init, acc.v2, i as int, n2);
            lemma_folds_take_step(body, l2, init, acc.v3, i as int, n3);
            lemma_folds_take_step(body, l3, init, acc.v4, i as int, n4);
        }
        acc = SimdAccum4 { v1: n1, v2: n2, v3: n3, v4: n4 };
        i = i + 1;
    }
    proof {
        assert(l1.take(l1.len() as int) =~= l1);
        assert(l2.take(l2.len() as int) =~= l2);
        assert(l3.take(l3.len() as int) =~= l3);
    }
    let mut c: usize = unrolled * 4;
    while c < chunks
        invariant
            len == x.len(),
            len == y.len(),
            chunks == len / 4,
            unrolled == chunks / 4,
            l0 == paired(lane_quads(x@, 0), lane_quads(y@, 0)),
            4 * unrolled <= c <= chunks,
            forall|a: V, q: (Quad<T>, Quad<T>)| body.requires((a, q)),
            folds(body, l0.take(unrolled + (c - 4 * unrolled)), init, acc.v1),
            folds(body, paired(lane_quads(x@, 1), lane_quads(y@, 1)), init, acc.v2),
            folds(body, paired(lane_quads(x@, 2), lane_quads(y@, 2)), init, acc.v3),
            folds(body, paired(lane_quads(x@, 3), lane_quads(y@, 3)), init, acc.v4),
        decreases chunks - c,
    {
        let n1 = body(acc.v1, (load_quad(x, c), load_quad(y, c)));
        proof {
            lemma_folds_take_step(body, l0, init, acc.v1, unrolled + (c - 4 * unrolled), n1);
        }
        acc = SimdAccum4 { v1: n1, v2: acc.v2, v3: acc.v3, v4: acc.v4 };
        c = c + 1;
    }
    proof {
        assert(l0.take(l0.len() as int) =~= l0);
    }
    let folded = reduce(acc);
    let result = fold_tail_zip(x, y, folded, &scalar);
    proof {
        let lanes = lanes_of_zip(x@, y@);
        assert(folds(body, lanes.v1, init, acc.v1) && folds(body, lanes.v2, init, acc.v2) && folds(
            body,
            lanes.v3,
            init,
            acc.v3,
        ) && folds(body, lanes.v4, init, acc.v4) && reduce.ensures((acc,), folded) && folds(
            scalar,
            paired(tail(x@), tail(y@)),
            folded,
            result,
        ));
    }
    result
}

/// As `for_each_unrolled4`, for two samples of equal length walked in step.
pub fn for_each_unrolled4_zip<
    T: Copy,
    S,
    U: Fn(S, (Block<T>, Block<T>)) -> S,
    C: Fn(S, (Quad<T>, Quad<T>)) -> S,
    L: Fn(S, (T, T)) -> S,
>(x: &[T], y: &[T], state: S, unrolled: U, chunk: C, scalar: L) -> (out: S)
    requires
        x.len() == y.len(),
        forall|s: S, b: (Block<T>, Block<T>)| unrolled.requires((s, b)),
        forall|s: S, q: (Quad<T>, Quad<T>)| chunk.requires((s, q)),
        forall|s: S, t: (T, T)| scalar.requires((s, t)),
    ensures
        walks_to(
            unrolled,
            chunk,
            scalar,
            paired(blocks(x@), blocks(y@)),
            paired(spare_quads(x@), spare_quads(y@)),
            paired(tail(x@), tail(y@)),
            state,
            out,
        ),
{
    let len = x.len();
    let chunks = len / 4;
    let whole = chunks / 4;
    let ghost bs = paired(blocks(x@), blocks(y@));
    let ghost qs = paired(spare_quads(x@), spare_quads(y@));
    let mut acc = state;
    let mut i: usize = 0;
    assert(bs.take(0) =~= Seq::<(Block<T>, Block<T>)>::empty());
    while i < whole
        invariant
            len == x.len(),
            len == y.len(),
            chunks == len / 4,
            whole == chunks / 4,
            bs == paired(blocks(x@), blocks(y@)),
            i <= whole,
            forall|s: S, b: (Block<T>, Block<T>)| unrolled.requires((s, b)),
            folds(unrolled, bs.take(i as int), state, acc),
        decreases whole - i,
    {
        let next = unrolled(acc, (load_block(x, i), load_block(y, i)));
        proof {
            lemma_folds_take_step(unrolled, bs, state, acc, i as int, next);
        }
        acc = next;
        i = i + 1;
    }
    assert(bs.take(bs.len() as int) =~= bs);
    let ghost s1 = acc;
    let mut c: usize = whole * 4;
    assert(qs.take(0) =~= Seq::<(Quad<T>, Quad<T>)>::empty());
    while c < chunks
        invariant
            len == x.len(),
            len == y.len(),
            chunks == len / 4,
            whole == chunks / 4,
            qs == paired(spare_quads(x@), spare_quads(y@)),
            4 * whole <= c <= chunks,
            forall|s: S, q: (Quad<T>, Quad<T>)| chunk.requires((s, q)),
            folds(chunk, qs.take(c - 4 * whole), s1, acc),
        decreases chunks - c,
    {
        let next = chunk(acc, (load_quad(x, c), load_quad(y, c)));
        proof {
            lemma_folds_take_step(chunk, qs, s1, acc, c - 4 * whole, next);
        }
        acc = next;
        c = c + 1;
    }
    assert(qs.take(qs.len() as int) =~= qs);
    let ghost s2 = acc;
    let out = fold_tail_zip(x, y, acc, &scalar);
    proof {
        assert(folds(unrolled, paired(blocks(x@), blocks(y@)), state, s1) && folds(
            chunk,
            paired(spare_quads(x@), spare_quads(y@)),
            s1,
            s2,
        ) && folds(scalar, paired(tail(x@), tail(y@)), s2, out));
    }
    out
}

} // verus!
