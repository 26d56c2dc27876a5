//! Address-range reasoning for in-place residual buffers.

use crate::driver::load_quad;
use crate::lanes::{chunk_count, quad_at, tail_start, Quad};
use vstd::prelude::*;

verus! {

/// Writes the four elements of `q` over chunk `c` of `out`.
fn store_quad<T: Copy>(out: &mut [T], c: usize, q: Quad<T>)
    requires
        4 * c + 3 < old(out).len(),
    ensures
        final(out).len() == old(out).len(),
        quad_at(final(out)@, c as int) == q,
        forall|i: int|
            0 <= i < old(out).len() && !(4 * c <= i < 4 * c + 4) ==> final(out)@[i] == old(out)@[i],
{
    out[4 * c] = q.e0;
    out[4 * c + 1] = q.e1;
    out[4 * c + 2] = q.e2;
    out[4 * c + 3] = q.e3;
}

/// `out` holds what the two kernels make of `x` and `y`: every whole chunk of
/// `out` is a result of `vector` on the chunks of `x` and `y` at its place,
/// and every element of the tail a result of `scalar` on the elements at its
/// place.
pub open spec fn filled<T, K: Fn(Quad<T>, Quad<T>) -> Quad<T>, L: Fn(T, T) -> T>(
    vector: K,
    scalar: L,
    x: Seq<T>,
    y: Seq<T>,
    out: Seq<T>,
) -> bool {
    &&& out.len() == x.len()
    &&& forall|c: int|
        0 <= c < chunk_count(x.len() as int) ==> vector.ensures(
            (quad_at(x, c), quad_at(y, c)),
            #[trigger] quad_at(out, c),
        )
    &&& forall|i: int|
        tail_start(x.len() as int) <= i < x.len() ==> scalar.ensures((x[i], y[i]), #[trigger] out[i])
}

/// Where the vector kernel computes `fv` on each of its four lanes and the
/// scalar kernel computes `fs`, every place of the output holds the value of
/// the pair at the same place: `fv` of it inside the chunks, `fs` of it in
/// the tail.
pub proof fn lemma_filled_place_by_place<T, K: Fn(Quad<T>, Quad<T>) -> Quad<T>, L: Fn(T, T) -> T>(
    vector: K,
    scalar: L,
    fv: spec_fn(T, T) -> T,
    fs: spec_fn(T, T) -> T,
    x: Seq<T>,
    y: Seq<T>,
    out: Seq<T>,
    i: int,
)
    requires
        filled(vector, scalar, x, y, out),
        forall|a: Quad<T>, b: Quad<T>, o: Quad<T>|
            vector.ensures((a, b), o) ==> o == (Quad {
                e0: fv(a.e0, b.e0),
                e1: fv(a.e1, b.e1),
                e2: fv(a.e2, b.e2),
                e3: fv(a.e3, b.e3),
            }),
        forall|a: T, b: T, o: T| scalar.ensures((a, b), o) ==> o == fs(a, b),
        0 <= i < x.len(),
    ensures
        out[i] == if i < tail_start(x.len() as int) {
            fv(x[i], y[i])
        } else {
            fs(x[i], y[i])
        },
{
    if i < tail_start(x.len() as int) {
        let c = i / 4;
        assert(vector.ensures((quad_at(x, c), quad_at(y, c)), quad_at(out, c)));
    }
}

/// Fills `out` from two samples, chunk by chunk where whole chunks exist and
/// element by element in the tail: `vector` maps a chunk of `x` and the
/// chunk of `y` at the same place to the chunk of `out`, `scalar` does the
/// same for single elements. With `vector` and `scalar` computing
/// `y - (slope * x + intercept)` this materialises the residuals of a fit.
///
/// `out` is borrowed mutably, so it cannot share memory with `x` or `y`.
pub fn residuals_into<T: Copy, K: Fn(Quad<T>, Quad<T>) -> Quad<T>, L: Fn(T, T) -> T>(
    out: &mut [T],
    x: &[T],
    y: &[T],
    vector: K,
    scalar: L,
)
    requires
        old(out).len() == x.len(),
        x.len() == y.len(),
        forall|a: Quad<T>, b: Quad<T>| vector.requires((a, b)),
        forall|a: T, b: T| scalar.requires((a, b)),
    ensures
        filled(vector, scalar, x@, y@, final(out)@),
{
    let len = x.len();
    let chunks = len / 4;
    let unrolled = chunks / 4;
    let mut b: usize = 0;
    while b < unrolled
        invariant
            len == x.len(),
            len == y.len(),
            len == out.len(),
            chunks == len / 4,
            unrolled == chunks / 4,
            b <= unrolled,
            forall|a: Quad<T>, b: Quad<T>| vector.requires((a, b)),
            forall|c: int|
                0 <= c < 4 * b ==> vector.ensures(
                    (quad_at(x@, c), quad_at(y@, c)),
                    #[trigger] quad_at(out@, c),
                ),
        decreases unrolled - b,
    {
        let mut k: usize = 0;
        while k < 4
            invariant
                len == x.len(),
                len == y.len(),
                len == out.len(),
                chunks == len / 4,
                unrolled == chunks / 4,
                b < unrolled,
                k <= 4,
                forall|a: Quad<T>, b: Quad<T>| vector.requires((a, b)),
                forall|c: int|
                    0 <= c < 4 * b + k ==> vector.ensures(
                        (quad_at(x@, c), quad_at(y@, c)),
                        #[trigger] quad_at(out@, c),
                    ),
            decreases 4 - k,
        {
            let c = 4 * b + k;
            let q = vector(load_quad(x, c), load_quad(y, c));
            let ghost before = out@;
            store_quad(out, c, q);
            proof {
                assert forall|d: int| 0 <= d < 4 * b + k + 1 implies vector.ensures(
                    (quad_at(x@, d), quad_at(y@, d)),
                    #[trigger] quad_at(out@, d),
                ) by {
                    if d < 4 * b + k {
                        assert(quad_at(out@, d) == quad_at(before, d));
                    }
                }
            }
            k = k + 1;
        }
        b = b + 1;
    }
    let mut c: usize = unrolled * 4;
    while c < chunks
        invariant
            len == x.len(),
            len == y.len(),
            len == out.len(),
            chunks == len / 4,
            unrolled == chunks / 4,
            4 * unrolled <= c <= chunks,
            forall|a: Quad<T>, b: Quad<T>| vector.requires((a, b)),
            forall|d: int|
                0 <= d < c ==> vector.ensures(
                    (quad_at(x@, d), quad_at(y@, d)),
                    #[trigger] quad_at(out@, d),
                ),
        decreases chunks - c,
    {
        let q = vector(load_quad(x, c), load_quad(y, c));
        let ghost before = out@;
        store_quad(out, c, q);
        proof {
            assert forall|d: int| 0 <= d < c + 1 implies vector.ensures(
                (quad_at(x@, d), quad_at(y@, d)),
                #[trigger] quad_at(out@, d),
            ) by {
                if d < c {
                    assert(quad_at(out@, d) == quad_at(before, d));
                }
            }
        }
        c = c + 1;
    }
    let mut i: usize = chunks * 4;
    while i < len
        invariant
            len == x.len(),
            len == y.len(),
            len == out.len(),
            chunks == len / 4,
            4 * chunks <= i <= len,
            forall|a: T, b: T| scalar.requires((a, b)),
            forall|d: int|
                0 <= d < chunks ==> vector.ensures(
                    (quad_at(x@, d), quad_at(y@, d)),
                    #[trigger] quad_at(out@, d),
                ),
            forall|j: int| 4 * chunks <= j < i ==> scalar.ensures((x@[j], y@[j]), #[trigger] out@[j]),
        decreases len - i,
    {
        let r = scalar(x[i], y[i]);
        let ghost before = out@;
        out[i] = r;
        proof {
            assert forall|d: int| 0 <= d < chunks implies vector.ensures(
                (quad_at(x@, d), quad_at(y@, d)),
                #[trigger] quad_at(out@, d),
            ) by {
                assert(quad_at(out@, d) == quad_at(before, d));
            }
        }
        i = i + 1;
    }
}

/// One past the last address of the half-open range that starts at `start`
/// and holds `len` bytes, reduced modulo the size of the address space.
pub open spec fn wrapped_end(start: usize, len: usize) -> int {
    if start + len > usize::MAX {
        start + len - usize::MAX - 1
    } else {
        start + len
    }
}

/// The addresses `[start, start + len)`, for a range that does not wrap.
pub open spec fn in_range(start: usize, len: usize, addr: int) -> bool {
    start <= addr < start + len
}

/// Whether the half-open ranges `[a_start, a_start + a_len)` and
/// `[b_start, b_start + b_len)` overlap. Range ends wrap around the address
/// space, as pointer arithmetic does.
pub fn ranges_overlap(a_start: usize, a_len: usize, b_start: usize, b_len: usize) -> (overlap: bool)
    ensures
        overlap == (a_start < wrapped_end(b_start, b_len) && b_start < wrapped_end(
            a_start,
            a_len,
        )),
{
    let a_end = a_start.wrapping_add(a_len);
    let b_end = b_start.wrapping_add(b_len);
    a_start < b_end && b_start < a_end
}

/// For two non-empty ranges that stay inside the address space, the overlap
/// test holds exactly when some address lies in both.
pub proof fn lemma_overlap_is_shared_address(
    a_start: usize,
    a_len: usize,
    b_start: usize,
    b_len: usize,
)
    requires
        a_len > 0,
        b_len > 0,
        a_start + a_len <= usize::MAX,
        b_start + b_len <= usize::MAX,
    ensures
        (a_start < wrapped_end(b_start, b_len) && b_start < wrapped_end(a_start, a_len)) <==> (
        exists|addr: int| in_range(a_start, a_len, addr) && in_range(b_start, b_len, addr)),
{
    if a_start < b_start + b_len && b_start < a_start + a_len {
        let addr: int = if a_start >= b_start {
            a_start as int
        } else {
            b_start as int
        };
        assert(in_range(a_start, a_len, addr) && in_range(b_start, b_len, addr));
    }
}

/// The overlap test does not depend on the order of its two ranges.
pub proof fn lemma_overlap_symmetric(a_start: usize, a_len: usize, b_start: usize, b_len: usize)
    ensures
        (a_start < wrapped_end(b_start, b_len) && b_start < wrapped_end(a_start, a_len)) == (
        b_start < wrapped_end(a_start, a_len) && a_start < wrapped_end(b_start, b_len)),
{
}

} // verus!
