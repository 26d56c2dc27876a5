//! Binning rules and the tallying of observations into bins.

use vstd::prelude::*;

verus! {

/// Binning rule for automatic binning strategies.
#[derive(Clone, Copy, Debug, PartialEq, Eq, Structural)]
pub enum BinningRule {
    /// Freedman-Diaconis rule: bin width from the interquartile range.
    FreedmanDiaconis,
    /// Scott's rule: bin width from the standard deviation.
    Scott,
    /// Square root rule: as many bins as the square root of the sample size,
    /// rounded up.
    SqrtN,
}

/// The largest number of bins that a width-based rule may ask for.
pub const MAX_AUTO_BINS: usize = 2048;

/// The number of bins used where the caller asks for zero.
pub const DEFAULT_BINS: usize = 4;

/// The rule that a numeric code stands for: 0 is Freedman-Diaconis, 1 is
/// Scott, 2 is the square root rule, and every other code falls back to
/// Freedman-Diaconis.
pub open spec fn rule_of_code(code: usize) -> BinningRule {
    if code == 1 {
        BinningRule::Scott
    } else if code == 2 {
        BinningRule::SqrtN
    } else {
        BinningRule::FreedmanDiaconis
    }
}

/// The number of bins that automatic binning settles on.
///
/// `sqrt_bins` is the square-root count of the sample and `width_bins` the
/// count that the rule's own bin width gives, where the rule has a usable
/// width. An override always wins. Without one, the square root rule takes
/// `sqrt_bins`; the width-based rules take `width_bins` held to
/// `1..=MAX_AUTO_BINS`, or `sqrt_bins` where there is no usable width. A
/// count that was computed is never zero.
pub open spec fn resolved_bins(
    rule: BinningRule,
    bins_override: Option<usize>,
    sqrt_bins: usize,
    width_bins: Option<usize>,
) -> usize {
    let fallback = if sqrt_bins == 0 {
        1usize
    } else {
        sqrt_bins
    };
    match bins_override {
        Some(bins) => bins,
        None => match (rule, width_bins) {
            (BinningRule::SqrtN, _) => fallback,
            (_, None) => fallback,
            (_, Some(w)) => if w == 0 {
                1usize
            } else if w > MAX_AUTO_BINS {
                MAX_AUTO_BINS
            } else {
                w
            },
        },
    }
}

impl BinningRule {
    /// Decodes a rule from its numeric code.
    pub fn from_code(code: usize) -> (rule: BinningRule)
        ensures
            rule == rule_of_code(code),
    {
        if code == 1 {
            BinningRule::Scott
        } else if code == 2 {
            BinningRule::SqrtN
        } else {
            BinningRule::FreedmanDiaconis
        }
    }

    /// Whether the rule derives its bin count from a bin width (and so from a
    /// measure of spread) rather than from the sample size alone.
    pub fn is_width_based(self) -> (yes: bool)
        ensures
            yes == (self != BinningRule::SqrtN),
    {
        match self {
            BinningRule::SqrtN => false,
            _ => true,
        }
    }

    /// Settles the number of bins for this rule; see `resolved_bins`.
    pub fn bin_count(
        self,
        bins_override: Option<usize>,
        sqrt_bins: usize,
        width_bins: Option<usize>,
    ) -> (bins: usize)
        ensures
            bins == resolved_bins(self, bins_override, sqrt_bins, width_bins),
            bins_override.is_none() ==> 1 <= bins,
            bins_override.is_none() && width_bins.is_some() && self != BinningRule::SqrtN ==> bins
                <= MAX_AUTO_BINS,
    {
        let fallback = if sqrt_bins == 0 {
            1
        } else {
            sqrt_bins
        };
        match bins_override {
            Some(bins) => bins,
            None => {
                if !self.is_width_based() {
                    fallback
                } else {
                    match width_bins {
                        None => fallback,
                        Some(w) => if w == 0 {
                            1
                        } else if w > MAX_AUTO_BINS {
                            MAX_AUTO_BINS
                        } else {
                            w
                        },
                    }
                }
            },
        }
    }
}

/// The number of bins that `histogram` uses for a requested `bin_count`.
pub open spec fn effective_bins(bin_count: usize) -> int {
    if bin_count == 0 {
        DEFAULT_BINS as int
    } else {
        bin_count as int
    }
}

/// The bin that an observation at `position` lands in: its position, held to
/// the last bin.
pub open spec fn clamped_bin(position: usize, bins: int) -> int {
    if position < bins - 1 {
        position as int
    } else {
        bins - 1
    }
}

/// How many of `positions` land in bin `bin`.
pub open spec fn tally(positions: Seq<usize>, bins: int, bin: int) -> nat
    decreases positions.len(),
{
    if positions.len() == 0 {
        0
    } else {
        tally(positions.drop_last(), bins, bin) + if clamped_bin(positions.last(), bins) == bin {
            1nat
        } else {
            0nat
        }
    }
}

/// The sum of the tallies of bins `0..upto`.
pub open spec fn tally_below(positions: Seq<usize>, bins: int, upto: int) -> nat
    decreases upto,
{
    if upto <= 0 {
        0
    } else {
        tally_below(positions, bins, upto - 1) + tally(positions, bins, upto - 1)
    }
}

/// No bin holds more observations than there are.
pub proof fn lemma_tally_bounded(positions: Seq<usize>, bins: int, bin: int)
    ensures
        tally(positions, bins, bin) <= positions.len(),
    decreases positions.len(),
{
    if positions.len() > 0 {
        lemma_tally_bounded(positions.drop_last(), bins, bin);
    }
}

/// Every observation lands in exactly one bin: over all bins the tallies add
/// up to the number of observations.
pub proof fn lemma_tally_total(positions: Seq<usize>, bins: int)
    requires
        bins >= 1,
    ensures
        tally_below(positions, bins, bins) == positions.len(),
    decreases positions.len(),
{
    if positions.len() == 0 {
        lemma_tally_below_empty(positions, bins, bins);
    } else {
        lemma_tally_total(positions.drop_last(), bins);
        lemma_tally_below_step(positions, bins, bins);
    }
}

proof fn lemma_tally_below_empty(positions: Seq<usize>, bins: int, upto: int)
    requires
        positions.len() == 0,
    ensures
        tally_below(positions, bins, upto) == 0,
    decreases upto,
{
    if upto > 0 {
        lemma_tally_below_empty(positions, bins, upto - 1);
    }
}

proof fn lemma_tally_below_step(positions: Seq<usize>, bins: int, upto: int)
    requires
        positions.len() > 0,
        bins >= 1,
        0 <= upto <= bins,
    ensures
        tally_below(positions, bins, upto) == tally_below(positions.drop_last(), bins, upto) + if clamped_bin(
            positions.last(),
            bins,
        ) < upto {
            1nat
        } else {
            0nat
        },
    decreases upto,
{
    if upto > 0 {
        lemma_tally_below_step(positions, bins, upto - 1);
    }
}

/// Counts, for each bin, the observations that land in it. `positions[k]` is
/// the bin position computed for observation `k`; positions past the last
/// bin are held to the last bin. A `bin_count` of zero stands for
/// `DEFAULT_BINS` bins.
pub fn histogram(positions: &[usize], bin_count: usize) -> (counts: Vec<usize>)
    ensures
        counts.len() == effective_bins(bin_count),
        forall|b: int|
            0 <= b < counts.len() ==> #[trigger] counts[b] == tally(
                positions@,
                effective_bins(bin_count),
                b,
            ),
{
    let bins = if bin_count == 0 {
        DEFAULT_BINS
    } else {
        bin_count
    };
    let last_bin = bins - 1;
    let mut counts: Vec<usize> = Vec::new();
    let mut b: usize = 0;
    while b < bins
        invariant
            b <= bins,
            counts.len() == b,
            forall|j: int| 0 <= j < b ==> #[trigger] counts[j] == 0,
        decreases bins - b,
    {
        counts.push(0);
        b = b + 1;
    }
    let mut i: usize = 0;
    assert(positions@.take(0) =~= Seq::<usize>::empty());
    while i < positions.len()
        invariant
            bins == effective_bins(bin_count),
            last_bin == bins - 1,
            i <= positions.len(),
            counts.len() == bins,
            forall|j: int|
                0 <= j < bins ==> #[trigger] counts[j] == tally(positions@.take(i as int), bins as int, j),
        decreases positions.len() - i,
    {
        let position = positions[i];
        let bin = if position < last_bin {
            position
        } else {
            last_bin
        };
        proof {
            lemma_tally_bounded(positions@.take(i as int), bins as int, bin as int);
            assert(positions@.take(i + 1).drop_last() =~= positions@.take(i as int));
        }
        let count = counts[bin];
        counts[bin] = count + 1;
        i = i + 1;
    }
    assert(positions@.take(positions.len() as int) =~= positions@);
    counts
}

/// Whether the edges never decrease.
pub open spec fn non_decreasing(edges: Seq<i64>) -> bool {
    forall|i: int, j: int| 0 <= i <= j < edges.len() ==> edges[i] <= edges[j]
}

/// How many edges are at most `v`.
pub open spec fn count_at_most(edges: Seq<i64>, v: i64) -> nat
    decreases edges.len(),
{
    if edges.len() == 0 {
        0
    } else {
        count_at_most(edges.drop_last(), v) + if edges.last() <= v {
            1nat
        } else {
            0nat
        }
    }
}

/// The bin of an observation with key `v`, for at least two edges.
///
/// Bin `i` runs from edge `i` (included) to edge `i + 1` (excluded); the
/// last bin also holds its upper edge. An observation on an edge that occurs
/// more than once goes to the bin that starts at the last such edge. Outside
/// the edges an observation has no bin, unless `clamp` is set: then what lies
/// at or below the first edge goes to the first bin, and what lies at or
/// above the last edge to the last bin.
pub open spec fn edge_bin(edges: Seq<i64>, v: i64, clamp: bool) -> Option<int> {
    let last_bin = edges.len() - 2;
    if clamp && v <= edges[0] {
        Some(0)
    } else if clamp && v >= edges[edges.len() - 1] {
        Some(last_bin)
    } else if v < edges[0] || v > edges[edges.len() - 1] {
        None
    } else {
        let at = count_at_most(edges, v) - 1;
        Some(
            if at < last_bin {
                at
            } else {
                last_bin
            },
        )
    }
}

/// How many observations of `data` have `bin` as their bin.
pub open spec fn bin_tally(data: Seq<i64>, edges: Seq<i64>, clamp: bool, bin: int) -> nat
    decreases data.len(),
{
    if data.len() == 0 {
        0
    } else {
        bin_tally(data.drop_last(), edges, clamp, bin) + if edge_bin(edges, data.last(), clamp)
            == Some(bin) {
            1nat
        } else {
            0nat
        }
    }
}

/// What the edge histograms return: nothing for fewer than two edges or for
/// edges that decrease somewhere, and else one count per bin.
pub open spec fn edge_counts(data: Seq<i64>, edges: Seq<i64>, clamp: bool, counts: Seq<usize>) -> bool {
    if edges.len() < 2 || !non_decreasing(edges) {
        counts.len() == 0
    } else {
        &&& counts.len() == edges.len() - 1
        &&& forall|b: int|
            0 <= b < counts.len() ==> #[trigger] counts[b] == bin_tally(data, edges, clamp, b)
    }
}

/// No bin holds more observations than there are.
pub proof fn lemma_bin_tally_bounded(data: Seq<i64>, edges: Seq<i64>, clamp: bool, bin: int)
    ensures
        bin_tally(data, edges, clamp, bin) <= data.len(),
    decreases data.len(),
{
    if data.len() > 0 {
        lemma_bin_tally_bounded(data.drop_last(), edges, clamp, bin);
    }
}

/// With sorted edges, the edges at most `v` are exactly those before the
/// first edge above `v`.
proof fn lemma_count_at_most_sorted(edges: Seq<i64>, v: i64, split: int, n: int)
    requires
        0 <= split <= edges.len(),
        0 <= n <= edges.len(),
        forall|k: int| 0 <= k < split ==> #[trigger] edges[k] <= v,
        forall|k: int| split <= k < edges.len() ==> #[trigger] edges[k] > v,
    ensures
        count_at_most(edges.take(n), v) == if n <= split {
            n
        } else {
            split
        },
    decreases n,
{
    if n > 0 {
        lemma_count_at_most_sorted(edges, v, split, n - 1);
        assert(edges.take(n).drop_last() =~= edges.take(n - 1));
        assert(edges.take(n).last() == edges[n - 1]);
    }
}

/// Every bin of an observation is a bin of the histogram, and with clamping
/// every observation has one.
pub proof fn lemma_edge_bin_in_range(edges: Seq<i64>, v: i64, clamp: bool)
    requires
        edges.len() >= 2,
    ensures
        edge_bin(edges, v, clamp) matches Some(bin) ==> 0 <= bin < edges.len() - 1,
        clamp && edges[0] <= edges[edges.len() - 1] ==> edge_bin(edges, v, clamp).is_some(),
        !clamp ==> (edge_bin(edges, v, clamp).is_some() <==> edges[0] <= v <= edges[edges.len()
            - 1]),
{
    if edges[0] <= v {
        lemma_first_edge_counts(edges, v, edges.len() as int);
        assert(edges.take(edges.len() as int) =~= edges);
    }
}

proof fn lemma_first_edge_counts(edges: Seq<i64>, v: i64, n: int)
    requires
        1 <= n <= edges.len(),
        edges[0] <= v,
    ensures
        count_at_most(edges.take(n), v) >= 1,
    decreases n,
{
    assert(edges.take(n).drop_last() =~= edges.take(n - 1));
    if n > 1 {
        lemma_first_edge_counts(edges, v, n - 1);
    } else {
        assert(edges.take(1).last() == edges[0]);
    }
    if n == edges.len() {
        assert(edges.take(n) =~= edges);
    }
}

/// Whether the edges are sorted in non-decreasing order.
pub fn edges_valid(edges: &[i64]) -> (valid: bool)
    ensures
        valid == non_decreasing(edges@),
{
    if edges.len() < 2 {
        return true;
    }
    let mut i: usize = 1;
    while i < edges.len()
        invariant
            1 <= i <= edges.len(),
            forall|a: int, b: int| 0 <= a <= b < i ==> edges@[a] <= edges@[b],
        decreases edges.len() - i,
    {
        if edges[i - 1] > edges[i] {
            return false;
        }
        i = i + 1;
    }
    true
}

/// The number of edges that are at most `v`, found by bisection.
fn edges_at_most(edges: &[i64], v: i64) -> (n: usize)
    requires
        non_decreasing(edges@),
    ensures
        n == count_at_most(edges@, v),
        n <= edges.len(),
{
    let mut lo: usize = 0;
    let mut hi: usize = edges.len();
    while lo < hi
        invariant
            lo <= hi <= edges.len(),
            non_decreasing(edges@),
            forall|k: int| 0 <= k < lo ==> #[trigger] edges@[k] <= v,
            forall|k: int| hi <= k < edges.len() ==> #[trigger] edges@[k] > v,
        decreases hi - lo,
    {
        let mid = lo + (hi - lo) / 2;
        if edges[mid] <= v {
            lo = mid + 1;
        } else {
            hi = mid;
        }
    }
    proof {
        lemma_count_at_most_sorted(edges@, v, lo as int, edges.len() as int);
        assert(edges@.take(edges.len() as int) =~= edges@);
    }
    lo
}

/// The bin of one observation; see `edge_bin`.
fn locate(edges: &[i64], v: i64, clamp: bool) -> (bin: Option<usize>)
    requires
        edges.len() >= 2,
        non_decreasing(edges@),
    ensures
        match bin {
            Some(b) => edge_bin(edges@, v, clamp) == Some(b as int) && b < edges.len() - 1,
            None => edge_bin(edges@, v, clamp).is_none(),
        },
{
    let last_bin = edges.len() - 2;
    let first = edges[0];
    let last = edges[edges.len() - 1];
    if clamp && v <= first {
        return Some(0);
    }
    if clamp && v >= last {
        return Some(last_bin);
    }
    if v < first || v > last {
        return None;
    }
    let n = edges_at_most(edges, v);
    proof {
        lemma_edge_bin_in_range(edges@, v, clamp);
    }
    let at = n - 1;
    if at < last_bin {
        Some(at)
    } else {
        Some(last_bin)
    }
}

/// Tallies the observations into the bins that `edges` bound.
fn tally_by_edges(data: &[i64], edges: &[i64], clamp: bool) -> (counts: Vec<usize>)
    ensures
        edge_counts(data@, edges@, clamp, counts@),
{
    if edges.len() < 2 {
        return Vec::new();
    }
    if !edges_valid(edges) {
        return Vec::new();
    }
    let bins = edges.len() - 1;
    let mut counts: Vec<usize> = Vec::with_capacity(bins);
    let mut b: usize = 0;
    while b < bins
        invariant
            b <= bins,
            counts.len() == b,
            forall|j: int| 0 <= j < b ==> #[trigger] counts[j] == 0,
        decreases bins - b,
    {
        counts.push(0);
        b = b + 1;
    }
    let mut i: usize = 0;
    assert(data@.take(0) =~= Seq::<i64>::empty());
    while i < data.len()
        invariant
            edges.len() >= 2,
            non_decreasing(edges@),
            bins == edges.len() - 1,
            i <= data.len(),
            counts.len() == bins,
            forall|j: int|
                0 <= j < bins ==> #[trigger] counts[j] == bin_tally(
                    data@.take(i as int),
                    edges@,
                    clamp,
                    j,
                ),
        decreases data.len() - i,
    {
        let place = locate(edges, data[i], clamp);
        proof {
            assert(data@.take(i + 1).drop_last() =~= data@.take(i as int));
        }
        match place {
            Some(bin) => {
                proof {
                    lemma_bin_tally_bounded(data@.take(i as int), edges@, clamp, bin as int);
                }
                let count = counts[bin];
                counts[bin] = count + 1;
            },
            None => {},
        }
        i = i + 1;
    }
    assert(data@.take(data.len() as int) =~= data@);
    counts
}

/// Calculates a histogram with custom bin edges. Observations outside the
/// range of the edges are not counted. Fewer than two edges, or edges that
/// are not sorted, give an empty result.
pub fn histogram_edges(data: &[i64], edges: &[i64]) -> (counts: Vec<usize>)
    ensures
        edge_counts(data@, edges@, false, counts@),
{
    tally_by_edges(data, edges, false)
}

/// Calculates a histogram with custom bin edges, clamping observations
/// outside the range: what lies at or below the first edge is counted in the
/// first bin, what lies at or above the last edge in the last bin.
pub fn histogram_edges_clamped(data: &[i64], edges: &[i64]) -> (counts: Vec<usize>)
    ensures
        edge_counts(data@, edges@, true, counts@),
{
    tally_by_edges(data, edges, true)
}

} // verus!
