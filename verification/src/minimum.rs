//! The mathematical model of the minimum finder: what it returns for a cost
//! function on the integers, and the facts about that model which the
//! executable finder and its callers rely on.

use vstd::prelude::*;

verus! {

/// Ranges narrower than this are scanned index by index.
pub const EXHAUSTIVE_LIMIT: usize = 1024;

/// Number of probe points placed in a window in each round of the adaptive search.
pub const NUM_PROBES: usize = 9;

/// `pos` is the earliest index in `[start, end)` at which `c` is smallest.
pub open spec fn is_first_min(c: spec_fn(int) -> int, start: int, end: int, pos: int) -> bool {
    &&& start <= pos < end
    &&& forall|i: int| start <= i < end ==> c(pos) <= #[trigger] c(i)
    &&& forall|i: int| start <= i < pos ==> c(pos) < #[trigger] c(i)
}

/// The earliest index in `[start, end)` at which `c` is smallest.
pub open spec fn first_min(c: spec_fn(int) -> int, start: int, end: int) -> int {
    choose|pos: int| is_first_min(c, start, end, pos)
}

/// The `k`-th probe point (counted from 0) of the window `[lo, hi)`: the window is cut in ten
/// parts of equal whole width, and the probes are the nine inner cut points.
pub open spec fn probe(lo: int, hi: int, k: int) -> int {
    lo + (k + 1) * ((hi - lo) / 10)
}

/// The cost at each probe of the window `[lo, hi)`, as a function of the probe's number.
pub open spec fn probe_costs(c: spec_fn(int) -> int, lo: int, hi: int) -> spec_fn(int) -> int {
    |k: int| c(probe(lo, hi, k))
}

/// The number of the cheapest probe of the window `[lo, hi)`, the earliest one on a tie.
pub open spec fn best_probe(c: spec_fn(int) -> int, lo: int, hi: int) -> int {
    first_min(probe_costs(c, lo, hi), 0, 9)
}

/// The lower end of the window that follows `[lo, hi)` when probe `k` has won.
pub open spec fn next_lo(lo: int, hi: int, k: int) -> int {
    if k == 0 {
        lo
    } else {
        probe(lo, hi, k - 1)
    }
}

/// The upper end of the window that follows `[lo, hi)` when probe `k` has won.
pub open spec fn next_hi(lo: int, hi: int, k: int) -> int {
    if k == 8 {
        hi
    } else {
        probe(lo, hi, k + 1)
    }
}

/// The adaptive search from the window `[lo, hi)`, with `pos` and `lastbest` the position and
/// cost that the round before has accepted. A window of nine integers or fewer ends the
/// search, and so does a round whose cheapest probe is not cheaper than `lastbest`; the
/// result is then `pos` and `lastbest`. A round that is cheaper is accepted, and the search
/// goes on in the narrower window.
pub open spec fn adaptive_min(
    c: spec_fn(int) -> int,
    lo: int,
    hi: int,
    pos: int,
    lastbest: int,
) -> (int, int)
    decreases hi - lo,
    via adaptive_min_decreases
{
    if hi - lo <= 9 {
        (pos, lastbest)
    } else {
        let k = best_probe(c, lo, hi);
        let best = c(probe(lo, hi, k));
        if best >= lastbest {
            (pos, lastbest)
        } else {
            adaptive_min(c, next_lo(lo, hi, k), next_hi(lo, hi, k), probe(lo, hi, k), best)
        }
    }
}

#[via_fn]
proof fn adaptive_min_decreases(c: spec_fn(int) -> int, lo: int, hi: int, pos: int, lastbest: int) {
    if hi - lo > 9 {
        lemma_best_probe_in_range(c, lo, hi);
        lemma_window_shrinks(lo, hi, best_probe(c, lo, hi));
    }
}

/// What the finder returns on `[start, end)`: position and cost. A range of fewer than 1024
/// integers gives its earliest minimum. A wider range is probed: the first round has no
/// round before it and is always accepted, and the adaptive search goes on from its winner.
pub open spec fn find_min(c: spec_fn(int) -> int, start: int, end: int) -> (int, int) {
    if end - start < 1024 {
        (first_min(c, start, end), c(first_min(c, start, end)))
    } else {
        let k = best_probe(c, start, end);
        adaptive_min(
            c,
            next_lo(start, end, k),
            next_hi(start, end, k),
            probe(start, end, k),
            c(probe(start, end, k)),
        )
    }
}

/// Every non-empty range has an earliest minimum.
pub proof fn lemma_first_min_exists(c: spec_fn(int) -> int, start: int, end: int)
    requires
        start < end,
    ensures
        is_first_min(c, start, end, first_min(c, start, end)),
    decreases end - start,
{
    if end - start == 1 {
        assert(is_first_min(c, start, end, start));
    } else {
        lemma_first_min_exists(c, start, end - 1);
        let p = first_min(c, start, end - 1);
        if c(end - 1) < c(p) {
            assert(is_first_min(c, start, end, end - 1));
        } else {
            assert(is_first_min(c, start, end, p));
        }
    }
}

/// The earliest minimum of a range is unique.
pub proof fn lemma_first_min_unique(c: spec_fn(int) -> int, start: int, end: int, pos: int)
    requires
        is_first_min(c, start, end, pos),
    ensures
        first_min(c, start, end) == pos,
{
    let q = first_min(c, start, end);
    assert(is_first_min(c, start, end, q));
    if q < pos {
        assert(c(pos) < c(q));
        assert(c(q) <= c(pos));
    } else if pos < q {
        assert(c(q) < c(pos));
        assert(c(pos) <= c(q));
    }
}

/// The winning probe is one of the nine.
pub proof fn lemma_best_probe_in_range(c: spec_fn(int) -> int, lo: int, hi: int)
    ensures
        0 <= best_probe(c, lo, hi) <= 8,
        is_first_min(probe_costs(c, lo, hi), 0, 9, best_probe(c, lo, hi)),
{
    lemma_first_min_exists(probe_costs(c, lo, hi), 0, 9);
}

/// The probes of a window of ten or more integers lie strictly inside it, in increasing order.
pub proof fn lemma_probes_ordered(lo: int, hi: int, k: int)
    requires
        hi - lo >= 10,
        0 <= k <= 8,
    ensures
        lo < probe(lo, hi, k) < hi,
        k < 8 ==> probe(lo, hi, k) < probe(lo, hi, k + 1),
        probe(lo, hi, k) == lo + (k + 1) * ((hi - lo) / 10),
        (hi - lo) / 10 >= 1,
{
    let step = (hi - lo) / 10;
    assert(step >= 1);
    assert(10 * step <= hi - lo);
    assert((k + 1) * step >= step && (k + 1) * step <= 9 * step && (k + 2) * step == (k + 1) * step
        + step) by (nonlinear_arith)
        requires
            0 <= k <= 8,
            step >= 1,
    ;
}

/// The window that follows a round lies inside the window of that round, is narrower, and
/// holds the winning probe strictly above its lower end.
pub proof fn lemma_window_shrinks(lo: int, hi: int, k: int)
    requires
        hi - lo >= 10,
        0 <= k <= 8,
    ensures
        lo <= next_lo(lo, hi, k) < probe(lo, hi, k) < next_hi(lo, hi, k) <= hi,
        k > 0 ==> next_lo(lo, hi, k) > lo,
        next_hi(lo, hi, k) - next_lo(lo, hi, k) < hi - lo,
{
    lemma_probes_ordered(lo, hi, k);
    if k > 0 {
        lemma_probes_ordered(lo, hi, k - 1);
    }
    if k < 8 {
        lemma_probes_ordered(lo, hi, k + 1);
    }
    let step = (hi - lo) / 10;
    assert(10 * step <= hi - lo);
    assert(k * step + 2 * step == (k + 2) * step && (k + 1) * step == k * step + step && k * step
        >= 0 && 8 * step >= k * step) by (nonlinear_arith)
        requires
            0 <= k <= 8,
            step >= 1,
    ;
}

/// The adaptive search never leaves the range it started in: from a window inside
/// `[start, end)` and a position in that range, it ends at a position in that range.
pub proof fn lemma_adaptive_min_in_range(
    c: spec_fn(int) -> int,
    lo: int,
    hi: int,
    pos: int,
    lastbest: int,
    start: int,
    end: int,
)
    requires
        start <= lo <= hi <= end,
        start <= pos < end,
    ensures
        start <= adaptive_min(c, lo, hi, pos, lastbest).0 < end,
    decreases hi - lo,
{
    if hi - lo > 9 {
        let k = best_probe(c, lo, hi);
        lemma_best_probe_in_range(c, lo, hi);
        lemma_window_shrinks(lo, hi, k);
        let best = c(probe(lo, hi, k));
        if best < lastbest {
            lemma_adaptive_min_in_range(
                c,
                next_lo(lo, hi, k),
                next_hi(lo, hi, k),
                probe(lo, hi, k),
                best,
                start,
                end,
            );
        }
    }
}

/// The finder's position lies in the range searched.
pub proof fn lemma_find_min_in_range(c: spec_fn(int) -> int, start: int, end: int)
    requires
        start < end,
    ensures
        start <= find_min(c, start, end).0 < end,
{
    if end - start < 1024 {
        lemma_first_min_exists(c, start, end);
    } else {
        let k = best_probe(c, start, end);
        lemma_best_probe_in_range(c, start, end);
        lemma_window_shrinks(start, end, k);
        lemma_adaptive_min_in_range(
            c,
            next_lo(start, end, k),
            next_hi(start, end, k),
            probe(start, end, k),
            c(probe(start, end, k)),
            start,
            end,
        );
    }
}

/// The adaptive search ends with a cost that is not above the cost it started with.
pub proof fn lemma_adaptive_min_cost(
    c: spec_fn(int) -> int,
    lo: int,
    hi: int,
    pos: int,
    lastbest: int,
)
    ensures
        adaptive_min(c, lo, hi, pos, lastbest).1 <= lastbest,
    decreases hi - lo,
{
    if hi - lo > 9 {
        let k = best_probe(c, lo, hi);
        lemma_best_probe_in_range(c, lo, hi);
        lemma_window_shrinks(lo, hi, k);
        let best = c(probe(lo, hi, k));
        if best < lastbest {
            lemma_adaptive_min_cost(
                c,
                next_lo(lo, hi, k),
                next_hi(lo, hi, k),
                probe(lo, hi, k),
                best,
            );
        }
    }
}

/// Over a range of 1024 indices or more, the finder's cost is not above the cost at any
/// probe of the first round.
pub proof fn lemma_find_min_below_probes(c: spec_fn(int) -> int, start: int, end: int, k: int)
    requires
        end - start >= 1024,
        0 <= k <= 8,
    ensures
        find_min(c, start, end).1 <= c(probe(start, end, k)),
{
    let w = best_probe(c, start, end);
    let pc = probe_costs(c, start, end);
    lemma_best_probe_in_range(c, start, end);
    assert(pc(w) <= pc(k));
    lemma_adaptive_min_cost(
        c,
        next_lo(start, end, w),
        next_hi(start, end, w),
        probe(start, end, w),
        c(probe(start, end, w)),
    );
}

/// `c` is strictly unimodal on `[start, end)` with its minimum at `m`: it falls strictly up
/// to `m` and rises strictly from `m` on.
pub open spec fn is_strictly_unimodal(c: spec_fn(int) -> int, start: int, end: int, m: int) -> bool {
    &&& start <= m < end
    &&& forall|i: int, j: int| start <= i < j <= m ==> #[trigger] c(i) > #[trigger] c(j)
    &&& forall|i: int, j: int| m <= i < j < end ==> #[trigger] c(i) < #[trigger] c(j)
}

/// `pos` is near `m`: at most `above` above it, and at most `below` below it.
pub open spec fn is_near(pos: int, m: int, above: int, below: int) -> bool {
    pos - m <= above && m - pos <= below
}

/// For a strictly unimodal cost, the minimum stays in the window that follows a round. The
/// winning probe is at most one probe spacing above it, and less than that unless the first
/// probe has won; it is less than one spacing below it unless the last probe has won, and
/// then at most one spacing and 8 more, which is what the last of the ten parts of a window
/// can be wider than the others, less one.
pub proof fn lemma_round_keeps_minimum(
    c: spec_fn(int) -> int,
    start: int,
    end: int,
    m: int,
    lo: int,
    hi: int,
)
    requires
        is_strictly_unimodal(c, start, end, m),
        start <= lo <= m < hi <= end,
        hi - lo > 9,
    ensures
        next_lo(lo, hi, best_probe(c, lo, hi)) <= m < next_hi(lo, hi, best_probe(c, lo, hi)),
        is_near(
            probe(lo, hi, best_probe(c, lo, hi)),
            m,
            (hi - lo) / 10,
            (hi - lo) / 10 + 8,
        ),
        best_probe(c, lo, hi) > 0 ==> probe(lo, hi, best_probe(c, lo, hi)) - m < (hi - lo) / 10,
        best_probe(c, lo, hi) < 8 ==> m - probe(lo, hi, best_probe(c, lo, hi)) < (hi - lo) / 10,
{
    let k = best_probe(c, lo, hi);
    let pc = probe_costs(c, lo, hi);
    let step = (hi - lo) / 10;
    lemma_best_probe_in_range(c, lo, hi);
    lemma_probes_ordered(lo, hi, k);
    lemma_window_shrinks(lo, hi, k);
    assert(10 * step <= hi - lo < 10 * step + 10);
    assert((k + 1) * step == k * step + step && (k + 2) * step == k * step + 2 * step)
        by (nonlinear_arith);
    if k > 0 {
        lemma_probes_ordered(lo, hi, k - 1);
        assert(pc(k) < pc(k - 1));
        if m <= probe(lo, hi, k - 1) {
            assert(c(probe(lo, hi, k - 1)) < c(probe(lo, hi, k)));
        }
    }
    if k < 8 {
        lemma_probes_ordered(lo, hi, k + 1);
        assert(pc(k) <= pc(k + 1));
        if m >= probe(lo, hi, k + 1) {
            assert(c(probe(lo, hi, k)) > c(probe(lo, hi, k + 1)));
        }
    } else {
        assert(9 * step == k * step + step) by (nonlinear_arith)
            requires
                k == 8,
        ;
    }
}

/// For a strictly unimodal cost, an adaptive search that has the minimum in its window and
/// starts near the minimum ends near it, where the window's probe spacing is within the
/// bounds of "near": `above` at most, and with 8 more `below` at most.
pub proof fn lemma_adaptive_min_near(
    c: spec_fn(int) -> int,
    start: int,
    end: int,
    m: int,
    lo: int,
    hi: int,
    pos: int,
    lastbest: int,
    above: int,
    below: int,
)
    requires
        is_strictly_unimodal(c, start, end, m),
        start <= lo <= m < hi <= end,
        (hi - lo) / 10 <= above,
        (hi - lo) / 10 + 8 <= below,
        is_near(pos, m, above, below),
    ensures
        is_near(adaptive_min(c, lo, hi, pos, lastbest).0, m, above, below),
    decreases hi - lo,
{
    if hi - lo > 9 {
        let k = best_probe(c, lo, hi);
        let best = c(probe(lo, hi, k));
        lemma_best_probe_in_range(c, lo, hi);
        lemma_probes_ordered(lo, hi, k);
        lemma_window_shrinks(lo, hi, k);
        lemma_round_keeps_minimum(c, start, end, m, lo, hi);
        if best < lastbest {
            let nlo = next_lo(lo, hi, k);
            let nhi = next_hi(lo, hi, k);
            assert((nhi - nlo) / 10 <= (hi - lo) / 10);
            lemma_adaptive_min_near(c, start, end, m, nlo, nhi, probe(lo, hi, k), best, above, below);
        }
    }
}

/// Probing converges on a strictly unimodal cost: over a range of 1024 indices or more, the
/// finder ends at most one probe spacing of the first round above the minimum, and at most
/// that and 8 more below it.
pub proof fn lemma_probing_converges(c: spec_fn(int) -> int, start: int, end: int, m: int)
    requires
        end - start >= 1024,
        is_strictly_unimodal(c, start, end, m),
    ensures
        is_near(find_min(c, start, end).0, m, (end - start) / 10, (end - start) / 10 + 8),
{
    let k = best_probe(c, start, end);
    let s = (end - start) / 10;
    lemma_best_probe_in_range(c, start, end);
    lemma_window_shrinks(start, end, k);
    lemma_round_keeps_minimum(c, start, end, m, start, end);
    let nlo = next_lo(start, end, k);
    let nhi = next_hi(start, end, k);
    assert((nhi - nlo) / 10 <= s);
    lemma_adaptive_min_near(
        c,
        start,
        end,
        m,
        nlo,
        nhi,
        probe(start, end, k),
        c(probe(start, end, k)),
        s,
        s + 8,
    );
}

/// Where the minimum of a strictly unimodal cost lies from the first probe to the ninth of
/// the first round, the finder ends strictly within one probe spacing of that round of it.
pub proof fn lemma_probing_converges_between_probes(
    c: spec_fn(int) -> int,
    start: int,
    end: int,
    m: int,
)
    requires
        end - start >= 1024,
        is_strictly_unimodal(c, start, end, m),
        probe(start, end, 0) <= m <= probe(start, end, 8),
    ensures
        -((end - start) / 10) < find_min(c, start, end).0 - m < (end - start) / 10,
{
    let k = best_probe(c, start, end);
    let s = (end - start) / 10;
    lemma_best_probe_in_range(c, start, end);
    lemma_probes_ordered(start, end, k);
    lemma_probes_ordered(start, end, 0);
    lemma_probes_ordered(start, end, 8);
    lemma_window_shrinks(start, end, k);
    lemma_round_keeps_minimum(c, start, end, m, start, end);
    let nlo = next_lo(start, end, k);
    let nhi = next_hi(start, end, k);
    assert(10 * s <= end - start < 10 * s + 10);
    assert((k + 1) * s == k * s + s && (k + 2) * s == k * s + 2 * s && 9 * s == 8 * s + s)
        by (nonlinear_arith);
    assert(nhi - nlo <= 2 * s + 9);
    assert(is_near(probe(start, end, k), m, s - 1, s - 1));
    lemma_adaptive_min_near(
        c,
        start,
        end,
        m,
        nlo,
        nhi,
        probe(start, end, k),
        c(probe(start, end, k)),
        s - 1,
        s - 1,
    );
}

} // verus!
