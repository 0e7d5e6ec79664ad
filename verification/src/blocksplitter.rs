//! Block splitting for a DEFLATE compressor: where to cut a stream of LZ77 tokens into
//! blocks, each of which gets a Huffman tree of its own.

use vstd::prelude::*;
use libc::{c_uchar, size_t};
use crate::lz77::Lz77Store;
use crate::minimum::{
    EXHAUSTIVE_LIMIT, NUM_PROBES, adaptive_min, best_probe, find_min, is_first_min,
    lemma_first_min_unique, lemma_probes_ordered, lemma_window_shrinks, next_hi, next_lo, probe,
    probe_costs,
};
use crate::split_model::{
    MIN_SPLITTABLE, block_end, block_len, block_start, cut_found, done_after, insert_point,
    all_done, is_candidate, is_largest_candidate, is_largest_candidate_before, is_split_list,
    is_split_state, keeps_block, lemma_blocks_not_empty, lemma_budget_shrinks,
    lemma_insert_point, lemma_next_block_is_block, lemma_rank_is, lemma_round_uses_budget, lemma_split_list_len,
    next_block, points_after, rounds_left, split_cost_at, split_from, split_points,
};

verus! {

/// `f` can be called on every index of `[start, end)`.
pub open spec fn can_evaluate<F: Fn(size_t) -> u64>(f: F, start: size_t, end: size_t) -> bool {
    forall|i: size_t| start <= i < end ==> call_requires(f, (i,))
}

/// What `f` returns for an index of `[start, end)` is what `c` gives for it.
pub open spec fn computes<F: Fn(size_t) -> u64>(
    f: F,
    c: spec_fn(int) -> int,
    start: size_t,
    end: size_t,
) -> bool {
    forall|i: size_t, v: u64| start <= i < end && call_ensures(f, (i,), v) ==> v == c(i as int)
}

/// A list of costs as a function of the place in the list.
pub open spec fn listed_costs(vp: Seq<u64>) -> spec_fn(int) -> int {
    |k: int| vp[k] as int
}

/// Evaluates `f` at the nine probes of the window `[lo, hi)`.
fn probe_window<F: Fn(size_t) -> u64>(f: &F, lo: size_t, hi: size_t) -> (r: (
    Vec<size_t>,
    Vec<u64>,
))
    requires
        hi - lo > 9,
        can_evaluate(*f, lo, hi),
    ensures
        r.0@.len() == 9,
        r.1@.len() == 9,
        forall|k: int| 0 <= k < 9 ==> #[trigger] r.0@[k] == probe(lo as int, hi as int, k),
        forall|k: int| 0 <= k < 9 ==> call_ensures(*f, (#[trigger] r.0@[k],), r.1@[k]),
{
    let step: size_t = (hi - lo) / (NUM_PROBES + 1);
    let mut p: Vec<size_t> = Vec::new();
    let mut vp: Vec<u64> = Vec::new();
    let mut i: size_t = 0;
    while i < NUM_PROBES
        invariant
            i <= 9,
            lo < hi,
            hi - lo > 9,
            step == (hi - lo) / 10,
            can_evaluate(*f, lo, hi),
            p@.len() == i,
            vp@.len() == i,
            forall|k: int| 0 <= k < i ==> #[trigger] p@[k] == probe(lo as int, hi as int, k),
            forall|k: int| 0 <= k < i ==> call_ensures(*f, (#[trigger] p@[k],), vp@[k]),
        decreases 9 - i,
    {
        proof {
            lemma_probes_ordered(lo as int, hi as int, i as int);
        }
        let x: size_t = lo + (i + 1) * step;
        let v: u64 = f(x);
        p.push(x);
        vp.push(v);
        i += 1;
    }
    (p, vp)
}

/// The number of the cheapest of nine costs, the earliest one on a tie.
fn cheapest_probe(vp: &Vec<u64>) -> (besti: size_t)
    requires
        vp@.len() == 9,
    ensures
        is_first_min(listed_costs(vp@), 0, 9, besti as int),
{
    let ghost costs = listed_costs(vp@);
    let mut besti: size_t = 0;
    let mut best: u64 = vp[0];
    let mut i: size_t = 1;
    while i < NUM_PROBES
        invariant
            1 <= i <= 9,
            vp@.len() == 9,
            costs == listed_costs(vp@),
            best == vp@[besti as int],
            is_first_min(costs, 0, i as int, besti as int),
        decreases 9 - i,
    {
        if vp[i] < best {
            best = vp[i];
            besti = i;
        }
        i += 1;
    }
    besti
}

/// Finds an index in `[start, end)` at which `f` is small, and the cost there.
///
/// A range of fewer than 1024 indices is scanned whole, and the result is the earliest index
/// of least cost. A wider range is searched by probing: nine probes are placed in the window,
/// the cheapest wins, and the window shrinks to the gap between the winner's two neighbours;
/// this ends when the window holds nine indices or fewer, or when a round's winner is not
/// cheaper than the winner of the round before it, which stays the result. The first round is
/// always accepted. The result need not be a minimum of `f`.
///
/// The result is stated for every function `c` on the integers that `f` computes on the
/// range: it is `find_min` of `c`.
pub fn find_minimum<F: Fn(size_t) -> u64>(f: F, start: size_t, end: size_t) -> (r: (
    size_t,
    u64,
))
    requires
        start < end,
        can_evaluate(f, start, end),
    ensures
        start <= r.0 < end,
        call_ensures(f, (r.0,), r.1),
        forall|c: spec_fn(int) -> int| #[trigger]
            computes(f, c, start, end) ==> (r.0 as int, r.1 as int) == find_min(
                c,
                start as int,
                end as int,
            ),
        forall|c: spec_fn(int) -> int| #[trigger]
            computes(f, c, start, end) && end - start < 1024 ==> is_first_min(
                c,
                start as int,
                end as int,
                r.0 as int,
            ),
{
    if end - start < EXHAUSTIVE_LIMIT {
        let mut best: u64 = u64::MAX;
        let mut result: size_t = start;
        let mut i: size_t = start;
        while i < end
            invariant
                start <= i <= end,
                start < end,
                start <= result < end,
                can_evaluate(f, start, end),
                i == start ==> best == u64::MAX && result == start,
                i > start ==> result < i && call_ensures(f, (result,), best),
                forall|c: spec_fn(int) -> int| #[trigger]
                    computes(f, c, start, end) && i > start ==> is_first_min(
                        c,
                        start as int,
                        i as int,
                        result as int,
                    ),
            decreases end - i,
        {
            let v: u64 = f(i);
            let ghost old_best = best;
            let ghost old_result = result;
            if v < best {
                best = v;
                result = i;
            }
            assert forall|c: spec_fn(int) -> int| #[trigger]
                computes(f, c, start, end) implies is_first_min(
                c,
                start as int,
                i + 1,
                result as int,
            ) by {
                assert(c(i as int) == v);
                if i > start {
                    assert(is_first_min(c, start as int, i as int, old_result as int));
                    assert(c(old_result as int) == old_best);
                }
            }
            i += 1;
        }
        proof {
            assert forall|c: spec_fn(int) -> int| #[trigger]
                computes(f, c, start, end) implies (result as int, best as int) == find_min(
                c,
                start as int,
                end as int,
            ) by {
                lemma_first_min_unique(c, start as int, end as int, result as int);
            }
        }
        (result, best)
    } else {
        let mut lo: size_t = start;
        let mut hi: size_t = end;
        let mut lastbest: u64 = u64::MAX;
        let mut pos: size_t = start;
        let mut first: bool = true;
        loop
            invariant
                start <= lo <= pos < hi <= end,
                end - start >= 1024,
                can_evaluate(f, start, end),
                first ==> lo == start && hi == end,
                !first ==> call_ensures(f, (pos,), lastbest),
                forall|c: spec_fn(int) -> int| #[trigger]
                    computes(f, c, start, end) && !first ==> find_min(c, start as int, end as int)
                        == adaptive_min(c, lo as int, hi as int, pos as int, lastbest as int),
            ensures
                start <= pos < end,
                call_ensures(f, (pos,), lastbest),
                forall|c: spec_fn(int) -> int| #[trigger]
                    computes(f, c, start, end) ==> find_min(c, start as int, end as int) == (
                        pos as int,
                        lastbest as int,
                    ),
            decreases hi - lo,
        {
            if hi - lo <= NUM_PROBES {
                break ;
            }
            let (p, vp) = probe_window(&f, lo, hi);
            let besti: size_t = cheapest_probe(&vp);
            let best: u64 = vp[besti];
            proof {
                lemma_window_shrinks(lo as int, hi as int, besti as int);
                assert(p@[besti as int] == probe(lo as int, hi as int, besti as int));
                assert forall|c: spec_fn(int) -> int| #[trigger]
                    computes(f, c, start, end) implies best_probe(c, lo as int, hi as int) == besti
                    && c(probe(lo as int, hi as int, besti as int)) == best by {
                    let pc = probe_costs(c, lo as int, hi as int);
                    let lc = listed_costs(vp@);
                    assert forall|k: int| 0 <= k < 9 implies #[trigger] pc(k) == lc(k) by {
                        lemma_probes_ordered(lo as int, hi as int, k);
                        assert(call_ensures(f, (p@[k],), vp@[k]));
                    }
                    assert(is_first_min(pc, 0, 9, besti as int));
                    lemma_first_min_unique(pc, 0, 9, besti as int);
                }
            }
            if !first && best >= lastbest {
                break ;
            }
            let new_lo: size_t = if besti == 0 {
                lo
            } else {
                p[besti - 1]
            };
            let new_hi: size_t = if besti == NUM_PROBES - 1 {
                hi
            } else {
                p[besti + 1]
            };
            assert(new_lo == next_lo(lo as int, hi as int, besti as int));
            assert(new_hi == next_hi(lo as int, hi as int, besti as int));
            lo = new_lo;
            hi = new_hi;
            pos = p[besti];
            lastbest = best;
            first = false;
        }
        (pos, lastbest)
    }
}

/// No block may cost more than this, so that the costs of two blocks can be added.
pub const MAX_BLOCK_COST: u64 = 0x7fff_ffff_ffff_ffff;

/// `cost` can be called on every non-empty range of tokens of `lz77`, and returns no cost
/// above `MAX_BLOCK_COST` for one.
pub open spec fn can_estimate<F: Fn(&Lz77Store, size_t, size_t) -> u64>(
    cost: F,
    lz77: &Lz77Store,
) -> bool {
    &&& forall|a: size_t, b: size_t| a < b <= lz77.spec_size() ==> call_requires(cost, (lz77, a, b))
    &&& forall|a: size_t, b: size_t, v: u64|
        a < b <= lz77.spec_size() && call_ensures(cost, (lz77, a, b), v) ==> v <= MAX_BLOCK_COST
}

/// What `cost` returns for a non-empty range `[a, b)` of tokens of `lz77` is what `c` gives
/// for `a` and `b`.
pub open spec fn estimates<F: Fn(&Lz77Store, size_t, size_t) -> u64>(
    cost: F,
    lz77: &Lz77Store,
    c: spec_fn(int, int) -> int,
) -> bool {
    forall|a: size_t, b: size_t, v: u64|
        a < b <= lz77.spec_size() && call_ensures(cost, (lz77, a, b), v) ==> v == c(
            a as int,
            b as int,
        )
}

/// Returns the estimated cost in bits of the block `[lstart, lend)`, as the oracle gives it.
fn estimate_cost<F: Fn(&Lz77Store, size_t, size_t) -> u64>(
    cost: &F,
    lz77: &Lz77Store,
    lstart: size_t,
    lend: size_t,
) -> (v: u64)
    requires
        can_estimate(*cost, lz77),
        lstart < lend <= lz77.spec_size(),
    ensures
        call_ensures(*cost, (lz77, lstart, lend), v),
        v <= MAX_BLOCK_COST,
{
    cost(lz77, lstart, lend)
}

/// What the cost of a cut is taken from: the oracle, the stream, and the block to cut.
struct SplitCostContext<'a, F> {
    cost: &'a F,
    lz77: &'a Lz77Store,
    start: size_t,
    end: size_t,
}

/// `v` is the sum of what the oracle has returned for the two parts of the block cut at `i`.
spec fn is_split_cost<F: Fn(&Lz77Store, size_t, size_t) -> u64>(
    c: &SplitCostContext<F>,
    i: size_t,
    v: u64,
) -> bool {
    exists|left: u64, right: u64|
        #![trigger
            call_ensures(*c.cost, (c.lz77, c.start, i), left),
            call_ensures(*c.cost, (c.lz77, i, c.end), right)
        ]
        call_ensures(*c.cost, (c.lz77, c.start, i), left) && call_ensures(
            *c.cost,
            (c.lz77, i, c.end),
            right,
        ) && v == left + right
}

/// Gets the cost of cutting the block at `i`: the sum of the costs of the two parts.
fn split_cost<F: Fn(&Lz77Store, size_t, size_t) -> u64>(i: size_t, c: &SplitCostContext<F>) -> (v:
    u64)
    requires
        can_estimate(*c.cost, c.lz77),
        c.start < i < c.end <= c.lz77.spec_size(),
    ensures
        is_split_cost(c, i, v),
{
    let left: u64 = estimate_cost(c.cost, c.lz77, c.start, i);
    let right: u64 = estimate_cost(c.cost, c.lz77, i, c.end);
    left + right
}

/// Finds the next block to try to split: the longest of those whose start is not marked
/// done, the earliest one on a tie. The blocks are cut by `splitpoints`, from the start of
/// the stream to its end. `None` means that every block's start is marked done.
pub fn find_largest_splittable_block(
    lz77size: size_t,
    done: &[c_uchar],
    splitpoints: &[size_t],
) -> (found: Option<(size_t, size_t)>)
    requires
        lz77size >= 1,
        done@.len() == lz77size,
        is_split_list(splitpoints@, lz77size),
    ensures
        found == next_block(lz77size, done@, splitpoints@),
        found is None <==> all_done(done@, splitpoints@),
        found matches Some((lstart, lend)) ==> exists|k: int|
            is_largest_candidate(lz77size, done@, splitpoints@, k) && lstart == block_start(
                splitpoints@,
                k,
            ) && lend == block_end(lz77size, splitpoints@, k),
{
    let mut longest: size_t = 0;
    let mut found: Option<(size_t, size_t)> = None;
    let mut last: size_t = 0;
    let ghost mut fk: int = 0;
    let mut i: size_t = 0;
    while i < splitpoints.len()
        invariant
            i <= splitpoints@.len(),
            lz77size >= 1,
            done@.len() == lz77size,
            is_split_list(splitpoints@, lz77size),
            last == block_start(splitpoints@, i as int),
            found is None ==> longest == 0 && forall|j: int|
                j < i ==> !is_candidate(lz77size, done@, splitpoints@, j),
            found is Some ==> is_largest_candidate_before(
                lz77size,
                done@,
                splitpoints@,
                i as int,
                fk,
            ) && found == Some(
                (block_start(splitpoints@, fk), block_end(lz77size, splitpoints@, fk)),
            ) && longest == block_len(lz77size, splitpoints@, fk),
        decreases splitpoints@.len() - i,
    {
        let item: size_t = splitpoints[i];
        proof {
            lemma_blocks_not_empty(lz77size, splitpoints@, i as int);
        }
        if done[last] == 0 && item - last > longest {
            found = Some((last, item));
            longest = item - last;
            proof {
                fk = i as int;
            }
        }
        last = item;
        i += 1;
    }
    let end: size_t = lz77size;
    proof {
        lemma_blocks_not_empty(lz77size, splitpoints@, i as int);
    }
    if done[last] == 0 && end - last > longest {
        found = Some((last, end));
        proof {
            fk = i as int;
        }
    }
    proof {
        lemma_next_block_is_block(lz77size, done@, splitpoints@);
        if found is Some {
            assert(is_largest_candidate(lz77size, done@, splitpoints@, fk));
            let k = choose|k: int| is_largest_candidate(lz77size, done@, splitpoints@, k);
            assert(is_largest_candidate(lz77size, done@, splitpoints@, k));
            assert(k == fk) by {
                assert(is_candidate(lz77size, done@, splitpoints@, k));
                assert(is_candidate(lz77size, done@, splitpoints@, fk));
            }
        }
    }
    found
}

/// Tells whether `points` is a list of split points of a stream of `lz77size` tokens.
pub fn check_split_list(points: &[size_t], lz77size: size_t) -> (r: bool)
    ensures
        r == is_split_list(points@, lz77size),
{
    let mut i: size_t = 0;
    while i < points.len()
        invariant
            i <= points@.len(),
            forall|k: int| 0 <= k < i ==> 0 < #[trigger] points@[k] < lz77size,
            forall|j: int, k: int| 0 <= j < k < i ==> points@[j] < points@[k],
        decreases points@.len() - i,
    {
        let point: size_t = points[i];
        if point == 0 || point >= lz77size {
            return false;
        }
        if i > 0 && points[i - 1] >= point {
            assert(!(points@[i - 1] < points@[i as int]));
            return false;
        }
        assert forall|j: int, k: int| 0 <= j < k < i + 1 implies points@[j] < points@[k] by {
            if k == i && j < i - 1 {
                assert(points@[j] < points@[i - 1]);
            }
        }
        i += 1;
    }
    true
}

/// Puts `llpos` into the increasing list `splitpoints` at its place in the order.
fn insert_split_point(splitpoints: &mut Vec<size_t>, llpos: size_t)
    requires
        forall|i: int, j: int|
            0 <= i < j < old(splitpoints)@.len() ==> old(splitpoints)@[i] < old(splitpoints)@[j],
    ensures
        final(splitpoints)@ == insert_point(old(splitpoints)@, llpos),
{
    let mut i: size_t = 0;
    while i < splitpoints.len() && splitpoints[i] < llpos
        invariant
            i <= splitpoints@.len(),
            splitpoints@ == old(splitpoints)@,
            forall|j: int| 0 <= j < i ==> splitpoints@[j] < llpos,
        decreases splitpoints@.len() - i,
    {
        i += 1;
    }
    proof {
        assert forall|j: int| i <= j < splitpoints@.len() implies splitpoints@[j] >= llpos by {
            if j > i {
                assert(splitpoints@[i as int] < splitpoints@[j]);
            }
        }
        lemma_rank_is(splitpoints@, llpos, i as int);
    }
    splitpoints.insert(i, llpos);
}

/// `points` is what block splitting gives for the tokens of `lz77`: for every function `c`
/// that `cost` computes on the ranges of `lz77`, the split points of `c`.
pub open spec fn is_token_split<F: Fn(&Lz77Store, size_t, size_t) -> u64>(
    cost: F,
    lz77: &Lz77Store,
    maxblocks: size_t,
    points: Seq<size_t>,
) -> bool {
    forall|c: spec_fn(int, int) -> int| #[trigger]
        estimates(cost, lz77, c) ==> points == split_points(c, lz77.spec_size(), maxblocks)
}

/// Does block splitting on LZ77 data. The split points put into `splitpoints` are indices
/// into the tokens of `lz77`.
///
/// `cost` estimates the size in bits of a block of tokens. `maxblocks` limits the number of
/// blocks; 0 means no limit. A stream of fewer than ten tokens is not split.
///
/// The result is stated for every function `c` on pairs of integers that `cost` computes on
/// the ranges of `lz77`: it is `split_points` of `c`. It is a split list of the stream, and
/// with `maxblocks` above 0 it cuts the stream into `maxblocks` blocks at most.
pub fn blocksplit_lz77<F: Fn(&Lz77Store, size_t, size_t) -> u64>(
    cost: F,
    lz77: &Lz77Store,
    maxblocks: size_t,
    splitpoints: &mut Vec<size_t>,
)
    requires
        old(splitpoints)@.len() == 0,
        can_estimate(cost, lz77),
    ensures
        is_token_split(cost, lz77, maxblocks, final(splitpoints)@),
        is_split_list(final(splitpoints)@, lz77.spec_size()),
        maxblocks > 0 ==> final(splitpoints)@.len() + 1 <= maxblocks,
        lz77.spec_size() < 10 ==> final(splitpoints)@.len() == 0,
{
    let lz77size: size_t = lz77.size();
    if lz77size < MIN_SPLITTABLE {
        assert(splitpoints@ =~= Seq::<size_t>::empty());
        return ;
    }
    let mut numblocks: size_t = 1;
    let mut done: Vec<c_uchar> = vec![0; lz77size];
    let mut lstart: size_t = 0;
    let mut lend: size_t = lz77size;
    assert(splitpoints@ =~= Seq::<size_t>::empty());
    assert(done@ =~= Seq::new(lz77size as nat, |i: int| 0u8));
    loop
        invariant_except_break
            is_split_state(lz77size, splitpoints@, done@, lstart, lend),
            forall|c: spec_fn(int, int) -> int| #[trigger]
                estimates(cost, lz77, c) ==> split_points(c, lz77size, maxblocks) == split_from(
                    c,
                    lz77size,
                    maxblocks,
                    splitpoints@,
                    done@,
                    lstart,
                    lend,
                ),
        invariant
            lz77size == lz77.spec_size(),
            lz77size >= 10,
            can_estimate(cost, lz77),
            numblocks == splitpoints@.len() + 1,
            maxblocks > 0 ==> numblocks <= maxblocks,
            is_split_list(splitpoints@, lz77size),
            done@.len() == lz77size,
        ensures
            forall|c: spec_fn(int, int) -> int| #[trigger]
                estimates(cost, lz77, c) ==> splitpoints@ == split_points(c, lz77size, maxblocks),
        decreases rounds_left(lz77size, splitpoints@, done@),
    {
        if maxblocks > 0 && numblocks >= maxblocks {
            break ;
        }
        let ghost points0 = splitpoints@;
        let ghost done0 = done@;
        let context = SplitCostContext { cost: &cost, lz77: lz77, start: lstart, end: lend };
        let f = |i: size_t| -> (v: u64)
            requires
                context.start < i < context.end,
            ensures
                is_split_cost(&context, i, v),
            { split_cost(i, &context) };
        let (llpos, splitcost) = find_minimum(f, lstart + 1, lend);
        let origcost: u64 = estimate_cost(&cost, lz77, lstart, lend);
        let keep: bool = splitcost > origcost || llpos == lstart + 1 || llpos == lend;
        proof {
            assert forall|c: spec_fn(int, int) -> int| #[trigger]
                estimates(cost, lz77, c) implies keep == keeps_block(c, lstart, lend) && llpos
                == cut_found(c, lstart, lend) by {
                let sc = split_cost_at(c, lstart as int, lend as int);
                assert(computes(f, sc, (lstart + 1) as size_t, lend));
                assert(c(lstart as int, lend as int) == origcost);
            }
        }
        if keep {
            done.set(lstart, 1);
        } else {
            proof {
                lemma_insert_point(points0, lz77size, llpos);
            }
            insert_split_point(splitpoints, llpos);
            proof {
                lemma_split_list_len(splitpoints@, lz77size);
            }
            numblocks += 1;
        }
        proof {
            assert forall|c: spec_fn(int, int) -> int| #[trigger]
                estimates(cost, lz77, c) implies splitpoints@ == points_after(
                c,
                points0,
                lstart,
                lend,
            ) && done@ == done_after(c, done0, lstart, lend) by {
                lemma_round_uses_budget(c, lz77size, points0, done0, lstart, lend);
            }
            lemma_budget_shrinks(lz77size, points0, done0, splitpoints@, done@, lstart);
        }
        match find_largest_splittable_block(lz77size, done.as_slice(), splitpoints.as_slice()) {
            None => {
                break ;
            },
            Some((start, end)) => {
                proof {
                    lemma_next_block_is_block(lz77size, done@, splitpoints@);
                }
                lstart = start;
                lend = end;
                if lend - lstart < MIN_SPLITTABLE {
                    break ;
                }
            },
        }
    }
}

/// The byte positions of the token positions `points`: each is `instart` and the bytes that
/// the tokens before the point stand for.
pub open spec fn byte_positions(lz77: &Lz77Store, instart: size_t, points: Seq<size_t>) -> Seq<
    size_t,
> {
    Seq::new(points.len(), |k: int| (instart + lz77.byte_len(points[k] as int)) as size_t)
}

/// Converts split points given as token positions into positions in the uncompressed input,
/// which starts at `instart`, and puts them into `splitpoints` in the same order.
pub fn lz77_to_byte_positions(
    lz77: &Lz77Store,
    instart: size_t,
    lz77splitpoints: &[size_t],
    splitpoints: &mut Vec<size_t>,
)
    requires
        lz77.wf(),
        is_split_list(lz77splitpoints@, lz77.spec_size()),
        instart + lz77.total_len() <= usize::MAX,
        old(splitpoints)@.len() == 0,
    ensures
        final(splitpoints)@ == byte_positions(lz77, instart, lz77splitpoints@),
        final(splitpoints)@.len() == lz77splitpoints@.len(),
{
    let nlz77points: size_t = lz77splitpoints.len();
    let lz77size: size_t = lz77.size();
    let mut pos: size_t = instart;
    if nlz77points > 0 {
        let mut i: size_t = 0;
        while i < lz77size
            invariant_except_break
                splitpoints@.len() < nlz77points,
                lz77splitpoints@[splitpoints@.len() as int] >= i,
            invariant
                lz77.wf(),
                lz77size == lz77.spec_size(),
                nlz77points == lz77splitpoints@.len(),
                is_split_list(lz77splitpoints@, lz77size),
                instart + lz77.total_len() <= usize::MAX,
                i <= lz77size,
                pos == instart + lz77.byte_len(i as int),
                splitpoints@.len() <= nlz77points,
                forall|k: int|
                    0 <= k < splitpoints@.len() ==> #[trigger] splitpoints@[k] == instart
                        + lz77.byte_len(lz77splitpoints@[k] as int),
            ensures
                splitpoints@.len() == nlz77points,
            decreases lz77size - i,
        {
            let length = lz77.token_length(i);
            proof {
                lz77.lemma_byte_len_monotonic(i + 1, lz77size as int);
            }
            if lz77splitpoints[splitpoints.len()] == i {
                splitpoints.push(pos);
                if splitpoints.len() == nlz77points {
                    break ;
                }
                assert(lz77splitpoints@[splitpoints@.len() - 1]
                    < lz77splitpoints@[splitpoints@.len() as int]);
            }
            pos += length as size_t;
            i += 1;
        }
    }
    assert(splitpoints@ =~= byte_positions(lz77, instart, lz77splitpoints@));
}

/// `points` is what block splitting gives for the bytes that `lz77` stands for, which start
/// at `instart`: for every function `c` that `cost` computes on the ranges of `lz77`, the
/// byte positions of the split points of `c`.
pub open spec fn is_byte_split<F: Fn(&Lz77Store, size_t, size_t) -> u64>(
    cost: F,
    lz77: &Lz77Store,
    instart: size_t,
    maxblocks: size_t,
    points: Seq<size_t>,
) -> bool {
    forall|c: spec_fn(int, int) -> int| #[trigger]
        estimates(cost, lz77, c) ==> points == byte_positions(
            lz77,
            instart,
            split_points(c, lz77.spec_size(), maxblocks),
        )
}

/// Does block splitting on uncompressed data. The split points put into `splitpoints` are
/// positions in `in_data`; what `splitpoints` held before is dropped.
///
/// `greedy` turns the bytes `[instart, inend)` of `in_data` into LZ77 tokens that stand for
/// exactly these bytes, `cost` estimates the size in bits of a block of tokens, and
/// `maxblocks` is the greatest number of blocks to split into, or 0 for no limit.
///
/// The result is stated for the tokens that `greedy` has returned: it is the byte positions
/// of their split points. The positions are strictly increasing and lie strictly inside the
/// range, and fewer than ten tokens are not split.
pub fn blocksplit<G, F>(
    greedy: G,
    cost: F,
    in_data: &[u8],
    instart: size_t,
    inend: size_t,
    maxblocks: size_t,
    splitpoints: &mut Vec<size_t>,
) where G: FnOnce(&[u8], size_t, size_t) -> Lz77Store, F: Fn(&Lz77Store, size_t, size_t) -> u64
    requires
        instart <= inend <= in_data@.len(),
        call_requires(greedy, (in_data, instart, inend)),
        forall|store: Lz77Store| #[trigger]
            call_ensures(greedy, (in_data, instart, inend), store) ==> store.wf()
                && store.total_len() == inend - instart && can_estimate(cost, &store),
    ensures
        exists|store: Lz77Store| #[trigger]
            call_ensures(greedy, (in_data, instart, inend), store) && is_byte_split(
                cost,
                &store,
                instart,
                maxblocks,
                final(splitpoints)@,
            ) && (store.spec_size() < 10 ==> final(splitpoints)@.len() == 0),
        inend - instart < 10 ==> final(splitpoints)@.len() == 0,
        forall|k: int|
            0 <= k < final(splitpoints)@.len() ==> instart < #[trigger] final(splitpoints)@[k]
                < inend,
        forall|j: int, k: int|
            0 <= j < k < final(splitpoints)@.len() ==> final(splitpoints)@[j]
                < final(splitpoints)@[k],
        maxblocks > 0 ==> final(splitpoints)@.len() + 1 <= maxblocks,
{
    let mut lz77splitpoints: Vec<size_t> = Vec::new();
    splitpoints.clear();
    let store = greedy(in_data, instart, inend);
    blocksplit_lz77(cost, &store, maxblocks, &mut lz77splitpoints);
    lz77_to_byte_positions(&store, instart, lz77splitpoints.as_slice(), splitpoints);
    proof {
        assert forall|k: int| 0 <= k < splitpoints@.len() implies instart
            < #[trigger] splitpoints@[k] < inend by {
            lemma_byte_positions_increase(&store, instart, lz77splitpoints@, k, k);
        }
        assert forall|j: int, k: int| 0 <= j < k < splitpoints@.len() implies splitpoints@[j]
            < splitpoints@[k] by {
            lemma_byte_positions_increase(&store, instart, lz77splitpoints@, j, k);
        }
        assert(is_byte_split(cost, &store, instart, maxblocks, splitpoints@));
        store.lemma_byte_len_monotonic(0, store.spec_size() as int);
    }
}

/// Splitting the same stream again gives the same split points: two results of block
/// splitting for one stream, one limit and one cost that computes a function are equal.
pub proof fn lemma_split_again_same<F: Fn(&Lz77Store, size_t, size_t) -> u64>(
    cost: F,
    lz77: &Lz77Store,
    c: spec_fn(int, int) -> int,
    maxblocks: size_t,
    first: Seq<size_t>,
    second: Seq<size_t>,
)
    requires
        estimates(cost, lz77, c),
        is_token_split(cost, lz77, maxblocks, first),
        is_token_split(cost, lz77, maxblocks, second),
    ensures
        first == second,
{
}

/// The byte positions of split points lie strictly between `instart` and the end of the
/// bytes that the stream stands for, and a later split point has a greater byte position.
pub proof fn lemma_byte_positions_increase(
    lz77: &Lz77Store,
    instart: size_t,
    points: Seq<size_t>,
    j: int,
    k: int,
)
    requires
        lz77.wf(),
        is_split_list(points, lz77.spec_size()),
        instart + lz77.total_len() <= usize::MAX,
        0 <= j <= k < points.len(),
    ensures
        instart < byte_positions(lz77, instart, points)[j] <= byte_positions(
            lz77,
            instart,
            points,
        )[k] < instart + lz77.total_len(),
        j < k ==> byte_positions(lz77, instart, points)[j] < byte_positions(
            lz77,
            instart,
            points,
        )[k],
{
    let size = lz77.spec_size() as int;
    lz77.lemma_byte_len_monotonic(0, points[j] as int);
    lz77.lemma_byte_len_monotonic(points[j] as int, points[k] as int);
    lz77.lemma_byte_len_monotonic(points[k] as int, size);
}

/// Replaying the tokens from `instart` finds the split points again from their byte
/// positions alone: the bytes before token `n` end at byte split point `k` exactly where `n`
/// is token split point `k`.
pub proof fn lemma_byte_positions_round_trip(
    lz77: &Lz77Store,
    instart: size_t,
    points: Seq<size_t>,
    k: int,
    n: int,
)
    requires
        lz77.wf(),
        is_split_list(points, lz77.spec_size()),
        instart + lz77.total_len() <= usize::MAX,
        0 <= k < points.len(),
        0 <= n <= lz77.spec_size(),
    ensures
        instart + lz77.byte_len(n) == byte_positions(lz77, instart, points)[k] <==> n
            == points[k],
{
    let size = lz77.spec_size() as int;
    let p = points[k] as int;
    lz77.lemma_byte_len_monotonic(p, size);
    if n < p {
        lz77.lemma_byte_len_monotonic(n, p);
    } else if p < n {
        lz77.lemma_byte_len_monotonic(p, n);
    }
}

} // verus!
