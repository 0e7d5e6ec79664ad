//! The mathematical model of block splitting: split lists, the blocks they cut a stream
//! into, the choice of the next block to split, and the splitting rounds.

use vstd::prelude::*;
use libc::{c_uchar, size_t};
use crate::minimum::{find_min, lemma_find_min_in_range};

verus! {

/// A stream shorter than this is not split, and neither is a block shorter than this.
pub const MIN_SPLITTABLE: size_t = 10;

/// `points` is a list of split points of a stream of `lz77size` tokens: strictly increasing,
/// each one strictly between 0 and `lz77size`.
pub open spec fn is_split_list(points: Seq<size_t>, lz77size: size_t) -> bool {
    &&& forall|i: int| 0 <= i < points.len() ==> 0 < #[trigger] points[i] < lz77size
    &&& forall|i: int, j: int| 0 <= i < j < points.len() ==> points[i] < points[j]
}

/// Where block `k` starts: at the head of the stream, or at split point `k - 1`.
pub open spec fn block_start(points: Seq<size_t>, k: int) -> size_t {
    if k == 0 {
        0
    } else {
        points[k - 1]
    }
}

/// Where block `k` ends: at split point `k`, or, for the last block, at the end of the
/// stream.
pub open spec fn block_end(lz77size: size_t, points: Seq<size_t>, k: int) -> size_t {
    if k == points.len() {
        lz77size
    } else {
        points[k]
    }
}

/// The number of tokens from the start of block `k` to its end.
pub open spec fn block_len(lz77size: size_t, points: Seq<size_t>, k: int) -> int {
    block_end(lz77size, points, k) - block_start(points, k)
}

/// Block `k` can still be split: it is one of the blocks, and its start is not marked done.
pub open spec fn is_candidate(
    lz77size: size_t,
    done: Seq<c_uchar>,
    points: Seq<size_t>,
    k: int,
) -> bool {
    &&& 0 <= k <= points.len()
    &&& done[block_start(points, k) as int] == 0
}

/// Every block's start is marked done.
pub open spec fn all_done(done: Seq<c_uchar>, points: Seq<size_t>) -> bool {
    forall|k: int| 0 <= k <= points.len() ==> done[#[trigger] block_start(points, k) as int] != 0
}

/// Block `k` is the longest of the candidates among the first `n` blocks, and the earliest
/// of that length.
pub open spec fn is_largest_candidate_before(
    lz77size: size_t,
    done: Seq<c_uchar>,
    points: Seq<size_t>,
    n: int,
    k: int,
) -> bool {
    &&& k < n
    &&& is_candidate(lz77size, done, points, k)
    &&& forall|j: int|
        j < n && #[trigger] is_candidate(lz77size, done, points, j) ==> block_len(
            lz77size,
            points,
            j,
        ) <= block_len(lz77size, points, k)
    &&& forall|j: int|
        j < k && #[trigger] is_candidate(lz77size, done, points, j) ==> block_len(
            lz77size,
            points,
            j,
        ) < block_len(lz77size, points, k)
}

/// Block `k` is the longest candidate, and the earliest of that length.
pub open spec fn is_largest_candidate(
    lz77size: size_t,
    done: Seq<c_uchar>,
    points: Seq<size_t>,
    k: int,
) -> bool {
    is_largest_candidate_before(lz77size, done, points, points.len() as int + 1, k)
}

/// The block to split next: start and end of the longest block whose start is not marked
/// done, the earliest on a tie; `None` where every block's start is marked done.
pub open spec fn next_block(lz77size: size_t, done: Seq<c_uchar>, points: Seq<size_t>) -> Option<
    (size_t, size_t),
> {
    if exists|k: int| is_candidate(lz77size, done, points, k) {
        let k = choose|k: int| is_largest_candidate(lz77size, done, points, k);
        Some((block_start(points, k), block_end(lz77size, points, k)))
    } else {
        None
    }
}

/// The number of list entries below `x`, for an increasing list.
pub open spec fn rank(points: Seq<size_t>, x: size_t) -> int
    decreases points.len(),
{
    if points.len() == 0 {
        0
    } else if points.last() < x {
        points.len() as int
    } else {
        rank(points.drop_last(), x)
    }
}

/// The list with `x` put in at its place in the order.
pub open spec fn insert_point(points: Seq<size_t>, x: size_t) -> Seq<size_t> {
    points.insert(rank(points, x), x)
}

/// The number of positions that are not marked done.
pub open spec fn open_marks(done: Seq<c_uchar>) -> nat
    decreases done.len(),
{
    if done.len() == 0 {
        0
    } else {
        open_marks(done.drop_last()) + if done.last() == 0 {
            1nat
        } else {
            0nat
        }
    }
}

/// The cost of cutting the block `[lstart, lend)` at `i`: the cost of the part before `i`
/// and the cost of the part from `i` on.
pub open spec fn split_cost_at(c: spec_fn(int, int) -> int, lstart: int, lend: int) -> spec_fn(
    int,
) -> int {
    |i: int| c(lstart, i) + c(i, lend)
}

/// What a round may start from: a split list, one mark per token, and a block `[lstart, lend)`
/// of ten tokens or more whose start is not marked done and which holds no split point.
pub open spec fn is_split_state(
    lz77size: size_t,
    points: Seq<size_t>,
    done: Seq<c_uchar>,
    lstart: size_t,
    lend: size_t,
) -> bool {
    &&& is_split_list(points, lz77size)
    &&& done.len() == lz77size
    &&& lstart + 10 <= lend <= lz77size
    &&& done[lstart as int] == 0
    &&& forall|i: int| 0 <= i < points.len() ==> !(lstart < #[trigger] points[i] < lend)
}

/// The cut that the round on `[lstart, lend)` finds: where the finder sees the least cost
/// of cutting, among the places after the block's first token.
pub open spec fn cut_found(c: spec_fn(int, int) -> int, lstart: size_t, lend: size_t) -> size_t {
    find_min(split_cost_at(c, lstart as int, lend as int), lstart + 1, lend as int).0 as size_t
}

/// Whether the round on `[lstart, lend)` leaves the block whole: the cut found costs more
/// than the whole block, or it lies at the first place searched or at the block's end.
pub open spec fn keeps_block(c: spec_fn(int, int) -> int, lstart: size_t, lend: size_t) -> bool {
    let m = find_min(split_cost_at(c, lstart as int, lend as int), lstart + 1, lend as int);
    m.1 > c(lstart as int, lend as int) || m.0 == lstart + 1 || m.0 == lend
}

/// The split list after the round on `[lstart, lend)`.
pub open spec fn points_after(
    c: spec_fn(int, int) -> int,
    points: Seq<size_t>,
    lstart: size_t,
    lend: size_t,
) -> Seq<size_t> {
    if keeps_block(c, lstart, lend) {
        points
    } else {
        insert_point(points, cut_found(c, lstart, lend))
    }
}

/// The done-marks after the round on `[lstart, lend)`.
pub open spec fn done_after(
    c: spec_fn(int, int) -> int,
    done: Seq<c_uchar>,
    lstart: size_t,
    lend: size_t,
) -> Seq<c_uchar> {
    if keeps_block(c, lstart, lend) {
        done.update(lstart as int, 1)
    } else {
        done
    }
}

/// What bounds the number of rounds still to come: the positions not marked done, and the
/// positions that are not split points.
pub open spec fn rounds_left(lz77size: size_t, points: Seq<size_t>, done: Seq<c_uchar>) -> int {
    open_marks(done) + lz77size - points.len()
}

/// The split list that the rounds end with, from the state before the round on
/// `[lstart, lend)`. With `maxblocks` above 0 no round starts once the stream is cut into
/// `maxblocks` blocks. A round finds the best cut of its block; it marks the block's start
/// done where the block stays whole, and adds the cut to the list where not. The next round
/// is on the next block chosen; the rounds end where no block is a candidate or the block
/// chosen has fewer than ten tokens.
pub open spec fn split_from(
    c: spec_fn(int, int) -> int,
    lz77size: size_t,
    maxblocks: size_t,
    points: Seq<size_t>,
    done: Seq<c_uchar>,
    lstart: size_t,
    lend: size_t,
) -> Seq<size_t>
    decreases rounds_left(lz77size, points, done),
    when is_split_state(lz77size, points, done, lstart, lend)
    via split_from_decreases
{
    if maxblocks > 0 && points.len() + 1 >= maxblocks {
        points
    } else {
        let points2 = points_after(c, points, lstart, lend);
        let done2 = done_after(c, done, lstart, lend);
        match next_block(lz77size, done2, points2) {
            None => points2,
            Some((s, e)) => if e - s < 10 {
                points2
            } else {
                split_from(c, lz77size, maxblocks, points2, done2, s, e)
            },
        }
    }
}

#[via_fn]
proof fn split_from_decreases(
    c: spec_fn(int, int) -> int,
    lz77size: size_t,
    maxblocks: size_t,
    points: Seq<size_t>,
    done: Seq<c_uchar>,
    lstart: size_t,
    lend: size_t,
) {
    lemma_round_uses_budget(c, lz77size, points, done, lstart, lend);
}

/// The split points of a stream of `lz77size` tokens under the cost `c`, cut into `maxblocks`
/// blocks at most where `maxblocks` is above 0. A stream of fewer than ten tokens has none.
pub open spec fn split_points(c: spec_fn(int, int) -> int, lz77size: size_t, maxblocks: size_t) -> Seq<
    size_t,
> {
    if lz77size < 10 {
        Seq::empty()
    } else {
        split_from(
            c,
            lz77size,
            maxblocks,
            Seq::empty(),
            Seq::new(lz77size as nat, |i: int| 0),
            0,
            lz77size,
        )
    }
}

/// Entry `i` of a split list is at least `i + 1`, so the list is shorter than the stream.
pub proof fn lemma_split_list_len(points: Seq<size_t>, lz77size: size_t)
    requires
        is_split_list(points, lz77size),
    ensures
        forall|i: int| 0 <= i < points.len() ==> #[trigger] points[i] >= i + 1,
        points.len() == 0 || points.len() < lz77size,
    decreases points.len(),
{
    if points.len() > 0 {
        let front = points.drop_last();
        lemma_split_list_len(front, lz77size);
        let n = points.len() - 1;
        if n > 0 {
            assert(front[n - 1] >= n);
            assert(points[n - 1] < points[n]);
        }
        assert forall|i: int| 0 <= i < points.len() implies #[trigger] points[i] >= i + 1 by {
            if i < n {
                assert(front[i] >= i + 1);
            }
        }
        assert(points[n] < lz77size);
    }
}

/// Marking a position done that was not done leaves one open mark fewer.
pub proof fn lemma_mark_done(done: Seq<c_uchar>, i: int)
    requires
        0 <= i < done.len(),
        done[i] == 0,
    ensures
        open_marks(done.update(i, 1)) + 1 == open_marks(done),
    decreases done.len(),
{
    let n = done.len() - 1;
    let marked = done.update(i, 1);
    if i == n {
        assert(marked.drop_last() =~= done.drop_last());
    } else {
        lemma_mark_done(done.drop_last(), i);
        assert(marked.drop_last() =~= done.drop_last().update(i, 1));
    }
}

/// A round takes one from what bounds the rounds still to come, whichever way it ends.
pub proof fn lemma_round_uses_budget(
    c: spec_fn(int, int) -> int,
    lz77size: size_t,
    points: Seq<size_t>,
    done: Seq<c_uchar>,
    lstart: size_t,
    lend: size_t,
)
    requires
        is_split_state(lz77size, points, done, lstart, lend),
    ensures
        rounds_left(
            lz77size,
            points_after(c, points, lstart, lend),
            done_after(c, done, lstart, lend),
        ) + 1 == rounds_left(lz77size, points, done),
        rounds_left(
            lz77size,
            points_after(c, points, lstart, lend),
            done_after(c, done, lstart, lend),
        ) >= 0,
{
    lemma_split_list_len(points, lz77size);
    lemma_rank_in_range(points, cut_found(c, lstart, lend));
    if keeps_block(c, lstart, lend) {
        lemma_mark_done(done, lstart as int);
    }
}

/// The rank of `x` is a place in the list or its end.
pub proof fn lemma_rank_in_range(points: Seq<size_t>, x: size_t)
    ensures
        0 <= rank(points, x) <= points.len(),
    decreases points.len(),
{
    if points.len() > 0 && points.last() >= x {
        lemma_rank_in_range(points.drop_last(), x);
    }
}

/// In an increasing list, the place that parts the entries below `x` from the others is
/// the rank of `x`.
pub proof fn lemma_rank_is(points: Seq<size_t>, x: size_t, i: int)
    requires
        0 <= i <= points.len(),
        forall|j: int| 0 <= j < i ==> points[j] < x,
        forall|j: int| i <= j < points.len() ==> points[j] >= x,
    ensures
        rank(points, x) == i,
    decreases points.len(),
{
    if points.len() > 0 {
        if points.last() < x {
            if i < points.len() {
                assert(points[points.len() - 1] >= x);
            }
        } else {
            if i == points.len() {
                assert(points[i - 1] < x);
            }
            lemma_rank_is(points.drop_last(), x, i);
        }
    }
}

/// In an increasing list, the entries before the rank of `x` are below `x`, and the others
/// are not.
pub proof fn lemma_rank_parts(points: Seq<size_t>, x: size_t)
    requires
        forall|i: int, j: int| 0 <= i < j < points.len() ==> points[i] < points[j],
    ensures
        0 <= rank(points, x) <= points.len(),
        forall|j: int| 0 <= j < rank(points, x) ==> #[trigger] points[j] < x,
        forall|j: int| rank(points, x) <= j < points.len() ==> #[trigger] points[j] >= x,
    decreases points.len(),
{
    if points.len() > 0 {
        let n = points.len() - 1;
        if points.last() < x {
            assert forall|j: int| 0 <= j < points.len() implies #[trigger] points[j] < x by {
                if j < n {
                    assert(points[j] < points[n]);
                }
            }
        } else {
            let front = points.drop_last();
            lemma_rank_parts(front, x);
            assert forall|j: int| 0 <= j < rank(points, x) implies #[trigger] points[j] < x by {
                assert(front[j] < x);
            }
            assert forall|j: int| rank(points, x) <= j < points.len() implies #[trigger] points[j]
                >= x by {
                if j < n {
                    assert(front[j] >= x);
                }
            }
        }
    }
}

/// A split list that takes in a new point of the stream is a split list, longer by one.
pub proof fn lemma_insert_point(points: Seq<size_t>, lz77size: size_t, x: size_t)
    requires
        is_split_list(points, lz77size),
        0 < x < lz77size,
        forall|i: int| 0 <= i < points.len() ==> points[i] != x,
    ensures
        is_split_list(insert_point(points, x), lz77size),
        insert_point(points, x).len() == points.len() + 1,
        insert_point(points, x)[rank(points, x)] == x,
        forall|i: int| 0 <= i < rank(points, x) ==> insert_point(points, x)[i] == points[i],
        forall|i: int|
            rank(points, x) <= i < points.len() ==> insert_point(points, x)[i + 1] == points[i],
{
    lemma_rank_parts(points, x);
    let r = rank(points, x);
    let q = insert_point(points, x);
    assert forall|i: int, j: int| 0 <= i < j < q.len() implies q[i] < q[j] by {
        if j < r {
            assert(points[i] < points[j]);
        } else if j == r {
            assert(points[i] < x);
        } else if i < r {
            assert(points[i] < x);
            assert(points[j - 1] >= x);
            assert(points[j - 1] != x);
        } else if i == r {
            assert(points[j - 1] >= x);
            assert(points[j - 1] != x);
        } else {
            assert(points[i - 1] < points[j - 1]);
        }
    }
    assert forall|i: int| 0 <= i < q.len() implies 0 < #[trigger] q[i] < lz77size by {
        if i < r {
            assert(points[i] < lz77size);
        } else if i > r {
            assert(points[i - 1] < lz77size);
        }
    }
}

/// A round that marks the block's start done, or else adds one point to the list, takes
/// one from what bounds the rounds still to come.
pub proof fn lemma_budget_shrinks(
    lz77size: size_t,
    points: Seq<size_t>,
    done: Seq<c_uchar>,
    points2: Seq<size_t>,
    done2: Seq<c_uchar>,
    lstart: size_t,
)
    requires
        is_split_list(points, lz77size),
        done.len() == lz77size,
        lstart < lz77size,
        done[lstart as int] == 0,
        (points2 == points && done2 == done.update(lstart as int, 1)) || (points2.len()
            == points.len() + 1 && done2 == done),
    ensures
        0 <= rounds_left(lz77size, points2, done2) < rounds_left(lz77size, points, done),
{
    lemma_split_list_len(points, lz77size);
    lemma_mark_done(done, lstart as int);
}

/// Where one of the first `n` blocks is a candidate, one of them is the longest candidate
/// and the earliest of its length.
pub proof fn lemma_largest_candidate_exists(
    lz77size: size_t,
    done: Seq<c_uchar>,
    points: Seq<size_t>,
    n: int,
    j: int,
)
    requires
        j < n,
        is_candidate(lz77size, done, points, j),
    ensures
        exists|k: int| is_largest_candidate_before(lz77size, done, points, n, k),
    decreases n,
{
    let m = n - 1;
    if n <= 1 {
        assert(j == 0);
        assert(is_largest_candidate_before(lz77size, done, points, n, 0));
    } else if j < n - 1 {
        lemma_largest_candidate_exists(lz77size, done, points, m, j);
        let k = choose|k: int| is_largest_candidate_before(lz77size, done, points, m, k);
        if is_candidate(lz77size, done, points, n - 1) && block_len(lz77size, points, n - 1)
            > block_len(lz77size, points, k) {
            assert(is_largest_candidate_before(lz77size, done, points, n, n - 1));
        } else {
            assert(is_largest_candidate_before(lz77size, done, points, n, k));
        }
    } else {
        if exists|i: int| i < m && is_candidate(lz77size, done, points, i) {
            let i = choose|i: int| i < m && is_candidate(lz77size, done, points, i);
            lemma_largest_candidate_exists(lz77size, done, points, m, i);
            let k = choose|k: int| is_largest_candidate_before(lz77size, done, points, m, k);
            if block_len(lz77size, points, n - 1) > block_len(lz77size, points, k) {
                assert(is_largest_candidate_before(lz77size, done, points, n, n - 1));
            } else {
                assert(is_largest_candidate_before(lz77size, done, points, n, k));
            }
        } else {
            assert(is_largest_candidate_before(lz77size, done, points, n, n - 1));
        }
    }
}

/// The block chosen is a block of the split list: it is not empty, it starts where its mark
/// is not done, it ends within the stream, and no split point lies inside it. No block is
/// chosen exactly where every block's start is marked done.
pub proof fn lemma_next_block_is_block(lz77size: size_t, done: Seq<c_uchar>, points: Seq<size_t>)
    requires
        lz77size >= 1,
        done.len() == lz77size,
        is_split_list(points, lz77size),
    ensures
        next_block(lz77size, done, points) is None <==> all_done(done, points),
        next_block(lz77size, done, points) matches Some((s, e)) ==> {
            &&& s < e <= lz77size
            &&& done[s as int] == 0
            &&& forall|i: int| 0 <= i < points.len() ==> !(s < #[trigger] points[i] < e)
            &&& exists|k: int|
                is_largest_candidate(lz77size, done, points, k) && s == block_start(points, k)
                    && e == block_end(lz77size, points, k)
        },
{
    if exists|j: int| is_candidate(lz77size, done, points, j) {
        let j = choose|j: int| is_candidate(lz77size, done, points, j);
        let n = points.len() as int + 1;
        lemma_largest_candidate_exists(lz77size, done, points, n, j);
        let w = choose|w: int| is_largest_candidate_before(lz77size, done, points, n, w);
        assert(is_largest_candidate(lz77size, done, points, w));
        let k = choose|k: int| is_largest_candidate(lz77size, done, points, k);
        assert(is_candidate(lz77size, done, points, k));
        assert(!all_done(done, points)) by {
            assert(done[block_start(points, k) as int] == 0);
        }
        lemma_blocks_not_empty(lz77size, points, k);
        let s = block_start(points, k);
        let e = block_end(lz77size, points, k);
        assert forall|i: int| 0 <= i < points.len() implies !(s < #[trigger] points[i] < e) by {
            if i < k - 1 {
                assert(points[i] < points[k - 1]);
            } else if i > k {
                assert(points[k] < points[i]);
            }
        }
    } else {
        assert forall|k: int| 0 <= k <= points.len() implies done[#[trigger] block_start(
            points,
            k,
        ) as int] != 0 by {
            assert(!is_candidate(lz77size, done, points, k));
        }
    }
}

/// No block of a split list of a stream that has a token is empty.
pub proof fn lemma_blocks_not_empty(lz77size: size_t, points: Seq<size_t>, k: int)
    requires
        lz77size >= 1,
        is_split_list(points, lz77size),
        0 <= k <= points.len(),
    ensures
        block_start(points, k) < block_end(lz77size, points, k) <= lz77size,
{
    if 0 < k < points.len() {
        assert(points[k - 1] < points[k] < lz77size);
    } else if k > 0 {
        assert(points[k - 1] < lz77size);
    } else if k < points.len() {
        assert(0 < points[k] < lz77size);
    }
}

/// The cut that a round finds lies strictly inside the round's block. The round leaves a
/// split list and one mark per token, and the block chosen after it, where it has ten tokens
/// or more, is one that a round may start from.
pub proof fn lemma_round_keeps_state(
    c: spec_fn(int, int) -> int,
    lz77size: size_t,
    points: Seq<size_t>,
    done: Seq<c_uchar>,
    lstart: size_t,
    lend: size_t,
)
    requires
        is_split_state(lz77size, points, done, lstart, lend),
    ensures
        lstart < cut_found(c, lstart, lend) < lend,
        is_split_list(points_after(c, points, lstart, lend), lz77size),
        done_after(c, done, lstart, lend).len() == lz77size,
        points_after(c, points, lstart, lend).len() <= points.len() + 1,
        next_block(
            lz77size,
            done_after(c, done, lstart, lend),
            points_after(c, points, lstart, lend),
        ) matches Some((s, e)) ==> (e - s >= 10 ==> is_split_state(
            lz77size,
            points_after(c, points, lstart, lend),
            done_after(c, done, lstart, lend),
            s,
            e,
        )),
{
    let cut = cut_found(c, lstart, lend);
    lemma_find_min_in_range(split_cost_at(c, lstart as int, lend as int), lstart + 1, lend as int);
    if !keeps_block(c, lstart, lend) {
        assert forall|i: int| 0 <= i < points.len() implies points[i] != cut by {
            assert(!(lstart < points[i] < lend));
        }
        lemma_insert_point(points, lz77size, cut);
    }
    lemma_next_block_is_block(
        lz77size,
        done_after(c, done, lstart, lend),
        points_after(c, points, lstart, lend),
    );
}

/// The rounds end with a split list, and with `maxblocks` above 0 the list cuts the stream
/// into `maxblocks` blocks at most, where the list that the rounds start from does.
pub proof fn lemma_split_from_bounds(
    c: spec_fn(int, int) -> int,
    lz77size: size_t,
    maxblocks: size_t,
    points: Seq<size_t>,
    done: Seq<c_uchar>,
    lstart: size_t,
    lend: size_t,
)
    requires
        is_split_state(lz77size, points, done, lstart, lend),
        maxblocks > 0 ==> points.len() + 1 <= maxblocks,
    ensures
        is_split_list(split_from(c, lz77size, maxblocks, points, done, lstart, lend), lz77size),
        maxblocks > 0 ==> split_from(c, lz77size, maxblocks, points, done, lstart, lend).len() + 1
            <= maxblocks,
    decreases rounds_left(lz77size, points, done),
{
    lemma_round_uses_budget(c, lz77size, points, done, lstart, lend);
    lemma_round_keeps_state(c, lz77size, points, done, lstart, lend);
    if !(maxblocks > 0 && points.len() + 1 >= maxblocks) {
        let points2 = points_after(c, points, lstart, lend);
        let done2 = done_after(c, done, lstart, lend);
        match next_block(lz77size, done2, points2) {
            None => {},
            Some((s, e)) => {
                if e - s >= 10 {
                    lemma_split_from_bounds(c, lz77size, maxblocks, points2, done2, s, e);
                }
            },
        }
    }
}

/// Whatever the cost, the split points of a stream are a split list: strictly increasing
/// and strictly inside the stream. With `maxblocks` above 0 they cut the stream into
/// `maxblocks` blocks at most, and a stream of fewer than ten tokens has none.
pub proof fn lemma_split_points_bounds(
    c: spec_fn(int, int) -> int,
    lz77size: size_t,
    maxblocks: size_t,
)
    ensures
        is_split_list(split_points(c, lz77size, maxblocks), lz77size),
        maxblocks > 0 ==> split_points(c, lz77size, maxblocks).len() + 1 <= maxblocks,
        lz77size < 10 ==> split_points(c, lz77size, maxblocks).len() == 0,
{
    if lz77size >= 10 {
        lemma_split_from_bounds(
            c,
            lz77size,
            maxblocks,
            Seq::empty(),
            Seq::new(lz77size as nat, |i: int| 0),
            0,
            lz77size,
        );
    }
}

/// The split list that the rounds end with when they are taken up again from a list and
/// its done-marks: the list itself where no block is a candidate or the block chosen has
/// fewer than ten tokens, and else what the rounds from the block chosen end with.
pub open spec fn split_on(
    c: spec_fn(int, int) -> int,
    lz77size: size_t,
    maxblocks: size_t,
    points: Seq<size_t>,
    done: Seq<c_uchar>,
) -> Seq<size_t> {
    match next_block(lz77size, done, points) {
        None => points,
        Some((s, e)) => if e - s < 10 {
            points
        } else {
            split_from(c, lz77size, maxblocks, points, done, s, e)
        },
    }
}

/// A round that is not held back by the limit ends with what the rounds end with when
/// taken up again from the round's outcome.
pub proof fn lemma_split_from_unfolds(
    c: spec_fn(int, int) -> int,
    lz77size: size_t,
    maxblocks: size_t,
    points: Seq<size_t>,
    done: Seq<c_uchar>,
    lstart: size_t,
    lend: size_t,
)
    requires
        is_split_state(lz77size, points, done, lstart, lend),
    ensures
        split_from(c, lz77size, maxblocks, points, done, lstart, lend) == if maxblocks > 0
            && points.len() + 1 >= maxblocks {
            points
        } else {
            split_on(
                c,
                lz77size,
                maxblocks,
                points_after(c, points, lstart, lend),
                done_after(c, done, lstart, lend),
            )
        },
{
    lemma_round_uses_budget(c, lz77size, points, done, lstart, lend);
    lemma_round_keeps_state(c, lz77size, points, done, lstart, lend);
}

/// Where every block's start is marked done, no block is chosen, and the rounds taken up
/// again end at once with the split list as it is.
pub proof fn lemma_all_done_stops(
    c: spec_fn(int, int) -> int,
    lz77size: size_t,
    maxblocks: size_t,
    points: Seq<size_t>,
    done: Seq<c_uchar>,
)
    requires
        all_done(done, points),
    ensures
        next_block(lz77size, done, points) is None,
        split_on(c, lz77size, maxblocks, points, done) == points,
{
    assert forall|k: int| !is_candidate(lz77size, done, points, k) by {
        if 0 <= k <= points.len() {
            assert(done[block_start(points, k) as int] != 0);
        }
    }
}

} // verus!
