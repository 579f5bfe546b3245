//! Finding, for a colour, the candidate tile that matches it best.
//!
//! Candidates are compared by their most representative colour first. Those
//! that tie for the least distance are compared again by their next colour,
//! and so on; a candidate that has no further colour leaves the contest while
//! another one still has some. When nobody in the tie has a further colour,
//! the candidate whose path comes first in the dictionary wins.

use vstd::prelude::*;
use deltae::LabValue;
use crate::color::{distance, distance_of};
use crate::order::{lemma_path_less_transitive, lemma_path_order_total, path_before, path_less};
use crate::signature::{signature_views, BlockSignature, BlockView};

verus! {

/// Every candidate has at least one colour.
pub open spec fn all_ranked(blocks: Seq<BlockView>) -> bool {
    forall|i: int| 0 <= i < blocks.len() ==> (#[trigger] blocks[i]).entries.len() > 0
}

/// The contenders `live` are candidates of `blocks` that have a colour at
/// rank `k`.
pub open spec fn in_play(blocks: Seq<BlockView>, live: Seq<usize>, k: nat) -> bool {
    forall|j: int|
        0 <= j < live.len() ==> (#[trigger] live[j]) < blocks.len()
            && blocks[live[j] as int].entries.len() > k
}

/// The indices `0, 1, .., n - 1`.
pub open spec fn everyone(n: nat) -> Seq<usize> {
    Seq::new(n, |i: int| i as usize)
}

/// Distance from the query to the colour at rank `k` of candidate `i`.
pub open spec fn rank_distance(
    query: LabValue,
    blocks: Seq<BlockView>,
    i: usize,
    k: nat,
) -> u32 {
    distance_of(query, blocks[i as int].entries[k as int].lab)
}

/// No contender is closer to the query at rank `k` than candidate `i`.
pub open spec fn is_closest(
    query: LabValue,
    blocks: Seq<BlockView>,
    live: Seq<usize>,
    k: nat,
    i: usize,
) -> bool {
    forall|j: int|
        0 <= j < live.len() ==> rank_distance(query, blocks, i, k) <= rank_distance(
            query,
            blocks,
            #[trigger] live[j],
            k,
        )
}

/// No distance is less than `d`.
pub open spec fn is_least(dists: Seq<u32>, d: u32) -> bool {
    forall|m: int| 0 <= m < dists.len() ==> d <= #[trigger] dists[m]
}

/// Those of the first `n` items whose distance is the least of all the
/// distances, in their order; `dists[j]` is the distance of `items[j]`.
pub open spec fn nearest_items(items: Seq<usize>, dists: Seq<u32>, n: nat) -> Seq<usize>
    decreases n,
{
    if n == 0 {
        Seq::empty()
    } else {
        let front = nearest_items(items, dists, (n - 1) as nat);
        if is_least(dists, dists[n - 1]) {
            front.push(items[n - 1])
        } else {
            front
        }
    }
}

/// [`is_closest`] as a predicate on candidates.
pub open spec fn closest_pred(
    query: LabValue,
    blocks: Seq<BlockView>,
    live: Seq<usize>,
    k: nat,
) -> spec_fn(usize) -> bool {
    |i: usize| is_closest(query, blocks, live, k, i)
}

/// The contenders that share the least distance at rank `k`, in their order.
pub open spec fn tied(
    query: LabValue,
    blocks: Seq<BlockView>,
    live: Seq<usize>,
    k: nat,
) -> Seq<usize> {
    live.filter(closest_pred(query, blocks, live, k))
}

/// Candidate `i` has a colour after rank `k`.
pub open spec fn has_more(blocks: Seq<BlockView>, i: usize, k: nat) -> bool {
    blocks[i as int].entries.len() > k + 1
}

/// [`has_more`] as a predicate on candidates.
pub open spec fn more_pred(blocks: Seq<BlockView>, k: nat) -> spec_fn(usize) -> bool {
    |i: usize| has_more(blocks, i, k)
}

/// Those of `contenders` that have a colour after rank `k`, in their order.
pub open spec fn survivors(blocks: Seq<BlockView>, contenders: Seq<usize>, k: nat) -> Seq<
    usize,
> {
    contenders.filter(more_pred(blocks, k))
}

/// The contender whose path comes first in the dictionary; of several with
/// that path, the first in `contenders`.
pub open spec fn first_by_path(blocks: Seq<BlockView>, contenders: Seq<usize>) -> usize
    decreases contenders.len(),
{
    if contenders.len() == 0 {
        0
    } else if contenders.len() == 1 {
        contenders[0]
    } else {
        let best = first_by_path(blocks, contenders.drop_last());
        if path_less(blocks[contenders.last() as int].path, blocks[best as int].path) {
            contenders.last()
        } else {
            best
        }
    }
}

/// The largest number of colours that any candidate has.
pub open spec fn longest(blocks: Seq<BlockView>) -> nat
    decreases blocks.len(),
{
    if blocks.len() == 0 {
        0
    } else {
        let rest = longest(blocks.drop_last());
        let len = blocks.last().entries.len();
        if len > rest {
            len
        } else {
            rest
        }
    }
}

/// The winner among the contenders `live`, all of them level up to rank `k`.
///
/// One contender alone at the least distance wins. Several, none of which has
/// a further colour, are told apart by their paths. Otherwise those of them
/// that have a further colour go on to rank `k + 1`.
pub open spec fn resolve(
    query: LabValue,
    blocks: Seq<BlockView>,
    live: Seq<usize>,
    k: nat,
) -> usize
    decreases longest(blocks) - k,
    when in_play(blocks, live, k)
    via resolve_decreases
{
    let level = tied(query, blocks, live, k);
    let next = survivors(blocks, level, k);
    if level.len() == 1 {
        level[0]
    } else if next.len() == 0 {
        first_by_path(blocks, level)
    } else {
        resolve(query, blocks, next, k + 1)
    }
}

#[via_fn]
proof fn resolve_decreases(query: LabValue, blocks: Seq<BlockView>, live: Seq<usize>, k: nat) {
    let level = tied(query, blocks, live, k);
    let next = survivors(blocks, level, k);
    if level.len() != 1 && next.len() != 0 {
        lemma_survivors(blocks, level, k);
        lemma_tied(query, blocks, live, k);
        assert(live.contains(next[0]));
        lemma_longest(blocks, next[0] as int);
    }
}

/// The candidate of `blocks` that matches `query` best.
pub open spec fn winner_of(query: LabValue, blocks: Seq<BlockView>) -> usize {
    resolve(query, blocks, everyone(blocks.len()), 0)
}

/// No candidate has more colours than [`longest`] says.
pub proof fn lemma_longest(blocks: Seq<BlockView>, i: int)
    requires
        0 <= i < blocks.len(),
    ensures
        blocks[i].entries.len() <= longest(blocks),
    decreases blocks.len(),
{
    if i < blocks.len() - 1 {
        lemma_longest(blocks.drop_last(), i);
    }
}

/// Taking one more element into a filtered prefix.
pub proof fn lemma_filter_step<A>(s: Seq<A>, pred: spec_fn(A) -> bool, n: int)
    requires
        0 <= n < s.len(),
    ensures
        s.take(n + 1).filter(pred) == if pred(s[n]) {
            s.take(n).filter(pred).push(s[n])
        } else {
            s.take(n).filter(pred)
        },
{
    reveal(Seq::filter);
    assert(s.take(n + 1).drop_last() =~= s.take(n));
}

/// Whoever is in the tie is a contender, and nobody is closer.
pub proof fn lemma_tied(query: LabValue, blocks: Seq<BlockView>, live: Seq<usize>, k: nat)
    ensures
        forall|j: int|
            0 <= j < tied(query, blocks, live, k).len() ==> live.contains(
                #[trigger] tied(query, blocks, live, k)[j],
            ) && is_closest(query, blocks, live, k, tied(query, blocks, live, k)[j]),
{
    let pred = closest_pred(query, blocks, live, k);
    let level = live.filter(pred);
    assert forall|j: int| 0 <= j < level.len() implies live.contains(#[trigger] level[j])
        && is_closest(query, blocks, live, k, level[j]) by {
        live.lemma_filter_pred(pred, j);
        assert(level.contains(level[j]));
        live.lemma_filter_contains_rev(pred, level[j]);
    }
}

/// Whoever goes on was among the contenders and has a further colour.
pub proof fn lemma_survivors(blocks: Seq<BlockView>, contenders: Seq<usize>, k: nat)
    ensures
        forall|j: int|
            0 <= j < survivors(blocks, contenders, k).len() ==> contenders.contains(
                #[trigger] survivors(blocks, contenders, k)[j],
            ) && has_more(blocks, survivors(blocks, contenders, k)[j], k),
{
    let pred = more_pred(blocks, k);
    let next = contenders.filter(pred);
    assert forall|j: int| 0 <= j < next.len() implies contenders.contains(#[trigger] next[j])
        && has_more(blocks, next[j], k) by {
        contenders.lemma_filter_pred(pred, j);
        assert(next.contains(next[j]));
        contenders.lemma_filter_contains_rev(pred, next[j]);
    }
}

/// The winner by path is one of the contenders, and no contender's path
/// comes before the winner's.
pub proof fn lemma_first_by_path(blocks: Seq<BlockView>, contenders: Seq<usize>)
    requires
        contenders.len() > 0,
    ensures
        contenders.contains(first_by_path(blocks, contenders)),
        forall|j: int|
            0 <= j < contenders.len() ==> !path_less(
                blocks[#[trigger] contenders[j] as int].path,
                blocks[first_by_path(blocks, contenders) as int].path,
            ),
    decreases contenders.len(),
{
    let winner = first_by_path(blocks, contenders);
    if contenders.len() == 1 {
        assert(contenders[0] == winner);
        crate::order::lemma_path_less_irreflexive(blocks[winner as int].path);
    } else {
        let front = contenders.drop_last();
        lemma_first_by_path(blocks, front);
        let best = first_by_path(blocks, front);
        let at = choose|j: int| 0 <= j < front.len() && front[j] == best;
        assert(contenders[at] == best);
        assert(contenders[contenders.len() - 1] == contenders.last());
        crate::order::lemma_path_less_irreflexive(blocks[winner as int].path);
        assert forall|j: int| 0 <= j < contenders.len() implies !path_less(
            blocks[#[trigger] contenders[j] as int].path,
            blocks[winner as int].path,
        ) by {
            if j < front.len() {
                assert(front[j] == contenders[j]);
                if winner != best && path_less(
                    blocks[contenders[j] as int].path,
                    blocks[winner as int].path,
                ) {
                    lemma_path_less_transitive(
                        blocks[contenders[j] as int].path,
                        blocks[winner as int].path,
                        blocks[best as int].path,
                    );
                }
            }
        }
    }
}

/// Where nothing passes a filter, nothing is left.
pub proof fn lemma_filter_none<A>(s: Seq<A>, pred: spec_fn(A) -> bool)
    requires
        forall|j: int| 0 <= j < s.len() ==> !pred(#[trigger] s[j]),
    ensures
        s.filter(pred) == Seq::<A>::empty(),
    decreases s.len(),
{
    reveal(Seq::filter);
    if s.len() > 0 {
        lemma_filter_none(s.drop_last(), pred);
    }
}

/// Where everything passes a filter, everything is left.
pub proof fn lemma_filter_all<A>(s: Seq<A>, pred: spec_fn(A) -> bool)
    requires
        forall|j: int| 0 <= j < s.len() ==> pred(#[trigger] s[j]),
    ensures
        s.filter(pred) == s,
    decreases s.len(),
{
    reveal(Seq::filter);
    if s.len() > 0 {
        lemma_filter_all(s.drop_last(), pred);
        assert(s.drop_last().push(s.last()) =~= s);
    }
}

/// Where one element alone passes a filter, it alone is left.
pub proof fn lemma_filter_one<A>(s: Seq<A>, pred: spec_fn(A) -> bool, i: int)
    requires
        0 <= i < s.len(),
        pred(s[i]),
        forall|j: int| 0 <= j < s.len() && j != i ==> !pred(#[trigger] s[j]),
    ensures
        s.filter(pred) == seq![s[i]],
    decreases s.len(),
{
    reveal(Seq::filter);
    if i == s.len() - 1 {
        lemma_filter_none(s.drop_last(), pred);
        assert(Seq::<A>::empty().push(s[i]) =~= seq![s[i]]);
    } else {
        lemma_filter_one(s.drop_last(), pred, i);
    }
}

/// A candidate whose most representative colour is closer to the query than
/// that of every other candidate wins.
pub proof fn lemma_sole_closest_wins(query: LabValue, blocks: Seq<BlockView>, i: usize)
    requires
        i < blocks.len() <= usize::MAX,
        all_ranked(blocks),
        forall|j: usize|
            j < blocks.len() && j != i ==> rank_distance(query, blocks, i, 0) < rank_distance(
                query,
                blocks,
                j,
                0,
            ),
    ensures
        winner_of(query, blocks) == i,
{
    let live = everyone(blocks.len());
    let pred = closest_pred(query, blocks, live, 0);
    assert(live[i as int] == i);
    assert(pred(i)) by {
        assert forall|j: int| 0 <= j < live.len() implies rank_distance(query, blocks, i, 0)
            <= rank_distance(query, blocks, #[trigger] live[j], 0) by {
            assert(live[j] == j as usize);
        }
    }
    assert forall|j: int| 0 <= j < live.len() && j != i implies !pred(#[trigger] live[j]) by {
        assert(live[j] == j as usize);
    }
    lemma_filter_one(live, pred, i as int);
    assert(in_play(blocks, live, 0));
}

/// Of two candidates that each show one colour, the same for both, the one
/// whose path comes first in the dictionary wins, whatever the query; with
/// the same path too, the first one wins.
pub proof fn lemma_twins_by_path(query: LabValue, blocks: Seq<BlockView>)
    requires
        blocks.len() == 2,
        blocks[0].entries.len() == 1,
        blocks[1].entries.len() == 1,
        blocks[0].entries[0].lab == blocks[1].entries[0].lab,
    ensures
        winner_of(query, blocks) == (if path_less(blocks[1].path, blocks[0].path) {
            1usize
        } else {
            0usize
        }),
{
    let live = everyone(2);
    assert(live =~= seq![0usize, 1usize]);
    assert(in_play(blocks, live, 0));
    lemma_filter_all(live, closest_pred(query, blocks, live, 0));
    lemma_filter_none(live, more_pred(blocks, 0));
    assert(live.drop_last() =~= seq![0usize]);
    assert(first_by_path(blocks, live.drop_last()) == 0);
}

/// The winner is one of the candidates.
pub proof fn lemma_winner_is_candidate(query: LabValue, blocks: Seq<BlockView>)
    requires
        0 < blocks.len() <= usize::MAX,
        all_ranked(blocks),
    ensures
        winner_of(query, blocks) < blocks.len(),
{
    let live = everyone(blocks.len());
    assert forall|j: int| 0 <= j < live.len() implies (#[trigger] live[j]) < blocks.len()
        && blocks[live[j] as int].entries.len() > 0 by {
        assert(live[j] == j as usize);
    }
    lemma_resolve_in_play(query, blocks, live, 0);
    let winner = winner_of(query, blocks);
    let at = choose|j: int| 0 <= j < live.len() && live[j] == winner;
    assert(live[at] == at as usize);
}

/// No candidate's most representative colour is closer to the query than
/// the winner's.
pub proof fn lemma_winner_is_closest(query: LabValue, blocks: Seq<BlockView>)
    requires
        0 < blocks.len() <= usize::MAX,
        all_ranked(blocks),
    ensures
        is_closest(query, blocks, everyone(blocks.len()), 0, winner_of(query, blocks)),
{
    let live = everyone(blocks.len());
    assert forall|j: int| 0 <= j < live.len() implies (#[trigger] live[j]) < blocks.len()
        && blocks[live[j] as int].entries.len() > 0 by {
        assert(live[j] == j as usize);
    }
    let level = tied(query, blocks, live, 0);
    let next = survivors(blocks, level, 0);
    let winner = winner_of(query, blocks);
    lemma_tied(query, blocks, live, 0);
    lemma_some_closest(query, blocks, live, 0);
    if level.len() == 1 {
        assert(winner == level[0]);
    } else if next.len() == 0 {
        lemma_first_by_path(blocks, level);
        let at = choose|j: int| 0 <= j < level.len() && level[j] == winner;
        assert(is_closest(query, blocks, live, 0, level[at]));
    } else {
        lemma_survivors(blocks, level, 0);
        assert forall|j: int| 0 <= j < next.len() implies (#[trigger] next[j]) < blocks.len()
            && blocks[next[j] as int].entries.len() > 1 by {
            let c = next[j];
            assert(level.contains(c));
            let at = choose|m: int| 0 <= m < level.len() && level[m] == c;
            assert(live.contains(level[at]));
            let from = choose|m: int| 0 <= m < live.len() && live[m] == c;
            assert(live[from] < blocks.len());
        }
        lemma_resolve_in_play(query, blocks, next, 1);
        let at = choose|j: int| 0 <= j < next.len() && next[j] == winner;
        assert(level.contains(next[at]));
        let from = choose|m: int| 0 <= m < level.len() && level[m] == winner;
        assert(is_closest(query, blocks, live, 0, level[from]));
    }
}

/// Whoever wins was a contender.
pub proof fn lemma_resolve_in_play(
    query: LabValue,
    blocks: Seq<BlockView>,
    live: Seq<usize>,
    k: nat,
)
    requires
        live.len() > 0,
        in_play(blocks, live, k),
    ensures
        live.contains(resolve(query, blocks, live, k)),
    decreases longest(blocks) - k,
{
    let level = tied(query, blocks, live, k);
    let next = survivors(blocks, level, k);
    lemma_tied(query, blocks, live, k);
    lemma_survivors(blocks, level, k);
    if level.len() == 1 {
    } else if next.len() == 0 {
        lemma_some_closest(query, blocks, live, k);
        lemma_first_by_path(blocks, level);
        let winner = first_by_path(blocks, level);
        let at = choose|j: int| 0 <= j < level.len() && level[j] == winner;
        assert(live.contains(level[at]));
    } else {
        assert forall|j: int| 0 <= j < next.len() implies (#[trigger] next[j]) < blocks.len()
            && blocks[next[j] as int].entries.len() > k + 1 by {
            let c = next[j];
            assert(level.contains(c));
            let at = choose|m: int| 0 <= m < level.len() && level[m] == c;
            assert(live.contains(level[at]));
            let from = choose|m: int| 0 <= m < live.len() && live[m] == c;
            assert(live[from] < blocks.len());
        }
        assert(level.contains(next[0]));
        lemma_longest(blocks, next[0] as int);
        lemma_resolve_in_play(query, blocks, next, k + 1);
        let winner = resolve(query, blocks, next, k + 1);
        let at = choose|j: int| 0 <= j < next.len() && next[j] == winner;
        assert(level.contains(next[at]));
        let from = choose|m: int| 0 <= m < level.len() && level[m] == winner;
        assert(live.contains(level[from]));
    }
}

/// Among contenders there is always one that nobody is closer than.
pub proof fn lemma_some_closest(
    query: LabValue,
    blocks: Seq<BlockView>,
    live: Seq<usize>,
    k: nat,
)
    requires
        live.len() > 0,
    ensures
        tied(query, blocks, live, k).len() > 0,
{
    let at = lemma_least_at(query, blocks, live, k, live.len() as int);
    let pred = closest_pred(query, blocks, live, k);
    assert(pred(live[at]));
    live.lemma_filter_contains(pred, at);
}

/// Among the first `n` contenders, the place of one that none of them is
/// closer than.
pub proof fn lemma_least_at(
    query: LabValue,
    blocks: Seq<BlockView>,
    live: Seq<usize>,
    k: nat,
    n: int,
) -> (at: int)
    requires
        0 < n <= live.len(),
    ensures
        0 <= at < n,
        forall|j: int|
            0 <= j < n ==> rank_distance(query, blocks, live[at], k) <= rank_distance(
                query,
                blocks,
                #[trigger] live[j],
                k,
            ),
    decreases n,
{
    if n == 1 {
        0
    } else {
        let before = lemma_least_at(query, blocks, live, k, n - 1);
        if rank_distance(query, blocks, live[n - 1], k) < rank_distance(
            query,
            blocks,
            live[before],
            k,
        ) {
            n - 1
        } else {
            before
        }
    }
}

/// No two candidates have the same path.
pub open spec fn distinct_paths(blocks: Seq<BlockView>) -> bool {
    forall|i: int, j: int|
        0 <= i < j < blocks.len() ==> (#[trigger] blocks[i]).path != (#[trigger] blocks[j]).path
}

/// The candidate `block` is one of the contenders `others` of `among`.
pub open spec fn contends(block: BlockView, among: Seq<BlockView>, others: Seq<usize>) -> bool {
    exists|m: int| 0 <= m < others.len() && among[#[trigger] others[m] as int] == block
}

/// Every contender `live` of `blocks` is one of the contenders `others` of
/// `among`.
pub open spec fn covered(
    blocks: Seq<BlockView>,
    live: Seq<usize>,
    among: Seq<BlockView>,
    others: Seq<usize>,
) -> bool {
    forall|j: int|
        0 <= j < live.len() ==> contends(blocks[#[trigger] live[j] as int], among, others)
}

/// The contenders are candidates.
pub open spec fn in_range(blocks: Seq<BlockView>, live: Seq<usize>) -> bool {
    forall|j: int| 0 <= j < live.len() ==> (#[trigger] live[j]) < blocks.len()
}

/// The two palettes hold the same candidates.
pub open spec fn same_members(one: Seq<BlockView>, other: Seq<BlockView>) -> bool {
    &&& forall|i: int| 0 <= i < one.len() ==> other.contains(#[trigger] one[i])
    &&& forall|i: int| 0 <= i < other.len() ==> one.contains(#[trigger] other[i])
}

/// Where paths differ, candidates with one path are one candidate.
pub proof fn lemma_one_path_one_candidate(blocks: Seq<BlockView>, x: int, y: int)
    requires
        distinct_paths(blocks),
        0 <= x < blocks.len(),
        0 <= y < blocks.len(),
        blocks[x].path == blocks[y].path,
    ensures
        x == y,
{
    if x < y {
        assert(blocks[x].path != blocks[y].path);
    } else if y < x {
        assert(blocks[y].path != blocks[x].path);
    }
}

/// What passes a filter occurs no more often than before.
pub proof fn lemma_filter_no_duplicates<A>(s: Seq<A>, pred: spec_fn(A) -> bool)
    requires
        s.no_duplicates(),
    ensures
        s.filter(pred).no_duplicates(),
    decreases s.len(),
{
    reveal(Seq::filter);
    if s.len() > 0 {
        let front = s.drop_last();
        lemma_filter_no_duplicates(front, pred);
        let kept = front.filter(pred);
        let out = s.filter(pred);
        assert forall|i: int, j: int|
            0 <= i < out.len() && 0 <= j < out.len() && i != j implies out[i] != out[j] by {
            if i < kept.len() && j < kept.len() {
                assert(out[i] == kept[i] && out[j] == kept[j]);
            } else {
                let low = if i < j {
                    i
                } else {
                    j
                };
                front.lemma_filter_pred(pred, low);
                assert(kept.contains(kept[low]));
                front.lemma_filter_contains_rev(pred, kept[low]);
                let at = choose|m: int| 0 <= m < front.len() && front[m] == kept[low];
                assert(s[at] == kept[low]);
                assert(s[s.len() - 1] == s.last());
            }
        }
    }
}

/// Those in the tie are in play as the contenders were, each once if the
/// contenders were there once.
pub proof fn lemma_tied_in_play(
    query: LabValue,
    blocks: Seq<BlockView>,
    live: Seq<usize>,
    k: nat,
)
    requires
        in_play(blocks, live, k),
    ensures
        in_play(blocks, tied(query, blocks, live, k), k),
        in_range(blocks, tied(query, blocks, live, k)),
        live.len() > 0 ==> tied(query, blocks, live, k).len() > 0,
        live.no_duplicates() ==> tied(query, blocks, live, k).no_duplicates(),
{
    let level = tied(query, blocks, live, k);
    lemma_tied(query, blocks, live, k);
    assert forall|j: int| 0 <= j < level.len() implies (#[trigger] level[j]) < blocks.len()
        && blocks[level[j] as int].entries.len() > k by {
        assert(live.contains(level[j]));
        let from = choose|m: int| 0 <= m < live.len() && live[m] == level[j];
        assert(live[from] < blocks.len());
    }
    if live.len() > 0 {
        lemma_some_closest(query, blocks, live, k);
    }
    if live.no_duplicates() {
        lemma_filter_no_duplicates(live, closest_pred(query, blocks, live, k));
    }
}

/// Those who go on are in play at the next rank, each once if the
/// contenders were there once.
pub proof fn lemma_survivors_in_play(blocks: Seq<BlockView>, contenders: Seq<usize>, k: nat)
    requires
        in_play(blocks, contenders, k),
    ensures
        in_play(blocks, survivors(blocks, contenders, k), k + 1),
        contenders.no_duplicates() ==> survivors(blocks, contenders, k).no_duplicates(),
        survivors(blocks, contenders, k).len() > 0 ==> longest(blocks) > k + 1,
{
    let next = survivors(blocks, contenders, k);
    lemma_survivors(blocks, contenders, k);
    assert forall|j: int| 0 <= j < next.len() implies (#[trigger] next[j]) < blocks.len()
        && blocks[next[j] as int].entries.len() > k + 1 by {
        assert(contenders.contains(next[j]));
        let from = choose|m: int| 0 <= m < contenders.len() && contenders[m] == next[j];
        assert(contenders[from] < blocks.len());
    }
    if contenders.no_duplicates() {
        lemma_filter_no_duplicates(contenders, more_pred(blocks, k));
    }
    if next.len() > 0 {
        assert(next[0] < blocks.len());
        lemma_longest(blocks, next[0] as int);
    }
}

/// Where two sets of contenders hold the same candidates, whoever is in the
/// tie of the one is in the tie of the other.
pub proof fn lemma_tied_covered(
    query: LabValue,
    blocks: Seq<BlockView>,
    live: Seq<usize>,
    among: Seq<BlockView>,
    others: Seq<usize>,
    k: nat,
)
    requires
        covered(blocks, live, among, others),
        covered(among, others, blocks, live),
    ensures
        covered(blocks, tied(query, blocks, live, k), among, tied(query, among, others, k)),
{
    let level = tied(query, blocks, live, k);
    let pred = closest_pred(query, among, others, k);
    let other_level = tied(query, among, others, k);
    lemma_tied(query, blocks, live, k);
    assert forall|j: int| 0 <= j < level.len() implies contends(
        blocks[#[trigger] level[j] as int],
        among,
        other_level,
    ) by {
        let x = level[j];
        assert(live.contains(x));
        let from = choose|m: int| 0 <= m < live.len() && live[m] == x;
        assert(contends(blocks[live[from] as int], among, others));
        let to = choose|m: int|
            0 <= m < others.len() && among[#[trigger] others[m] as int] == blocks[x as int];
        let y = others[to];
        assert forall|j2: int| 0 <= j2 < others.len() implies rank_distance(query, among, y, k)
            <= rank_distance(query, among, #[trigger] others[j2], k) by {
            assert(contends(among[others[j2] as int], blocks, live));
            let back = choose|m: int|
                0 <= m < live.len() && blocks[#[trigger] live[m] as int] == among[others[j2]
                    as int];
            assert(rank_distance(query, blocks, x, k) <= rank_distance(
                query,
                blocks,
                live[back],
                k,
            ));
        }
        assert(pred(others[to]));
        others.lemma_filter_contains(pred, to);
        let m = choose|m: int| 0 <= m < other_level.len() && other_level[m] == y;
        assert(among[other_level[m] as int] == blocks[x as int]);
    }
}

/// Where every contender of one set is a contender of another, whoever goes
/// on in the one goes on in the other.
pub proof fn lemma_survivors_covered(
    blocks: Seq<BlockView>,
    contenders: Seq<usize>,
    among: Seq<BlockView>,
    others: Seq<usize>,
    k: nat,
)
    requires
        covered(blocks, contenders, among, others),
    ensures
        covered(blocks, survivors(blocks, contenders, k), among, survivors(among, others, k)),
{
    let next = survivors(blocks, contenders, k);
    let pred = more_pred(among, k);
    let other_next = survivors(among, others, k);
    lemma_survivors(blocks, contenders, k);
    assert forall|j: int| 0 <= j < next.len() implies contends(
        blocks[#[trigger] next[j] as int],
        among,
        other_next,
    ) by {
        let x = next[j];
        assert(contenders.contains(x));
        let from = choose|m: int| 0 <= m < contenders.len() && contenders[m] == x;
        assert(contends(blocks[contenders[from] as int], among, others));
        let to = choose|m: int|
            0 <= m < others.len() && among[#[trigger] others[m] as int] == blocks[x as int];
        assert(pred(others[to]));
        others.lemma_filter_contains(pred, to);
        let m = choose|m: int| 0 <= m < other_next.len() && other_next[m] == others[to];
        assert(among[other_next[m] as int] == blocks[x as int]);
    }
}

/// Where one set of contenders is a single candidate, another set that
/// holds no other candidate, each once, is a single candidate too, and the
/// same one.
pub proof fn lemma_single_covered(
    blocks: Seq<BlockView>,
    live: Seq<usize>,
    among: Seq<BlockView>,
    others: Seq<usize>,
)
    requires
        live.len() == 1,
        others.len() > 0,
        others.no_duplicates(),
        in_range(among, others),
        distinct_paths(among),
        covered(among, others, blocks, live),
    ensures
        others.len() == 1,
        among[others[0] as int] == blocks[live[0] as int],
{
    assert(contends(among[others[0] as int], blocks, live));
    if others.len() >= 2 {
        assert(contends(among[others[1] as int], blocks, live));
        assert(others[0] < among.len() && others[1] < among.len());
        lemma_one_path_one_candidate(among, others[0] as int, others[1] as int);
        assert(others[0] != others[1]);
    }
}

/// Where two sets of contenders hold the same candidates and no two
/// candidates share a path, the same candidate is first by path in both.
pub proof fn lemma_first_by_path_covered(
    blocks: Seq<BlockView>,
    live: Seq<usize>,
    among: Seq<BlockView>,
    others: Seq<usize>,
)
    requires
        live.len() > 0,
        others.len() > 0,
        in_range(blocks, live),
        distinct_paths(blocks),
        covered(blocks, live, among, others),
        covered(among, others, blocks, live),
    ensures
        blocks[first_by_path(blocks, live) as int] == among[first_by_path(among, others) as int],
{
    let first = first_by_path(blocks, live);
    let other = first_by_path(among, others);
    lemma_first_by_path(blocks, live);
    lemma_first_by_path(among, others);
    let at = choose|j: int| 0 <= j < live.len() && live[j] == first;
    assert(contends(blocks[live[at] as int], among, others));
    let to = choose|m: int|
        0 <= m < others.len() && among[#[trigger] others[m] as int] == blocks[first as int];
    assert(!path_less(among[others[to] as int].path, among[other as int].path));
    let from = choose|j: int| 0 <= j < others.len() && others[j] == other;
    assert(contends(among[others[from] as int], blocks, live));
    let back = choose|m: int|
        0 <= m < live.len() && blocks[#[trigger] live[m] as int] == among[other as int];
    assert(!path_less(blocks[live[back] as int].path, blocks[first as int].path));
    lemma_path_order_total(blocks[first as int].path, among[other as int].path);
    assert(live[back] < blocks.len() && live[at] < blocks.len());
    lemma_one_path_one_candidate(blocks, live[back] as int, first as int);
}

/// One step of the contest on two sets of contenders that hold the same
/// candidates, each once: the ties hold the same candidates, each once, and
/// so do those who go on; a single candidate in the one tie is the single
/// candidate in the other.
pub proof fn lemma_round_covered(
    query: LabValue,
    blocks: Seq<BlockView>,
    live: Seq<usize>,
    among: Seq<BlockView>,
    others: Seq<usize>,
    k: nat,
)
    requires
        live.len() > 0,
        others.len() > 0,
        in_play(blocks, live, k),
        in_play(among, others, k),
        live.no_duplicates(),
        others.no_duplicates(),
        distinct_paths(blocks),
        distinct_paths(among),
        covered(blocks, live, among, others),
        covered(among, others, blocks, live),
    ensures
        ({
            let level = tied(query, blocks, live, k);
            let other_level = tied(query, among, others, k);
            let next = survivors(blocks, level, k);
            let other_next = survivors(among, other_level, k);
            &&& level.len() > 0 && other_level.len() > 0
            &&& (level.len() == 1) == (other_level.len() == 1)
            &&& level.len() == 1 ==> blocks[level[0] as int] == among[other_level[0] as int]
            &&& in_range(blocks, level)
            &&& covered(blocks, level, among, other_level)
            &&& covered(among, other_level, blocks, level)
            &&& (next.len() == 0) == (other_next.len() == 0)
            &&& in_play(blocks, next, k + 1)
            &&& in_play(among, other_next, k + 1)
            &&& next.no_duplicates() && other_next.no_duplicates()
            &&& covered(blocks, next, among, other_next)
            &&& covered(among, other_next, blocks, next)
            &&& next.len() > 0 ==> longest(blocks) > k + 1
        }),
{
    let level = tied(query, blocks, live, k);
    let other_level = tied(query, among, others, k);
    let next = survivors(blocks, level, k);
    let other_next = survivors(among, other_level, k);
    lemma_tied_covered(query, blocks, live, among, others, k);
    lemma_tied_covered(query, among, others, blocks, live, k);
    lemma_tied_in_play(query, blocks, live, k);
    lemma_tied_in_play(query, among, others, k);
    if level.len() == 1 {
        lemma_single_covered(blocks, level, among, other_level);
    }
    if other_level.len() == 1 {
        lemma_single_covered(among, other_level, blocks, level);
    }
    lemma_survivors_covered(blocks, level, among, other_level, k);
    lemma_survivors_covered(among, other_level, blocks, level, k);
    lemma_survivors_in_play(blocks, level, k);
    lemma_survivors_in_play(among, other_level, k);
    if next.len() > 0 {
        assert(contends(blocks[next[0] as int], among, other_next));
    }
    if other_next.len() > 0 {
        assert(contends(among[other_next[0] as int], blocks, next));
    }
}

/// The winner depends on which candidates contend, not on their order:
/// two sets of contenders that hold the same candidates, each once, have
/// the same winner, where no two candidates share a path.
pub proof fn lemma_resolve_covered(
    query: LabValue,
    blocks: Seq<BlockView>,
    live: Seq<usize>,
    among: Seq<BlockView>,
    others: Seq<usize>,
    k: nat,
)
    requires
        live.len() > 0,
        others.len() > 0,
        in_play(blocks, live, k),
        in_play(among, others, k),
        live.no_duplicates(),
        others.no_duplicates(),
        distinct_paths(blocks),
        distinct_paths(among),
        covered(blocks, live, among, others),
        covered(among, others, blocks, live),
    ensures
        blocks[resolve(query, blocks, live, k) as int] == among[resolve(
            query,
            among,
            others,
            k,
        ) as int],
    decreases longest(blocks) - k,
{
    let level = tied(query, blocks, live, k);
    let other_level = tied(query, among, others, k);
    let next = survivors(blocks, level, k);
    let other_next = survivors(among, other_level, k);
    lemma_round_covered(query, blocks, live, among, others, k);
    if level.len() == 1 {
    } else if next.len() == 0 {
        lemma_first_by_path_covered(blocks, level, among, other_level);
    } else {
        lemma_resolve_covered(query, blocks, next, among, other_next, k + 1);
    }
}

/// The order of the candidates does not matter: two palettes that hold the
/// same candidates, no two of them with the same path, give the same winner,
/// and so the same path.
pub proof fn lemma_order_does_not_matter(
    query: LabValue,
    blocks: Seq<BlockView>,
    shuffled: Seq<BlockView>,
)
    requires
        0 < blocks.len() <= usize::MAX,
        shuffled.len() <= usize::MAX,
        all_ranked(blocks),
        distinct_paths(blocks),
        distinct_paths(shuffled),
        same_members(blocks, shuffled),
    ensures
        winner_of(query, blocks) < blocks.len(),
        winner_of(query, shuffled) < shuffled.len(),
        blocks[winner_of(query, blocks) as int] == shuffled[winner_of(query, shuffled) as int],
{
    let live = everyone(blocks.len());
    let others = everyone(shuffled.len());
    assert(shuffled.contains(blocks[0]));
    assert forall|i: int| 0 <= i < shuffled.len() implies (#[trigger] shuffled[i]).entries.len()
        > 0 by {
        assert(blocks.contains(shuffled[i]));
    }
    assert forall|j: int| 0 <= j < live.len() implies contends(
        blocks[#[trigger] live[j] as int],
        shuffled,
        others,
    ) by {
        assert(live[j] == j as usize);
        assert(shuffled.contains(blocks[j]));
        let m = choose|m: int| 0 <= m < shuffled.len() && shuffled[m] == blocks[j];
        assert(others[m] == m as usize);
        assert(shuffled[others[m] as int] == blocks[j]);
    }
    assert forall|j: int| 0 <= j < others.len() implies contends(
        shuffled[#[trigger] others[j] as int],
        blocks,
        live,
    ) by {
        assert(others[j] == j as usize);
        assert(blocks.contains(shuffled[j]));
        let m = choose|m: int| 0 <= m < blocks.len() && blocks[m] == shuffled[j];
        assert(live[m] == m as usize);
        assert(blocks[live[m] as int] == shuffled[j]);
    }
    assert(in_play(blocks, live, 0)) by {
        assert forall|j: int| 0 <= j < live.len() implies (#[trigger] live[j]) < blocks.len()
            && blocks[live[j] as int].entries.len() > 0 by {
            assert(live[j] == j as usize);
        }
    }
    assert(in_play(shuffled, others, 0)) by {
        assert forall|j: int| 0 <= j < others.len() implies (#[trigger] others[j])
            < shuffled.len() && shuffled[others[j] as int].entries.len() > 0 by {
            assert(others[j] == j as usize);
        }
    }
    lemma_winner_is_candidate(query, blocks);
    lemma_winner_is_candidate(query, shuffled);
    lemma_resolve_covered(query, blocks, live, shuffled, others, 0);
}

/// A palette gives the same winner in any order of its candidates, where
/// no two candidates share a path.
pub proof fn lemma_permutation_does_not_matter(
    query: LabValue,
    blocks: Seq<BlockView>,
    shuffled: Seq<BlockView>,
)
    requires
        0 < blocks.len() <= usize::MAX,
        all_ranked(blocks),
        distinct_paths(blocks),
        blocks.to_multiset() == shuffled.to_multiset(),
    ensures
        winner_of(query, blocks) < blocks.len(),
        winner_of(query, shuffled) < shuffled.len(),
        blocks[winner_of(query, blocks) as int] == shuffled[winner_of(query, shuffled) as int],
{
    blocks.to_multiset_ensures();
    shuffled.to_multiset_ensures();
    assert(shuffled.len() == blocks.len());
    assert(same_members(blocks, shuffled)) by {
        assert forall|i: int| 0 <= i < blocks.len() implies shuffled.contains(
            #[trigger] blocks[i],
        ) by {
            assert(blocks.contains(blocks[i]));
            assert(blocks.to_multiset().count(blocks[i]) > 0);
        }
        assert forall|i: int| 0 <= i < shuffled.len() implies blocks.contains(
            #[trigger] shuffled[i],
        ) by {
            assert(shuffled.contains(shuffled[i]));
            assert(shuffled.to_multiset().count(shuffled[i]) > 0);
        }
    }
    assert(blocks.no_duplicates()) by {
        assert forall|i: int, j: int|
            0 <= i < blocks.len() && 0 <= j < blocks.len() && i != j implies blocks[i]
            != blocks[j] by {
            if blocks[i] == blocks[j] {
                lemma_one_path_one_candidate(blocks, i, j);
            }
        }
    }
    blocks.lemma_multiset_has_no_duplicates();
    shuffled.lemma_multiset_has_no_duplicates_conv();
    assert forall|i: int, j: int| 0 <= i < j < shuffled.len() implies (#[trigger] shuffled[i]).path
        != (#[trigger] shuffled[j]).path by {
        assert(blocks.contains(shuffled[i]) && blocks.contains(shuffled[j]));
        let a = choose|m: int| 0 <= m < blocks.len() && blocks[m] == shuffled[i];
        let b = choose|m: int| 0 <= m < blocks.len() && blocks[m] == shuffled[j];
        if shuffled[i].path == shuffled[j].path {
            lemma_one_path_one_candidate(blocks, a, b);
            assert(shuffled[i] == shuffled[j]);
        }
    }
    lemma_order_does_not_matter(query, blocks, shuffled);
}

/// Distances from the query to the colour at rank `k` of each contender.
fn rank_distances(
    query: &LabValue,
    blocks: &Vec<BlockSignature>,
    live: &Vec<usize>,
    k: usize,
) -> (dists: Vec<u32>)
    requires
        in_play(signature_views(blocks@), live@, k as nat),
    ensures
        dists@.len() == live@.len(),
        forall|j: int|
            0 <= j < live@.len() ==> #[trigger] dists@[j] == rank_distance(
                *query,
                signature_views(blocks@),
                live@[j],
                k as nat,
            ),
{
    let mut dists: Vec<u32> = Vec::new();
    let mut j: usize = 0;
    while j < live.len()
        invariant
            in_play(signature_views(blocks@), live@, k as nat),
            j <= live@.len(),
            dists@.len() == j,
            forall|m: int|
                0 <= m < j ==> #[trigger] dists@[m] == rank_distance(
                    *query,
                    signature_views(blocks@),
                    live@[m],
                    k as nat,
                ),
        decreases live@.len() - j,
    {
        let i: usize = live[j];
        let d: u32 = distance(query, &blocks[i].entries[k].lab);
        dists.push(d);
        j += 1;
    }
    dists
}

/// The least of some distances.
fn least_of(dists: &Vec<u32>) -> (least: u32)
    requires
        dists@.len() > 0,
    ensures
        is_least(dists@, least),
        exists|j: int| 0 <= j < dists@.len() && #[trigger] dists@[j] == least,
{
    let mut least: u32 = dists[0];
    let mut j: usize = 1;
    while j < dists.len()
        invariant
            1 <= j <= dists@.len(),
            forall|m: int| 0 <= m < j ==> least <= #[trigger] dists@[m],
            exists|m: int| 0 <= m < j && #[trigger] dists@[m] == least,
        decreases dists@.len() - j,
    {
        if dists[j] < least {
            least = dists[j];
        }
        j += 1;
    }
    least
}

/// Picks, out of items that each come with a distance, those at the least
/// distance, in their order.
pub fn select_nearest(items: &Vec<usize>, dists: &Vec<u32>) -> (nearest: Vec<usize>)
    requires
        items@.len() == dists@.len(),
    ensures
        nearest@ == nearest_items(items@, dists@, items@.len()),
        items@.len() > 0 ==> nearest@.len() > 0,
{
    let mut nearest: Vec<usize> = Vec::new();
    if items.len() == 0 {
        return nearest;
    }
    let least = least_of(dists);
    let mut j: usize = 0;
    while j < items.len()
        invariant
            j <= items@.len(),
            items@.len() == dists@.len(),
            is_least(dists@, least),
            exists|m: int| 0 <= m < dists@.len() && #[trigger] dists@[m] == least,
            nearest@ == nearest_items(items@, dists@, j as nat),
            (exists|m: int| 0 <= m < j && #[trigger] dists@[m] == least) ==> nearest@.len() > 0,
        decreases items@.len() - j,
    {
        proof {
            if dists@[j as int] != least {
                let m = choose|m: int| 0 <= m < dists@.len() && #[trigger] dists@[m] == least;
                assert(!is_least(dists@, dists@[j as int]));
            }
        }
        if dists[j] == least {
            nearest.push(items[j]);
        }
        j += 1;
    }
    nearest
}

/// Picking by distance gives the tie: the first `n` contenders that are at
/// the least distance are the first `n` contenders that nobody is closer
/// than.
pub proof fn lemma_nearest_items_are_tied(
    query: LabValue,
    blocks: Seq<BlockView>,
    live: Seq<usize>,
    k: nat,
    dists: Seq<u32>,
    n: nat,
)
    requires
        n <= live.len(),
        dists.len() == live.len(),
        forall|j: int|
            0 <= j < live.len() ==> #[trigger] dists[j] == rank_distance(
                query,
                blocks,
                live[j],
                k,
            ),
    ensures
        nearest_items(live, dists, n) == live.take(n as int).filter(
            closest_pred(query, blocks, live, k),
        ),
    decreases n,
{
    let pred = closest_pred(query, blocks, live, k);
    if n == 0 {
        assert(live.take(0).filter(pred) =~= Seq::<usize>::empty()) by {
            reveal(Seq::filter);
        }
    } else {
        lemma_nearest_items_are_tied(query, blocks, live, k, dists, (n - 1) as nat);
        lemma_filter_step(live, pred, n - 1);
        let here = live[n - 1];
        if is_least(dists, dists[n - 1]) {
            assert forall|m: int| 0 <= m < live.len() implies rank_distance(
                query,
                blocks,
                here,
                k,
            ) <= rank_distance(query, blocks, #[trigger] live[m], k) by {
                assert(dists[n - 1] <= dists[m]);
            }
        } else {
            let m = choose|m: int| 0 <= m < dists.len() && !(dists[n - 1] <= #[trigger] dists[m]);
            assert(rank_distance(query, blocks, live[m], k) == dists[m]);
        }
    }
}

/// The contenders at the least distance, in their order.
fn closest_contenders(
    query: &LabValue,
    blocks: &Vec<BlockSignature>,
    live: &Vec<usize>,
    k: usize,
) -> (level: Vec<usize>)
    requires
        live@.len() > 0,
        in_play(signature_views(blocks@), live@, k as nat),
    ensures
        level@ == tied(*query, signature_views(blocks@), live@, k as nat),
        level@.len() > 0,
{
    let dists = rank_distances(query, blocks, live, k);
    let level = select_nearest(live, &dists);
    proof {
        lemma_nearest_items_are_tied(
            *query,
            signature_views(blocks@),
            live@,
            k as nat,
            dists@,
            live@.len(),
        );
        assert(live@.take(live@.len() as int) =~= live@);
    }
    level
}

/// Those of the contenders that have a colour after rank `k`, in their order.
fn further_contenders(blocks: &Vec<BlockSignature>, contenders: &Vec<usize>, k: usize) -> (next:
    Vec<usize>)
    requires
        in_play(signature_views(blocks@), contenders@, k as nat),
    ensures
        next@ == survivors(signature_views(blocks@), contenders@, k as nat),
{
    let ghost pred = more_pred(signature_views(blocks@), k as nat);
    let mut next: Vec<usize> = Vec::new();
    let mut j: usize = 0;
    proof {
        assert(contenders@.take(0).filter(pred) =~= Seq::<usize>::empty()) by {
            reveal(Seq::filter);
        }
    }
    while j < contenders.len()
        invariant
            j <= contenders@.len(),
            in_play(signature_views(blocks@), contenders@, k as nat),
            pred == more_pred(signature_views(blocks@), k as nat),
            next@ == contenders@.take(j as int).filter(pred),
        decreases contenders@.len() - j,
    {
        proof {
            lemma_filter_step(contenders@, pred, j as int);
        }
        let i: usize = contenders[j];
        if blocks[i].entries.len() - 1 > k {
            next.push(i);
        }
        j += 1;
    }
    proof {
        assert(contenders@.take(contenders@.len() as int) =~= contenders@);
    }
    next
}

/// The contender whose path comes first in the dictionary.
fn first_path(blocks: &Vec<BlockSignature>, contenders: &Vec<usize>) -> (best: usize)
    requires
        contenders@.len() > 0,
        forall|j: int| 0 <= j < contenders@.len() ==> (#[trigger] contenders@[j]) < blocks@.len(),
    ensures
        best == first_by_path(signature_views(blocks@), contenders@),
        best < blocks@.len(),
{
    let mut best: usize = contenders[0];
    let mut j: usize = 1;
    proof {
        assert(contenders@.take(1).len() == 1);
    }
    while j < contenders.len()
        invariant
            1 <= j <= contenders@.len(),
            forall|m: int|
                0 <= m < contenders@.len() ==> (#[trigger] contenders@[m]) < blocks@.len(),
            best == first_by_path(signature_views(blocks@), contenders@.take(j as int)),
            best < blocks@.len(),
        decreases contenders@.len() - j,
    {
        proof {
            assert(contenders@.take(j + 1).drop_last() =~= contenders@.take(j as int));
        }
        let i: usize = contenders[j];
        if path_before(blocks[i].path.as_str(), blocks[best].path.as_str()) {
            best = i;
        }
        j += 1;
    }
    proof {
        assert(contenders@.take(contenders@.len() as int) =~= contenders@);
    }
    best
}

/// Finds the candidate that matches `query` best and returns its place in
/// `blocks`.
pub fn closest_index(query: &LabValue, blocks: &Vec<BlockSignature>) -> (winner: usize)
    requires
        blocks@.len() > 0,
        all_ranked(signature_views(blocks@)),
    ensures
        winner == winner_of(*query, signature_views(blocks@)),
        winner < blocks@.len(),
{
    let mut live: Vec<usize> = Vec::new();
    let mut i: usize = 0;
    while i < blocks.len()
        invariant
            i <= blocks@.len(),
            live@ == everyone(i as nat),
        decreases blocks@.len() - i,
    {
        live.push(i);
        i += 1;
        assert(live@ =~= everyone(i as nat));
    }
    let mut k: usize = 0;
    loop
        invariant
            live@.len() > 0,
            in_play(signature_views(blocks@), live@, k as nat),
            resolve(*query, signature_views(blocks@), live@, k as nat) == winner_of(
                *query,
                signature_views(blocks@),
            ),
        decreases longest(signature_views(blocks@)) - k,
    {
        let level = closest_contenders(query, blocks, &live, k);
        proof {
            lemma_tied(*query, signature_views(blocks@), live@, k as nat);
        }
        if level.len() == 1 {
            return level[0];
        }
        let next = further_contenders(blocks, &level, k);
        if next.len() == 0 {
            return first_path(blocks, &level);
        }
        proof {
            lemma_survivors(signature_views(blocks@), level@, k as nat);
            assert(level@.contains(next@[0]));
            lemma_longest(signature_views(blocks@), next@[0] as int);
            assert(blocks@[next@[0] as int].entries.len() > k + 1);
        }
        live = next;
        k += 1;
    }
}

/// Resolves `lab` to the candidate that matches it best and returns that
/// candidate's path.
pub fn get_closest_match(lab: &LabValue, blocks: &Vec<BlockSignature>) -> (path: String)
    requires
        blocks@.len() > 0,
        all_ranked(signature_views(blocks@)),
    ensures
        path@ == signature_views(blocks@)[winner_of(*lab, signature_views(blocks@)) as int].path,
{
    let winner = closest_index(lab, blocks);
    blocks[winner].path.clone()
}

} // verus!
