//! Ranking: orders record positions by ascending aggregate score, breaking
//! ties by insertion order, so results are deterministic across runs.

use vstd::prelude::*;

verus! {

/// Results at or above this score (in millionths) are dropped from search
/// output. A fixed relevance cutoff, independent of the match threshold,
/// which only bounds internal search effort.
pub const RELEVANCE_CUTOFF: u64 = 500_000;

/// Position `a` is ranked strictly before position `b`: a lower score, or an
/// equal score and an earlier insertion position.
pub open spec fn ranked_before(scores: Seq<u64>, a: int, b: int) -> bool {
    scores[a] < scores[b] || (scores[a] == scores[b] && a < b)
}

/// A sequence of positions that is strictly ordered by `ranked_before`.
pub open spec fn ranked_seq(scores: Seq<u64>, idxs: Seq<int>) -> bool {
    forall|a: int, b: int| 0 <= a < b < idxs.len() ==> ranked_before(scores, idxs[a], idxs[b])
}

/// Inserts position `i` before the first held position it is ranked before.
pub open spec fn insert_ranked(idxs: Seq<int>, scores: Seq<u64>, i: int) -> Seq<int>
    decreases idxs.len(),
{
    if idxs.len() == 0 {
        seq![i]
    } else if ranked_before(scores, idxs[0], i) {
        seq![idxs[0]] + insert_ranked(idxs.drop_first(), scores, i)
    } else {
        seq![i] + idxs
    }
}

/// The ranking of the first `n` positions.
pub open spec fn rank_prefix(scores: Seq<u64>, n: int) -> Seq<int>
    decreases n,
{
    if n <= 0 {
        Seq::<int>::empty()
    } else {
        insert_ranked(rank_prefix(scores, n - 1), scores, n - 1)
    }
}

/// The ranking of all positions of `scores`: every position exactly once,
/// ascending by score, ties in insertion order.
pub open spec fn rank_indices(scores: Seq<u64>) -> Seq<int> {
    rank_prefix(scores, scores.len() as int)
}

/// Survivors of the relevance cutoff: positions scoring strictly below it.
pub open spec fn below_cutoff(scores: Seq<u64>) -> spec_fn(int) -> bool {
    |j: int| 0 <= j < scores.len() && scores[j] < RELEVANCE_CUTOFF
}

/// The ranked positions that survive the relevance cutoff.
pub open spec fn surviving_ranked(scores: Seq<u64>) -> Seq<int> {
    rank_indices(scores).filter(below_cutoff(scores))
}

proof fn lemma_insert_ranked_at(idxs: Seq<int>, scores: Seq<u64>, i: int, p: int)
    requires
        0 <= p <= idxs.len(),
        forall|k: int| 0 <= k < p ==> ranked_before(scores, #[trigger] idxs[k], i),
        p < idxs.len() ==> !ranked_before(scores, idxs[p], i),
    ensures
        insert_ranked(idxs, scores, i) == idxs.take(p) + seq![i] + idxs.skip(p),
    decreases idxs.len(),
{
    if idxs.len() == 0 {
        assert(insert_ranked(idxs, scores, i) =~= idxs.take(p) + seq![i] + idxs.skip(p));
    } else if ranked_before(scores, idxs[0], i) {
        assert(p >= 1);
        let rest = idxs.drop_first();
        assert forall|k: int| 0 <= k < p - 1 implies ranked_before(scores, #[trigger] rest[k], i) by {
            assert(rest[k] == idxs[k + 1]);
        }
        lemma_insert_ranked_at(rest, scores, i, p - 1);
        assert(idxs.take(p) + seq![i] + idxs.skip(p) =~= seq![idxs[0]] + (rest.take(p - 1)
            + seq![i] + rest.skip(p - 1)));
    } else {
        assert(p == 0);
        assert(seq![i] + idxs =~= idxs.take(0) + seq![i] + idxs.skip(0));
    }
}

proof fn lemma_insert_ranked_props(idxs: Seq<int>, scores: Seq<u64>, i: int)
    requires
        0 <= i,
        ranked_seq(scores, idxs),
        forall|k: int| 0 <= k < idxs.len() ==> 0 <= #[trigger] idxs[k] < i,
    ensures
        insert_ranked(idxs, scores, i).len() == idxs.len() + 1,
        ranked_seq(scores, insert_ranked(idxs, scores, i)),
        forall|k: int|
            0 <= k < insert_ranked(idxs, scores, i).len() ==> 0 <= #[trigger] insert_ranked(
                idxs,
                scores,
                i,
            )[k] <= i,
        insert_ranked(idxs, scores, i).contains(i),
        forall|x: int| idxs.contains(x) ==> #[trigger] insert_ranked(idxs, scores, i).contains(x),
    decreases idxs.len(),
{
    let out = insert_ranked(idxs, scores, i);
    if idxs.len() == 0 {
        assert(out[0] == i);
        assert(out.contains(i));
    } else if ranked_before(scores, idxs[0], i) {
        let rest = idxs.drop_first();
        assert forall|a: int, b: int| 0 <= a < b < rest.len() implies ranked_before(
            scores,
            rest[a],
            rest[b],
        ) by {
            assert(rest[a] == idxs[a + 1] && rest[b] == idxs[b + 1]);
        }
        lemma_insert_ranked_props(rest, scores, i);
        let tail = insert_ranked(rest, scores, i);
        assert(out =~= seq![idxs[0]] + tail);
        assert forall|k: int| 0 <= k < out.len() implies 0 <= #[trigger] out[k] <= i by {
            lemma_insert_ranked_members(idxs, scores, i, k);
            if out[k] != i {
                let w = choose|w: int| 0 <= w < idxs.len() && idxs[w] == out[k];
                assert(0 <= idxs[w] < i);
            }
        }
        assert forall|a: int, b: int| 0 <= a < b < out.len() implies ranked_before(
            scores,
            out[a],
            out[b],
        ) by {
            if a == 0 {
                // idxs[0] is ranked before i and before every element of rest.
                let x = out[b];
                assert(x == tail[b - 1]);
                if x == i {
                } else {
                    assert(tail.contains(x));
                    // every element of tail is i or an element of rest
                    lemma_insert_ranked_members(rest, scores, i, b - 1);
                }
            } else {
                assert(out[a] == tail[a - 1] && out[b] == tail[b - 1]);
            }
        }
        assert(out.contains(i)) by {
            let w = choose|w: int| 0 <= w < tail.len() && tail[w] == i;
            assert(out[w + 1] == i);
        }
        assert forall|x: int| idxs.contains(x) implies #[trigger] out.contains(x) by {
            let w = choose|w: int| 0 <= w < idxs.len() && idxs[w] == x;
            if w == 0 {
                assert(out[0] == x);
            } else {
                assert(rest[w - 1] == x);
                assert(rest.contains(x));
                assert(tail.contains(x));
                let v = choose|v: int| 0 <= v < tail.len() && tail[v] == x;
                assert(out[v + 1] == x);
            }
        }
    } else {
        assert(out =~= seq![i] + idxs);
        assert(!ranked_before(scores, idxs[0], i));
        assert forall|k: int| 0 <= k < out.len() implies 0 <= #[trigger] out[k] <= i by {
            if k > 0 {
                assert(out[k] == idxs[k - 1]);
            }
        }
        assert forall|a: int, b: int| 0 <= a < b < out.len() implies ranked_before(
            scores,
            out[a],
            out[b],
        ) by {
            if a == 0 {
                let x = out[b];
                assert(x == idxs[b - 1]);
                if b == 1 {
                } else {
                    assert(ranked_before(scores, idxs[0], idxs[b - 1]));
                }
                // i is ranked before idxs[0], which is ranked before (or is) x.
                assert(ranked_before(scores, i, idxs[0]));
            } else {
                assert(out[a] == idxs[a - 1] && out[b] == idxs[b - 1]);
            }
        }
        assert(out[0] == i);
        assert(out.contains(i));
        assert forall|x: int| idxs.contains(x) implies #[trigger] out.contains(x) by {
            let w = choose|w: int| 0 <= w < idxs.len() && idxs[w] == x;
            assert(out[w + 1] == x);
        }
    }
}

proof fn lemma_insert_ranked_members(idxs: Seq<int>, scores: Seq<u64>, i: int, k: int)
    requires
        0 <= k < insert_ranked(idxs, scores, i).len(),
    ensures
        insert_ranked(idxs, scores, i)[k] == i || idxs.contains(
            insert_ranked(idxs, scores, i)[k],
        ),
    decreases idxs.len(),
{
    let out = insert_ranked(idxs, scores, i);
    if idxs.len() == 0 {
    } else if ranked_before(scores, idxs[0], i) {
        let rest = idxs.drop_first();
        if k == 0 {
            assert(out[0] == idxs[0]);
        } else {
            lemma_insert_ranked_members(rest, scores, i, k - 1);
            let x = out[k];
            assert(x == insert_ranked(rest, scores, i)[k - 1]);
            if x != i {
                let w = choose|w: int| 0 <= w < rest.len() && rest[w] == x;
                assert(idxs[w + 1] == x);
            }
        }
    } else {
        if k > 0 {
            assert(out[k] == idxs[k - 1]);
        }
    }
}

/// What the ranking of `scores` is: one entry per record position, each
/// position within range and present, strictly ordered by ascending score
/// with ties in insertion order.
pub proof fn lemma_rank_properties(scores: Seq<u64>)
    ensures
        rank_indices(scores).len() == scores.len(),
        forall|k: int|
            0 <= k < scores.len() ==> 0 <= #[trigger] rank_indices(scores)[k] < scores.len(),
        ranked_seq(scores, rank_indices(scores)),
        forall|j: int| 0 <= j < scores.len() ==> rank_indices(scores).contains(j),
{
    lemma_rank_prefix_properties(scores, scores.len() as int);
}

proof fn lemma_rank_prefix_properties(scores: Seq<u64>, n: int)
    requires
        n <= scores.len(),
    ensures
        rank_prefix(scores, n).len() == if n >= 0 { n } else { 0 },
        forall|k: int|
            0 <= k < rank_prefix(scores, n).len() ==> 0 <= #[trigger] rank_prefix(scores, n)[k]
                < n,
        ranked_seq(scores, rank_prefix(scores, n)),
        forall|j: int| 0 <= j < n ==> rank_prefix(scores, n).contains(j),
    decreases (if n >= 0 { n } else { 0 }),
{
    if n <= 0 {
    } else {
        lemma_rank_prefix_properties(scores, n - 1);
        let prev = rank_prefix(scores, n - 1);
        lemma_insert_ranked_props(prev, scores, n - 1);
        let out = rank_prefix(scores, n);
        assert forall|k: int| 0 <= k < out.len() implies 0 <= #[trigger] out[k] < n by {
            lemma_insert_ranked_members(prev, scores, n - 1, k);
        }
        assert forall|j: int| 0 <= j < n implies out.contains(j) by {
            if j < n - 1 {
                assert(prev.contains(j));
            }
        }
    }
}

/// Determinism of equal scores: whenever two positions carry the same
/// aggregate score, the ranking keeps them in insertion order.
pub proof fn lemma_equal_scores_keep_insertion_order(scores: Seq<u64>, a: int, b: int)
    requires
        0 <= a < b < rank_indices(scores).len(),
        scores[rank_indices(scores)[a]] == scores[rank_indices(scores)[b]],
    ensures
        rank_indices(scores)[a] < rank_indices(scores)[b],
{
    lemma_rank_properties(scores);
    let idxs = rank_indices(scores);
    assert(ranked_before(scores, idxs[a], idxs[b]));
}

/// The relevance cutoff is absolute: every position the ranking hands to
/// the output scores strictly below it, and is a real position.
pub proof fn lemma_survivors_below_cutoff(scores: Seq<u64>, k: int)
    requires
        0 <= k < surviving_ranked(scores).len(),
    ensures
        0 <= surviving_ranked(scores)[k] < scores.len(),
        scores[surviving_ranked(scores)[k]] < RELEVANCE_CUTOFF,
{
    broadcast use vstd::seq_lib::group_filter_ensures;

    assert(below_cutoff(scores)(surviving_ranked(scores)[k]));
}

/// Computes the ranking of all positions of `scores`.
pub fn rank(scores: &Vec<u64>) -> (idxs: Vec<usize>)
    ensures
        idxs@.map_values(|x: usize| x as int) == rank_indices(scores@),
{
    let n = scores.len();
    let mut idxs: Vec<usize> = Vec::new();
    let mut i: usize = 0;
    proof {
        assert(idxs@.map_values(|x: usize| x as int) =~= rank_prefix(scores@, 0));
    }
    while i < n
        invariant
            n == scores@.len(),
            i <= n,
            idxs@.len() == i,
            forall|k: int| 0 <= k < idxs@.len() ==> #[trigger] idxs@[k] < i,
            idxs@.map_values(|x: usize| x as int) == rank_prefix(scores@, i as int),
        decreases n - i,
    {
        let ghost iv = idxs@.map_values(|x: usize| x as int);
        proof {
            lemma_rank_prefix_properties(scores@, i as int);
        }
        let si = scores[i];
        let mut p: usize = 0;
        while p < idxs.len() && scores[idxs[p]] <= si
            invariant
                n == scores@.len(),
                i < n,
                si == scores@[i as int],
                idxs@.len() == i,
                forall|k: int| 0 <= k < idxs@.len() ==> #[trigger] idxs@[k] < i,
                p <= idxs@.len(),
                forall|k: int|
                    0 <= k < p ==> scores@[#[trigger] idxs@[k] as int] <= scores@[i as int],
            decreases idxs@.len() - p,
        {
            p += 1;
        }
        proof {
            assert forall|k: int| 0 <= k < p implies ranked_before(scores@, iv[k], i as int) by {
                assert(iv[k] == idxs@[k] as int);
            }
            if p < idxs@.len() {
                assert(iv[p as int] == idxs@[p as int] as int);
                assert(!ranked_before(scores@, iv[p as int], i as int));
            }
            lemma_insert_ranked_at(iv, scores@, i as int, p as int);
        }
        idxs.insert(p, i);
        proof {
            assert(idxs@.map_values(|x: usize| x as int) =~= iv.take(p as int) + seq![i as int]
                + iv.skip(p as int));
        }
        i += 1;
    }
    idxs
}

} // verus!
