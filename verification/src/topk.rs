//! The top-k selector.
//!
//! Input: the score bit pattern of every embedding, by position. Output: the
//! k best (score, index) pairs in ascending order of score key, ties broken
//! by index ascending, so results are deterministic; NaN scores carry the
//! largest key and are selected last. `k` is clamped to
//! `[1, number of embeddings]`.

use vstd::prelude::*;
use vstd::relations::{sorted_by, total_ordering};
use vstd::seq_lib::lemma_sorted_unique;
use crate::score::{score_key, spec_score_key};

verus! {

/// A score and the position of the embedding it belongs to.
#[derive(Debug, Clone, Copy)]
pub struct ScoreIndex {
    /// The score's bit pattern.
    pub score: u32,
    /// The position of the scored embedding in its collection.
    pub index: usize,
}

/// The selector's order: by score key ascending, ties by index ascending.
pub open spec fn lex_leq() -> spec_fn((u32, int), (u32, int)) -> bool {
    |a: (u32, int), b: (u32, int)| a.0 < b.0 || (a.0 == b.0 && a.1 <= b.1)
}

/// The selector's order is a total order.
pub proof fn lemma_lex_leq_total()
    ensures
        total_ordering(lex_leq()),
{
}

/// The (score key, index) pair of every score, by position.
pub open spec fn spec_pairs(scores: Seq<u32>) -> Seq<(u32, int)> {
    Seq::new(scores.len(), |i: int| (spec_score_key(scores[i]), i))
}

/// How many results a query over `n` embeddings with parameter `k` returns:
/// `k` clamped to `[1, n]`.
pub open spec fn spec_result_len(n: nat, k: nat) -> nat {
    let kk: nat = if k < 1 {
        1nat
    } else {
        k
    };
    if kk <= n {
        kk
    } else {
        n
    }
}

/// The selected pairs: all (score key, index) pairs in ascending selector
/// order, cut down to the clamped result length.
pub open spec fn spec_topk(scores: Seq<u32>, k: nat) -> Seq<(u32, int)> {
    spec_pairs(scores).sort_by(lex_leq()).take(spec_result_len(scores.len(), k) as int)
}

/// The (score key, index) pair of a selector entry.
pub open spec fn pair_of(si: ScoreIndex) -> (u32, int) {
    (spec_score_key(si.score), si.index as int)
}

/// The (score key, index) pairs of a selector result, in order.
pub open spec fn spec_pairs_of(s: Seq<ScoreIndex>) -> Seq<(u32, int)> {
    s.map_values(|si: ScoreIndex| pair_of(si))
}

/// Decides the selector's order on two entries.
fn si_leq(a: &ScoreIndex, b: &ScoreIndex) -> (r: bool)
    ensures
        r == lex_leq()(pair_of(*a), pair_of(*b)),
{
    let ka = score_key(a.score);
    let kb = score_key(b.score);
    ka < kb || (ka == kb && a.index <= b.index)
}

/// Every pair counted by the multiset of `spec_pairs(scores)` is a real
/// (score key, position) pair of `scores`.
proof fn lemma_pairs_membership(scores: Seq<u32>, p: (u32, int))
    requires
        spec_pairs(scores).to_multiset().count(p) > 0,
    ensures
        0 <= p.1 < scores.len(),
        p.0 == spec_score_key(scores[p.1]),
{
    broadcast use vstd::seq_lib::group_to_multiset_ensures;

    let s = spec_pairs(scores);
    assert(s.contains(p));
    let i = choose|i: int| 0 <= i < s.len() && s[i] == p;
    assert(s[i] == (spec_score_key(scores[i]), i));
}

/// `spec_pairs` has pairwise distinct entries, so each is counted once.
proof fn lemma_pairs_counts(scores: Seq<u32>)
    ensures
        forall|p: (u32, int)| #[trigger] spec_pairs(scores).to_multiset().count(p) <= 1,
{
    let s = spec_pairs(scores);
    assert(s.no_duplicates()) by {
        assert(forall|i: int, j: int|
            0 <= i < s.len() && 0 <= j < s.len() && i != j ==> #[trigger] s[i] != #[trigger] s[j]);
    }
    s.lemma_multiset_has_no_duplicates();
}

/// Selects the `k` best (score, index) entries: ascending by score key,
/// ties by index, exactly the clamped-length prefix of the fully sorted
/// pair sequence.
pub fn top_k(scores: &Vec<u32>, k: usize) -> (r: Vec<ScoreIndex>)
    ensures
        spec_pairs_of(r@) == spec_topk(scores@, k as nat),
        forall|i: int|
            0 <= i < r@.len() ==> (#[trigger] r@[i]).index < scores@.len() && r@[i].score
                == scores@[r@[i].index as int],
{
    let n = scores.len();
    let mut sorted: Vec<ScoreIndex> = Vec::new();
    proof {
        assert(spec_pairs_of(sorted@) =~= Seq::<(u32, int)>::empty());
        assert(spec_pairs(scores@).take(0) =~= Seq::<(u32, int)>::empty());
        assert(spec_pairs_of(sorted@).to_multiset() =~= spec_pairs(scores@).take(
            0,
        ).to_multiset());
    }
    for i in 0..n
        invariant
            n == scores@.len(),
            sorted@.len() == i,
            sorted_by(spec_pairs_of(sorted@), lex_leq()),
            spec_pairs_of(sorted@).to_multiset() == spec_pairs(scores@).take(
                i as int,
            ).to_multiset(),
            forall|j: int|
                0 <= j < sorted@.len() ==> (#[trigger] sorted@[j]).index < n && sorted@[j].score
                    == scores@[sorted@[j].index as int],
    {
        let x = ScoreIndex { score: scores[i], index: i };
        let ghost v0 = spec_pairs_of(sorted@);
        let ghost px = pair_of(x);
        let mut pos: usize = 0;
        while pos < sorted.len() && si_leq(&sorted[pos], &x)
            invariant
                pos <= sorted@.len(),
                v0 == spec_pairs_of(sorted@),
                px == pair_of(x),
                forall|j: int| 0 <= j < pos ==> lex_leq()(#[trigger] v0[j], px),
            decreases sorted@.len() - pos,
        {
            proof {
                assert(v0[pos as int] == pair_of(sorted@[pos as int]));
            }
            pos += 1;
        }
        proof {
            lemma_lex_leq_total();
        }
        sorted.insert(pos, x);
        proof {
            broadcast use vstd::seq_lib::group_to_multiset_ensures;
            broadcast use vstd::multiset::group_multiset_axioms;

            let v2 = spec_pairs_of(sorted@);
            assert(v2 =~= v0.insert(pos as int, px)) by {
                v0.insert_ensures(pos as int, px);
            }
            v0.insert_ensures(pos as int, px);
            // The new entry is ordered with respect to everything around it.
            assert forall|a: int, b: int| 0 <= a < b < v2.len() implies lex_leq()(
                v2[a],
                v2[b],
            ) by {
                if b == pos {
                    assert(lex_leq()(v0[a], px));
                } else if a == pos {
                    if pos < v0.len() {
                        assert(!lex_leq()(v0[pos as int], px));
                        assert(lex_leq()(px, v0[pos as int]));
                        assert(lex_leq()(v0[pos as int], v0[b - 1]));
                    }
                }
            }
            // Inserting adds exactly one count of the new pair.
            assert(v2.remove(pos as int) =~= v0);
            assert(v2[pos as int] == px);
            assert(v2.to_multiset().remove(px) =~= v0.to_multiset());
            assert(v2.contains(px));
            assert(v2.to_multiset().count(px) > 0);
            assert(v2.to_multiset() =~= v0.to_multiset().insert(px)) by {
                assert forall|y: (u32, int)| #[trigger] v2.to_multiset().count(y)
                    == v0.to_multiset().insert(px).count(y) by {
                    if y == px {
                        assert(v2.to_multiset().remove(px).count(px) == v2.to_multiset().count(px)
                            - 1);
                    } else {
                        assert(v2.to_multiset().remove(px).count(y) == v2.to_multiset().count(y));
                    }
                }
            }
            // One more pair accounted for: the prefix grows by one.
            let pre = spec_pairs(scores@);
            assert(px == pre[i as int]);
            assert(pre.take(i + 1) =~= pre.take(i as int).push(pre[i as int]));
            assert(pre.take(i as int).push(pre[i as int]).to_multiset() =~= pre.take(
                i as int,
            ).to_multiset().insert(pre[i as int]));
            assert(v2.to_multiset() =~= pre.take(i + 1).to_multiset());
        }
    }
    let ghost v_full = spec_pairs_of(sorted@);
    let kk: usize = if k < 1 {
        1
    } else {
        k
    };
    let m: usize = if kk <= n {
        kk
    } else {
        n
    };
    sorted.truncate(m);
    proof {
        lemma_lex_leq_total();
        let pre = spec_pairs(scores@);
        assert(pre.take(n as int) =~= pre);
        pre.lemma_sort_by_ensures(lex_leq());
        lemma_sorted_unique(v_full, pre.sort_by(lex_leq()), lex_leq());
        assert(v_full == pre.sort_by(lex_leq()));
        assert(spec_pairs_of(sorted@) =~= v_full.take(m as int));
        assert(m as nat == spec_result_len(scores@.len(), k as nat));
    }
    sorted
}

/// For every score sequence and every `k >= 1`, the selection holds at most
/// `k` entries, is sorted ascending by score key with ties by index, refers
/// only to real positions with their real score keys, and never selects the
/// same position twice.
pub proof fn lemma_topk_sorted_and_distinct(scores: Seq<u32>, k: nat)
    requires
        k >= 1,
    ensures
        spec_topk(scores, k).len() <= k,
        spec_topk(scores, k).len() == spec_result_len(scores.len(), k),
        sorted_by(spec_topk(scores, k), lex_leq()),
        forall|i: int|
            0 <= i < spec_topk(scores, k).len() ==> 0 <= (#[trigger] spec_topk(scores, k)[i]).1
                < scores.len() && spec_topk(scores, k)[i].0 == spec_score_key(
                scores[spec_topk(scores, k)[i].1],
            ),
        forall|i: int, j: int|
            0 <= i < j < spec_topk(scores, k).len() ==> (#[trigger] spec_topk(scores, k)[i]).1 != (
            #[trigger] spec_topk(scores, k)[j]).1,
{
    broadcast use vstd::seq_lib::group_to_multiset_ensures;

    lemma_lex_leq_total();
    let pre = spec_pairs(scores);
    let srt = pre.sort_by(lex_leq());
    pre.lemma_sort_by_ensures(lex_leq());
    assert(srt.len() == pre.len()) by {
        assert(srt.to_multiset().len() == pre.to_multiset().len());
    }
    let tk = spec_topk(scores, k);
    assert forall|i: int|
        0 <= i < tk.len() implies 0 <= (#[trigger] tk[i]).1 < scores.len() && tk[i].0
        == spec_score_key(scores[tk[i].1]) by {
        assert(srt.contains(srt[i]));
        assert(pre.to_multiset().count(srt[i]) > 0);
        lemma_pairs_membership(scores, srt[i]);
    }
    assert forall|i: int, j: int|
        0 <= i < j < tk.len() implies (#[trigger] tk[i]).1 != (#[trigger] tk[j]).1 by {
        assert(srt.contains(srt[i]));
        assert(pre.to_multiset().count(srt[i]) > 0);
        lemma_pairs_membership(scores, srt[i]);
        assert(srt.contains(srt[j]));
        assert(pre.to_multiset().count(srt[j]) > 0);
        lemma_pairs_membership(scores, srt[j]);
        lemma_pairs_counts(scores);
        assert(srt.no_duplicates()) by {
            srt.lemma_multiset_has_no_duplicates_conv();
        }
        if tk[i].1 == tk[j].1 {
            assert(srt[i] == srt[j]);
        }
    }
}

/// Whether some selected pair refers to position `idx`.
pub open spec fn spec_contains_index(s: Seq<(u32, int)>, idx: int) -> bool {
    exists|i: int| 0 <= i < s.len() && (#[trigger] s[i]).1 == idx
}

/// Asking for as many results as there are embeddings returns every
/// position exactly once.
pub proof fn lemma_topk_complete(scores: Seq<u32>, k: nat)
    requires
        k >= scores.len(),
    ensures
        spec_topk(scores, k).len() == scores.len(),
        forall|idx: int|
            0 <= idx < scores.len() ==> #[trigger] spec_contains_index(spec_topk(scores, k), idx),
{
    broadcast use vstd::seq_lib::group_to_multiset_ensures;

    lemma_lex_leq_total();
    let pre = spec_pairs(scores);
    let srt = pre.sort_by(lex_leq());
    pre.lemma_sort_by_ensures(lex_leq());
    assert(srt.len() == pre.len()) by {
        assert(srt.to_multiset().len() == pre.to_multiset().len());
    }
    let tk = spec_topk(scores, k);
    assert(tk =~= srt);
    assert forall|idx: int| 0 <= idx < scores.len() implies #[trigger] spec_contains_index(
        tk,
        idx,
    ) by {
        let p = (spec_score_key(scores[idx]), idx);
        assert(pre[idx] == p);
        assert(pre.contains(p));
        assert(srt.to_multiset().count(p) > 0);
        assert(srt.contains(p));
        let i = choose|i: int| 0 <= i < srt.len() && srt[i] == p;
        assert(0 <= i < tk.len() && tk[i].1 == idx);
    }
}

} // verus!
