//! Stage 2 of a search: from coarse scores to the candidates worth a full score.
use crate::order::{in_order, is_stable_order, sort_positions, stable_order};
#[allow(unused_imports)]
use crate::order::{comes_before, lemma_stable_order_covers, lemma_stable_order_exists};
use crate::rerank::first_k;
use crate::score::Score;
use vstd::prelude::*;

verus! {

/// A document with its coarse score.
pub type Candidate = (u32, Score);

/// The keys by which candidates sort: best score first, then the smaller document id.
pub open spec fn candidate_keys(docs: Seq<Candidate>) -> Seq<u64> {
    Seq::new(docs.len(), |i: int| (docs[i].1.descending_key() * 0x1_0000_0000 + docs[i].0) as u64)
}

/// `a` comes before `b` among the candidates: a better score, or the same and a smaller id.
pub open spec fn precedes(a: Candidate, b: Candidate) -> bool {
    a.1.rank() > b.1.rank() || (a.1.rank() == b.1.rank() && a.0 <= b.0)
}

/// The best `n` documents, best score first and smaller ids first within a score. Where the
/// cut falls within one score, the smaller ids stay.
pub open spec fn best_candidates(docs: Seq<Candidate>, n: nat) -> Seq<Candidate> {
    first_k(in_order(candidate_keys(docs), docs), n)
}

/// The best `k_docs_to_score` of the scored documents, in candidate order.
pub fn select_candidates(doc_scores: &[Candidate], k_docs_to_score: usize) -> (r: Vec<Candidate>)
    requires
        k_docs_to_score > 0 || doc_scores@.len() == 0,
        forall|i: int| 0 <= i < doc_scores@.len() ==> !(#[trigger] doc_scores@[i]).1.nan(),
    ensures
        r@ == best_candidates(doc_scores@, k_docs_to_score as nat),
{
    let ghost wanted = candidate_keys(doc_scores@);
    let mut keys: Vec<u64> = Vec::with_capacity(doc_scores.len());
    let mut i: usize = 0;
    while i < doc_scores.len()
        invariant
            i <= doc_scores@.len(),
            wanted == candidate_keys(doc_scores@),
            keys@ == wanted.take(i as int),
        decreases doc_scores@.len() - i,
    {
        let high: u64 = doc_scores[i].1.to_descending_key() as u64;
        keys.push(high * 0x1_0000_0000 + doc_scores[i].0 as u64);
        i += 1;
        assert(keys@ =~= wanted.take(i as int));
    }
    assert(keys@ =~= wanted);
    let order: Vec<usize> = sort_positions(&keys);
    let n: usize = if doc_scores.len() <= k_docs_to_score {
        doc_scores.len()
    } else {
        k_docs_to_score
    };
    let ghost all = in_order(wanted, doc_scores@);
    let mut r: Vec<Candidate> = Vec::with_capacity(n);
    let mut j: usize = 0;
    while j < n
        invariant
            j <= n <= doc_scores@.len(),
            is_stable_order(wanted, order@),
            wanted.len() == doc_scores@.len(),
            order@ == stable_order(wanted),
            all == in_order(wanted, doc_scores@),
            r@ == all.take(j as int),
        decreases n - j,
    {
        r.push(doc_scores[order[j]]);
        j += 1;
        assert(r@ =~= all.take(j as int));
    }
    assert(all.take(doc_scores@.len() as int) =~= all);
    r
}

/// The best score and the `k`-th best (the last, where there are fewer); `None` where there is no
/// candidate or none is asked for.
pub open spec fn band_of(candidates: Seq<Candidate>, k: nat) -> Option<(Score, Score)> {
    if candidates.len() == 0 || k == 0 {
        None
    } else if k <= candidates.len() {
        Some((candidates[0].1, candidates[k - 1].1))
    } else {
        Some((candidates[0].1, candidates.last().1))
    }
}

/// The best score and the `k`-th best (the last, where there are fewer), between which alpha
/// pruning measures; `None` where it has nothing to do.
pub fn alpha_band(candidates: &[Candidate], k: usize) -> (band: Option<(Score, Score)>)
    ensures
        band == band_of(candidates@, k as nat),
{
    if candidates.len() == 0 || k == 0 {
        None
    } else {
        let kth: usize = if k <= candidates.len() {
            k - 1
        } else {
            candidates.len() - 1
        };
        Some((candidates[0].1, candidates[kth].1))
    }
}

/// Keeps the candidates that score at least `threshold`, in order.
pub fn prune_by_alpha(candidates: &mut Vec<Candidate>, threshold: Score)
    ensures
        final(candidates)@ == old(candidates)@.filter(|c: Candidate| c.1.at_least(threshold)),
{
    let ghost keep = |c: Candidate| c.1.at_least(threshold);
    let mut kept: Vec<Candidate> = Vec::new();
    let mut i: usize = 0;
    proof {
        reveal(Seq::filter);
        assert(candidates@.take(0).filter(keep) =~= Seq::empty());
    }
    while i < candidates.len()
        invariant
            i <= candidates@.len(),
            keep == (|c: Candidate| c.1.at_least(threshold)),
            kept@ == candidates@.take(i as int).filter(keep),
            candidates@ == old(candidates)@,
        decreases candidates@.len() - i,
    {
        let c: Candidate = candidates[i];
        proof {
            reveal(Seq::filter);
            assert(candidates@.take(i + 1).drop_last() =~= candidates@.take(i as int));
        }
        if c.1.is_at_least(threshold) {
            kept.push(c);
        }
        i += 1;
    }
    assert(candidates@.take(i as int) =~= candidates@);
    *candidates = kept;
}

/// The selected candidates are in candidate order: best score first, then smaller ids.
pub proof fn selected_in_order(docs: Seq<Candidate>, n: nat)
    requires
        docs.len() <= usize::MAX,
    ensures
        ({
            let r = best_candidates(docs, n);
            forall|i: int, j: int|
                0 <= i < j < r.len() ==> precedes(#[trigger] r[i], #[trigger] r[j])
        }),
{
    let keys = candidate_keys(docs);
    let p = stable_order(keys);
    lemma_stable_order_exists(keys);
    let r = best_candidates(docs, n);
    assert forall|i: int, j: int| 0 <= i < j < r.len() implies precedes(
        #[trigger] r[i],
        #[trigger] r[j],
    ) by {
        assert(comes_before(keys, p[i] as int, p[j] as int));
        lemma_key_order(docs[p[i] as int], docs[p[j] as int]);
    }
}

/// A document that is not selected comes behind every one that is, and then as many are
/// selected as were asked for.
pub proof fn selected_are_best(docs: Seq<Candidate>, n: nat, i: int)
    requires
        docs.len() <= usize::MAX,
        0 <= i < docs.len(),
    ensures
        ({
            let r = best_candidates(docs, n);
            r.contains(docs[i]) || (r.len() == n && forall|j: int|
                0 <= j < n ==> precedes(#[trigger] r[j], docs[i]))
        }),
{
    let keys = candidate_keys(docs);
    let p = stable_order(keys);
    lemma_stable_order_exists(keys);
    lemma_stable_order_covers(keys, p, i as usize);
    let r = best_candidates(docs, n);
    let a = choose|a: int| 0 <= a < p.len() && p[a] == i as usize;
    if a < r.len() {
        assert(r[a] == docs[i]);
    } else {
        assert forall|j: int| 0 <= j < n implies precedes(#[trigger] r[j], docs[i]) by {
            assert(comes_before(keys, p[j] as int, p[a] as int));
            lemma_key_order(docs[p[j] as int], docs[i]);
        }
    }
}

proof fn lemma_key_order(a: Candidate, b: Candidate)
    requires
        (a.1.descending_key() * 0x1_0000_0000 + a.0) as u64 <= (b.1.descending_key() * 0x1_0000_0000
            + b.0) as u64,
    ensures
        precedes(a, b),
{
}

/// A threshold no higher than the `k`-th best score prunes none of the first `k` candidates, and
/// what it keeps is the front of the list.
pub proof fn pruning_keeps_top_k(candidates: Seq<Candidate>, k: nat, threshold: Score)
    requires
        forall|i: int, j: int|
            0 <= i < j < candidates.len() ==> precedes(
                #[trigger] candidates[i],
                #[trigger] candidates[j],
            ),
        forall|i: int| 0 <= i < candidates.len() ==> !(#[trigger] candidates[i]).1.nan(),
        0 < k <= candidates.len(),
        candidates[k - 1].1.at_least(threshold),
    ensures
        ({
            let kept = candidates.filter(|c: Candidate| c.1.at_least(threshold));
            &&& k <= kept.len() <= candidates.len()
            &&& kept == candidates.take(kept.len() as int)
        }),
{
    let keep = |c: Candidate| c.1.at_least(threshold);
    let kept = candidates.filter(keep);
    lemma_pruned_prefix(candidates, threshold);
    if kept.len() < k {
        assert(candidates[k - 1].1.rank() <= candidates[kept.len() as int].1.rank()) by {
            if kept.len() < k - 1 {
                assert(precedes(candidates[kept.len() as int], candidates[k - 1]));
            }
        }
        assert(!keep(candidates[kept.len() as int]));
    }
}

/// A list of no more than `k` candidates stays as it is, at a threshold no higher than its last
/// score.
pub proof fn short_lists_are_not_pruned(candidates: Seq<Candidate>, k: nat, threshold: Score)
    requires
        forall|i: int, j: int|
            0 <= i < j < candidates.len() ==> precedes(
                #[trigger] candidates[i],
                #[trigger] candidates[j],
            ),
        forall|i: int| 0 <= i < candidates.len() ==> !(#[trigger] candidates[i]).1.nan(),
        candidates.len() <= k,
        candidates.len() > 0 ==> candidates.last().1.at_least(threshold),
    ensures
        candidates.filter(|c: Candidate| c.1.at_least(threshold)) == candidates,
{
    if candidates.len() > 0 {
        pruning_keeps_top_k(candidates, candidates.len(), threshold);
        assert(candidates.take(candidates.len() as int) =~= candidates);
    } else {
        reveal(Seq::filter);
    }
}

/// Pruning at the same threshold again changes nothing.
pub proof fn pruning_again_changes_nothing(candidates: Seq<Candidate>, threshold: Score)
    ensures
        ({
            let keep = |c: Candidate| c.1.at_least(threshold);
            candidates.filter(keep).filter(keep) == candidates.filter(keep)
        }),
    decreases candidates.len(),
{
    let keep = |c: Candidate| c.1.at_least(threshold);
    reveal(Seq::filter);
    if candidates.len() > 0 {
        pruning_again_changes_nothing(candidates.drop_last(), threshold);
        let before = candidates.drop_last().filter(keep);
        if keep(candidates.last()) {
            assert(before.push(candidates.last()).drop_last() =~= before);
        }
    }
}

/// Pruning at a threshold no higher than the `k`-th best score leaves the scores between which the
/// threshold is measured as they were, so that it is the same if it is measured again.
pub proof fn pruning_keeps_the_band(candidates: Seq<Candidate>, k: nat, threshold: Score)
    requires
        forall|i: int, j: int|
            0 <= i < j < candidates.len() ==> precedes(
                #[trigger] candidates[i],
                #[trigger] candidates[j],
            ),
        forall|i: int| 0 <= i < candidates.len() ==> !(#[trigger] candidates[i]).1.nan(),
        band_of(candidates, k) matches Some((best, kth)) && kth.at_least(threshold),
    ensures
        band_of(candidates.filter(|c: Candidate| c.1.at_least(threshold)), k) == band_of(
            candidates,
            k,
        ),
{
    if k <= candidates.len() {
        pruning_keeps_top_k(candidates, k, threshold);
    } else {
        short_lists_are_not_pruned(candidates, k, threshold);
    }
}

proof fn lemma_pruned_prefix(candidates: Seq<Candidate>, threshold: Score)
    requires
        forall|i: int, j: int|
            0 <= i < j < candidates.len() ==> precedes(
                #[trigger] candidates[i],
                #[trigger] candidates[j],
            ),
        forall|i: int| 0 <= i < candidates.len() ==> !(#[trigger] candidates[i]).1.nan(),
    ensures
        ({
            let kept = candidates.filter(|c: Candidate| c.1.at_least(threshold));
            &&& kept.len() <= candidates.len()
            &&& kept == candidates.take(kept.len() as int)
            &&& kept.len() < candidates.len() ==> !candidates[kept.len() as int].1.at_least(threshold)
        }),
    decreases candidates.len(),
{
    let keep = |c: Candidate| c.1.at_least(threshold);
    reveal(Seq::filter);
    let kept = candidates.filter(keep);
    if candidates.len() > 0 {
        let shorter = candidates.drop_last();
        assert forall|i: int, j: int| 0 <= i < j < shorter.len() implies precedes(
            #[trigger] shorter[i],
            #[trigger] shorter[j],
        ) by {
            assert(precedes(candidates[i], candidates[j]));
        }
        lemma_pruned_prefix(shorter, threshold);
        let before = shorter.filter(keep);
        if keep(candidates.last()) {
            if before.len() < shorter.len() {
                assert(precedes(candidates[before.len() as int], candidates.last()));
            }
            assert(kept =~= candidates.take(kept.len() as int));
        } else {
            assert(kept == before);
            assert(kept =~= candidates.take(kept.len() as int));
        }
    } else {
        assert(kept =~= candidates.take(0));
    }
}

/// The band runs from the score of the first candidate to that of candidate `min(k, n)`, of `n`;
/// there is none exactly if there is no candidate or none is asked for.
pub proof fn band_ends_at_the_kth(candidates: Seq<Candidate>, k: nat)
    ensures
        band_of(candidates, k) is Some <==> candidates.len() > 0 && k > 0,
        forall|last: int|
            #![trigger candidates[last]]
            candidates.len() > 0 && k > 0 && 0 <= last < candidates.len() && last < k && (last + 1
                == k || last + 1 == candidates.len()) ==> band_of(candidates, k) == Some(
                (candidates[0].1, candidates[last].1),
            ),
{
}

/// Of candidates in order, a threshold no higher than the end of the band keeps the first
/// `min(k, n)`.
pub proof fn band_keeps_the_first_k(
    candidates: Seq<Candidate>,
    k: nat,
    best: Score,
    kth: Score,
    threshold: Score,
)
    requires
        forall|i: int, j: int|
            0 <= i < j < candidates.len() ==> !(#[trigger] candidates[j]).1.above(
                (#[trigger] candidates[i]).1,
            ),
        forall|i: int| 0 <= i < candidates.len() ==> !(#[trigger] candidates[i]).1.nan(),
        band_of(candidates, k) == Some((best, kth)),
        kth.at_least(threshold),
    ensures
        ({
            let kept = candidates.filter(|c: Candidate| c.1.at_least(threshold));
            &&& kept.len() >= k || kept.len() == candidates.len()
            &&& kept.len() <= candidates.len()
            &&& kept == candidates.take(kept.len() as int)
        }),
{
    let keep = |c: Candidate| c.1.at_least(threshold);
    let kept = candidates.filter(keep);
    lemma_front_passes(candidates, threshold);
    let m: int = if k <= candidates.len() {
        k as int
    } else {
        candidates.len() as int
    };
    if kept.len() < m {
        assert(candidates[m - 1].1 == kth);
        if kept.len() < m - 1 {
            assert(!candidates[m - 1].1.above(candidates[kept.len() as int].1));
        }
        assert(keep(candidates[kept.len() as int]));
    }
}

proof fn lemma_front_passes(candidates: Seq<Candidate>, threshold: Score)
    requires
        forall|i: int, j: int|
            0 <= i < j < candidates.len() ==> !(#[trigger] candidates[j]).1.above(
                (#[trigger] candidates[i]).1,
            ),
        forall|i: int| 0 <= i < candidates.len() ==> !(#[trigger] candidates[i]).1.nan(),
    ensures
        ({
            let kept = candidates.filter(|c: Candidate| c.1.at_least(threshold));
            &&& kept.len() <= candidates.len()
            &&& kept == candidates.take(kept.len() as int)
            &&& kept.len() < candidates.len() ==> !candidates[kept.len() as int].1.at_least(
                threshold,
            )
        }),
    decreases candidates.len(),
{
    let keep = |c: Candidate| c.1.at_least(threshold);
    reveal(Seq::filter);
    let kept = candidates.filter(keep);
    if candidates.len() > 0 {
        let shorter = candidates.drop_last();
        assert forall|i: int, j: int| 0 <= i < j < shorter.len() implies !(
        #[trigger] shorter[j]).1.above((#[trigger] shorter[i]).1) by {
            assert(!candidates[j].1.above(candidates[i].1));
        }
        lemma_front_passes(shorter, threshold);
        let before = shorter.filter(keep);
        if keep(candidates.last()) {
            if before.len() < shorter.len() {
                assert(!candidates[candidates.len() - 1].1.above(
                    candidates[before.len() as int].1,
                ));
            }
            assert(kept =~= candidates.take(kept.len() as int));
        } else {
            assert(kept =~= candidates.take(kept.len() as int));
        }
    } else {
        assert(kept =~= candidates.take(0));
    }
}

/// The selected candidates: as many as asked for, or all; each a document with its score, none
/// twice; no later one above an earlier one, and of one score the smaller ids first; and no document
/// that was left out is above one that was selected, nor has its score and a smaller id.
pub proof fn selected_are_the_best_n(docs: Seq<Candidate>, n: nat)
    requires
        docs.len() <= usize::MAX,
        forall|i: int| 0 <= i < docs.len() ==> !(#[trigger] docs[i]).1.nan(),
    ensures
        ({
            let r = best_candidates(docs, n);
            &&& r.len() <= n && r.len() <= docs.len() && (r.len() == n || r.len() == docs.len())
            &&& exists|from: Seq<int>| #[trigger]
                from.no_duplicates() && from.len() == r.len() && (forall|i: int|
                    0 <= i < r.len() ==> 0 <= #[trigger] from[i] < docs.len() && r[i]
                        == docs[from[i]]) && (forall|i: int, x: int|
                    0 <= i < r.len() && 0 <= x < docs.len() && !from.contains(x) ==> !(
                    #[trigger] docs[x]).1.above((#[trigger] r[i]).1) && (docs[x].1.at_least(r[i].1)
                        ==> r[i].0 <= docs[x].0))
            &&& forall|i: int, j: int|
                0 <= i < j < r.len() ==> !(#[trigger] r[j]).1.above((#[trigger] r[i]).1) && (
                r[j].1.at_least(r[i].1) ==> r[i].0 <= r[j].0)
        }),
{
    let keys = candidate_keys(docs);
    lemma_stable_order_exists(keys);
    let p = stable_order(keys);
    assert(is_stable_order(keys, p));
    let r = best_candidates(docs, n);
    let from: Seq<int> = Seq::new(r.len(), |i: int| p[i] as int);
    assert forall|i: int, j: int| 0 <= i < j < p.len() implies !docs[p[j] as int].1.above(
        docs[p[i] as int].1,
    ) && (docs[p[j] as int].1.at_least(docs[p[i] as int].1) ==> docs[p[i] as int].0
        <= docs[p[j] as int].0) && #[trigger] p[i] != #[trigger] p[j] by {
        assert(comes_before(keys, p[i] as int, p[j] as int));
        lemma_key_order(docs[p[i] as int], docs[p[j] as int]);
    }
    assert(from.no_duplicates()) by {
        assert forall|i: int, j: int| 0 <= i < from.len() && 0 <= j < from.len() && i != j implies from[i]
            != from[j] by {
            if i < j {
                assert(p[i] != p[j]);
            } else {
                assert(p[j] != p[i]);
            }
        }
    }
    assert forall|i: int, x: int|
        0 <= i < r.len() && 0 <= x < docs.len() && !from.contains(x) implies !(
    #[trigger] docs[x]).1.above((#[trigger] r[i]).1) && (docs[x].1.at_least(r[i].1) ==> r[i].0
        <= docs[x].0) by {
        lemma_stable_order_covers(keys, p, x as usize);
        let a = choose|a: int| 0 <= a < p.len() && p[a] == x as usize;
        if a < r.len() {
            assert(from[a] == x);
        }
        assert(p[i] != p[a]);
    }
    assert forall|i: int| 0 <= i < r.len() implies 0 <= #[trigger] from[i] < docs.len() && r[i]
        == docs[from[i]] by {
        assert(p[i] < keys.len());
    }
    assert forall|i: int, j: int| 0 <= i < j < r.len() implies !(#[trigger] r[j]).1.above(
        (#[trigger] r[i]).1,
    ) && (r[j].1.at_least(r[i].1) ==> r[i].0 <= r[j].0) by {
        assert(p[i] != p[j]);
    }
}

} // verus!
