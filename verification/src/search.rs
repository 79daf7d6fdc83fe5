//! A search from its first probe to its results.
//!
//! The three stages are three types, each made from the one before: [`CoarseStage`] takes the
//! centroids that every query token retrieves, [`CandidateStage`] takes the coarse score of every
//! document that they list, [`PruningStage`] takes the threshold of alpha pruning, and what comes
//! out is a [`Reranker`], which asks for full scores and gives the results.
use crate::candidates::{
    alpha_band, band_of, best_candidates, prune_by_alpha, select_candidates, Candidate,
};
#[allow(unused_imports)]
use crate::candidates::{pruning_keeps_top_k, selected_in_order};
#[allow(unused_imports)]
use crate::coarse::found_where_listed;
use crate::coarse::{DocHits, Probe};
#[allow(unused_imports)]
use crate::order::{comes_before, is_stable_order, lemma_stable_order_exists, stable_order};
use crate::rerank::Reranker;
#[allow(unused_imports)]
use crate::rerank::{
    distinct_docs, docs_of, is_reachable, reranked, reranked_are_candidates,
    reranked_are_distinct,
};
use crate::score::Score;
use crate::tachiom::Tachiom;
use vstd::prelude::*;

verus! {

/// What a search is asked for.
#[derive(Debug, Clone, Copy, PartialEq, Eq, Structural)]
pub struct SearchRequest {
    /// How many results.
    pub k: usize,
    /// How many candidates at most get a full score.
    pub k_docs_to_score: usize,
    /// Candidates are pruned by alpha.
    pub prunes: bool,
    /// Full scores without improvement after which reranking stops.
    pub beta: Option<usize>,
}

/// Stage 1 in progress.
pub struct CoarseStage<'a> {
    index: &'a Tachiom,
    request: SearchRequest,
    probes: Vec<Vec<Probe>>,
}

/// Stage 1 done: the documents that were found wait for their coarse scores.
pub struct CandidateStage {
    request: SearchRequest,
    found: Vec<DocHits>,
}

/// The candidates wait to be pruned.
pub struct PruningStage {
    request: SearchRequest,
    candidates: Vec<Candidate>,
}

/// The documents that were found, each with its coarse score.
pub open spec fn with_scores(found: Seq<DocHits>, scores: Seq<Score>) -> Seq<Candidate> {
    Seq::new(found.len(), |i: int| (found[i].doc, scores[i]))
}

/// The candidates that pass the threshold, where there is one.
pub open spec fn pruned(candidates: Seq<Candidate>, threshold: Option<Score>) -> Seq<Candidate> {
    match threshold {
        Some(t) => candidates.filter(|c: Candidate| c.1.at_least(t)),
        None => candidates,
    }
}

/// Every document that the probes find is there, once and with its hits, and no other.
pub open spec fn is_found(index: Tachiom, probes: Seq<Vec<Probe>>, found: Seq<DocHits>) -> bool {
    &&& forall|i: int, j: int|
        0 <= i < j < found.len() ==> (#[trigger] found[i]).doc != (#[trigger] found[j]).doc
    &&& forall|i: int|
        0 <= i < found.len() ==> (#[trigger] found[i]).hits@ == index.hits_of(
            probes,
            probes.len(),
            found[i].doc,
        )
    &&& forall|doc: u32|
        (#[trigger] index.hits_of(probes, probes.len(), doc)).len() > 0 <==> exists|i: int|
            0 <= i < found.len() && (#[trigger] found[i]).doc == doc
}

impl Tachiom {
    /// Begins a search.
    pub fn search<'a>(&'a self, request: SearchRequest) -> (stage: CoarseStage<'a>)
        requires
            self.wf(),
        ensures
            stage.wf(),
            stage.index() == *self,
            stage.request() == request,
            stage.probes() == Seq::<Vec<Probe>>::empty(),
    {
        CoarseStage { index: self, request, probes: Vec::new() }
    }
}

impl<'a> CoarseStage<'a> {
    pub closed spec fn index(&self) -> Tachiom {
        *self.index
    }

    pub closed spec fn request(&self) -> SearchRequest {
        self.request
    }

    /// The centroids that the query tokens so far retrieved.
    pub closed spec fn probes(&self) -> Seq<Vec<Probe>> {
        self.probes@
    }

    pub closed spec fn wf(&self) -> bool {
        &&& self.index.wf()
        &&& forall|t: int|
            0 <= t < self.probes@.len() ==> self.index.covers((#[trigger] self.probes@[t])@)
    }

    /// Takes the centroids that the next query token retrieved.
    pub fn take_probes(&mut self, probes: Vec<Probe>)
        requires
            old(self).wf(),
            old(self).index().covers(probes@),
        ensures
            final(self).wf(),
            final(self).index() == old(self).index(),
            final(self).request() == old(self).request(),
            final(self).probes() == old(self).probes().push(probes),
    {
        self.probes.push(probes);
    }

    /// Ends stage 1, once every query token has retrieved its centroids.
    pub fn accumulate(self) -> (stage: CandidateStage)
        requires
            self.wf(),
        ensures
            stage.request() == self.request(),
            is_found(self.index(), self.probes(), stage.found()),
    {
        let found: Vec<DocHits> = self.index.accumulate_coarse_scores(&self.probes);
        CandidateStage { request: self.request, found }
    }
}

impl CandidateStage {
    pub closed spec fn request(&self) -> SearchRequest {
        self.request
    }

    /// The documents that were found.
    pub closed spec fn found(&self) -> Seq<DocHits> {
        self.found@
    }

    /// The documents that were found, in the order in which their scores are wanted.
    pub fn documents(&self) -> (found: &[DocHits])
        ensures
            found@ == self.found(),
    {
        self.found.as_slice()
    }

    /// Takes the coarse scores and selects the candidates.
    pub fn select(self, scores: &[Score]) -> (stage: PruningStage)
        requires
            scores@.len() == self.found().len(),
            forall|i: int| 0 <= i < scores@.len() ==> !(#[trigger] scores@[i]).nan(),
            self.request().k_docs_to_score > 0 || self.found().len() == 0,
        ensures
            stage.request() == self.request(),
            stage.candidates() == best_candidates(
                with_scores(self.found(), scores@),
                self.request().k_docs_to_score as nat,
            ),
    {
        let ghost wanted = with_scores(self.found@, scores@);
        let mut docs: Vec<Candidate> = Vec::with_capacity(self.found.len());
        let mut i: usize = 0;
        while i < self.found.len()
            invariant
                i <= self.found@.len() == scores@.len(),
                wanted == with_scores(self.found@, scores@),
                docs@ == wanted.take(i as int),
            decreases self.found@.len() - i,
        {
            docs.push((self.found[i].doc, scores[i]));
            i += 1;
            assert(docs@ =~= wanted.take(i as int));
        }
        assert(docs@ =~= wanted);
        assert forall|j: int| 0 <= j < docs@.len() implies !(#[trigger] docs@[j]).1.nan() by {
            assert(!scores@[j].nan());
        }
        let candidates: Vec<Candidate> = select_candidates(&docs, self.request.k_docs_to_score);
        PruningStage { request: self.request, candidates }
    }
}

impl PruningStage {
    pub closed spec fn request(&self) -> SearchRequest {
        self.request
    }

    /// The candidates, best first.
    pub closed spec fn candidates(&self) -> Seq<Candidate> {
        self.candidates@
    }

    /// There is something to prune.
    pub open spec fn can_prune(&self) -> bool {
        self.request().prunes && self.candidates().len() > 0 && self.request().k > 0
    }

    /// The scores between which the threshold is measured, the best and the `k`-th; `None` where
    /// there is nothing to prune.
    pub fn band(&self) -> (band: Option<(Score, Score)>)
        ensures
            band is Some <==> self.can_prune(),
            band is Some ==> band == band_of(self.candidates(), self.request().k as nat),
    {
        if self.request.prunes {
            alpha_band(&self.candidates, self.request.k)
        } else {
            None
        }
    }

    /// Prunes the candidates, where there is something to prune, and goes on to rerank them.
    pub fn rerank(self, threshold: Option<Score>) -> (r: Reranker)
        requires
            threshold is Some <==> self.can_prune(),
        ensures
            r.wf(),
            r.docs() == docs_of(pruned(self.candidates(), threshold)),
            r.k() == self.request().k,
            r.beta() == self.request().beta,
            r.scores() == Seq::<Score>::empty(),
    {
        let mut candidates: Vec<Candidate> = self.candidates;
        match threshold {
            Some(t) => {
                prune_by_alpha(&mut candidates, t);
            },
            None => {},
        }
        Reranker::new(&candidates, self.request.k, self.request.beta)
    }
}

/// A candidate is a document that was found, with its score.
proof fn lemma_candidate_was_found(docs: Seq<Candidate>, n: nat, i: int)
    requires
        docs.len() <= usize::MAX,
        0 <= i < best_candidates(docs, n).len(),
    ensures
        docs.contains(best_candidates(docs, n)[i]),
{
    let keys = crate::candidates::candidate_keys(docs);
    lemma_stable_order_exists(keys);
    let p = stable_order(keys);
    assert(is_stable_order(keys, p));
    assert(docs[p[i] as int] == best_candidates(docs, n)[i]);
}

proof fn lemma_pruned_were_there(candidates: Seq<Candidate>, threshold: Option<Score>, i: int)
    requires
        0 <= i < pruned(candidates, threshold).len(),
    ensures
        candidates.contains(pruned(candidates, threshold)[i]),
{
    match threshold {
        Some(t) => {
            candidates.lemma_filter_contains_rev(
                |c: Candidate| c.1.at_least(t),
                pruned(candidates, threshold)[i],
            );
        },
        None => {},
    }
}

/// Every result is a document that a centroid, probed by some query token, lists.
pub proof fn results_were_probed(
    index: Tachiom,
    probes: Seq<Vec<Probe>>,
    found: Seq<DocHits>,
    coarse: Seq<Score>,
    request: SearchRequest,
    threshold: Option<Score>,
    scores: Seq<Score>,
    j: int,
)
    requires
        is_found(index, probes, found),
        found.len() <= usize::MAX,
        coarse.len() == found.len(),
        ({
            let candidates = best_candidates(
                with_scores(found, coarse),
                request.k_docs_to_score as nat,
            );
            let docs = docs_of(pruned(candidates, threshold));
            &&& is_reachable(docs, scores, request.k as nat, request.beta)
            &&& 0 <= j < reranked(docs, scores, request.k as nat, request.beta).len()
        }),
    ensures
        ({
            let candidates = best_candidates(
                with_scores(found, coarse),
                request.k_docs_to_score as nat,
            );
            let docs = docs_of(pruned(candidates, threshold));
            let doc = reranked(docs, scores, request.k as nat, request.beta)[j].1;
            exists|t: int, i: int|
                0 <= t < probes.len() && 0 <= i < probes[t]@.len() && index.list(
                    (#[trigger] probes[t]@[i]).centroid as int,
                ).contains(doc)
        }),
{
    let all = with_scores(found, coarse);
    let candidates = best_candidates(all, request.k_docs_to_score as nat);
    let kept = pruned(candidates, threshold);
    let docs = docs_of(kept);
    let doc = reranked(docs, scores, request.k as nat, request.beta)[j].1;
    lemma_pruned_len(candidates, threshold);
    reranked_are_candidates(docs, scores, request.k as nat, request.beta, j);
    let a = choose|a: int| 0 <= a < scores.len() && #[trigger] docs[a] == doc && scores[a]
        == reranked(docs, scores, request.k as nat, request.beta)[j].0;
    lemma_pruned_were_there(candidates, threshold, a);
    let b = choose|b: int| 0 <= b < candidates.len() && candidates[b] == kept[a];
    lemma_candidate_was_found(all, request.k_docs_to_score as nat, b);
    let c = choose|c: int| 0 <= c < all.len() && all[c] == candidates[b];
    assert(found[c].doc == doc);
    found_where_listed(index, probes, probes.len(), doc);
}

proof fn lemma_pruned_len(candidates: Seq<Candidate>, threshold: Option<Score>)
    ensures
        pruned(candidates, threshold).len() <= candidates.len(),
{
    match threshold {
        Some(t) => {
            candidates.lemma_filter_len(|c: Candidate| c.1.at_least(t));
        },
        None => {},
    }
}

/// Pruning at a threshold no higher than the `k`-th best coarse score passes over none of the `k`
/// best candidates.
pub proof fn pruning_passes_over_no_top_candidate(
    docs: Seq<Candidate>,
    request: SearchRequest,
    threshold: Score,
)
    requires
        docs.len() <= usize::MAX,
        forall|i: int| 0 <= i < docs.len() ==> !(#[trigger] docs[i]).1.nan(),
        ({
            let candidates = best_candidates(docs, request.k_docs_to_score as nat);
            &&& 0 < request.k <= candidates.len()
            &&& candidates[request.k - 1].1.at_least(threshold)
        }),
    ensures
        ({
            let candidates = best_candidates(docs, request.k_docs_to_score as nat);
            let kept = pruned(candidates, Some(threshold));
            &&& request.k <= kept.len()
            &&& kept.take(request.k as int) == candidates.take(request.k as int)
        }),
{
    let candidates = best_candidates(docs, request.k_docs_to_score as nat);
    selected_in_order(docs, request.k_docs_to_score as nat);
    assert forall|i: int| 0 <= i < candidates.len() implies !(#[trigger] candidates[i]).1.nan() by {
        lemma_candidate_was_found(docs, request.k_docs_to_score as nat, i);
        let c = choose|c: int| 0 <= c < docs.len() && docs[c] == candidates[i];
        assert(!docs[c].1.nan());
    }
    pruning_keeps_top_k(candidates, request.k as nat, threshold);
    let kept = pruned(candidates, Some(threshold));
    assert(kept.take(request.k as int) =~= candidates.take(request.k as int));
}

/// The candidates are different documents, if those that they are chosen from are.
proof fn lemma_candidates_distinct(docs: Seq<Candidate>, n: nat)
    requires
        docs.len() <= usize::MAX,
        docs_of(docs).no_duplicates(),
    ensures
        docs_of(best_candidates(docs, n)).no_duplicates(),
{
    let keys = crate::candidates::candidate_keys(docs);
    lemma_stable_order_exists(keys);
    let p = stable_order(keys);
    assert(is_stable_order(keys, p));
    let r = docs_of(best_candidates(docs, n));
    assert forall|i: int, j: int| 0 <= i < r.len() && 0 <= j < r.len() && i != j implies r[i]
        != r[j] by {
        let (a, b) = (p[i] as int, p[j] as int);
        if i < j {
            assert(comes_before(keys, p[i] as int, p[j] as int));
        } else {
            assert(comes_before(keys, p[j] as int, p[i] as int));
        }
        assert(docs_of(docs)[a] != docs_of(docs)[b]);
    }
}

/// What passes a threshold are different documents, if they all are.
proof fn lemma_filtered_distinct(candidates: Seq<Candidate>, threshold: Score)
    requires
        docs_of(candidates).no_duplicates(),
    ensures
        docs_of(pruned(candidates, Some(threshold))).no_duplicates(),
    decreases candidates.len(),
{
    reveal(Seq::filter);
    let kept = pruned(candidates, Some(threshold));
    if candidates.len() > 0 {
        let front = candidates.drop_last();
        let last = candidates.last();
        assert forall|i: int, j: int|
            0 <= i < front.len() && 0 <= j < front.len() && i != j implies docs_of(front)[i]
            != docs_of(front)[j] by {
            assert(docs_of(candidates)[i] != docs_of(candidates)[j]);
        }
        lemma_filtered_distinct(front, threshold);
        let before = pruned(front, Some(threshold));
        assert forall|i: int| 0 <= i < before.len() implies (#[trigger] before[i]).0 != last.0 by {
            lemma_pruned_were_there(front, Some(threshold), i);
            let a = choose|a: int| 0 <= a < front.len() && front[a] == before[i];
            assert(docs_of(candidates)[a] != docs_of(candidates)[candidates.len() - 1]);
        }
        assert forall|i: int, j: int|
            0 <= i < kept.len() && 0 <= j < kept.len() && i != j implies docs_of(kept)[i] != docs_of(
            kept,
        )[j] by {
            if i < before.len() && j < before.len() {
                assert(docs_of(before)[i] != docs_of(before)[j]);
            }
        }
    }
}

/// No document is a result twice.
pub proof fn results_are_distinct(
    index: Tachiom,
    probes: Seq<Vec<Probe>>,
    found: Seq<DocHits>,
    coarse: Seq<Score>,
    request: SearchRequest,
    threshold: Option<Score>,
    scores: Seq<Score>,
)
    requires
        is_found(index, probes, found),
        found.len() <= usize::MAX,
        coarse.len() == found.len(),
        ({
            let candidates = best_candidates(
                with_scores(found, coarse),
                request.k_docs_to_score as nat,
            );
            let docs = docs_of(pruned(candidates, threshold));
            is_reachable(docs, scores, request.k as nat, request.beta)
        }),
    ensures
        ({
            let candidates = best_candidates(
                with_scores(found, coarse),
                request.k_docs_to_score as nat,
            );
            let docs = docs_of(pruned(candidates, threshold));
            distinct_docs(reranked(docs, scores, request.k as nat, request.beta))
        }),
{
    let all = with_scores(found, coarse);
    let candidates = best_candidates(all, request.k_docs_to_score as nat);
    assert forall|i: int, j: int|
        0 <= i < all.len() && 0 <= j < all.len() && i != j implies docs_of(all)[i] != docs_of(
        all,
    )[j] by {
        assert(found[i].doc != found[j].doc);
    }
    lemma_candidates_distinct(all, request.k_docs_to_score as nat);
    lemma_pruned_len(candidates, threshold);
    match threshold {
        Some(t) => {
            lemma_filtered_distinct(candidates, t);
        },
        None => {},
    }
    let docs = docs_of(pruned(candidates, threshold));
    reranked_are_distinct(docs, scores, request.k as nat, request.beta);
}

/// Every document that was found is scored once, with its own score, in the order in which it was
/// found.
pub proof fn documents_have_their_own_scores(found: Seq<DocHits>, scores: Seq<Score>, i: int)
    requires
        scores.len() == found.len(),
        0 <= i < found.len(),
    ensures
        with_scores(found, scores).len() == found.len(),
        with_scores(found, scores)[i].0 == found[i].doc,
        with_scores(found, scores)[i].1 == scores[i],
        docs_of(with_scores(found, scores))[i] == found[i].doc,
        docs_of(with_scores(found, scores)).len() == found.len(),
{
}

/// Without a threshold nothing is pruned; with one, exactly the candidates with a score of at least
/// the threshold stay, in their order.
pub proof fn pruning_drops_what_is_below(candidates: Seq<Candidate>, threshold: Option<Score>)
    ensures
        threshold is None ==> pruned(candidates, threshold) == candidates,
        threshold matches Some(t) ==> exists|places: Seq<int>| #[trigger]
            places.no_duplicates() && places.len() == pruned(candidates, threshold).len() && (forall|
                i: int,
                j: int,
            |
                0 <= i < j < places.len() ==> (#[trigger] places[i]) < (#[trigger] places[j])) && (
            forall|i: int|
                0 <= i < places.len() ==> 0 <= (#[trigger] places[i]) < candidates.len() && pruned(
                    candidates,
                    threshold,
                )[i] == candidates[places[i]]) && (forall|j: int|
                0 <= j < candidates.len() ==> (#[trigger] places.contains(j)
                    <==> candidates[j].1.at_least(t))),
{
    match threshold {
        Some(t) => {
            let places = lemma_pruned_places(candidates, t);
            assert forall|i: int, j: int|
                0 <= i < places.len() && 0 <= j < places.len() && i != j implies places[i]
                != places[j] by {
                if i < j {
                    assert(places[i] < places[j]);
                } else {
                    assert(places[j] < places[i]);
                }
            }
            assert(places.no_duplicates());
        },
        None => {},
    }
}

proof fn lemma_pruned_places(candidates: Seq<Candidate>, t: Score) -> (places: Seq<int>)
    ensures
        places.len() == pruned(candidates, Some(t)).len(),
        forall|i: int, j: int|
            0 <= i < j < places.len() ==> (#[trigger] places[i]) < (#[trigger] places[j]),
        forall|i: int|
            0 <= i < places.len() ==> 0 <= (#[trigger] places[i]) < candidates.len() && pruned(
                candidates,
                Some(t),
            )[i] == candidates[places[i]],
        forall|j: int|
            0 <= j < candidates.len() ==> (#[trigger] places.contains(j)
                <==> candidates[j].1.at_least(t)),
    decreases candidates.len(),
{
    reveal(Seq::filter);
    if candidates.len() == 0 {
        Seq::empty()
    } else {
        let n = candidates.len() - 1;
        let before = lemma_pruned_places(candidates.drop_last(), t);
        let all = if candidates[n].1.at_least(t) {
            before.push(n)
        } else {
            before
        };
        assert forall|j: int| 0 <= j <= n implies (#[trigger] all.contains(j)
            <==> candidates[j].1.at_least(t)) by {
            if j < n {
                if before.contains(j) {
                    let i = choose|i: int| 0 <= i < before.len() && before[i] == j;
                    assert(all[i] == j);
                }
                if all.contains(j) {
                    let i = choose|i: int| 0 <= i < all.len() && all[i] == j;
                    assert(before[i] == j);
                }
                assert(before.contains(j) == all.contains(j));
                assert(candidates.drop_last()[j] == candidates[j]);
            } else {
                if candidates[n].1.at_least(t) {
                    assert(all[before.len() as int] == j);
                } else if all.contains(j) {
                    let i = choose|i: int| 0 <= i < all.len() && all[i] == j;
                    assert(before[i] < n);
                }
            }
        }
        all
    }
}

/// A document that some probed centroid lists is found, once, and no other is.
pub proof fn probed_documents_are_found_once(
    index: Tachiom,
    probes: Seq<Vec<Probe>>,
    found: Seq<DocHits>,
    doc: u32,
    i: int,
    j: int,
)
    requires
        index.wf(),
        forall|t: int| 0 <= t < probes.len() ==> index.covers((#[trigger] probes[t])@),
        is_found(index, probes, found),
    ensures
        (exists|at: int| 0 <= at < found.len() && (#[trigger] found[at]).doc == doc) <==> exists|
            t: int,
            p: int,
        |
            0 <= t < probes.len() && 0 <= p < probes[t]@.len() && index.list(
                (#[trigger] probes[t]@[p]).centroid as int,
            ).contains(doc),
        0 <= i < j < found.len() ==> found[i].doc != found[j].doc,
{
    found_where_listed(index, probes, probes.len(), doc);
    assert(index.hits_of(probes, probes.len(), doc).len() > 0 <==> exists|at: int|
        0 <= at < found.len() && (#[trigger] found[at]).doc == doc);
}

/// Candidates are pruned exactly if this was asked for, there are some, and results are wanted.
pub proof fn pruning_needs_candidates_and_results(stage: PruningStage)
    ensures
        stage.request().prunes && stage.candidates().len() >= 1 && stage.request().k >= 1
            ==> stage.can_prune(),
        !stage.request().prunes || stage.candidates().len() == 0 || stage.request().k == 0
            ==> !stage.can_prune(),
{
}

} // verus!
