//! Stage 1 of a search: which documents the query tokens find, and how well.
//!
//! Every query token probes some coarse centroids. A document listed by one of them is hit by
//! the token, with the best similarity among those that list it.
use crate::fx::{map_entries, map_get, map_insert};
use crate::score::Score;
use crate::tachiom::Tachiom;
use rustc_hash::FxHashMap;
use vstd::prelude::*;

verus! {

/// A centroid retrieved for a query token, with its similarity to the token.
#[derive(Clone, Copy, Debug, PartialEq, Eq, Structural)]
pub struct Probe {
    pub centroid: usize,
    pub similarity: Score,
}

/// A query token that found a document, with the best similarity among the probed centroids
/// that list the document.
#[derive(Clone, Copy, Debug, PartialEq, Eq, Structural)]
pub struct Hit {
    pub token: usize,
    pub best: Score,
}

/// A document that some query token found, with its hits in token order.
#[derive(Debug)]
pub struct DocHits {
    pub doc: u32,
    pub hits: Vec<Hit>,
}

/// The smallest similarity among the first `n` probes; positive infinity where there is none.
pub open spec fn smallest_similarity(probes: Seq<Probe>, n: nat) -> Score
    decreases n,
{
    if n == 0 {
        Score { bits: crate::score::INFINITY_BITS }
    } else {
        smallest_similarity(probes, (n - 1) as nat).smaller(probes[n - 1].similarity)
    }
}

/// The similarity that a query token credits to documents it was not found by: the smallest
/// one it retrieved.
pub fn imputed_similarity(probes: &[Probe]) -> (m: Score)
    ensures
        m == smallest_similarity(probes@, probes@.len()),
{
    let mut m: Score = Score::infinity();
    let mut i: usize = 0;
    while i < probes.len()
        invariant
            i <= probes@.len(),
            m == smallest_similarity(probes@, i as nat),
        decreases probes@.len() - i,
    {
        m = m.min(probes[i].similarity);
        i += 1;
    }
    m
}

impl Tachiom {
    /// Every probe is of a centroid of the index.
    pub open spec fn covers(self, probes: Seq<Probe>) -> bool {
        forall|i: int| 0 <= i < probes.len() ==> (#[trigger] probes[i]).centroid < self.n_lists()
    }

    /// The best similarity by which the first `n` probes find `doc`, where one does.
    pub open spec fn best_similarity(self, probes: Seq<Probe>, n: nat, doc: u32) -> Option<Score>
        decreases n,
    {
        if n == 0 {
            None
        } else {
            let prev = self.best_similarity(probes, (n - 1) as nat, doc);
            let probe = probes[n - 1];
            if self.list(probe.centroid as int).contains(doc) {
                match prev {
                    Some(p) => Some(probe.similarity.larger(p)),
                    None => Some(probe.similarity),
                }
            } else {
                prev
            }
        }
    }

    /// The hits of `doc` among the first `n` query tokens.
    pub open spec fn hits_of(self, probes: Seq<Vec<Probe>>, n: nat, doc: u32) -> Seq<Hit>
        decreases n,
    {
        if n == 0 {
            Seq::empty()
        } else {
            let t = n - 1;
            let prev = self.hits_of(probes, t as nat, doc);
            match self.best_similarity(probes[t]@, probes[t]@.len(), doc) {
                Some(best) => prev.push(Hit { token: t as usize, best }),
                None => prev,
            }
        }
    }

    /// For one query token: every document that a probed centroid lists, with its best similarity.
    fn best_per_doc(&self, probes: &Vec<Probe>) -> (best: FxHashMap<u32, Score>)
        requires
            self.wf(),
            self.covers(probes@),
        ensures
            forall|doc: u32| #[trigger]
                best@.contains_key(doc) <==> self.best_similarity(
                    probes@,
                    probes@.len(),
                    doc,
                ) is Some,
            forall|doc: u32| #[trigger]
                best@.contains_key(doc) ==> self.best_similarity(probes@, probes@.len(), doc)
                    == Some(best@[doc]),
    {
        let mut best: FxHashMap<u32, Score> = FxHashMap::default();
        let mut i: usize = 0;
        while i < probes.len()
            invariant
                i <= probes@.len(),
                self.wf(),
                self.covers(probes@),
                forall|doc: u32| #[trigger]
                    best@.contains_key(doc) <==> self.best_similarity(
                        probes@,
                        i as nat,
                        doc,
                    ) is Some,
                forall|doc: u32| #[trigger]
                    best@.contains_key(doc) ==> self.best_similarity(probes@, i as nat, doc)
                        == Some(best@[doc]),
            decreases probes@.len() - i,
        {
            let c: usize = probes[i].centroid;
            let sim: Score = probes[i].similarity;
            assert(probes@[i as int].centroid < self.n_lists());
            assert(c + 1 < self.offsets.len());
            let start: usize = self.offsets[c];
            let end: usize = self.offsets[c + 1];
            let ghost list = self.list(c as int);
            let ghost before = best@;
            proof {
                assert(self.offsets@[c + 1] <= self.offsets@.last());
                assert(list.len() == end - start);
            }
            let mut j: usize = start;
            while j < end
                invariant
                    start <= j <= end <= self.inverted_lists@.len(),
                    list == self.inverted_lists@.subrange(start as int, end as int),
                    list.no_duplicates(),
                    forall|doc: u32| #[trigger]
                        best@.contains_key(doc) <==> before.contains_key(doc) || list.take(
                            j - start,
                        ).contains(doc),
                    forall|doc: u32| #[trigger]
                        best@.contains_key(doc) ==> best@[doc] == if list.take(j - start).contains(
                            doc,
                        ) {
                            if before.contains_key(doc) {
                                sim.larger(before[doc])
                            } else {
                                sim
                            }
                        } else {
                            before[doc]
                        },
                decreases end - j,
            {
                let doc: u32 = self.inverted_lists[j];
                let ghost seen = list.take(j - start);
                let ghost now = list.take(j + 1 - start);
                proof {
                    assert(now =~= seen.push(doc));
                    assert(now[j - start] == doc);
                    assert(!seen.contains(doc)) by {
                        if seen.contains(doc) {
                            let a = choose|a: int| 0 <= a < seen.len() && seen[a] == doc;
                            assert(list[a] == list[j - start]);
                        }
                    }
                    assert forall|x: u32| #[trigger] now.contains(x) <==> x == doc || seen.contains(
                        x,
                    ) by {
                        if seen.contains(x) {
                            let a = choose|a: int| 0 <= a < seen.len() && seen[a] == x;
                            assert(now[a] == x);
                        }
                        if now.contains(x) && x != doc {
                            let a = choose|a: int| 0 <= a < now.len() && now[a] == x;
                            assert(seen[a] == x);
                        }
                    }
                }
                let value: Score = match map_get(&best, doc) {
                    Some(prev) => sim.max(prev),
                    None => sim,
                };
                map_insert(&mut best, doc, value);
                j += 1;
            }
            proof {
                assert(list.take(end - start) =~= list);
            }
            i += 1;
        }
        best
    }

    /// Stage 1: the documents that the probes of any query token find, each once and with its hits.
    pub fn accumulate_coarse_scores(&self, probes: &[Vec<Probe>]) -> (found: Vec<DocHits>)
        requires
            self.wf(),
            forall|t: int| 0 <= t < probes@.len() ==> self.covers((#[trigger] probes@[t])@),
        ensures
            forall|i: int, j: int|
                0 <= i < j < found@.len() ==> (#[trigger] found@[i]).doc != (
                #[trigger] found@[j]).doc,
            forall|i: int|
                0 <= i < found@.len() ==> (#[trigger] found@[i]).hits@ == self.hits_of(
                    probes@,
                    probes@.len(),
                    found@[i].doc,
                ),
            forall|doc: u32|
                (#[trigger] self.hits_of(probes@, probes@.len(), doc)).len() > 0 <==> exists|i: int|
                    0 <= i < found@.len() && (#[trigger] found@[i]).doc == doc,
    {
        let mut found: Vec<DocHits> = Vec::new();
        let mut slots: FxHashMap<u32, usize> = FxHashMap::default();
        let mut t: usize = 0;
        while t < probes.len()
            invariant
                t <= probes@.len(),
                self.wf(),
                forall|t: int| 0 <= t < probes@.len() ==> self.covers((#[trigger] probes@[t])@),
                slots_point_at(slots@, found@),
                forall|i: int|
                    0 <= i < found@.len() ==> (#[trigger] found@[i]).hits@ == self.hits_of(
                        probes@,
                        t as nat,
                        found@[i].doc,
                    ),
                forall|doc: u32| #[trigger]
                    slots@.contains_key(doc) <==> self.hits_of(probes@, t as nat, doc).len() > 0,
            decreases probes@.len() - t,
        {
            let best: FxHashMap<u32, Score> = self.best_per_doc(&probes[t]);
            let entries: Vec<(u32, Score)> = map_entries(&best);
            let mut e: usize = 0;
            while e < entries.len()
                invariant
                    e <= entries@.len(),
                    t < probes@.len(),
                    slots_point_at(slots@, found@),
                    forall|a: int|
                        0 <= a < entries@.len() ==> best@.contains_key((#[trigger] entries@[a]).0)
                            && best@[entries@[a].0] == entries@[a].1,
                    forall|a: int, b: int|
                        0 <= a < b < entries@.len() ==> (#[trigger] entries@[a]).0 != (
                        #[trigger] entries@[b]).0,
                    forall|doc: u32| #[trigger]
                        best@.contains_key(doc) <==> self.best_similarity(
                            probes@[t as int]@,
                            probes@[t as int]@.len(),
                            doc,
                        ) is Some,
                    forall|doc: u32| #[trigger]
                        best@.contains_key(doc) ==> self.best_similarity(
                            probes@[t as int]@,
                            probes@[t as int]@.len(),
                            doc,
                        ) == Some(best@[doc]),
                    forall|i: int|
                        0 <= i < found@.len() ==> (#[trigger] found@[i]).hits@ == self.hits_of(
                            probes@,
                            if handed_out(entries@, e as int, found@[i].doc) {
                                (t + 1) as nat
                            } else {
                                t as nat
                            },
                            found@[i].doc,
                        ),
                    forall|doc: u32| #[trigger]
                        slots@.contains_key(doc) <==> self.hits_of(probes@, t as nat, doc).len() > 0
                            || handed_out(entries@, e as int, doc),
                decreases entries@.len() - e,
            {
                let doc: u32 = entries[e].0;
                let hit: Hit = Hit { token: t, best: entries[e].1 };
                let ghost before = found@;
                proof {
                    assert(!handed_out(entries@, e as int, doc));
                    assert(handed_out(entries@, e + 1, doc)) by {
                        assert(entries@[e as int].0 == doc);
                    }
                    assert forall|x: u32| x != doc implies (#[trigger] handed_out(
                        entries@,
                        e + 1,
                        x,
                    ) <==> handed_out(entries@, e as int, x)) by {
                        if handed_out(entries@, e as int, x) {
                            let a = choose|a: int| 0 <= a < e && (#[trigger] entries@[a]).0 == x;
                            assert(entries@[a].0 == x);
                        }
                    }
                    assert(self.hits_of(probes@, (t + 1) as nat, doc) == self.hits_of(
                        probes@,
                        t as nat,
                        doc,
                    ).push(hit));
                }
                match map_get(&slots, doc) {
                    Some(slot) => {
                        found[slot].hits.push(hit);
                        proof {
                            assert forall|i: int| 0 <= i < found@.len() implies (#[trigger] found@[i]).doc == before[i].doc
                                && (i != slot ==> found@[i] == before[i]) by {}
                        }
                    },
                    None => {
                        let mut hits: Vec<Hit> = Vec::new();
                        hits.push(hit);
                        map_insert(&mut slots, doc, found.len());
                        found.push(DocHits { doc, hits });
                        proof {
                            assert(self.hits_of(probes@, t as nat, doc) =~= Seq::empty());
                            assert(hits@ =~= Seq::<Hit>::empty().push(hit));
                        }
                    },
                }
                e += 1;
            }
            proof {
                assert forall|doc: u32| #[trigger] handed_out(entries@, entries@.len() as int, doc)
                    <==> best@.contains_key(doc) by {}
            }
            t += 1;
        }
        proof {
            assert forall|doc: u32|
                (#[trigger] self.hits_of(probes@, probes@.len(), doc)).len() > 0 <==> exists|i: int|
                    0 <= i < found@.len() && (#[trigger] found@[i]).doc == doc by {
                if slots@.contains_key(doc) {
                    assert(found@[slots@[doc] as int].doc == doc);
                }
            }
        }
        found
    }
}

/// One of the first `n` entries is of `doc`.
spec fn handed_out(entries: Seq<(u32, Score)>, n: int, doc: u32) -> bool {
    exists|a: int| 0 <= a < n && (#[trigger] entries[a]).0 == doc
}

/// `slots` says where in `found` each of its documents stands.
spec fn slots_point_at(slots: Map<u32, usize>, found: Seq<DocHits>) -> bool {
    &&& forall|doc: u32| #[trigger]
        slots.contains_key(doc) ==> slots[doc] < found.len() && found[slots[doc] as int].doc == doc
    &&& forall|i: int|
        0 <= i < found.len() ==> slots.contains_key((#[trigger] found[i]).doc)
            && slots[found[i].doc] == i
}

/// The similarity that a document is credited with is that of a probed centroid that lists it, and
/// no probed centroid that lists it is more similar.
pub proof fn best_similarity_is_largest(index: Tachiom, probes: Seq<Probe>, n: nat, doc: u32)
    requires
        n <= probes.len(),
    ensures
        match index.best_similarity(probes, n, doc) {
            Some(best) => {
                &&& exists|i: int|
                    0 <= i < n && index.list((#[trigger] probes[i]).centroid as int).contains(doc)
                        && probes[i].similarity == best
                &&& forall|i: int|
                    0 <= i < n && index.list((#[trigger] probes[i]).centroid as int).contains(doc)
                        && !probes[i].similarity.nan() ==> best.at_least(probes[i].similarity)
            },
            None => forall|i: int|
                0 <= i < n ==> !index.list((#[trigger] probes[i]).centroid as int).contains(doc),
        },
    decreases n,
{
    if n > 0 {
        best_similarity_is_largest(index, probes, (n - 1) as nat, doc);
        match index.best_similarity(probes, (n - 1) as nat, doc) {
            Some(p) => {
                let i = choose|i: int|
                    0 <= i < n - 1 && index.list((#[trigger] probes[i]).centroid as int).contains(doc)
                        && probes[i].similarity == p;
                assert(index.list(probes[i].centroid as int).contains(doc));
            },
            None => {},
        }
    }
}

/// The imputed similarity is no larger than any number among the retrieved ones.
pub proof fn imputed_similarity_is_smallest(probes: Seq<Probe>, n: nat)
    requires
        n <= probes.len(),
    ensures
        !smallest_similarity(probes, n).nan(),
        forall|i: int|
            0 <= i < n && !(#[trigger] probes[i]).similarity.nan()
                ==> probes[i].similarity.at_least(smallest_similarity(probes, n)),
    decreases n,
{
    if n > 0 {
        imputed_similarity_is_smallest(probes, (n - 1) as nat);
    }
}

/// A document is found exactly where, for some query token, a probed centroid lists it.
pub proof fn found_where_listed(index: Tachiom, probes: Seq<Vec<Probe>>, n: nat, doc: u32)
    requires
        n <= probes.len(),
    ensures
        index.hits_of(probes, n, doc).len() > 0 <==> exists|t: int, i: int|
            0 <= t < n && 0 <= i < probes[t]@.len() && index.list(
                (#[trigger] probes[t]@[i]).centroid as int,
            ).contains(doc),
    decreases n,
{
    if n > 0 {
        let t = n - 1;
        found_where_listed(index, probes, t as nat, doc);
        best_similarity_is_largest(index, probes[t]@, probes[t]@.len(), doc);
        if index.best_similarity(probes[t]@, probes[t]@.len(), doc) is Some {
            let i = choose|i: int|
                0 <= i < probes[t]@.len() && index.list(
                    (#[trigger] probes[t]@[i]).centroid as int,
                ).contains(doc);
            assert(index.list(probes[t]@[i].centroid as int).contains(doc));
        }
        if index.hits_of(probes, t as nat, doc).len() > 0 {
            let (u, i) = choose|u: int, i: int|
                0 <= u < t && 0 <= i < probes[u]@.len() && index.list(
                    (#[trigger] probes[u]@[i]).centroid as int,
                ).contains(doc);
            assert(index.list(probes[u]@[i].centroid as int).contains(doc));
        }
    }
}

/// Hits come in token order, at most one per query token.
pub proof fn hits_in_token_order(index: Tachiom, probes: Seq<Vec<Probe>>, n: nat, doc: u32)
    requires
        n <= probes.len() <= usize::MAX,
    ensures
        ({
            let hits = index.hits_of(probes, n, doc);
            &&& forall|i: int| 0 <= i < hits.len() ==> (#[trigger] hits[i]).token < n
            &&& forall|i: int, j: int|
                0 <= i < j < hits.len() ==> (#[trigger] hits[i]).token < (#[trigger] hits[j]).token
        }),
    decreases n,
{
    if n > 0 {
        hits_in_token_order(index, probes, (n - 1) as nat, doc);
        let prev = index.hits_of(probes, (n - 1) as nat, doc);
        let hits = index.hits_of(probes, n, doc);
        assert forall|i: int| 0 <= i < hits.len() implies (#[trigger] hits[i]).token < n by {
            if i < prev.len() {
                assert(hits[i] == prev[i]);
            }
        }
        assert forall|i: int, j: int| 0 <= i < j < hits.len() implies (#[trigger] hits[i]).token < (
        #[trigger] hits[j]).token by {
            assert(hits[i] == prev[i]);
            if j < prev.len() {
                assert(hits[j] == prev[j]);
            }
        }
    }
}

/// What the hits of a document are: one of every query token that probed a centroid which lists the
/// document, and of no other; with the similarity of such a centroid, above which that of none of
/// them is.
pub proof fn hits_are_best_of_each_token(index: Tachiom, probes: Seq<Vec<Probe>>, n: nat, doc: u32)
    requires
        n <= probes.len() <= usize::MAX,
    ensures
        ({
            let hits = index.hits_of(probes, n, doc);
            &&& forall|t: int|
                #![trigger probes[t]]
                0 <= t < n ==> ((exists|h: int|
                    0 <= h < hits.len() && (#[trigger] hits[h]).token == t) <==> (exists|i: int|
                    0 <= i < probes[t]@.len() && index.list(
                        (#[trigger] probes[t]@[i]).centroid as int,
                    ).contains(doc)))
            &&& forall|h: int|
                0 <= h < hits.len() ==> (#[trigger] hits[h]).token < n && exists|i: int|
                    0 <= i < probes[hits[h].token as int]@.len() && index.list(
                        (#[trigger] probes[hits[h].token as int]@[i]).centroid as int,
                    ).contains(doc) && probes[hits[h].token as int]@[i].similarity == hits[h].best
            &&& forall|h: int, i: int|
                0 <= h < hits.len() && 0 <= i < probes[(#[trigger] hits[h]).token as int]@.len()
                    && index.list(
                    (#[trigger] probes[hits[h].token as int]@[i]).centroid as int,
                ).contains(doc) && !probes[hits[h].token as int]@[i].similarity.nan()
                    ==> hits[h].best.at_least(probes[hits[h].token as int]@[i].similarity)
            &&& forall|g: int, h: int|
                0 <= g < h < hits.len() ==> (#[trigger] hits[g]).token < (#[trigger] hits[h]).token
        }),
    decreases n,
{
    hits_in_token_order(index, probes, n, doc);
    if n > 0 {
        let last = n - 1;
        hits_are_best_of_each_token(index, probes, last as nat, doc);
        hits_in_token_order(index, probes, last as nat, doc);
        let all = probes[last]@;
        best_similarity_is_largest(index, all, all.len(), doc);
        let prev = index.hits_of(probes, last as nat, doc);
        let hits = index.hits_of(probes, n, doc);
        let found = index.best_similarity(all, all.len(), doc);
        assert(found is Some ==> hits == prev.push(Hit { token: last as usize, best: found->0 }));
        assert(found is None ==> hits == prev);
        assert forall|t: int|
            #![trigger probes[t]]
            0 <= t < n implies ((exists|h: int| 0 <= h < hits.len() && (#[trigger] hits[h]).token == t)
            <==> (exists|i: int|
            0 <= i < probes[t]@.len() && index.list(
                (#[trigger] probes[t]@[i]).centroid as int,
            ).contains(doc))) by {
            if t < last {
                if exists|h: int| 0 <= h < hits.len() && (#[trigger] hits[h]).token == t {
                    let h = choose|h: int| 0 <= h < hits.len() && (#[trigger] hits[h]).token == t;
                    assert(prev[h].token == t);
                }
                if exists|h: int| 0 <= h < prev.len() && (#[trigger] prev[h]).token == t {
                    let h = choose|h: int| 0 <= h < prev.len() && (#[trigger] prev[h]).token == t;
                    assert(hits[h].token == t);
                }
            } else {
                if found is Some {
                    assert(hits[prev.len() as int].token == t);
                } else {
                    assert forall|h: int| 0 <= h < hits.len() implies (#[trigger] hits[h]).token
                        != t by {
                        assert(prev[h].token < last);
                    }
                }
            }
        }
        assert forall|h: int| 0 <= h < hits.len() implies (#[trigger] hits[h]).token < n && exists|
            i: int,
        |
            0 <= i < probes[hits[h].token as int]@.len() && index.list(
                (#[trigger] probes[hits[h].token as int]@[i]).centroid as int,
            ).contains(doc) && probes[hits[h].token as int]@[i].similarity == hits[h].best by {
            if h < prev.len() {
                assert(hits[h] == prev[h]);
            } else {
                let i = choose|i: int|
                    0 <= i < all.len() && index.list((#[trigger] all[i]).centroid as int).contains(
                        doc,
                    ) && all[i].similarity == found->0;
                assert(probes[last]@[i] == all[i]);
            }
        }
        assert forall|h: int, i: int|
            0 <= h < hits.len() && 0 <= i < probes[(#[trigger] hits[h]).token as int]@.len()
                && index.list(
                (#[trigger] probes[hits[h].token as int]@[i]).centroid as int,
            ).contains(doc) && !probes[hits[h].token as int]@[i].similarity.nan() implies hits[h].best.at_least(
        probes[hits[h].token as int]@[i].similarity) by {
            if h < prev.len() {
                assert(hits[h] == prev[h]);
            } else {
                assert(all[i] == probes[last]@[i]);
            }
        }
    }
}

/// The imputed similarity is that of a retrieved centroid, above none of the others; without one
/// that is a number it is positive infinity.
pub proof fn imputed_similarity_was_retrieved(probes: Seq<Probe>, n: nat)
    requires
        n <= probes.len(),
    ensures
        ({
            let m = smallest_similarity(probes, n);
            &&& m.bits == 0x7f80_0000 || exists|i: int|
                0 <= i < n && (#[trigger] probes[i]).similarity == m
            &&& forall|i: int| 0 <= i < n ==> !m.above((#[trigger] probes[i]).similarity)
            &&& !m.nan()
        }),
    decreases n,
{
    if n > 0 {
        imputed_similarity_was_retrieved(probes, (n - 1) as nat);
        let before = smallest_similarity(probes, (n - 1) as nat);
        let m = smallest_similarity(probes, n);
        if m == before {
            if before.bits != 0x7f80_0000 {
                let i = choose|i: int| 0 <= i < n - 1 && (#[trigger] probes[i]).similarity == before;
                assert(probes[i].similarity == m);
            }
        } else {
            assert(probes[n - 1].similarity == m);
        }
    }
}

/// What a search finds: each document once, and exactly those that a probed centroid lists.
pub proof fn found_documents(
    index: Tachiom,
    probes: Seq<Vec<Probe>>,
    found: Seq<DocHits>,
    doc: u32,
)
    requires
        probes.len() <= usize::MAX,
        forall|i: int, j: int|
            0 <= i < j < found.len() ==> (#[trigger] found[i]).doc != (#[trigger] found[j]).doc,
        forall|i: int|
            0 <= i < found.len() ==> (#[trigger] found[i]).hits@ == index.hits_of(
                probes,
                probes.len(),
                found[i].doc,
            ),
        forall|doc: u32|
            (#[trigger] index.hits_of(probes, probes.len(), doc)).len() > 0 <==> exists|i: int|
                0 <= i < found.len() && (#[trigger] found[i]).doc == doc,
    ensures
        (exists|i: int| 0 <= i < found.len() && (#[trigger] found[i]).doc == doc) <==> (exists|
            t: int,
            i: int,
        |
            0 <= t < probes.len() && 0 <= i < probes[t]@.len() && index.list(
                (#[trigger] probes[t]@[i]).centroid as int,
            ).contains(doc)),
{
    found_where_listed(index, probes, probes.len(), doc);
    assert(index.hits_of(probes, probes.len(), doc).len() >= 0);
}

} // verus!
