//! The index: parameters, inverted lists and the stages of a search.
use crate::fx::{set_insert, set_members};
use crate::score::Score;
use crate::tac::TacAllocParams;
use rustc_hash::FxHashSet;
use vstd::prelude::*;

verus! {

/// Per-stage wall-clock timings for a single search call, in nanoseconds.
#[derive(Debug, Clone, Copy)]
pub struct SearchTimings {
    /// Stage 1: coarse-score accumulation (centroid probes and list traversal).
    pub stage1_ns: u128,
    /// Stage 2: candidate selection (partition, sort and alpha pruning).
    pub stage2_ns: u128,
    /// Stage 3: full distance computation and top-k selection.
    pub stage3_ns: u128,
}

impl Default for SearchTimings {
    fn default() -> (t: Self)
        ensures
            t.stage1_ns == 0,
            t.stage2_ns == 0,
            t.stage3_ns == 0,
    {
        SearchTimings { stage1_ns: 0, stage2_ns: 0, stage3_ns: 0 }
    }
}

/// How the proximity graph over the coarse centroids is built.
#[derive(Debug, Clone, Copy, PartialEq, Eq, Structural)]
pub struct HnswBuildParams {
    /// Neighbours per node.
    pub num_neighbors: usize,
    /// Candidate list size while inserting.
    pub ef_construction: usize,
}

/// Parameters controlling how a [`Tachiom`] index is built.
pub struct TachiomBuildParams {
    /// Token-type ids, one per token in dataset order (documents concatenated).
    pub token_ids: Vec<usize>,
    /// Total coarse-centroid budget.
    pub total_centroids: usize,
    /// K-means iterations per token type.
    pub tac_n_iter: usize,
    /// How the budget is divided among token types.
    pub tac_alloc_params: TacAllocParams,
    /// Number of tokens sampled for quantizer training.
    pub pq_sample_size: usize,
    /// K-means iterations for quantizer training.
    pub pq_n_iter: usize,
    /// Normalise residuals before encoding.
    pub normalize: bool,
    /// Seed of quantizer training.
    pub pq_seed: Option<u64>,
    /// Graph over the coarse centroids.
    pub hnsw_params: HnswBuildParams,
    /// Subtract the dataset mean from every token vector before building.
    pub center_dataset: bool,
}

impl Default for TachiomBuildParams {
    fn default() -> (p: Self)
        ensures
            p.token_ids@ == Seq::<usize>::empty(),
            p.total_centroids == 4_194_304,
            p.tac_n_iter == 10,
            p.tac_alloc_params == TacAllocParams::standard(),
            p.pq_sample_size == 10_000_000,
            p.pq_n_iter == 10,
            !p.normalize,
            p.pq_seed == Some(42u64),
            p.hnsw_params == (HnswBuildParams { num_neighbors: 32, ef_construction: 1500 }),
            p.center_dataset,
    {
        TachiomBuildParams {
            token_ids: Vec::new(),
            total_centroids: 4_194_304,
            tac_n_iter: 10,
            tac_alloc_params: TacAllocParams::default(),
            pq_sample_size: 10_000_000,
            pq_n_iter: 10,
            normalize: false,
            pq_seed: Some(42),
            hnsw_params: HnswBuildParams { num_neighbors: 32, ef_construction: 1500 },
            center_dataset: true,
        }
    }
}

/// Parameters controlling a single [`Tachiom`] search.
#[derive(Debug, Clone, Copy)]
pub struct TachiomSearchParams {
    /// Number of coarse centroids to probe per query token.
    pub k_centroids: usize,
    /// Maximum number of candidate documents to score fully.
    pub k_docs_to_score: usize,
    /// Candidate list size of a centroid probe.
    pub ef_search: usize,
    /// Width of the score band that alpha pruning keeps.
    pub alpha: Option<Score>,
    /// Scores without improvement after which reranking stops.
    pub beta: Option<usize>,
    /// Distance-adaptive early termination of a centroid probe.
    pub lambda: Option<Score>,
    /// Credit a document the smallest retrieved similarity for tokens it was not found by.
    pub impute_missing: bool,
    /// Measure the alpha band by the gap between the best and the k-th score.
    pub gap_relative: bool,
}

/// The bits of 0.45, the default alpha.
pub const DEFAULT_ALPHA_BITS: u32 = 0x3ee6_6666;

impl Default for TachiomSearchParams {
    fn default() -> (p: Self)
        ensures
            p.k_centroids == 20,
            p.k_docs_to_score == 500,
            p.ef_search == 30,
            p.alpha == Some(Score { bits: DEFAULT_ALPHA_BITS }),
            p.beta is None,
            p.lambda is None,
            !p.impute_missing,
            !p.gap_relative,
    {
        TachiomSearchParams {
            k_centroids: 20,
            k_docs_to_score: 500,
            ef_search: 30,
            alpha: Some(Score { bits: DEFAULT_ALPHA_BITS }),
            beta: None,
            lambda: None,
            impute_missing: false,
            gap_relative: false,
        }
    }
}

// ---------------------------------------------------------------------------
// Documents and their tokens
// ---------------------------------------------------------------------------

/// Document boundaries: at least the start of the first document, none before the last one's end.
pub open spec fn is_boundaries(offsets: Seq<usize>) -> bool {
    &&& offsets.len() > 0
    &&& forall|i: int, j: int| 0 <= i <= j < offsets.len() ==> offsets[i] <= offsets[j]
}

/// The number of whole tokens, of `width` values each, that document `d` holds.
pub open spec fn doc_tokens(offsets: Seq<usize>, width: int, d: int) -> int {
    (offsets[d + 1] - offsets[d]) / width
}

/// The number of tokens of the first `d` documents.
pub open spec fn first_token(offsets: Seq<usize>, width: int, d: nat) -> int
    decreases d,
{
    if d == 0 {
        0
    } else {
        first_token(offsets, width, (d - 1) as nat) + doc_tokens(offsets, width, d - 1)
    }
}

/// Token `t`, counted over all documents, belongs to document `d`.
pub open spec fn owns(offsets: Seq<usize>, width: int, d: int, t: int) -> bool {
    &&& 0 <= d < offsets.len() - 1
    &&& first_token(offsets, width, d as nat) <= t < first_token(offsets, width, (d + 1) as nat)
}

/// One of the first `n` tokens belongs to a document that is known as `doc`, and is assigned to
/// centroid `c`. A document is known by the low 32 bits of its position.
pub open spec fn is_listed(
    offsets: Seq<usize>,
    width: int,
    assignments: Seq<usize>,
    c: int,
    doc: u32,
    n: int,
) -> bool {
    exists|d: int, t: int|
        0 <= t < n && #[trigger] owns(offsets, width, d, t) && assignments[t] == c && doc
            == d as u32
}

proof fn lemma_first_token_monotone(offsets: Seq<usize>, width: int, a: nat, b: nat)
    requires
        is_boundaries(offsets),
        width > 0,
        a <= b < offsets.len(),
    ensures
        0 <= first_token(offsets, width, a) <= first_token(offsets, width, b),
        first_token(offsets, width, b) <= (offsets[b as int] - offsets[0]) / width,
    decreases b,
{
    if b > 0 {
        let prev = (b - 1) as nat;
        let x = offsets[b - 1] - offsets[0];
        let y = offsets[b as int] - offsets[b - 1];
        assert(x / width + y / width <= (x + y) / width && y / width >= 0) by (nonlinear_arith)
            requires
                width > 0,
                x >= 0,
                y >= 0,
        ;
        if a < b {
            lemma_first_token_monotone(offsets, width, a, prev);
        } else {
            lemma_first_token_monotone(offsets, width, prev, prev);
        }
    } else {
        assert(0int / width == 0) by (nonlinear_arith)
            requires
                width > 0,
        ;
    }
}

proof fn lemma_one_owner(offsets: Seq<usize>, width: int, d: int, e: int, t: int)
    requires
        is_boundaries(offsets),
        width > 0,
        owns(offsets, width, d, t),
        owns(offsets, width, e, t),
    ensures
        d == e,
{
    if d < e {
        lemma_first_token_monotone(offsets, width, (d + 1) as nat, e as nat);
    } else if e < d {
        lemma_first_token_monotone(offsets, width, (e + 1) as nat, d as nat);
    }
}

// ---------------------------------------------------------------------------
// The index
// ---------------------------------------------------------------------------

/// The stretch of `lists` between the offsets of centroid `c` and the next.
pub open spec fn list_at(lists: Seq<u32>, offsets: Seq<usize>, c: int) -> Seq<u32> {
    lists.subrange(offsets[c] as int, offsets[c + 1] as int)
}

/// An inverted-file index for late-interaction multivector retrieval: for every coarse centroid,
/// the documents that have a token assigned to it.
pub struct Tachiom {
    /// The document ids of all centroids, those of one centroid in a row.
    pub inverted_lists: Vec<u32>,
    /// `inverted_lists[offsets[c]..offsets[c + 1]]` is the list of centroid `c`.
    pub offsets: Vec<usize>,
    /// The largest number of tokens in one document.
    pub max_doc_tokens: usize,
    /// The mean that was subtracted from every token vector, each component a
    /// single-precision number by its bits; only where the vectors were centered.
    pub dataset_mean: Option<Vec<u32>>,
}

impl Tachiom {
    /// The lists are laid out by the offsets, from start to end, and none holds a document twice.
    pub open spec fn wf(self) -> bool {
        &&& is_boundaries(self.offsets@)
        &&& self.offsets@[0] == 0
        &&& self.offsets@.last() == self.inverted_lists@.len()
        &&& forall|c: int| 0 <= c < self.n_lists() ==> (#[trigger] self.list(c)).no_duplicates()
    }

    /// The number of inverted lists, one per centroid.
    pub open spec fn n_lists(self) -> int {
        self.offsets@.len() - 1
    }

    /// The documents listed for centroid `c`.
    pub open spec fn list(self, c: int) -> Seq<u32> {
        list_at(self.inverted_lists@, self.offsets@, c)
    }

    /// Builds the index of `n_centroids` lists from the centroid assigned to every token, in
    /// document order, and the boundaries of the documents in a buffer of `output_dim` values per
    /// token.
    pub fn from_parts(
        n_centroids: usize,
        assignments: &[usize],
        ds_offsets: &[usize],
        output_dim: usize,
    ) -> (index: Tachiom)
        requires
            output_dim > 0,
            is_boundaries(ds_offsets@),
            assignments@.len() == ds_offsets@.last() / output_dim,
            n_centroids < usize::MAX,
            forall|t: int|
                0 <= t < first_token(ds_offsets@, output_dim as int, (ds_offsets@.len() - 1) as nat)
                    ==> #[trigger] assignments@[t] < n_centroids,
        ensures
            index.wf(),
            index.n_lists() == n_centroids,
            forall|c: int, doc: u32|
                0 <= c < n_centroids ==> (#[trigger] index.list(c).contains(doc) <==> is_listed(
                    ds_offsets@,
                    output_dim as int,
                    assignments@,
                    c,
                    doc,
                    assignments@.len() as int,
                )),
            forall|d: int|
                0 <= d < ds_offsets@.len() - 1 ==> #[trigger] doc_tokens(
                    ds_offsets@,
                    output_dim as int,
                    d,
                ) <= index.max_doc_tokens,
            index.max_doc_tokens == 0 || exists|d: int|
                0 <= d < ds_offsets@.len() - 1 && #[trigger] doc_tokens(
                    ds_offsets@,
                    output_dim as int,
                    d,
                ) == index.max_doc_tokens,
            index.inverted_lists@.len() <= assignments@.len(),
            index.dataset_mean is None,
    {
        let groups: Vec<FxHashSet<u32>> = group_documents(
            n_centroids,
            assignments,
            ds_offsets,
            output_dim,
        );
        let (inverted_lists, offsets): (Vec<u32>, Vec<usize>) = flatten_groups(&groups);
        let max_doc_tokens: usize = longest_document(ds_offsets, output_dim);
        let index = Tachiom { inverted_lists, offsets, max_doc_tokens, dataset_mean: None };
        proof {
            lemma_one_token_per_entry(index, ds_offsets@, output_dim as int, assignments@);
        }
        index
    }

    /// The lists fit together, as those of an index that was built here do. One that was read
    /// back can hold anything.
    pub fn is_sound(&self) -> (sound: bool)
        ensures
            sound == self.wf(),
    {
        let n: usize = self.offsets.len();
        if n == 0 || self.offsets[0] != 0 || self.offsets[n - 1] != self.inverted_lists.len() {
            return false;
        }
        let mut c: usize = 1;
        while c < n
            invariant
                1 <= c <= n,
                n == self.offsets@.len(),
                forall|i: int, j: int|
                    0 <= i <= j < c ==> #[trigger] self.offsets@[i] <= #[trigger] self.offsets@[j],
            decreases n - c,
        {
            if self.offsets[c] < self.offsets[c - 1] {
                assert(self.offsets@[c - 1] > self.offsets@[c as int]);
                return false;
            }
            c += 1;
        }
        let mut c: usize = 0;
        while c < n - 1
            invariant
                c <= n - 1,
                n == self.offsets@.len(),
                is_boundaries(self.offsets@),
                self.offsets@.last() == self.inverted_lists@.len(),
                forall|b: int| 0 <= b < c ==> (#[trigger] self.list(b)).no_duplicates(),
            decreases n - c,
        {
            assert(self.offsets@[c as int] <= self.offsets@[c + 1] <= self.offsets@[n - 1]);
            if !is_without_repeats(&self.inverted_lists, self.offsets[c], self.offsets[c + 1]) {
                assert(!self.list(c as int).no_duplicates());
                return false;
            }
            c += 1;
        }
        true
    }
}

/// No document occurs twice in the stretch of `lists` from `from` to `to`.
fn is_without_repeats(lists: &Vec<u32>, from: usize, to: usize) -> (r: bool)
    requires
        from <= to <= lists@.len(),
    ensures
        r == lists@.subrange(from as int, to as int).no_duplicates(),
{
    let ghost stretch = lists@.subrange(from as int, to as int);
    let mut seen: FxHashSet<u32> = FxHashSet::default();
    let mut i: usize = from;
    while i < to
        invariant
            from <= i <= to <= lists@.len(),
            stretch == lists@.subrange(from as int, to as int),
            forall|doc: u32|
                seen@.contains(doc) <==> exists|a: int|
                    0 <= a < i - from && #[trigger] stretch[a] == doc,
            forall|a: int, b: int|
                0 <= a < b < i - from ==> #[trigger] stretch[a] != #[trigger] stretch[b],
        decreases to - i,
    {
        let ghost before = seen@;
        let doc: u32 = lists[i];
        assert(stretch[i - from] == doc);
        if !set_insert(&mut seen, doc) {
            let ghost a = choose|a: int| 0 <= a < i - from && #[trigger] stretch[a] == doc;
            assert(stretch[a] == stretch[i - from]);
            return false;
        }
        proof {
            assert forall|x: u32|
                seen@.contains(x) <==> exists|a: int|
                    0 <= a < i + 1 - from && #[trigger] stretch[a] == x by {
                if before.contains(x) {
                    let a = choose|a: int| 0 <= a < i - from && #[trigger] stretch[a] == x;
                    assert(stretch[a] == x);
                }
            }
        }
        i += 1;
    }
    true
}

/// Some list holds position `p`.
proof fn lemma_some_list_holds(offsets: Seq<usize>, n: int, p: int)
    requires
        is_boundaries(offsets),
        0 <= n < offsets.len(),
        offsets[0] <= p < offsets[n],
    ensures
        exists|c: int| 0 <= c < n && #[trigger] offsets[c] <= p < offsets[c + 1],
    decreases n,
{
    if n > 0 && p < offsets[n - 1] {
        lemma_some_list_holds(offsets, n - 1, p);
    } else {
        assert(offsets[n - 1] <= p < offsets[n - 1 + 1]);
    }
}

/// Entry `p` of the lists stands for token `t`: of the document that it names, and assigned to the
/// centroid that it is listed for.
spec fn stands_for(
    index: Tachiom,
    offsets: Seq<usize>,
    width: int,
    assignments: Seq<usize>,
    p: int,
    t: int,
) -> bool {
    exists|c: int, d: int|
        0 <= t < assignments.len() && 0 <= c < index.n_lists() && index.offsets@[c] <= p
            < index.offsets@[c + 1] && #[trigger] owns(offsets, width, d, t) && #[trigger] is_number(
            assignments[t],
            c,
        ) && index.inverted_lists@[p] == d as u32
}

spec fn is_number(assigned: usize, c: int) -> bool {
    assigned == c
}

/// Two entries of the lists stand for two tokens.
proof fn lemma_apart_entries(
    index: Tachiom,
    offsets: Seq<usize>,
    width: int,
    assignments: Seq<usize>,
    p: int,
    q: int,
    t: int,
)
    requires
        index.wf(),
        is_boundaries(offsets),
        width > 0,
        0 <= p < index.inverted_lists@.len(),
        0 <= q < index.inverted_lists@.len(),
        stands_for(index, offsets, width, assignments, p, t),
        stands_for(index, offsets, width, assignments, q, t),
    ensures
        p == q,
{
    let (c, d) = choose|c: int, d: int|
        0 <= t < assignments.len() && 0 <= c < index.n_lists() && index.offsets@[c] <= p
            < index.offsets@[c + 1] && #[trigger] owns(offsets, width, d, t) && #[trigger] is_number(
            assignments[t],
            c,
        ) && index.inverted_lists@[p] == d as u32;
    let (b, e) = choose|c: int, d: int|
        0 <= t < assignments.len() && 0 <= c < index.n_lists() && index.offsets@[c] <= q
            < index.offsets@[c + 1] && #[trigger] owns(offsets, width, d, t) && #[trigger] is_number(
            assignments[t],
            c,
        ) && index.inverted_lists@[q] == d as u32;
    assert(b == c);
    lemma_one_owner(offsets, width, d, e, t);
    let start = index.offsets@[c] as int;
    assert(index.list(c).no_duplicates());
    assert(index.offsets@[c + 1] <= index.offsets@[index.n_lists()]);
    assert(index.list(c)[p - start] == index.list(c)[q - start]);
}

/// The lists have no more entries than there are tokens.
proof fn lemma_one_token_per_entry(
    index: Tachiom,
    offsets: Seq<usize>,
    width: int,
    assignments: Seq<usize>,
)
    requires
        index.wf(),
        is_boundaries(offsets),
        width > 0,
        forall|c: int, doc: u32|
            0 <= c < index.n_lists() && #[trigger] index.list(c).contains(doc) ==> is_listed(
                offsets,
                width,
                assignments,
                c,
                doc,
                assignments.len() as int,
            ),
    ensures
        index.inverted_lists@.len() <= assignments.len(),
{
    let lists = index.inverted_lists@;
    let tokens: Seq<int> = Seq::new(
        lists.len(),
        |p: int| choose|t: int| stands_for(index, offsets, width, assignments, p, t),
    );
    assert forall|p: int| 0 <= p < lists.len() implies stands_for(
        index,
        offsets,
        width,
        assignments,
        p,
        #[trigger] tokens[p],
    ) by {
        lemma_some_list_holds(index.offsets@, index.n_lists(), p);
        let c = choose|c: int|
            0 <= c < index.n_lists() && #[trigger] index.offsets@[c] <= p < index.offsets@[c + 1];
        assert(index.offsets@[c + 1] <= index.offsets@[index.n_lists()]);
        assert(index.list(c)[p - index.offsets@[c]] == lists[p]);
        assert(index.list(c).contains(lists[p]));
        let (d, t) = choose|d: int, t: int|
            0 <= t < assignments.len() && #[trigger] owns(offsets, width, d, t) && assignments[t]
                == c && lists[p] == d as u32;
        assert(owns(offsets, width, d, t) && is_number(assignments[t], c));
        assert(stands_for(index, offsets, width, assignments, p, t));
    }
    assert forall|p: int, q: int|
        0 <= p < tokens.len() && 0 <= q < tokens.len() && p != q implies tokens[p] != tokens[q] by {
        if tokens[p] == tokens[q] {
            assert(stands_for(index, offsets, width, assignments, p, tokens[p]));
            assert(stands_for(index, offsets, width, assignments, q, tokens[q]));
            lemma_apart_entries(index, offsets, width, assignments, p, q, tokens[p]);
        }
    }
    tokens.unique_seq_to_set();
    let all = vstd::set_lib::set_int_range(0, assignments.len() as int);
    vstd::set_lib::lemma_int_range(0, assignments.len() as int);
    assert forall|t: int| tokens.to_set().contains(t) implies all.contains(t) by {
        let p = choose|p: int| 0 <= p < tokens.len() && tokens[p] == t;
        assert(stands_for(index, offsets, width, assignments, p, tokens[p]));
    }
    vstd::set_lib::lemma_len_subset(tokens.to_set(), all);
}

/// For every centroid, the documents with a token assigned to it.
fn group_documents(
    n_centroids: usize,
    assignments: &[usize],
    ds_offsets: &[usize],
    output_dim: usize,
) -> (groups: Vec<FxHashSet<u32>>)
    requires
        output_dim > 0,
        is_boundaries(ds_offsets@),
        assignments@.len() == ds_offsets@.last() / output_dim,
        forall|t: int|
            0 <= t < first_token(ds_offsets@, output_dim as int, (ds_offsets@.len() - 1) as nat)
                ==> #[trigger] assignments@[t] < n_centroids,
    ensures
        groups@.len() == n_centroids,
        forall|c: int, doc: u32|
            0 <= c < n_centroids ==> (#[trigger] groups@[c]@.contains(doc) <==> is_listed(
                ds_offsets@,
                output_dim as int,
                assignments@,
                c,
                doc,
                assignments@.len() as int,
            )),
{
    let ghost w = output_dim as int;
    let ghost off = ds_offsets@;
    let ghost n_docs = (off.len() - 1) as nat;
    proof {
        lemma_first_token_monotone(off, w, 0, n_docs);
        let last = off.last() as int;
        let first = off[0] as int;
        assert((last - first) / w <= last / w) by (nonlinear_arith)
            requires
                w > 0,
                last >= first >= 0,
        ;
    }
    let mut groups: Vec<FxHashSet<u32>> = Vec::with_capacity(n_centroids);
    while groups.len() < n_centroids
        invariant
            groups@.len() <= n_centroids,
            forall|c: int| 0 <= c < groups@.len() ==> #[trigger] groups@[c]@ == Set::<u32>::empty(),
        decreases n_centroids - groups@.len(),
    {
        groups.push(FxHashSet::default());
    }
    let mut token_idx: usize = 0;
    let mut doc_id: usize = 0;
    let n_documents: usize = ds_offsets.len() - 1;
    while doc_id < n_documents
        invariant
            doc_id <= n_documents,
            n_documents == n_docs,
            off == ds_offsets@,
            w == output_dim as int,
            w > 0,
            n_docs == off.len() - 1,
            is_boundaries(off),
            first_token(off, w, n_docs) <= assignments@.len(),
            token_idx == first_token(off, w, doc_id as nat),
            groups@.len() == n_centroids,
            forall|t: int|
                0 <= t < first_token(off, w, n_docs) ==> #[trigger] assignments@[t] < n_centroids,
            forall|c: int, doc: u32|
                0 <= c < n_centroids ==> (#[trigger] groups@[c]@.contains(doc) <==> is_listed(
                    off,
                    w,
                    assignments@,
                    c,
                    doc,
                    token_idx as int,
                )),
        decreases n_documents - doc_id,
    {
        let n_tok: usize = (ds_offsets[doc_id + 1] - ds_offsets[doc_id]) / output_dim;
        let doc: u32 = #[verifier::truncate]
        (doc_id as u32);
        let mut k: usize = 0;
        let ghost start = token_idx as int;
        proof {
            lemma_first_token_monotone(off, w, (doc_id + 1) as nat, n_docs);
            assert(n_tok == doc_tokens(off, w, doc_id as int));
            assert(first_token(off, w, (doc_id + 1) as nat) == start + n_tok);
        }
        while k < n_tok
            invariant
                k <= n_tok,
                doc_id + 1 < off.len(),
                doc == doc_id as u32,
                off == ds_offsets@,
                w == output_dim as int,
                w > 0,
                n_docs == off.len() - 1,
                is_boundaries(off),
                start == first_token(off, w, doc_id as nat),
                first_token(off, w, (doc_id + 1) as nat) == start + n_tok,
                start + n_tok <= first_token(off, w, n_docs) <= assignments@.len(),
                token_idx == start + k,
                groups@.len() == n_centroids,
                forall|t: int|
                    0 <= t < first_token(off, w, n_docs) ==> #[trigger] assignments@[t]
                        < n_centroids,
                forall|c: int, doc: u32|
                    0 <= c < n_centroids ==> (#[trigger] groups@[c]@.contains(doc) <==> is_listed(
                        off,
                        w,
                        assignments@,
                        c,
                        doc,
                        token_idx as int,
                    )),
            decreases n_tok - k,
        {
            let c_id: usize = assignments[token_idx];
            let ghost before = groups@;
            let _ = set_insert(&mut groups[c_id], doc);
            proof {
                assert(owns(off, w, doc_id as int, token_idx as int));
                assert forall|c: int, x: u32|
                    0 <= c < n_centroids implies (#[trigger] groups@[c]@.contains(x) <==> is_listed(
                    off,
                    w,
                    assignments@,
                    c,
                    x,
                    token_idx + 1,
                )) by {
                    let was = is_listed(off, w, assignments@, c, x, token_idx as int);
                    assert(before[c]@.contains(x) <==> was);
                    if was {
                        let (d, t) = choose|d: int, t: int|
                            0 <= t < token_idx && #[trigger] owns(off, w, d, t) && assignments@[t]
                                == c && x == d as u32;
                        assert(owns(off, w, d, t));
                    }
                    if is_listed(off, w, assignments@, c, x, token_idx + 1) && !was {
                        let (d, t) = choose|d: int, t: int|
                            0 <= t < token_idx + 1 && #[trigger] owns(off, w, d, t)
                                && assignments@[t] == c && x == d as u32;
                        assert(t == token_idx);
                        lemma_one_owner(off, w, d, doc_id as int, t);
                    }
                }
            }
            token_idx += 1;
            k += 1;
        }
        doc_id += 1;
    }
    proof {
        assert forall|c: int, x: u32| 0 <= c < n_centroids implies (#[trigger] groups@[c]@.contains(
            x,
        ) <==> is_listed(off, w, assignments@, c, x, assignments@.len() as int)) by {
            if is_listed(off, w, assignments@, c, x, token_idx as int) {
                let (d, t) = choose|d: int, t: int|
                    0 <= t < token_idx && #[trigger] owns(off, w, d, t) && assignments@[t] == c && x
                        == d as u32;
                assert(owns(off, w, d, t));
            }
            if is_listed(off, w, assignments@, c, x, assignments@.len() as int) {
                let (d, t) = choose|d: int, t: int|
                    0 <= t < assignments@.len() && #[trigger] owns(off, w, d, t) && assignments@[t]
                        == c && x == d as u32;
                lemma_first_token_monotone(off, w, (d + 1) as nat, n_docs);
                assert(owns(off, w, d, t));
            }
        }
    }
    groups
}

/// The members of every group in a row, and where each group starts.
fn flatten_groups(groups: &Vec<FxHashSet<u32>>) -> (r: (Vec<u32>, Vec<usize>))
    requires
        groups@.len() < usize::MAX,
    ensures
        is_boundaries(r.1@),
        r.1@.len() == groups@.len() + 1,
        r.1@[0] == 0,
        r.1@.last() == r.0@.len(),
        forall|c: int|
            0 <= c < groups@.len() ==> (#[trigger] list_at(r.0@, r.1@, c)).no_duplicates(),
        forall|c: int, doc: u32|
            0 <= c < groups@.len() ==> (#[trigger] list_at(r.0@, r.1@, c).contains(doc)
                <==> groups@[c]@.contains(doc)),
{
    let mut lists: Vec<u32> = Vec::new();
    let mut offsets: Vec<usize> = Vec::with_capacity(groups.len() + 1);
    offsets.push(0);
    let mut c: usize = 0;
    while c < groups.len()
        invariant
            c <= groups@.len() < usize::MAX,
            is_boundaries(offsets@),
            offsets@.len() == c + 1,
            offsets@[0] == 0,
            offsets@.last() == lists@.len(),
            forall|b: int|
                0 <= b < c ==> (#[trigger] list_at(lists@, offsets@, b)).no_duplicates(),
            forall|b: int, doc: u32|
                0 <= b < c ==> (#[trigger] list_at(lists@, offsets@, b).contains(doc)
                    <==> groups@[b]@.contains(doc)),
        decreases groups@.len() - c,
    {
        let ghost old_lists = lists@;
        let ghost old_offsets = offsets@;
        let mut members: Vec<u32> = set_members(&groups[c]);
        let ghost added = members@;
        lists.append(&mut members);
        offsets.push(lists.len());
        proof {
            assert(lists@ == old_lists + added);
            assert forall|b: int| 0 <= b < c implies #[trigger] list_at(lists@, offsets@, b)
                == list_at(old_lists, old_offsets, b) by {
                assert(offsets@[b] == old_offsets[b] && offsets@[b + 1] == old_offsets[b + 1]);
                assert(old_offsets[b] <= old_offsets[b + 1] <= old_offsets[c as int]);
                assert(list_at(lists@, offsets@, b) =~= list_at(old_lists, old_offsets, b));
            }
            assert(list_at(lists@, offsets@, c as int) =~= added);
        }
        c += 1;
    }
    (lists, offsets)
}

/// The largest number of whole tokens in one document; 0 where there is no document.
fn longest_document(ds_offsets: &[usize], output_dim: usize) -> (most: usize)
    requires
        output_dim > 0,
        is_boundaries(ds_offsets@),
    ensures
        forall|d: int|
            0 <= d < ds_offsets@.len() - 1 ==> #[trigger] doc_tokens(
                ds_offsets@,
                output_dim as int,
                d,
            ) <= most,
        most == 0 || exists|d: int|
            0 <= d < ds_offsets@.len() - 1 && #[trigger] doc_tokens(
                ds_offsets@,
                output_dim as int,
                d,
            ) == most,
{
    let mut most: usize = 0;
    let mut i: usize = 0;
    let n_documents: usize = ds_offsets.len() - 1;
    while i < n_documents
        invariant
            i <= n_documents,
            n_documents == ds_offsets@.len() - 1,
            output_dim > 0,
            is_boundaries(ds_offsets@),
            forall|d: int|
                0 <= d < i ==> #[trigger] doc_tokens(ds_offsets@, output_dim as int, d) <= most,
            most == 0 || exists|d: int|
                0 <= d < i && #[trigger] doc_tokens(ds_offsets@, output_dim as int, d) == most,
        decreases n_documents - i,
    {
        let n: usize = (ds_offsets[i + 1] - ds_offsets[i]) / output_dim;
        assert(n == doc_tokens(ds_offsets@, output_dim as int, i as int));
        if n > most {
            most = n;
        }
        i += 1;
    }
    most
}

/// A document has as many tokens as whole runs of `width` values lie between its boundaries.
pub proof fn doc_tokens_are_whole(offsets: Seq<usize>, width: int, d: int, n: int)
    requires
        width > 0,
        0 <= d < offsets.len() - 1,
        n * width <= offsets[d + 1] - offsets[d] < (n + 1) * width,
    ensures
        doc_tokens(offsets, width, d) == n,
{
    let x = offsets[d + 1] - offsets[d];
    let r = x - n * width;
    assert(x == width * n + r && 0 <= r < width) by (nonlinear_arith)
        requires
            n * width <= x < (n + 1) * width,
            r == x - n * width,
    ;
    assert(x == n * width + r);
    vstd::arithmetic::div_mod::lemma_fundamental_div_mod_converse(x, width, n, r);
}

/// The tokens of a document start where those of the documents before it end.
pub proof fn tokens_follow_one_another(offsets: Seq<usize>, width: int, counts: Seq<usize>, d: nat)
    requires
        width > 0,
        offsets.len() == counts.len() + 1,
        d <= counts.len(),
        forall|e: int|
            0 <= e < counts.len() ==> #[trigger] offsets[e + 1] - offsets[e] == counts[e] * width,
    ensures
        first_token(offsets, width, d) == counts.take(d as int).fold_left(
            0int,
            |sum: int, c: usize| sum + c,
        ),
        forall|t: int|
            d < counts.len() ==> (#[trigger] owns(offsets, width, d as int, t) <==> first_token(
                offsets,
                width,
                d,
            ) <= t < first_token(offsets, width, d) + counts[d as int]),
    decreases d,
{
    reveal(Seq::fold_left);
    if d > 0 {
        tokens_follow_one_another(offsets, width, counts, (d - 1) as nat);
        assert(counts.take(d as int).drop_last() =~= counts.take(d - 1));
        let c = counts[d - 1] as int;
        assert(offsets[d - 1 + 1] - offsets[d - 1] == counts[d - 1] * width);
        assert((c + 1) * width == c * width + width) by (nonlinear_arith);
        doc_tokens_are_whole(offsets, width, d - 1, c);
    }
    if d < counts.len() {
        let c = counts[d as int] as int;
        assert(offsets[d as int + 1] - offsets[d as int] == counts[d as int] * width);
        assert((c + 1) * width == c * width + width) by (nonlinear_arith);
        doc_tokens_are_whole(offsets, width, d as int, c);
    }
}

/// The list of a centroid is the stretch from its own offset to the next one, and in a sound index
/// the stretches follow one another over all entries, and none names a document twice.
pub proof fn lists_are_stretches(index: Tachiom, c: int, i: int, j: int)
    requires
        index.wf(),
        0 <= c < index.offsets@.len() - 1,
        0 <= i < j < index.offsets@[c + 1] - index.offsets@[c],
    ensures
        index.n_lists() == index.offsets@.len() - 1,
        index.offsets@[0] == 0,
        index.offsets@[index.offsets@.len() - 1] == index.inverted_lists@.len(),
        index.offsets@[c] <= index.offsets@[c + 1] <= index.inverted_lists@.len(),
        index.list(c).len() == index.offsets@[c + 1] - index.offsets@[c],
        index.list(c)[i] == index.inverted_lists@[index.offsets@[c] + i],
        index.list(c)[i] != index.list(c)[j],
{
    assert(index.offsets@[c + 1] <= index.offsets@[index.n_lists()]);
    assert(index.list(c).no_duplicates());
}

/// An index is sound where its offsets start at 0, ascend, and end at the number of entries, and no
/// stretch between two of them names a document twice.
pub proof fn sound_lists(index: Tachiom)
    requires
        index.offsets@.len() > 0,
        index.offsets@[0] == 0,
        index.offsets@[index.offsets@.len() - 1] == index.inverted_lists@.len(),
        forall|c: int, d: int|
            0 <= c <= d < index.offsets@.len() ==> (#[trigger] index.offsets@[c]) <= (
            #[trigger] index.offsets@[d]),
        forall|c: int, p: int, q: int|
            0 <= c < index.offsets@.len() - 1 && #[trigger] index.offsets@[c] <= p < q
                < index.offsets@[c + 1] ==> (#[trigger] index.inverted_lists@[p]) != (
            #[trigger] index.inverted_lists@[q]),
    ensures
        index.wf(),
{
    assert forall|c: int| 0 <= c < index.n_lists() implies (
    #[trigger] index.list(c)).no_duplicates() by {
        let list = index.list(c);
        let start = index.offsets@[c] as int;
        assert(index.offsets@[c + 1] <= index.offsets@[index.offsets@.len() - 1]);
        assert forall|a: int, b: int| 0 <= a < list.len() && 0 <= b < list.len() && a != b implies list[a]
            != list[b] by {
            assert(list[a] == index.inverted_lists@[start + a]);
            assert(list[b] == index.inverted_lists@[start + b]);
        }
    }
}

/// A document is listed for a centroid exactly if one of its tokens is assigned to it.
pub proof fn listed_by_its_tokens(
    offsets: Seq<usize>,
    width: int,
    counts: Seq<usize>,
    assignments: Seq<usize>,
    c: int,
    doc: u32,
    start: int,
)
    requires
        doc < counts.len() ==> start == counts.take(doc as int).fold_left(
            0int,
            |sum: int, c: usize| sum + c,
        ),
        width > 0,
        offsets.len() == counts.len() + 1,
        counts.len() <= 0x1_0000_0000,
        forall|e: int|
            0 <= e < counts.len() ==> #[trigger] offsets[e + 1] - offsets[e] == counts[e] * width,
        counts.fold_left(0int, |sum: int, c: usize| sum + c) <= assignments.len(),
    ensures
        is_listed(offsets, width, assignments, c, doc, assignments.len() as int) <==> doc
            < counts.len() && exists|j: int|
            0 <= j < counts[doc as int] && #[trigger] assignments[start + j] == c,
{
    let n = assignments.len() as int;
    if is_listed(offsets, width, assignments, c, doc, n) {
        let (d, t) = choose|d: int, t: int|
            0 <= t < n && #[trigger] owns(offsets, width, d, t) && assignments[t] == c && doc
                == d as u32;
        assert(d as u32 == d);
        tokens_follow_one_another(offsets, width, counts, d as nat);
        assert(owns(offsets, width, d, t));
        assert(assignments[start + (t - start)] == c);
    }
    if doc < counts.len() && exists|j: int|
        0 <= j < counts[doc as int] && #[trigger] assignments[start + j] == c {
        let j = choose|j: int| 0 <= j < counts[doc as int] && #[trigger] assignments[start + j] == c;
        let d = doc as int;
        tokens_follow_one_another(offsets, width, counts, d as nat);
        crate::rows::total_adds_up(counts, d);
        crate::rows::total_adds_up(counts, d + 1);
        crate::rows::total_adds_up(counts, counts.len() as int);
        crate::rows::lemma_total_grows(counts, 0, d);
        crate::rows::lemma_total_grows(counts, d + 1, counts.len() as int);
        assert(counts.take(counts.len() as int) =~= counts);
        assert(owns(offsets, width, d, start + j));
        assert(d as u32 == doc);
    }
}

} // verus!
