//! Proximity Graph Clustering (PGC).
//!
//! Coarse centroids for any vectors, whatever their token types: random anchors are refined by
//! nearest-neighbour assignment and normalised means. The nearest anchors come from a graph
//! search and the means from floating-point sums, so both are handed in; the draws, the grouping,
//! the treatment of empty anchors and the course of the iteration are here.
use crate::random::{draw_below, seeded};
use crate::rows::{all_rows, every_row, gather_rows, gathered, in_rows, push_row, row};
#[allow(unused_imports)]
use crate::rows::{gathered_rows, lemma_row_bounds, lemma_whole_rows};
use crate::text::same_bytes;
use rand::rngs::StdRng;
use vstd::prelude::*;
#[allow(unused_imports)]
use vstd::string::StringSliceAdditionalSpecFns;

verus! {

/// What to do when an anchor receives no vector in an iteration.
#[derive(Debug, Clone, Copy, PartialEq, Eq, Structural)]
pub enum EmptyAnchorStrategy {
    /// Reset the empty anchor to a randomly drawn vector.
    Resample,
    /// Drop the empty anchor, for good.
    Remove,
    /// Reset the empty anchor to a random member of the most populated cluster.
    Split,
}

impl EmptyAnchorStrategy {
    /// The strategy of that name.
    pub fn from_name(name: &str) -> (r: Option<EmptyAnchorStrategy>)
        ensures
            r == (if name.spec_bytes() == "resample".spec_bytes() {
                Some(EmptyAnchorStrategy::Resample)
            } else if name.spec_bytes() == "remove".spec_bytes() {
                Some(EmptyAnchorStrategy::Remove)
            } else if name.spec_bytes() == "split".spec_bytes() {
                Some(EmptyAnchorStrategy::Split)
            } else {
                None
            }),
    {
        let bytes: &[u8] = name.as_bytes();
        if same_bytes(bytes, "resample".as_bytes()) {
            Some(EmptyAnchorStrategy::Resample)
        } else if same_bytes(bytes, "remove".as_bytes()) {
            Some(EmptyAnchorStrategy::Remove)
        } else if same_bytes(bytes, "split".as_bytes()) {
            Some(EmptyAnchorStrategy::Split)
        } else {
            None
        }
    }
}

/// What a clustering gives.
pub struct PgcResult {
    /// All centroids, one behind another, as half-precision bit patterns.
    pub centroids: Vec<u16>,
    /// For each vector the centroid it is assigned to.
    pub assignments: Vec<usize>,
    /// Values per vector.
    pub dim: usize,
    /// How many centroids there are; fewer than were asked for only where empty anchors were
    /// removed.
    pub n_centroids: usize,
}

/// Settings for [`ProximityGraphClustering`].
#[derive(Debug, Clone, Copy)]
pub struct PgcBuilder {
    pub n_iter: usize,
    pub sample_multiplier: usize,
    pub empty_strategy: EmptyAnchorStrategy,
    pub iter_hnsw_m: usize,
    pub iter_ef_construction: usize,
    pub iter_ef_search: usize,
    pub seed: u64,
    pub verbose: bool,
}

impl PgcBuilder {
    /// The settings that hold where nothing else is said.
    pub open spec fn standard() -> PgcBuilder {
        PgcBuilder {
            n_iter: 10,
            sample_multiplier: 5,
            empty_strategy: EmptyAnchorStrategy::Resample,
            iter_hnsw_m: 16,
            iter_ef_construction: 200,
            iter_ef_search: 50,
            seed: 42,
            verbose: false,
        }
    }

    pub fn new() -> (r: Self)
        ensures
            r == PgcBuilder::standard(),
    {
        PgcBuilder::default()
    }

    pub fn n_iter(self, n_iter: usize) -> (r: Self)
        ensures
            r == (PgcBuilder { n_iter, ..self }),
    {
        PgcBuilder { n_iter, ..self }
    }

    /// How many vectors are drawn per iteration, for each anchor.
    pub fn sample_multiplier(self, sample_multiplier: usize) -> (r: Self)
        ensures
            r == (PgcBuilder { sample_multiplier, ..self }),
    {
        PgcBuilder { sample_multiplier, ..self }
    }

    pub fn empty_strategy(self, empty_strategy: EmptyAnchorStrategy) -> (r: Self)
        ensures
            r == (PgcBuilder { empty_strategy, ..self }),
    {
        PgcBuilder { empty_strategy, ..self }
    }

    pub fn iter_hnsw_m(self, iter_hnsw_m: usize) -> (r: Self)
        ensures
            r == (PgcBuilder { iter_hnsw_m, ..self }),
    {
        PgcBuilder { iter_hnsw_m, ..self }
    }

    pub fn iter_ef_construction(self, iter_ef_construction: usize) -> (r: Self)
        ensures
            r == (PgcBuilder { iter_ef_construction, ..self }),
    {
        PgcBuilder { iter_ef_construction, ..self }
    }

    pub fn iter_ef_search(self, iter_ef_search: usize) -> (r: Self)
        ensures
            r == (PgcBuilder { iter_ef_search, ..self }),
    {
        PgcBuilder { iter_ef_search, ..self }
    }

    pub fn seed(self, seed: u64) -> (r: Self)
        ensures
            r == (PgcBuilder { seed, ..self }),
    {
        PgcBuilder { seed, ..self }
    }

    pub fn verbose(self, verbose: bool) -> (r: Self)
        ensures
            r == (PgcBuilder { verbose, ..self }),
    {
        PgcBuilder { verbose, ..self }
    }

    pub fn build(self) -> (r: ProximityGraphClustering)
        ensures
            r.settings == self,
    {
        ProximityGraphClustering { settings: self }
    }
}

impl Default for PgcBuilder {
    fn default() -> (r: Self)
        ensures
            r == PgcBuilder::standard(),
    {
        PgcBuilder {
            n_iter: 10,
            sample_multiplier: 5,
            empty_strategy: EmptyAnchorStrategy::Resample,
            iter_hnsw_m: 16,
            iter_ef_construction: 200,
            iter_ef_search: 50,
            seed: 42,
            verbose: false,
        }
    }
}

/// The clustering, with its settings.
pub struct ProximityGraphClustering {
    pub settings: PgcBuilder,
}

impl Default for ProximityGraphClustering {
    fn default() -> (r: Self)
        ensures
            r.settings == PgcBuilder::standard(),
    {
        PgcBuilder::new().build()
    }
}

/// The anchor that a vector counts for, of `n_active`: the one that the search found, the first
/// where it found none, and the last where it named one that does not exist.
pub open spec fn nearest_anchor(hit: Option<usize>, n_active: int) -> int {
    match hit {
        None => 0,
        Some(found) => if found < n_active {
            found as int
        } else {
            n_active - 1
        },
    }
}

/// Those of the first `n` sampled vectors that count for anchor `a`, in sample order.
pub open spec fn members(
    sampled: Seq<usize>,
    hits: Seq<Option<usize>>,
    n_active: int,
    a: int,
    n: int,
) -> Seq<usize>
    decreases n,
{
    if n <= 0 {
        Seq::empty()
    } else {
        let before = members(sampled, hits, n_active, a, n - 1);
        if nearest_anchor(hits[n - 1], n_active) == a {
            before.push(sampled[n - 1])
        } else {
            before
        }
    }
}

/// The sampled vectors by the anchor that they count for.
pub fn group_by_anchor(sampled: &[usize], hits: &[Option<usize>], n_active: usize) -> (clusters:
    Vec<Vec<usize>>)
    requires
        n_active > 0,
        hits@.len() == sampled@.len(),
    ensures
        clusters@.len() == n_active,
        forall|a: int|
            0 <= a < n_active ==> (#[trigger] clusters@[a])@ == members(
                sampled@,
                hits@,
                n_active as int,
                a,
                sampled@.len() as int,
            ),
        forall|a: int, n: int|
            0 <= a < n_active && in_rows(sampled@, n) ==> #[trigger] in_rows(clusters@[a]@, n),
{
    let mut clusters: Vec<Vec<usize>> = Vec::with_capacity(n_active);
    let mut a: usize = 0;
    while a < n_active
        invariant
            a <= n_active,
            clusters@.len() == a,
            forall|b: int| 0 <= b < a ==> (#[trigger] clusters@[b])@ == Seq::<usize>::empty(),
        decreases n_active - a,
    {
        clusters.push(Vec::new());
        a += 1;
    }
    let mut j: usize = 0;
    while j < sampled.len()
        invariant
            j <= sampled@.len(),
            n_active > 0,
            hits@.len() == sampled@.len(),
            clusters@.len() == n_active,
            forall|b: int|
                0 <= b < n_active ==> (#[trigger] clusters@[b])@ == members(
                    sampled@,
                    hits@,
                    n_active as int,
                    b,
                    j as int,
                ),
        decreases sampled@.len() - j,
    {
        let nearest: usize = match hits[j] {
            None => 0,
            Some(found) => if found < n_active {
                found
            } else {
                n_active - 1
            },
        };
        clusters[nearest].push(sampled[j]);
        j += 1;
    }
    proof {
        assert forall|a: int, n: int|
            0 <= a < n_active && in_rows(sampled@, n) implies #[trigger] in_rows(
            clusters@[a]@,
            n,
        ) by {
            lemma_members_are_sampled(
                sampled@,
                hits@,
                n_active as int,
                a,
                sampled@.len() as int,
                n,
            );
        }
    }
    clusters
}

proof fn lemma_members_are_sampled(
    sampled: Seq<usize>,
    hits: Seq<Option<usize>>,
    n_active: int,
    a: int,
    m: int,
    n: int,
)
    requires
        0 <= m <= sampled.len(),
        in_rows(sampled, n),
    ensures
        in_rows(members(sampled, hits, n_active, a, m), n),
    decreases m,
{
    if m > 0 {
        lemma_members_are_sampled(sampled, hits, n_active, a, m - 1, n);
        assert(sampled[m - 1] < n);
    }
}

/// `b` is the most populated cluster, the last of them where there are several.
pub open spec fn is_busiest(clusters: Seq<Vec<usize>>, b: int) -> bool {
    &&& 0 <= b < clusters.len()
    &&& forall|a: int|
        0 <= a < clusters.len() ==> (#[trigger] clusters[a])@.len() <= clusters[b]@.len() && (a > b
            ==> clusters[a]@.len() < clusters[b]@.len())
}

/// The most populated cluster.
pub fn busiest_anchor(clusters: &[Vec<usize>]) -> (b: usize)
    requires
        clusters@.len() > 0,
    ensures
        is_busiest(clusters@, b as int),
{
    let mut b: usize = 0;
    let mut a: usize = 1;
    while a < clusters.len()
        invariant
            1 <= a <= clusters@.len(),
            b < a,
            forall|c: int|
                0 <= c < a ==> (#[trigger] clusters@[c])@.len() <= clusters@[b as int]@.len() && (c
                    > b ==> clusters@[c]@.len() < clusters@[b as int]@.len()),
        decreases clusters@.len() - a,
    {
        if clusters[a].len() >= clusters[b].len() {
            b = a;
        }
        a += 1;
    }
    b
}

/// The vectors that may stand in for the empty anchors: one for each, unless those are removed,
/// and under `Split` a member of the most populated cluster, where it has any.
pub open spec fn stands_in(
    strategy: EmptyAnchorStrategy,
    clusters: Seq<Vec<usize>>,
    n_vectors: int,
    replacements: Seq<Option<usize>>,
) -> bool {
    &&& replacements.len() == clusters.len()
    &&& forall|a: int|
        0 <= a < clusters.len() ==> ((#[trigger] replacements[a]) is Some <==> clusters[a]@.len()
            == 0 && strategy != EmptyAnchorStrategy::Remove)
    &&& forall|a: int|
        0 <= a < clusters.len() && (#[trigger] replacements[a]) is Some ==> replacements[a].unwrap()
            < n_vectors
    &&& strategy == EmptyAnchorStrategy::Split ==> forall|a: int, b: int|
        0 <= a < clusters.len() && (#[trigger] replacements[a]) is Some && #[trigger] is_busiest(
            clusters,
            b,
        ) && clusters[b]@.len() > 0 ==> clusters[b]@.contains(replacements[a].unwrap())
}

/// The anchors after an iteration, from the first `n` clusters: the mean of a cluster that has
/// members, the vector that stands in for an empty one, and nothing where none does.
pub open spec fn updated(
    data: Seq<u16>,
    dim: int,
    clusters: Seq<Vec<usize>>,
    means: Seq<Vec<u16>>,
    replacements: Seq<Option<usize>>,
    n: int,
) -> Seq<u16>
    decreases n,
{
    if n <= 0 {
        Seq::empty()
    } else {
        updated(data, dim, clusters, means, replacements, n - 1) + (if clusters[n - 1]@.len() > 0 {
            means[n - 1]@
        } else {
            match replacements[n - 1] {
                Some(i) => row(data, dim, i as int),
                None => Seq::empty(),
            }
        })
    }
}

/// How many anchors the first `n` clusters leave.
pub open spec fn survivors(
    clusters: Seq<Vec<usize>>,
    replacements: Seq<Option<usize>>,
    n: int,
) -> int
    decreases n,
{
    if n <= 0 {
        0
    } else {
        survivors(clusters, replacements, n - 1) + (if clusters[n - 1]@.len() > 0
            || replacements[n - 1] is Some {
            1int
        } else {
            0int
        })
    }
}

/// Each cluster that has members has a mean of `dim` values.
pub open spec fn has_means(clusters: Seq<Vec<usize>>, means: Seq<Vec<u16>>, dim: int) -> bool {
    &&& means.len() == clusters.len()
    &&& forall|a: int|
        0 <= a < clusters.len() && clusters[a]@.len() > 0 ==> (#[trigger] means[a])@.len() == dim
}

/// The anchors after an iteration, one behind another.
pub fn updated_anchors(
    data: &[u16],
    dim: usize,
    clusters: &[Vec<usize>],
    means: &[Vec<u16>],
    replacements: &[Option<usize>],
) -> (r: Vec<u16>)
    requires
        dim > 0,
        means@.len() == clusters@.len(),
        replacements@.len() == clusters@.len(),
        forall|a: int|
            0 <= a < clusters@.len() && (#[trigger] replacements@[a]) is Some
                ==> replacements@[a].unwrap() < data@.len() as int / dim as int,
    ensures
        r@ == updated(
            data@,
            dim as int,
            clusters@,
            means@,
            replacements@,
            clusters@.len() as int,
        ),
{
    let mut r: Vec<u16> = Vec::new();
    let mut a: usize = 0;
    while a < clusters.len()
        invariant
            a <= clusters@.len(),
            dim > 0,
            means@.len() == clusters@.len(),
            replacements@.len() == clusters@.len(),
            forall|b: int|
                0 <= b < clusters@.len() && (#[trigger] replacements@[b]) is Some
                    ==> replacements@[b].unwrap() < data@.len() as int / dim as int,
            r@ == updated(data@, dim as int, clusters@, means@, replacements@, a as int),
        decreases clusters@.len() - a,
    {
        if clusters[a].len() > 0 {
            let mean: &Vec<u16> = &means[a];
            let ghost before = r@;
            let mut j: usize = 0;
            while j < mean.len()
                invariant
                    j <= mean@.len(),
                    r@ == before + mean@.take(j as int),
                decreases mean@.len() - j,
            {
                r.push(mean[j]);
                j += 1;
                assert(r@ =~= before + mean@.take(j as int));
            }
            assert(mean@.take(j as int) =~= mean@);
        } else {
            match replacements[a] {
                Some(i) => {
                    proof {
                        let n = data@.len() as int / dim as int;
                        assert(replacements@[a as int].unwrap() < n);
                        lemma_row_bounds(dim as int, i as int, n);
                        lemma_whole_rows(data@.len() as int, dim as int);
                        assert((i + 1) * dim == i * dim + dim) by (nonlinear_arith);
                    }
                    push_row(&mut r, data, dim, i);
                },
                None => {
                    assert(r@ + Seq::<u16>::empty() =~= r@);
                },
            }
        }
        a += 1;
    }
    r
}

/// Every surviving anchor has `dim` values.
pub proof fn updated_has_whole_rows(
    data: Seq<u16>,
    dim: int,
    clusters: Seq<Vec<usize>>,
    means: Seq<Vec<u16>>,
    replacements: Seq<Option<usize>>,
    n: int,
)
    requires
        dim > 0,
        0 <= n <= clusters.len(),
        replacements.len() == clusters.len(),
        has_means(clusters, means, dim),
        forall|a: int|
            0 <= a < clusters.len() && (#[trigger] replacements[a]) is Some
                ==> replacements[a].unwrap() < data.len() as int / dim,
    ensures
        updated(data, dim, clusters, means, replacements, n).len() == survivors(
            clusters,
            replacements,
            n,
        ) * dim,
        0 <= survivors(clusters, replacements, n) <= n,
    decreases n,
{
    if n > 0 {
        updated_has_whole_rows(data, dim, clusters, means, replacements, n - 1);
        let s = survivors(clusters, replacements, n - 1);
        assert((s + 1) * dim == s * dim + dim) by (nonlinear_arith);
        if clusters[n - 1]@.len() > 0 {
            assert(means[n - 1]@.len() == dim);
        } else if replacements[n - 1] is Some {
            let i = replacements[n - 1].unwrap() as int;
            lemma_row_bounds(dim, i, data.len() as int / dim);
            lemma_whole_rows(data.len() as int, dim);
        }
    } else {
        assert(0 * dim == 0) by (nonlinear_arith);
    }
}

/// Where the empty anchors are not removed, each anchor after an iteration is the mean of its
/// cluster or the vector that stands in for it, and there are as many as before.
pub proof fn kept_anchor_rows(
    strategy: EmptyAnchorStrategy,
    data: Seq<u16>,
    dim: int,
    clusters: Seq<Vec<usize>>,
    means: Seq<Vec<u16>>,
    replacements: Seq<Option<usize>>,
)
    requires
        dim > 0,
        has_means(clusters, means, dim),
        stands_in(strategy, clusters, data.len() as int / dim, replacements),
        strategy != EmptyAnchorStrategy::Remove,
    ensures
        survivors(clusters, replacements, clusters.len() as int) == clusters.len(),
        forall|a: int|
            0 <= a < clusters.len() ==> #[trigger] row(
                updated(data, dim, clusters, means, replacements, clusters.len() as int),
                dim,
                a,
            ) == (if clusters[a]@.len() > 0 {
                means[a]@
            } else {
                row(data, dim, replacements[a].unwrap() as int)
            }),
{
    lemma_kept_rows(strategy, data, dim, clusters, means, replacements, clusters.len() as int);
}

proof fn lemma_kept_rows(
    strategy: EmptyAnchorStrategy,
    data: Seq<u16>,
    dim: int,
    clusters: Seq<Vec<usize>>,
    means: Seq<Vec<u16>>,
    replacements: Seq<Option<usize>>,
    n: int,
)
    requires
        dim > 0,
        0 <= n <= clusters.len(),
        has_means(clusters, means, dim),
        stands_in(strategy, clusters, data.len() as int / dim, replacements),
        strategy != EmptyAnchorStrategy::Remove,
    ensures
        survivors(clusters, replacements, n) == n,
        forall|a: int|
            0 <= a < n ==> #[trigger] row(
                updated(data, dim, clusters, means, replacements, n),
                dim,
                a,
            ) == (if clusters[a]@.len() > 0 {
                means[a]@
            } else {
                row(data, dim, replacements[a].unwrap() as int)
            }),
    decreases n,
{
    if n > 0 {
        lemma_kept_rows(strategy, data, dim, clusters, means, replacements, n - 1);
        updated_has_whole_rows(data, dim, clusters, means, replacements, n - 1);
        let before = updated(data, dim, clusters, means, replacements, n - 1);
        let all = updated(data, dim, clusters, means, replacements, n);
        assert(before.len() == (n - 1) * dim);
        assert(replacements[n - 1] is Some <==> clusters[n - 1]@.len() == 0);
        if clusters[n - 1]@.len() > 0 {
            assert(means[n - 1]@.len() == dim);
        } else {
            lemma_row_bounds(dim, replacements[n - 1].unwrap() as int, data.len() as int / dim);
            lemma_whole_rows(data.len() as int, dim);
        }
        assert forall|a: int| 0 <= a < n implies #[trigger] row(all, dim, a) == (if clusters[a]@.len()
            > 0 {
            means[a]@
        } else {
            row(data, dim, replacements[a].unwrap() as int)
        }) by {
            if a < n - 1 {
                lemma_row_bounds(dim, a, n - 1);
                assert(row(all, dim, a) =~= row(before, dim, a));
            } else if clusters[a]@.len() > 0 {
                assert(row(all, dim, a) =~= means[a]@);
            } else {
                assert(row(all, dim, a) =~= row(data, dim, replacements[a].unwrap() as int));
            }
        }
    }
}

/// How many of the first `n` clusters have members.
pub open spec fn populated(clusters: Seq<Vec<usize>>, n: int) -> int
    decreases n,
{
    if n <= 0 {
        0
    } else {
        populated(clusters, n - 1) + (if clusters[n - 1]@.len() > 0 {
            1int
        } else {
            0int
        })
    }
}

/// Where empty anchors are removed, exactly those of the clusters with members are left.
pub proof fn removal_keeps_populated(
    clusters: Seq<Vec<usize>>,
    n_vectors: int,
    replacements: Seq<Option<usize>>,
    n: int,
)
    requires
        0 <= n <= clusters.len(),
        stands_in(EmptyAnchorStrategy::Remove, clusters, n_vectors, replacements),
    ensures
        survivors(clusters, replacements, n) == populated(clusters, n),
    decreases n,
{
    if n > 0 {
        removal_keeps_populated(clusters, n_vectors, replacements, n - 1);
        assert(!(replacements[n - 1] is Some));
    }
}

/// How many of the first `n` sampled vectors count for one of the first `k` anchors.
pub open spec fn grouped_count(
    sampled: Seq<usize>,
    hits: Seq<Option<usize>>,
    n_active: int,
    k: int,
    n: int,
) -> int
    decreases k,
{
    if k <= 0 {
        0
    } else {
        grouped_count(sampled, hits, n_active, k - 1, n) + members(
            sampled,
            hits,
            n_active,
            k - 1,
            n,
        ).len()
    }
}

/// Every sampled vector counts for exactly one anchor: the clusters together hold as many as
/// were sampled.
pub proof fn grouping_loses_none(
    sampled: Seq<usize>,
    hits: Seq<Option<usize>>,
    n_active: int,
    n: int,
)
    requires
        n_active > 0,
        0 <= n <= sampled.len(),
        hits.len() == sampled.len(),
    ensures
        grouped_count(sampled, hits, n_active, n_active, n) == n,
    decreases n,
{
    if n > 0 {
        grouping_loses_none(sampled, hits, n_active, n - 1);
        lemma_grouped_step(sampled, hits, n_active, n_active, n);
    } else {
        lemma_grouped_empty(sampled, hits, n_active, n_active);
    }
}

proof fn lemma_grouped_empty(sampled: Seq<usize>, hits: Seq<Option<usize>>, n_active: int, k: int)
    ensures
        grouped_count(sampled, hits, n_active, k, 0) == 0,
    decreases k,
{
    if k > 0 {
        lemma_grouped_empty(sampled, hits, n_active, k - 1);
    }
}

proof fn lemma_grouped_step(
    sampled: Seq<usize>,
    hits: Seq<Option<usize>>,
    n_active: int,
    k: int,
    n: int,
)
    requires
        n > 0,
        n_active > 0,
        0 <= k <= n_active,
    ensures
        grouped_count(sampled, hits, n_active, k, n) == grouped_count(
            sampled,
            hits,
            n_active,
            k,
            n - 1,
        ) + (if nearest_anchor(hits[n - 1], n_active) < k {
            1int
        } else {
            0int
        }),
    decreases k,
{
    if k > 0 {
        lemma_grouped_step(sampled, hits, n_active, k - 1, n);
    }
}

/// What a clustering in progress needs next.
#[derive(Debug, Clone, Copy, PartialEq, Eq, Structural)]
pub enum PgcStep {
    /// One more refinement: draw a sample, find its nearest anchors, hand in their means.
    Refine,
    /// The nearest anchor of every vector, for the result.
    Assign,
    /// Nothing: all anchors were removed.
    Fallback,
}

/// The vectors of an iteration: all of them in order where the sample would hold as many, and
/// otherwise as many as wanted, with repetition.
pub open spec fn is_sample(sample: Seq<usize>, wanted: int, n_vectors: int) -> bool {
    if wanted >= n_vectors {
        sample == every_row(n_vectors)
    } else {
        sample.len() == wanted && in_rows(sample, n_vectors)
    }
}

/// A clustering in progress.
pub struct PgcRun<'a> {
    settings: PgcBuilder,
    data: &'a [u16],
    dim: usize,
    n_centroids: usize,
    rng: StdRng,
    anchors: Vec<u16>,
    n_active: usize,
    rounds: usize,
}

impl ProximityGraphClustering {
    pub fn builder() -> (r: PgcBuilder)
        ensures
            r == PgcBuilder::standard(),
    {
        PgcBuilder::new()
    }

    /// Begins to cluster the vectors of `data`: draws the first anchors, with repetition.
    pub fn cluster<'a>(&self, data: &'a [u16], dim: usize, n_centroids: usize) -> (run: PgcRun<'a>)
        requires
            dim > 0,
            data@.len() as int % dim as int == 0,
            0 < n_centroids <= data@.len() as int / dim as int,
        ensures
            run.wf(),
            run.input() == (self.settings, data@, dim as int, n_centroids as int),
            run.n_active() == n_centroids,
            run.rounds() == 0,
            exists|picks: Seq<usize>|
                picks.len() == n_centroids && in_rows(picks, data@.len() as int / dim as int)
                    && run.anchors() == #[trigger] gathered(data@, dim as int, picks),
    {
        let n_vectors: usize = data.len() / dim;
        let mut rng: StdRng = seeded(self.settings.seed);
        let picks: Vec<usize> = draw_many(&mut rng, n_vectors, n_centroids);
        let anchors: Vec<u16> = gather_rows(data, dim, &picks);
        proof {
            gathered_rows(data@, dim as int, picks@);
            lemma_whole_rows(data@.len() as int, dim as int);
        }
        PgcRun {
            settings: self.settings,
            data,
            dim,
            n_centroids,
            rng,
            anchors,
            n_active: n_centroids,
            rounds: 0,
        }
    }
}

/// `amount` positions below `n`, with repetition.
fn draw_many(rng: &mut StdRng, n: usize, amount: usize) -> (drawn: Vec<usize>)
    requires
        n > 0,
    ensures
        drawn@.len() == amount,
        in_rows(drawn@, n as int),
{
    let mut drawn: Vec<usize> = Vec::with_capacity(amount);
    let mut i: usize = 0;
    while i < amount
        invariant
            i <= amount,
            n > 0,
            drawn@.len() == i,
            in_rows(drawn@, n as int),
        decreases amount - i,
    {
        drawn.push(draw_below(rng, n));
        i += 1;
    }
    drawn
}

/// A vector to stand in for each empty anchor that is not removed.
fn draw_replacements(
    strategy: EmptyAnchorStrategy,
    rng: &mut StdRng,
    clusters: &[Vec<usize>],
    n_vectors: usize,
) -> (r: Vec<Option<usize>>)
    requires
        n_vectors > 0,
        clusters@.len() > 0,
        forall|a: int|
            0 <= a < clusters@.len() ==> in_rows((#[trigger] clusters@[a])@, n_vectors as int),
    ensures
        stands_in(strategy, clusters@, n_vectors as int, r@),
{
    let busiest: usize = busiest_anchor(clusters);
    let mut r: Vec<Option<usize>> = Vec::with_capacity(clusters.len());
    let mut a: usize = 0;
    while a < clusters.len()
        invariant
            a <= clusters@.len(),
            n_vectors > 0,
            is_busiest(clusters@, busiest as int),
            forall|b: int|
                0 <= b < clusters@.len() ==> in_rows((#[trigger] clusters@[b])@, n_vectors as int),
            r@.len() == a,
            forall|b: int|
                0 <= b < a ==> ((#[trigger] r@[b]) is Some <==> clusters@[b]@.len() == 0 && strategy
                    != EmptyAnchorStrategy::Remove),
            forall|b: int|
                0 <= b < a && (#[trigger] r@[b]) is Some ==> r@[b].unwrap() < n_vectors,
            strategy == EmptyAnchorStrategy::Split && clusters@[busiest as int]@.len() > 0
                ==> forall|b: int|
                0 <= b < a && (#[trigger] r@[b]) is Some ==> clusters@[busiest as int]@.contains(
                    r@[b].unwrap(),
                ),
        decreases clusters@.len() - a,
    {
        if clusters[a].len() > 0 {
            r.push(None);
        } else {
            match strategy {
                EmptyAnchorStrategy::Remove => {
                    r.push(None);
                },
                EmptyAnchorStrategy::Resample => {
                    r.push(Some(draw_below(rng, n_vectors)));
                },
                EmptyAnchorStrategy::Split => {
                    let crowd: &Vec<usize> = &clusters[busiest];
                    if crowd.len() > 0 {
                        let chosen: usize = draw_below(rng, crowd.len());
                        assert(in_rows(clusters@[busiest as int]@, n_vectors as int));
                        assert(crowd@[chosen as int] < n_vectors);
                        r.push(Some(crowd[chosen]));
                    } else {
                        r.push(Some(draw_below(rng, n_vectors)));
                    }
                },
            }
        }
        a += 1;
    }
    assert forall|b: int| #[trigger] is_busiest(clusters@, b) implies b == busiest by {
        let _ = clusters@[b];
        let _ = clusters@[busiest as int];
    }
    r
}

impl<'a> PgcRun<'a> {
    /// What the run works on: the settings, the vectors, the values per vector and how many
    /// centroids were asked for.
    pub closed spec fn input(&self) -> (PgcBuilder, Seq<u16>, int, int) {
        (self.settings, self.data@, self.dim as int, self.n_centroids as int)
    }

    /// How many vectors there are.
    pub open spec fn n_vectors(&self) -> int {
        self.input().1.len() as int / self.input().2
    }

    /// The anchors, one behind another.
    pub closed spec fn anchors(&self) -> Seq<u16> {
        self.anchors@
    }

    /// How many anchors there are.
    pub closed spec fn n_active(&self) -> int {
        self.n_active as int
    }

    /// How many iterations are done.
    pub closed spec fn rounds(&self) -> int {
        self.rounds as int
    }

    pub closed spec fn wf(&self) -> bool {
        &&& self.dim > 0
        &&& self.data@.len() as int % self.dim as int == 0
        &&& 0 < self.n_centroids <= self.data@.len() as int / self.dim as int
        &&& self.n_active <= self.n_centroids
        &&& self.settings.empty_strategy != EmptyAnchorStrategy::Remove ==> self.n_active
            == self.n_centroids
        &&& self.anchors@.len() == self.n_active * self.dim
        &&& self.rounds <= self.settings.n_iter
    }

    /// What is due.
    pub open spec fn due(&self) -> PgcStep {
        if self.n_active() == 0 {
            PgcStep::Fallback
        } else if self.rounds() < self.input().0.n_iter {
            PgcStep::Refine
        } else {
            PgcStep::Assign
        }
    }

    /// What the run needs next.
    pub fn next_step(&self) -> (step: PgcStep)
        ensures
            step == self.due(),
    {
        if self.n_active == 0 {
            PgcStep::Fallback
        } else if self.rounds < self.settings.n_iter {
            PgcStep::Refine
        } else {
            PgcStep::Assign
        }
    }

    /// The anchors, as they stand.
    pub fn current_anchors(&self) -> (r: &[u16])
        requires
            self.wf(),
        ensures
            r@ == self.anchors(),
            r@.len() == self.n_active() * self.input().2,
    {
        self.anchors.as_slice()
    }

    /// How many anchors there are: as many as were asked for, or fewer where empty ones are
    /// removed.
    pub fn anchor_count(&self) -> (n: usize)
        requires
            self.wf(),
        ensures
            n == self.n_active(),
            n <= self.input().3,
            self.input().0.empty_strategy != EmptyAnchorStrategy::Remove ==> n == self.input().3,
    {
        self.n_active
    }

    /// The vectors to assign in this iteration.
    pub fn draw_sample(&mut self) -> (sample: Vec<usize>)
        requires
            old(self).wf(),
            old(self).due() == PgcStep::Refine,
        ensures
            final(self).wf(),
            final(self).input() == old(self).input(),
            final(self).anchors() == old(self).anchors(),
            final(self).n_active() == old(self).n_active(),
            final(self).rounds() == old(self).rounds(),
            is_sample(
                sample@,
                old(self).n_active() * old(self).input().0.sample_multiplier,
                old(self).n_vectors(),
            ),
            in_rows(sample@, old(self).n_vectors()),
    {
        let n_vectors: usize = self.data.len() / self.dim;
        let wanted: usize = match self.n_active.checked_mul(self.settings.sample_multiplier) {
            Some(wanted) => wanted,
            None => usize::MAX,
        };
        if wanted >= n_vectors {
            all_rows(n_vectors)
        } else {
            draw_many(&mut self.rng, n_vectors, wanted)
        }
    }

    /// Ends an iteration: moves each anchor to the mean of its cluster and treats the empty ones
    /// as the settings say.
    pub fn refine(&mut self, clusters: &[Vec<usize>], means: &[Vec<u16>])
        requires
            old(self).wf(),
            old(self).due() == PgcStep::Refine,
            clusters@.len() == old(self).n_active(),
            has_means(clusters@, means@, old(self).input().2),
            forall|a: int|
                0 <= a < clusters@.len() ==> in_rows(
                    (#[trigger] clusters@[a])@,
                    old(self).n_vectors(),
                ),
        ensures
            final(self).wf(),
            final(self).input() == old(self).input(),
            final(self).rounds() == old(self).rounds() + 1,
            final(self).n_active() == (if old(self).input().0.empty_strategy
                == EmptyAnchorStrategy::Remove {
                populated(clusters@, clusters@.len() as int)
            } else {
                old(self).n_active()
            }),
            exists|replacements: Seq<Option<usize>>| #[trigger]
                stands_in(
                    old(self).input().0.empty_strategy,
                    clusters@,
                    old(self).n_vectors(),
                    replacements,
                ) && final(self).n_active() == survivors(
                    clusters@,
                    replacements,
                    clusters@.len() as int,
                ) && final(self).anchors() == updated(
                    old(self).input().1,
                    old(self).input().2,
                    clusters@,
                    means@,
                    replacements,
                    clusters@.len() as int,
                ),
    {
        let n_vectors: usize = self.data.len() / self.dim;
        let strategy: EmptyAnchorStrategy = self.settings.empty_strategy;
        let replacements: Vec<Option<usize>> = draw_replacements(
            strategy,
            &mut self.rng,
            clusters,
            n_vectors,
        );
        let anchors: Vec<u16> = updated_anchors(
            self.data,
            self.dim,
            clusters,
            means,
            &replacements,
        );
        proof {
            updated_has_whole_rows(
                self.data@,
                self.dim as int,
                clusters@,
                means@,
                replacements@,
                clusters@.len() as int,
            );
            let s = survivors(clusters@, replacements@, clusters@.len() as int);
            if strategy == EmptyAnchorStrategy::Remove {
                removal_keeps_populated(
                    clusters@,
                    n_vectors as int,
                    replacements@,
                    clusters@.len() as int,
                );
            } else {
                kept_anchor_rows(
                    strategy,
                    self.data@,
                    self.dim as int,
                    clusters@,
                    means@,
                    replacements@,
                );
            }
            vstd::arithmetic::div_mod::lemma_div_multiples_vanish(s, self.dim as int);
            assert(self.dim as int * s == s * self.dim as int) by (nonlinear_arith);
        }
        self.n_active = anchors.len() / self.dim;
        self.anchors = anchors;
        self.rounds = self.rounds + 1;
    }

    /// The result, from the anchor that the search finds for each vector; a vector for which it
    /// finds none goes to the first.
    pub fn finish(self, hits: &[Option<usize>]) -> (r: PgcResult)
        requires
            self.wf(),
            self.due() == PgcStep::Assign,
            hits@.len() == self.n_vectors(),
        ensures
            r.centroids@ == self.anchors(),
            r.assignments@ == hits@.map_values(
                |hit: Option<usize>|
                    match hit {
                        Some(found) => found,
                        None => 0,
                    },
            ),
            r.dim == self.input().2,
            r.n_centroids == self.n_active(),
            r.n_centroids <= self.input().3,
            self.input().0.empty_strategy != EmptyAnchorStrategy::Remove ==> r.n_centroids
                == self.input().3,
    {
        let ghost pick = |hit: Option<usize>|
            match hit {
                Some(found) => found,
                None => 0,
            };
        let mut assignments: Vec<usize> = Vec::with_capacity(hits.len());
        let mut i: usize = 0;
        while i < hits.len()
            invariant
                i <= hits@.len(),
                pick == (|hit: Option<usize>|
                    match hit {
                        Some(found) => found,
                        None => 0usize,
                    }),
                assignments@ == hits@.take(i as int).map_values(pick),
            decreases hits@.len() - i,
        {
            let nearest: usize = match hits[i] {
                Some(found) => found,
                None => 0,
            };
            assignments.push(nearest);
            i += 1;
            assert(assignments@ =~= hits@.take(i as int).map_values(pick));
        }
        assert(hits@.take(i as int) =~= hits@);
        PgcResult {
            centroids: self.anchors,
            assignments,
            dim: self.dim,
            n_centroids: self.n_active,
        }
    }

    /// The result where all anchors were removed: the first vectors stand as centroids, and every
    /// vector goes to the first of them.
    pub fn fall_back(self) -> (r: PgcResult)
        requires
            self.wf(),
            self.due() == PgcStep::Fallback,
        ensures
            r.centroids@ == self.input().1.take(self.input().3 * self.input().2),
            r.assignments@ == Seq::new(self.n_vectors() as nat, |i: int| 0usize),
            r.dim == self.input().2,
            r.n_centroids == self.input().3,
    {
        let n_vectors: usize = self.data.len() / self.dim;
        let mut centroids: Vec<u16> = Vec::new();
        let mut assignments: Vec<usize> = Vec::new();
        let mut i: usize = 0;
        assert(0 * self.dim as int == 0) by (nonlinear_arith);
        while i < self.n_centroids
            invariant
                i <= self.n_centroids,
                self.n_centroids <= n_vectors,
                n_vectors == self.data@.len() as int / self.dim as int,
                self.dim > 0,
                centroids@ == self.data@.take(i * self.dim),
            decreases self.n_centroids - i,
        {
            proof {
                lemma_row_bounds(self.dim as int, i as int, n_vectors as int);
                lemma_whole_rows(self.data@.len() as int, self.dim as int);
                let d = self.dim as int;
                assert((i + 1) * d == i * d + d) by (nonlinear_arith);
            }
            push_row(&mut centroids, self.data, self.dim, i);
            i += 1;
            assert(centroids@ =~= self.data@.take(i * self.dim));
        }
        let mut j: usize = 0;
        while j < n_vectors
            invariant
                j <= n_vectors,
                assignments@ == Seq::new(j as nat, |i: int| 0usize),
            decreases n_vectors - j,
        {
            assignments.push(0);
            j += 1;
            assert(assignments@ =~= Seq::new(j as nat, |i: int| 0usize));
        }
        PgcResult { centroids, assignments, dim: self.dim, n_centroids: self.n_centroids }
    }
}

/// A vector counts for the anchor that was found for it, for the first where none was, and for the
/// last where one was named that does not exist.
pub proof fn vectors_count_for_an_anchor(hit: Option<usize>, n_active: int)
    requires
        n_active > 0,
    ensures
        0 <= nearest_anchor(hit, n_active) < n_active,
        hit is None ==> nearest_anchor(hit, n_active) == 0,
        hit matches Some(found) ==> nearest_anchor(hit, n_active) <= found && (nearest_anchor(
            hit,
            n_active,
        ) == found || nearest_anchor(hit, n_active) == n_active - 1),
{
}

/// The members of an anchor are the sampled vectors that count for it, all of them and no others,
/// in the order of the sample.
pub proof fn members_count_for_the_anchor(
    sampled: Seq<usize>,
    hits: Seq<Option<usize>>,
    n_active: int,
    a: int,
    n: int,
)
    requires
        0 <= a < n_active,
        0 <= n <= sampled.len(),
    ensures
        exists|places: Seq<int>| #[trigger]
            places.no_duplicates() && places.len() == members(
                sampled,
                hits,
                n_active,
                a,
                n,
            ).len() && (forall|i: int, j: int|
                0 <= i < j < places.len() ==> (#[trigger] places[i]) < (#[trigger] places[j])) && (
            forall|i: int|
                0 <= i < places.len() ==> 0 <= #[trigger] places[i] < n && members(
                    sampled,
                    hits,
                    n_active,
                    a,
                    n,
                )[i] == sampled[places[i]]) && (forall|j: int|
                0 <= j < n ==> (#[trigger] places.contains(j) <==> match hits[j] {
                    None => a == 0,
                    Some(found) => found == a || (found >= n_active && a == n_active - 1),
                })),
{
    let places = lemma_member_places(sampled, hits, n_active, a, n);
    assert forall|i: int, j: int| 0 <= i < places.len() && 0 <= j < places.len() && i != j implies places[i]
        != places[j] by {
        if i < j {
            assert(places[i] < places[j]);
        } else {
            assert(places[j] < places[i]);
        }
    }
    assert(places.no_duplicates());
}

proof fn lemma_member_places(
    sampled: Seq<usize>,
    hits: Seq<Option<usize>>,
    n_active: int,
    a: int,
    n: int,
) -> (places: Seq<int>)
    requires
        0 <= a < n_active,
        0 <= n <= sampled.len(),
    ensures
        places.len() == members(sampled, hits, n_active, a, n).len(),
        forall|i: int, j: int|
            0 <= i < j < places.len() ==> (#[trigger] places[i]) < (#[trigger] places[j]),
        forall|i: int|
            0 <= i < places.len() ==> 0 <= #[trigger] places[i] < n && members(
                sampled,
                hits,
                n_active,
                a,
                n,
            )[i] == sampled[places[i]],
        forall|j: int|
            0 <= j < n ==> (#[trigger] places.contains(j) <==> match hits[j] {
                None => a == 0,
                Some(found) => found == a || (found >= n_active && a == n_active - 1),
            }),
    decreases n,
{
    if n == 0 {
        Seq::empty()
    } else {
        let before = lemma_member_places(sampled, hits, n_active, a, n - 1);
        let all = if nearest_anchor(hits[n - 1], n_active) == a {
            before.push(n - 1)
        } else {
            before
        };
        assert forall|j: int| 0 <= j < n implies (#[trigger] all.contains(j) <==> match hits[j] {
            None => a == 0,
            Some(found) => found == a || (found >= n_active && a == n_active - 1),
        }) by {
            if j < n - 1 {
                if before.contains(j) {
                    let i = choose|i: int| 0 <= i < before.len() && before[i] == j;
                    assert(all[i] == j);
                }
                if all.contains(j) {
                    let i = choose|i: int| 0 <= i < all.len() && all[i] == j;
                    assert(before[i] == j);
                }
                assert(before.contains(j) == all.contains(j));
            } else {
                if nearest_anchor(hits[j], n_active) == a {
                    assert(all[before.len() as int] == j);
                } else if all.contains(j) {
                    let i = choose|i: int| 0 <= i < all.len() && all[i] == j;
                    assert(before[i] < n - 1);
                }
            }
        }
        all
    }
}

/// The most populated cluster has no fewer members than any other, and more than any behind it.
pub proof fn busiest_has_the_most(clusters: Seq<Vec<usize>>, b: int, a: int)
    requires
        is_busiest(clusters, b),
        0 <= a < clusters.len(),
    ensures
        0 <= b < clusters.len(),
        clusters[a]@.len() <= clusters[b]@.len(),
        a > b ==> clusters[a]@.len() < clusters[b]@.len(),
{
}

/// A vector stands in for every empty anchor, unless these are removed, and for no other; it is one
/// of those that there are and, where clusters are split, a member of the most populated one.
pub proof fn only_empty_anchors_are_replaced(
    strategy: EmptyAnchorStrategy,
    clusters: Seq<Vec<usize>>,
    n_vectors: int,
    replacements: Seq<Option<usize>>,
    a: int,
    b: int,
)
    requires
        stands_in(strategy, clusters, n_vectors, replacements),
        0 <= a < clusters.len(),
        0 <= b < clusters.len(),
        forall|c: int|
            0 <= c < clusters.len() ==> (#[trigger] clusters[c])@.len() <= clusters[b]@.len() && (c
                > b ==> clusters[c]@.len() < clusters[b]@.len()),
    ensures
        replacements.len() == clusters.len(),
        replacements[a] is Some <==> clusters[a]@.len() == 0 && strategy
            != EmptyAnchorStrategy::Remove,
        replacements[a] matches Some(v) ==> v < n_vectors && (strategy == EmptyAnchorStrategy::Split
            && clusters[b]@.len() > 0 ==> clusters[b]@.contains(v)),
{
    assert(is_busiest(clusters, b));
}

/// The anchors that are left are those of clusters with members and those that are replaced, in
/// their order: each is the mean of its cluster or the vector that stands in for it, and stands
/// behind as many as are left before it.
pub proof fn anchors_keep_their_order(
    data: Seq<u16>,
    dim: int,
    clusters: Seq<Vec<usize>>,
    means: Seq<Vec<u16>>,
    replacements: Seq<Option<usize>>,
    a: int,
    d: int,
)
    requires
        dim > 0,
        0 <= a < clusters.len(),
        0 <= d < dim,
        replacements.len() == clusters.len(),
        has_means(clusters, means, dim),
        forall|b: int|
            0 <= b < clusters.len() && (#[trigger] replacements[b]) is Some
                ==> replacements[b].unwrap() < data.len() as int / dim,
    ensures
        ({
            let n = clusters.len() as int;
            let all = updated(data, dim, clusters, means, replacements, n);
            let left = |m: int|
                Set::new(
                    |b: int| 0 <= b < m && (clusters[b]@.len() > 0 || replacements[b] is Some),
                ).len();
            &&& all.len() == left(n) * dim
            &&& survivors(clusters, replacements, n) == left(n)
            &&& clusters[a]@.len() > 0 ==> all[left(a) * dim + d] == means[a]@[d]
            &&& clusters[a]@.len() == 0 && replacements[a] is Some ==> all[left(a) * dim + d]
                == data[replacements[a].unwrap() * dim + d]
        }),
{
    let n = clusters.len() as int;
    lemma_left(clusters, replacements, a);
    lemma_left(clusters, replacements, n);
    updated_has_whole_rows(data, dim, clusters, means, replacements, n);
    if clusters[a]@.len() > 0 || replacements[a] is Some {
        lemma_anchor_place(data, dim, clusters, means, replacements, a, d, n);
    }
}

proof fn lemma_left(clusters: Seq<Vec<usize>>, replacements: Seq<Option<usize>>, m: int)
    requires
        0 <= m <= clusters.len(),
    ensures
        ({
            let left = Set::new(
                |b: int| 0 <= b < m && (clusters[b]@.len() > 0 || replacements[b] is Some),
            );
            left.finite() && survivors(clusters, replacements, m) == left.len()
        }),
    decreases m,
{
    let left = Set::new(
        |b: int| 0 <= b < m && (clusters[b]@.len() > 0 || replacements[b] is Some),
    );
    if m == 0 {
        assert(left =~= Set::empty());
    } else {
        lemma_left(clusters, replacements, m - 1);
        let before = Set::new(
            |b: int| 0 <= b < m - 1 && (clusters[b]@.len() > 0 || replacements[b] is Some),
        );
        assert(left =~= if clusters[m - 1]@.len() > 0 || replacements[m - 1] is Some {
            before.insert(m - 1)
        } else {
            before
        });
    }
}

proof fn lemma_anchor_place(
    data: Seq<u16>,
    dim: int,
    clusters: Seq<Vec<usize>>,
    means: Seq<Vec<u16>>,
    replacements: Seq<Option<usize>>,
    a: int,
    d: int,
    n: int,
)
    requires
        dim > 0,
        0 <= a < n <= clusters.len(),
        0 <= d < dim,
        replacements.len() == clusters.len(),
        has_means(clusters, means, dim),
        forall|b: int|
            0 <= b < clusters.len() && (#[trigger] replacements[b]) is Some
                ==> replacements[b].unwrap() < data.len() as int / dim,
        clusters[a]@.len() > 0 || replacements[a] is Some,
    ensures
        ({
            let all = updated(data, dim, clusters, means, replacements, n);
            let at = survivors(clusters, replacements, a) * dim + d;
            &&& 0 <= at < all.len()
            &&& clusters[a]@.len() > 0 ==> all[at] == means[a]@[d]
            &&& clusters[a]@.len() == 0 ==> all[at] == data[replacements[a].unwrap() * dim + d]
        }),
    decreases n,
{
    let all = updated(data, dim, clusters, means, replacements, n);
    let before = updated(data, dim, clusters, means, replacements, n - 1);
    updated_has_whole_rows(data, dim, clusters, means, replacements, n - 1);
    updated_has_whole_rows(data, dim, clusters, means, replacements, n);
    if a < n - 1 {
        lemma_anchor_place(data, dim, clusters, means, replacements, a, d, n - 1);
        let at = survivors(clusters, replacements, a) * dim + d;
        assert(all[at] == before[at]);
    } else {
        let s = survivors(clusters, replacements, a);
        assert(before.len() == s * dim);
        assert(0 <= s * dim) by (nonlinear_arith)
            requires
                0 <= s,
                0 < dim,
        ;
        if clusters[a]@.len() > 0 {
            assert(means[a]@.len() == dim);
        } else {
            let i = replacements[a].unwrap() as int;
            lemma_row_bounds(dim, i, data.len() as int / dim);
            lemma_whole_rows(data.len() as int, dim);
            assert(row(data, dim, i)[d] == data[i * dim + d]);
        }
    }
}

/// As many anchors are left, where the empty ones are removed, as clusters have members.
pub proof fn populated_clusters_are_counted(clusters: Seq<Vec<usize>>, n: int)
    requires
        0 <= n <= clusters.len(),
    ensures
        ({
            let full = Set::new(|a: int| 0 <= a < n && clusters[a]@.len() > 0);
            full.finite() && populated(clusters, n) == full.len()
        }),
    decreases n,
{
    let full = Set::new(|a: int| 0 <= a < n && clusters[a]@.len() > 0);
    if n == 0 {
        assert(full =~= Set::empty());
    } else {
        populated_clusters_are_counted(clusters, n - 1);
        let before = Set::new(|a: int| 0 <= a < n - 1 && clusters[a]@.len() > 0);
        assert(full =~= if clusters[n - 1]@.len() > 0 {
            before.insert(n - 1)
        } else {
            before
        });
    }
}

/// The sample of an iteration has as many vectors as wanted, of those that there are; where no fewer
/// are wanted than there are, it is all of them in order.
pub proof fn samples_are_as_large_as_wanted(
    sample: Seq<usize>,
    wanted: int,
    n_vectors: int,
    i: int,
)
    requires
        0 <= n_vectors <= usize::MAX,
        0 <= wanted,
        is_sample(sample, wanted, n_vectors),
        0 <= i < sample.len(),
    ensures
        sample.len() == wanted || sample.len() == n_vectors,
        sample.len() <= wanted && sample.len() <= n_vectors,
        sample[i] < n_vectors,
        wanted >= n_vectors ==> sample[i] == i,
{
}

/// A run goes on until it has done as many iterations as are set, then asks for the assignments; and
/// once no anchor is left it falls back.
pub proof fn runs_do_their_iterations(run: &PgcRun)
    ensures
        run.due() == PgcStep::Fallback <==> run.n_active() == 0,
        run.due() == PgcStep::Refine <==> run.n_active() != 0 && run.rounds()
            < run.input().0.n_iter,
        run.due() == PgcStep::Assign <==> run.n_active() != 0 && run.rounds()
            >= run.input().0.n_iter,
        run.n_vectors() == run.input().1.len() as int / run.input().2,
{
}

/// The settings where nothing else is said: ten iterations, each on a sample of five vectors per
/// anchor, and empty anchors drawn anew; graphs of 16 neighbours, built with 200 and searched with
/// 50; seed 42, and silence.
pub proof fn standard_clustering()
    ensures
        ({
            let s = PgcBuilder::standard();
            &&& s.n_iter == 10 && s.sample_multiplier == 5
            &&& s.empty_strategy == EmptyAnchorStrategy::Resample
            &&& s.iter_hnsw_m == 16 && s.iter_ef_construction == 200 && s.iter_ef_search == 50
            &&& s.seed == 42 && !s.verbose
        }),
{
}

} // verus!
