//! Token-Aware Clustering (TAC).
//!
//! Each vector carries a token type. Instead of one k-means over everything, every token type
//! gets its own, and the centroid budget is divided among them. The k-means itself and the
//! division, which weighs the groups by their spread, are floating-point work and are handed in;
//! the grouping, the decision whether the budget is enough, the choice of training vectors and
//! the assembly of the result are here.
use crate::groups::{group_by_token, is_grouping, TokenGroup};
#[allow(unused_imports)]
use crate::groups::{
    every_vector_is_grouped, grouping_is_unique, groups_are_apart, positions_are_ascending,
};
use crate::random::{choose_multiple, seeded};
use crate::rows::{all_rows, every_row, gather_rows, gathered, in_rows};
#[allow(unused_imports)]
use crate::rows::{gathered_rows, lemma_row_bounds, lemma_whole_rows, row};
use rand::rngs::StdRng;
use vstd::prelude::*;

verus! {

/// How the centroid budget is divided among token types.
#[derive(Debug, Clone, Copy, PartialEq, Eq, Structural)]
pub struct TacAllocParams {
    /// Token types with fewer vectors than this get one centroid.
    pub micro_threshold: usize,
    /// Token types with fewer vectors than this, and not micro, get two centroids.
    pub small_threshold: usize,
    /// Centroids that every larger token type gets at least.
    pub hard_floor: usize,
    /// Vectors per centroid below which more centroids are pointless.
    pub min_pts_per_centroid: usize,
}

impl TacAllocParams {
    /// The values in use where none are given.
    pub open spec fn standard() -> TacAllocParams {
        TacAllocParams {
            micro_threshold: 128,
            small_threshold: 256,
            hard_floor: 4,
            min_pts_per_centroid: 39,
        }
    }
}

impl Default for TacAllocParams {
    fn default() -> (p: Self)
        ensures
            p == TacAllocParams::standard(),
    {
        TacAllocParams {
            micro_threshold: 128,
            small_threshold: 256,
            hard_floor: 4,
            min_pts_per_centroid: 39,
        }
    }
}

/// What a clustering gives.
pub struct TacResult {
    /// All centroids as half-precision bit patterns, one behind another, those of a token type
    /// together and the token types ascending.
    pub centroids: Vec<u16>,
    /// For each vector the centroid it is assigned to.
    pub assignments: Vec<u32>,
    /// Values per vector.
    pub dim: usize,
    /// How many centroids there are.
    pub n_centroids: usize,
}

/// Settings for [`TokenAwareClustering`].
#[derive(Debug, Clone, Copy)]
pub struct TacBuilder {
    pub n_iter: usize,
    pub verbose: bool,
    /// Most training vectors per token type; `None` leaves it to the group's size.
    pub max_sample_size: Option<usize>,
    pub alloc_params: TacAllocParams,
}

impl TacBuilder {
    /// The settings that hold where nothing else is said.
    pub open spec fn standard() -> TacBuilder {
        TacBuilder {
            n_iter: 10,
            verbose: false,
            max_sample_size: None,
            alloc_params: TacAllocParams::standard(),
        }
    }

    pub fn new() -> (r: Self)
        ensures
            r == TacBuilder::standard(),
    {
        TacBuilder::default()
    }

    /// K-means iterations per token type.
    pub fn n_iter(self, n_iter: usize) -> (r: Self)
        ensures
            r == (TacBuilder { n_iter, ..self }),
    {
        TacBuilder { n_iter, ..self }
    }

    pub fn verbose(self, verbose: bool) -> (r: Self)
        ensures
            r == (TacBuilder { verbose, ..self }),
    {
        TacBuilder { verbose, ..self }
    }

    /// Most training vectors per token type: `None` samples large groups only,
    /// `Some(usize::MAX)` never samples, `Some(n)` trains on at most `n`.
    pub fn max_sample_size(self, max_sample_size: Option<usize>) -> (r: Self)
        ensures
            r == (TacBuilder { max_sample_size, ..self }),
    {
        TacBuilder { max_sample_size, ..self }
    }

    pub fn alloc_params(self, alloc_params: TacAllocParams) -> (r: Self)
        ensures
            r == (TacBuilder { alloc_params, ..self }),
    {
        TacBuilder { alloc_params, ..self }
    }

    pub fn build(self) -> (r: TokenAwareClustering)
        ensures
            r.settings == self,
    {
        TokenAwareClustering { settings: self }
    }
}

impl Default for TacBuilder {
    fn default() -> (r: Self)
        ensures
            r == TacBuilder::standard(),
    {
        TacBuilder {
            n_iter: 10,
            verbose: false,
            max_sample_size: None,
            alloc_params: TacAllocParams::default(),
        }
    }
}

/// The clustering, with its settings.
pub struct TokenAwareClustering {
    pub settings: TacBuilder,
}

impl Default for TokenAwareClustering {
    fn default() -> (r: Self)
        ensures
            r.settings == TacBuilder::standard(),
    {
        TacBuilder::new().build()
    }
}

/// The centroids that a token type of `size` vectors needs at least.
pub open spec fn floor_of(size: int, params: TacAllocParams) -> int {
    (if size < params.micro_threshold {
        1int
    } else {
        0int
    }) + (if params.micro_threshold <= size < params.small_threshold {
        2int
    } else {
        0int
    }) + (if size >= params.small_threshold {
        params.hard_floor as int
    } else {
        0int
    })
}

/// The budget that the first `n` groups need at least.
pub open spec fn floor_budget(groups: Seq<TokenGroup>, params: TacAllocParams, n: int) -> int
    decreases n,
{
    if n <= 0 {
        0
    } else {
        floor_budget(groups, params, n - 1) + floor_of(groups[n - 1].indices@.len() as int, params)
    }
}

proof fn lemma_floor_budget_grows(
    groups: Seq<TokenGroup>,
    params: TacAllocParams,
    m: int,
    n: int,
)
    requires
        0 <= m <= n,
    ensures
        0 <= floor_budget(groups, params, m) <= floor_budget(groups, params, n),
    decreases n,
{
    if m < n {
        lemma_floor_budget_grows(groups, params, m, n - 1);
    } else if n > 0 {
        lemma_floor_budget_grows(groups, params, n - 1, n - 1);
    }
}

/// The budget below which clustering by token type makes no sense; `None` where it is past
/// every number of centroids.
pub fn minimum_budget(groups: &[TokenGroup], params: TacAllocParams) -> (budget: Option<usize>)
    ensures
        ({
            let least = floor_budget(groups@, params, groups@.len() as int);
            budget == (if least <= usize::MAX {
                Some(least as usize)
            } else {
                None
            })
        }),
{
    let mut budget: usize = 0;
    let mut g: usize = 0;
    while g < groups.len()
        invariant
            g <= groups@.len(),
            budget == floor_budget(groups@, params, g as int),
        decreases groups@.len() - g,
    {
        let size: usize = groups[g].indices.len();
        proof {
            lemma_floor_budget_grows(groups@, params, g + 1, groups@.len() as int);
        }
        let micro: usize = if size < params.micro_threshold {
            1
        } else {
            0
        };
        let small: usize = if params.micro_threshold <= size && size < params.small_threshold {
            2
        } else {
            0
        };
        let active: usize = if size >= params.small_threshold {
            params.hard_floor
        } else {
            0
        };
        let few: usize = micro + small;
        if few > usize::MAX - budget || active > usize::MAX - budget - few {
            return None;
        }
        budget = budget + few + active;
        g += 1;
    }
    Some(budget)
}

/// How a clustering goes about its work.
pub enum TacPlan {
    /// The budget is too small for the token types: one k-means over all vectors.
    Global { n_centroids: usize },
    /// One k-means for each token type, on a budget in all.
    PerToken { groups: Vec<TokenGroup>, n_centroids: usize },
}

/// The budget that is used: no more centroids than vectors.
pub open spec fn capped(total_centroids: int, n_vectors: int) -> int {
    if total_centroids > n_vectors {
        n_vectors
    } else {
        total_centroids
    }
}

/// The plan for the given token types and budget: by token type exactly if the budget covers
/// the least that they need.
pub open spec fn is_plan(
    plan: TacPlan,
    token_ids: Seq<usize>,
    total_centroids: int,
    params: TacAllocParams,
) -> bool {
    let budget = capped(total_centroids, token_ids.len() as int);
    exists|groups: Seq<TokenGroup>| #[trigger]
        is_grouping(token_ids, groups) && match plan {
            TacPlan::Global { n_centroids } => n_centroids == budget && budget < floor_budget(
                groups,
                params,
                groups.len() as int,
            ),
            TacPlan::PerToken { groups: chosen, n_centroids } => chosen@ == groups && n_centroids
                == budget && floor_budget(groups, params, groups.len() as int) <= budget,
        }
}

/// More vectors of one token type than this are sampled for training.
pub const AUTO_THRESHOLD: usize = 1_000_000;

/// No more vectors of one token type than this are trained on, unless a cap is set.
pub const AUTO_MAX: usize = 10_000_000;

/// How many of `n` vectors `k` centroids are trained on.
pub open spec fn training_size(
    max_sample_size: Option<usize>,
    n: int,
    k: int,
    n_iter: int,
    min_pts: int,
) -> int {
    match max_sample_size {
        Some(cap) => if cap < n {
            cap as int
        } else {
            n
        },
        None => if n > AUTO_THRESHOLD {
            let by_iter = n / (if n_iter == 0 {
                1
            } else {
                2 * n_iter
            });
            let wanted = larger(larger(AUTO_THRESHOLD as int, 2 * min_pts * k), by_iter);
            smaller(smaller(AUTO_MAX as int, n), wanted)
        } else {
            n
        },
    }
}

pub open spec fn larger(a: int, b: int) -> int {
    if a < b {
        b
    } else {
        a
    }
}

pub open spec fn smaller(a: int, b: int) -> int {
    if a < b {
        a
    } else {
        b
    }
}

/// The training vectors of a token type: `size` different ones of its `n`, in some order.
pub open spec fn is_training_sample(
    full: Seq<u16>,
    dim: int,
    n: int,
    size: int,
    train: Seq<u16>,
) -> bool {
    exists|places: Seq<usize>|
        places.len() == size && places.no_duplicates() && in_rows(places, n) && train
            == #[trigger] gathered(full, dim, places)
}

/// What the k-means of one token type works on.
pub struct TokenTraining {
    /// All vectors of the token type, in order: these are assigned.
    pub full: Vec<u16>,
    /// The vectors to train on, where they are not all.
    pub train: Option<Vec<u16>>,
}

impl TokenAwareClustering {
    pub fn builder() -> (r: TacBuilder)
        ensures
            r == TacBuilder::standard(),
    {
        TacBuilder::new()
    }

    /// Begins to cluster the vectors of `data` on a budget of `total_centroids`: groups them and
    /// decides how to go on.
    pub fn train(
        &self,
        data: &[u16],
        dim: usize,
        token_ids: &[usize],
        total_centroids: usize,
    ) -> (plan: TacPlan)
        requires
            dim > 0,
            token_ids@.len() == data@.len() as int / dim as int,
        ensures
            is_plan(plan, token_ids@, total_centroids as int, self.settings.alloc_params),
    {
        let n_vectors: usize = data.len() / dim;
        let n_centroids: usize = if total_centroids > n_vectors {
            n_vectors
        } else {
            total_centroids
        };
        let groups: Vec<TokenGroup> = group_by_token(token_ids);
        let enough: bool = match minimum_budget(&groups, self.settings.alloc_params) {
            Some(least) => least <= n_centroids,
            None => false,
        };
        proof {
            let params = self.settings.alloc_params;
            lemma_floor_budget_grows(groups@, params, 0, groups@.len() as int);
        }
        if enough {
            TacPlan::PerToken { groups, n_centroids }
        } else {
            TacPlan::Global { n_centroids }
        }
    }

    /// How many of `n` vectors `k` centroids are trained on.
    pub fn training_count(&self, n: usize, k: usize) -> (size: usize)
        ensures
            size == training_size(
                self.settings.max_sample_size,
                n as int,
                k as int,
                self.settings.n_iter as int,
                self.settings.alloc_params.min_pts_per_centroid as int,
            ),
            size <= n,
    {
        match self.settings.max_sample_size {
            Some(cap) => if cap < n {
                cap
            } else {
                n
            },
            None => if n > AUTO_THRESHOLD {
                let per_centroid: usize = self.settings.alloc_params.min_pts_per_centroid;
                let n_iter: usize = self.settings.n_iter;
                proof {
                    let (m, x) = (per_centroid as int, k as int);
                    assert(2 * m * x == 2 * (m * x) && 0 <= m * x) by (nonlinear_arith)
                        requires
                            0 <= m,
                            0 <= x,
                    ;
                    if n_iter > usize::MAX / 2 {
                        vstd::arithmetic::div_mod::lemma_basic_div(n as int, 2 * n_iter as int);
                    }
                }
                let by_iter: usize = if n_iter == 0 {
                    n
                } else if n_iter > usize::MAX / 2 {
                    0
                } else {
                    n / (2 * n_iter)
                };
                let mut wanted: usize = if AUTO_THRESHOLD < by_iter {
                    by_iter
                } else {
                    AUTO_THRESHOLD
                };
                match per_centroid.checked_mul(k) {
                    Some(points) => {
                        let by_cluster: usize = if points > usize::MAX / 2 {
                            usize::MAX
                        } else {
                            2 * points
                        };
                        if wanted < by_cluster {
                            wanted = by_cluster;
                        }
                    },
                    None => {
                        wanted = usize::MAX;
                    },
                }
                let most: usize = if AUTO_MAX < n {
                    AUTO_MAX
                } else {
                    n
                };
                if most < wanted {
                    most
                } else {
                    wanted
                }
            } else {
                n
            },
        }
    }

    /// What the k-means for `k` centroids of one token type works on; `None` where there is
    /// nothing to do. The training vectors are drawn from a fixed seed.
    pub fn training_for_token(
        &self,
        data: &[u16],
        dim: usize,
        indices: &[usize],
        k: usize,
    ) -> (training: Option<TokenTraining>)
        requires
            dim > 0,
            in_rows(indices@, data@.len() as int / dim as int),
        ensures
            training is None <==> k == 0 || indices@.len() == 0,
            training matches Some(t) ==> {
                let n = indices@.len() as int;
                let size = training_size(
                    self.settings.max_sample_size,
                    n,
                    k as int,
                    self.settings.n_iter as int,
                    self.settings.alloc_params.min_pts_per_centroid as int,
                );
                &&& t.full@ == gathered(data@, dim as int, indices@)
                &&& t.train is Some <==> size < n
                &&& t.train matches Some(train) ==> is_training_sample(
                    t.full@,
                    dim as int,
                    n,
                    size,
                    train@,
                )
            },
    {
        if k == 0 || indices.len() == 0 {
            return None;
        }
        let n: usize = indices.len();
        let size: usize = self.training_count(n, k);
        let full: Vec<u16> = gather_rows(data, dim, indices);
        if size < n {
            let mut rng: StdRng = seeded(525);
            let all: Vec<usize> = all_rows(n);
            let places: Vec<usize> = choose_multiple(&mut rng, &all, size);
            proof {
                lemma_chosen(n as int, all@, places@);
                gathered_rows(data@, dim as int, indices@);
                vstd::arithmetic::div_mod::lemma_div_multiples_vanish(n as int, dim as int);
                assert(dim as int * n as int == n * dim) by (nonlinear_arith);
            }
            let train: Vec<u16> = gather_rows(&full, dim, &places);
            Some(TokenTraining { full, train: Some(train) })
        } else {
            Some(TokenTraining { full, train: None })
        }
    }
}

proof fn lemma_chosen(n: int, all: Seq<usize>, places: Seq<usize>)
    requires
        0 <= n <= usize::MAX,
        all == every_row(n),
        places.to_multiset().subset_of(all.to_multiset()),
    ensures
        places.no_duplicates(),
        in_rows(places, n),
{
    broadcast use vstd::seq_lib::group_to_multiset_ensures;

    assert(all.no_duplicates());
    all.lemma_multiset_has_no_duplicates();
    assert forall|j: int| 0 <= j < places.len() implies (#[trigger] places[j]) < n by {
        let x = places[j];
        assert(places.contains(x));
        assert(places.to_multiset().count(x) > 0);
        assert(all.to_multiset().count(x) > 0);
        assert(all.contains(x));
    }
    assert forall|x: usize| places.to_multiset().contains(x) implies places.to_multiset().count(x)
        == 1 by {
        assert(all.to_multiset().contains(x));
    }
    places.lemma_multiset_has_no_duplicates_conv();
}

/// The centroids of one token type, and for each of its vectors which of them it is assigned to.
pub struct TokenClusters {
    pub centroids: Vec<u16>,
    pub assignments: Vec<u32>,
}

/// How many centroids the first `g` token types have.
pub open spec fn block_start(results: Seq<TokenClusters>, dim: int, g: int) -> int
    decreases g,
{
    if g <= 0 {
        0
    } else {
        block_start(results, dim, g - 1) + results[g - 1].centroids@.len() as int / dim
    }
}

/// The centroids of the first `g` token types, one behind another.
pub open spec fn joined(results: Seq<TokenClusters>, g: int) -> Seq<u16>
    decreases g,
{
    if g <= 0 {
        Seq::empty()
    } else {
        joined(results, g - 1) + results[g - 1].centroids@
    }
}

/// Vector `j` of group `g` gets the centroid that its own token type's k-means gave it, counted
/// from where that token type's centroids start.
pub open spec fn is_assigned(
    assignments: Seq<u32>,
    groups: Seq<TokenGroup>,
    results: Seq<TokenClusters>,
    dim: int,
    g: int,
    j: int,
) -> bool {
    assignments[groups[g].indices@[j] as int] == block_start(results, dim, g)
        + results[g].assignments@[j]
}

/// Each vector of each group has an assignment, and all centroids can be numbered.
pub open spec fn can_merge(
    groups: Seq<TokenGroup>,
    results: Seq<TokenClusters>,
    dim: int,
) -> bool {
    &&& results.len() == groups.len()
    &&& block_start(results, dim, results.len() as int) <= u32::MAX
    &&& forall|g: int|
        0 <= g < groups.len() ==> (#[trigger] groups[g]).indices@.len()
            <= results[g].assignments@.len()
    &&& forall|g: int, j: int|
        0 <= g < groups.len() && 0 <= j < groups[g].indices@.len() ==> block_start(results, dim, g)
            + (#[trigger] results[g].assignments@[j]) <= u32::MAX
}

proof fn lemma_block_start_grows(results: Seq<TokenClusters>, dim: int, m: int, n: int)
    requires
        dim > 0,
        0 <= m <= n,
    ensures
        0 <= block_start(results, dim, m) <= block_start(results, dim, n),
    decreases n,
{
    if n > 0 {
        assert(results[n - 1].centroids@.len() as int / dim >= 0) by {
            lemma_whole_rows(results[n - 1].centroids@.len() as int, dim);
            vstd::arithmetic::div_mod::lemma_div_pos_is_pos(
                results[n - 1].centroids@.len() as int,
                dim,
            );
        }
        if m < n {
            lemma_block_start_grows(results, dim, m, n - 1);
        } else {
            lemma_block_start_grows(results, dim, n - 1, n - 1);
        }
    }
}

/// Puts the results of the token types together: centroids one behind another in the order of
/// the token types, assignments counted accordingly.
pub fn merge_token_results(
    token_ids: &[usize],
    groups: &[TokenGroup],
    results: &[TokenClusters],
    dim: usize,
) -> (r: TacResult)
    requires
        dim > 0,
        is_grouping(token_ids@, groups@),
        can_merge(groups@, results@, dim as int),
    ensures
        r.centroids@ == joined(results@, results@.len() as int),
        r.assignments@.len() == token_ids@.len(),
        forall|g: int, j: int|
            0 <= g < groups@.len() && 0 <= j < groups@[g].indices@.len() ==> #[trigger] is_assigned(
                r.assignments@,
                groups@,
                results@,
                dim as int,
                g,
                j,
            ),
        r.dim == dim,
        r.n_centroids == r.centroids@.len() as int / dim as int,
{
    assert(token_ids.len() == token_ids@.len());
    let mut centroids: Vec<u16> = Vec::new();
    let mut assignments: Vec<u32> = Vec::new();
    let mut i: usize = 0;
    while i < token_ids.len()
        invariant
            i <= token_ids@.len(),
            assignments@.len() == i,
        decreases token_ids@.len() - i,
    {
        assignments.push(0);
        i += 1;
    }
    let mut offset: u32 = 0;
    let mut g: usize = 0;
    while g < groups.len()
        invariant
            g <= groups@.len(),
            dim > 0,
            token_ids@.len() <= usize::MAX,
            is_grouping(token_ids@, groups@),
            can_merge(groups@, results@, dim as int),
            offset == block_start(results@, dim as int, g as int),
            centroids@ == joined(results@, g as int),
            assignments@.len() == token_ids@.len(),
            forall|h: int, j: int|
                0 <= h < g && 0 <= j < groups@[h].indices@.len() ==> #[trigger] is_assigned(
                    assignments@,
                    groups@,
                    results@,
                    dim as int,
                    h,
                    j,
                ),
        decreases groups@.len() - g,
    {
        let clusters: &TokenClusters = &results[g];
        let indices: &Vec<usize> = &groups[g].indices;
        let mut j: usize = 0;
        while j < indices.len()
            invariant
                j <= indices@.len(),
                g < groups@.len(),
                dim > 0,
                token_ids@.len() <= usize::MAX,
                is_grouping(token_ids@, groups@),
                can_merge(groups@, results@, dim as int),
                *clusters == results@[g as int],
                *indices == groups@[g as int].indices,
                offset == block_start(results@, dim as int, g as int),
                assignments@.len() == token_ids@.len(),
                forall|h: int, k: int|
                    0 <= h < groups@.len() && 0 <= k < groups@[h].indices@.len() && (h < g || h == g
                        && k < j) ==> #[trigger] is_assigned(
                        assignments@,
                        groups@,
                        results@,
                        dim as int,
                        h,
                        k,
                    ),
            decreases indices@.len() - j,
        {
            let position: usize = indices[j];
            let ghost before = assignments@;
            proof {
                groups_are_apart(
                    token_ids@,
                    groups@,
                    g as int,
                    j as int,
                    g as int,
                    j as int,
                );
                assert(results@[g as int].assignments@[j as int] + offset <= u32::MAX);
            }
            assignments.set(position, clusters.assignments[j] + offset);
            proof {
                assert forall|h: int, k: int|
                    0 <= h < groups@.len() && 0 <= k < groups@[h].indices@.len() && (h < g || h == g
                        && k < j + 1) implies #[trigger] is_assigned(
                    assignments@,
                    groups@,
                    results@,
                    dim as int,
                    h,
                    k,
                ) by {
                    if h == g && k == j {
                    } else {
                        groups_are_apart(token_ids@, groups@, h, k, g as int, j as int);
                        assert(is_assigned(before, groups@, results@, dim as int, h, k));
                    }
                }
            }
            j += 1;
        }
        let ghost start = centroids@;
        let mut c: usize = 0;
        while c < clusters.centroids.len()
            invariant
                c <= clusters.centroids@.len(),
                centroids@ == start + clusters.centroids@.take(c as int),
            decreases clusters.centroids@.len() - c,
        {
            centroids.push(clusters.centroids[c]);
            c += 1;
            assert(centroids@ =~= start + clusters.centroids@.take(c as int));
        }
        assert(clusters.centroids@.take(c as int) =~= clusters.centroids@);
        proof {
            lemma_block_start_grows(results@, dim as int, g + 1, results@.len() as int);
            lemma_block_start_grows(results@, dim as int, g as int, g + 1);
        }
        offset = offset + (clusters.centroids.len() / dim) as u32;
        g += 1;
    }
    let n_centroids: usize = centroids.len() / dim;
    TacResult { centroids, assignments, dim, n_centroids }
}

/// Every vector is assigned to a centroid of its own token type: token type `g` owns the
/// centroids from where its block starts to where the next one does.
pub proof fn assigned_to_own_token(
    assignments: Seq<u32>,
    groups: Seq<TokenGroup>,
    results: Seq<TokenClusters>,
    dim: int,
    g: int,
    j: int,
)
    requires
        is_assigned(assignments, groups, results, dim, g, j),
        0 <= g < groups.len(),
        0 <= j < groups[g].indices@.len(),
        results[g].assignments@[j] < results[g].centroids@.len() as int / dim,
    ensures
        block_start(results, dim, g) <= assignments[groups[g].indices@[j] as int] < block_start(
            results,
            dim,
            g + 1,
        ),
{
}

/// The blocks stand in the order of the token types: that of an earlier one ends before, or where,
/// that of a later one starts.
pub proof fn blocks_in_order(results: Seq<TokenClusters>, dim: int, g: int, h: int)
    requires
        dim > 0,
        0 <= g < h <= results.len(),
    ensures
        block_start(results, dim, g) <= block_start(results, dim, g + 1) <= block_start(
            results,
            dim,
            h,
        ),
{
    lemma_block_start_grows(results, dim, g, g + 1);
    lemma_block_start_grows(results, dim, g + 1, h);
}

/// The vectors of a smaller token id are assigned to smaller centroid numbers than those of a
/// larger one, where the k-means of every token type assigns to none but its own.
pub proof fn assigned_by_token_id(
    token_ids: Seq<usize>,
    groups: Seq<TokenGroup>,
    results: Seq<TokenClusters>,
    dim: int,
    assignments: Seq<u32>,
    a: int,
    b: int,
)
    requires
        dim > 0,
        token_ids.len() <= usize::MAX,
        is_grouping(token_ids, groups),
        can_merge(groups, results, dim),
        forall|g: int, j: int|
            0 <= g < groups.len() && 0 <= j < groups[g].indices@.len() ==> (
            #[trigger] results[g].assignments@[j]) < results[g].centroids@.len() as int / dim,
        forall|g: int, j: int|
            0 <= g < groups.len() && 0 <= j < groups[g].indices@.len() ==> #[trigger] is_assigned(
                assignments,
                groups,
                results,
                dim,
                g,
                j,
            ),
        0 <= a < token_ids.len(),
        0 <= b < token_ids.len(),
        token_ids[a] < token_ids[b],
    ensures
        assignments[a] < assignments[b],
{
    every_vector_is_grouped(token_ids, groups, a);
    every_vector_is_grouped(token_ids, groups, b);
    let (g, j) = choose|g: int, j: int|
        0 <= g < groups.len() && 0 <= j < groups[g].indices@.len() && (
        #[trigger] groups[g].indices@[j]) == a;
    let (h, k) = choose|h: int, k: int|
        0 <= h < groups.len() && 0 <= k < groups[h].indices@.len() && (
        #[trigger] groups[h].indices@[k]) == b;
    positions_are_ascending(token_ids, groups[g].token_id, token_ids.len() as int);
    positions_are_ascending(token_ids, groups[h].token_id, token_ids.len() as int);
    assert(groups[g].token_id == token_ids[a] && groups[h].token_id == token_ids[b]);
    assert(g < h) by {
        if h < g {
            assert(groups[h].token_id < groups[g].token_id);
        }
    }
    assert(is_assigned(assignments, groups, results, dim, g, j));
    assert(is_assigned(assignments, groups, results, dim, h, k));
    assert(results[g].assignments@[j] < results[g].centroids@.len() as int / dim);
    assert(results[h].assignments@[k] < results[h].centroids@.len() as int / dim);
    assigned_to_own_token(assignments, groups, results, dim, g, j);
    assigned_to_own_token(assignments, groups, results, dim, h, k);
    blocks_in_order(results, dim, g, h);
}

/// The blocks of the token types fill the centroids: together they are as many as there are.
pub proof fn blocks_fill_centroids(results: Seq<TokenClusters>, dim: int, g: int)
    requires
        dim > 0,
        0 <= g <= results.len(),
        forall|h: int|
            0 <= h < results.len() ==> (#[trigger] results[h]).centroids@.len() as int % dim == 0,
    ensures
        joined(results, g).len() == block_start(results, dim, g) * dim,
        joined(results, g).len() as int / dim == block_start(results, dim, g),
    decreases g,
{
    let start = block_start(results, dim, g);
    if g > 0 {
        blocks_fill_centroids(results, dim, g - 1);
        let len = results[g - 1].centroids@.len() as int;
        lemma_whole_rows(len, dim);
        let (b, q) = (block_start(results, dim, g - 1), len / dim);
        assert((b + q) * dim == b * dim + q * dim) by (nonlinear_arith);
    } else {
        assert(0 * dim == 0) by (nonlinear_arith);
    }
    assert(start * dim == dim * start) by (nonlinear_arith);
    vstd::arithmetic::div_mod::lemma_div_multiples_vanish(start, dim);
}

/// Centroid `c` of token type `g` is found in the result at the start of its block plus `c`.
pub proof fn block_holds_centroids(results: Seq<TokenClusters>, dim: int, g: int, c: int)
    requires
        dim > 0,
        0 <= g < results.len(),
        forall|h: int|
            0 <= h < results.len() ==> (#[trigger] results[h]).centroids@.len() as int % dim == 0,
        0 <= c < results[g].centroids@.len() as int / dim,
    ensures
        row(
            joined(results, results.len() as int),
            dim,
            block_start(results, dim, g) + c,
        ) == row(results[g].centroids@, dim, c),
{
    lemma_block_holds(results, dim, g, c, results.len() as int);
}

proof fn lemma_block_holds(results: Seq<TokenClusters>, dim: int, g: int, c: int, n: int)
    requires
        dim > 0,
        0 <= g < n <= results.len(),
        forall|h: int|
            0 <= h < results.len() ==> (#[trigger] results[h]).centroids@.len() as int % dim == 0,
        0 <= c < results[g].centroids@.len() as int / dim,
    ensures
        row(joined(results, n), dim, block_start(results, dim, g) + c) == row(
            results[g].centroids@,
            dim,
            c,
        ),
        0 <= (block_start(results, dim, g) + c) * dim,
        (block_start(results, dim, g) + c) * dim + dim <= joined(results, n).len(),
    decreases n,
{
    let start = block_start(results, dim, g);
    let all = joined(results, n);
    let front = joined(results, n - 1);
    if g == n - 1 {
        blocks_fill_centroids(results, dim, g);
        lemma_block_start_grows(results, dim, 0, g);
        let len = results[g].centroids@.len() as int;
        lemma_whole_rows(len, dim);
        lemma_row_bounds(dim, c, len / dim);
        assert((start + c) * dim == start * dim + c * dim) by (nonlinear_arith);
        assert(0 <= start * dim) by (nonlinear_arith)
            requires
                0 <= start,
                0 < dim,
        ;
        assert(row(all, dim, start + c) =~= row(results[g].centroids@, dim, c));
    } else {
        lemma_block_holds(results, dim, g, c, n - 1);
        assert(row(all, dim, start + c) =~= row(front, dim, start + c));
    }
}

/// A cap of `usize::MAX` never samples, and without a cap groups of at most a million vectors
/// are trained on whole.
pub proof fn training_on_all(n: usize, k: usize, n_iter: usize, min_pts: usize)
    ensures
        training_size(Some(usize::MAX), n as int, k as int, n_iter as int, min_pts as int) == n,
        n <= AUTO_THRESHOLD ==> training_size(
            None,
            n as int,
            k as int,
            n_iter as int,
            min_pts as int,
        ) == n,
{
}

/// Without a cap, a larger group is trained on at least a million of its vectors and at most ten
/// million.
pub proof fn large_groups_are_sampled(n: usize, k: usize, n_iter: usize, min_pts: usize)
    requires
        n > AUTO_THRESHOLD,
    ensures
        AUTO_THRESHOLD <= training_size(
            None,
            n as int,
            k as int,
            n_iter as int,
            min_pts as int,
        ) <= AUTO_MAX,
{
}

proof fn lemma_same_floors(
    a: Seq<TokenGroup>,
    b: Seq<TokenGroup>,
    params: TacAllocParams,
    n: int,
)
    requires
        n <= a.len() == b.len(),
        forall|g: int|
            0 <= g < a.len() ==> (#[trigger] a[g]).indices@ == (#[trigger] b[g]).indices@,
    ensures
        floor_budget(a, params, n) == floor_budget(b, params, n),
    decreases n,
{
    if n > 0 {
        lemma_same_floors(a, b, params, n - 1);
        assert(a[n - 1].indices@ == b[n - 1].indices@);
    }
}

/// The clustering goes by token type exactly if the budget, capped at the number of vectors,
/// covers the floors of all token types.
pub proof fn budget_decides(
    plan: TacPlan,
    token_ids: Seq<usize>,
    groups: Seq<TokenGroup>,
    total_centroids: int,
    params: TacAllocParams,
)
    requires
        token_ids.len() <= usize::MAX,
        is_grouping(token_ids, groups),
        is_plan(plan, token_ids, total_centroids, params),
    ensures
        plan is PerToken <==> floor_budget(groups, params, groups.len() as int) <= capped(
            total_centroids,
            token_ids.len() as int,
        ),
{
    let budget = capped(total_centroids, token_ids.len() as int);
    let other = choose|other: Seq<TokenGroup>| #[trigger]
        is_grouping(token_ids, other) && match plan {
            TacPlan::Global { n_centroids } => n_centroids == budget && budget < floor_budget(
                other,
                params,
                other.len() as int,
            ),
            TacPlan::PerToken { groups: chosen, n_centroids } => chosen@ == other && n_centroids
                == budget && floor_budget(other, params, other.len() as int) <= budget,
        };
    grouping_is_unique(token_ids, groups, other);
    lemma_same_floors(groups, other, params, groups.len() as int);
}

/// Every vector is assigned to a centroid that there is, where the k-means of every token type
/// gives whole centroids and assigns to none but its own.
pub proof fn assignments_are_centroids(
    token_ids: Seq<usize>,
    groups: Seq<TokenGroup>,
    results: Seq<TokenClusters>,
    dim: int,
    assignments: Seq<u32>,
    i: int,
)
    requires
        dim > 0,
        token_ids.len() <= usize::MAX,
        is_grouping(token_ids, groups),
        can_merge(groups, results, dim),
        forall|g: int|
            0 <= g < results.len() ==> (#[trigger] results[g]).centroids@.len() as int % dim == 0,
        forall|g: int, j: int|
            0 <= g < groups.len() && 0 <= j < groups[g].indices@.len() ==> (
            #[trigger] results[g].assignments@[j]) < results[g].centroids@.len() as int / dim,
        forall|g: int, j: int|
            0 <= g < groups.len() && 0 <= j < groups[g].indices@.len() ==> #[trigger] is_assigned(
                assignments,
                groups,
                results,
                dim,
                g,
                j,
            ),
        0 <= i < token_ids.len(),
    ensures
        assignments[i] < joined(results, results.len() as int).len() as int / dim,
{
    every_vector_is_grouped(token_ids, groups, i);
    let (g, j) = choose|g: int, j: int|
        0 <= g < groups.len() && 0 <= j < groups[g].indices@.len() && (
        #[trigger] groups[g].indices@[j]) == i;
    assert(is_assigned(assignments, groups, results, dim, g, j));
    assert(results[g].assignments@[j] < results[g].centroids@.len() as int / dim);
    assigned_to_own_token(assignments, groups, results, dim, g, j);
    lemma_block_start_grows(results, dim, g + 1, results.len() as int);
    blocks_fill_centroids(results, dim, results.len() as int);
}

/// The least budget is one centroid for every type below the first threshold, two for those from
/// there to the second, and the floor for those from the second on.
pub proof fn floors_go_by_size(groups: Seq<TokenGroup>, params: TacAllocParams, n: int)
    requires
        0 <= n <= groups.len(),
    ensures
        ({
            let micro = Set::new(
                |g: int| 0 <= g < n && groups[g].indices@.len() < params.micro_threshold,
            );
            let small = Set::new(
                |g: int|
                    0 <= g < n && params.micro_threshold <= groups[g].indices@.len()
                        < params.small_threshold,
            );
            let active = Set::new(
                |g: int| 0 <= g < n && groups[g].indices@.len() >= params.small_threshold,
            );
            &&& micro.finite() && small.finite() && active.finite()
            &&& floor_budget(groups, params, n) == micro.len() + 2 * small.len() + active.len()
                * params.hard_floor
        }),
    decreases n,
{
    let micro = Set::new(|g: int| 0 <= g < n && groups[g].indices@.len() < params.micro_threshold);
    let small = Set::new(
        |g: int|
            0 <= g < n && params.micro_threshold <= groups[g].indices@.len()
                < params.small_threshold,
    );
    let active = Set::new(
        |g: int| 0 <= g < n && groups[g].indices@.len() >= params.small_threshold,
    );
    let hf = params.hard_floor as int;
    if n == 0 {
        assert(micro =~= Set::empty() && small =~= Set::empty() && active =~= Set::empty());
        assert(0 * hf == 0) by (nonlinear_arith);
    } else {
        let m = n - 1;
        floors_go_by_size(groups, params, m);
        let micro0 = Set::new(
            |g: int| 0 <= g < m && groups[g].indices@.len() < params.micro_threshold,
        );
        let small0 = Set::new(
            |g: int|
                0 <= g < m && params.micro_threshold <= groups[g].indices@.len()
                    < params.small_threshold,
        );
        let active0 = Set::new(
            |g: int| 0 <= g < m && groups[g].indices@.len() >= params.small_threshold,
        );
        let size = groups[m].indices@.len() as int;
        assert(micro =~= if size < params.micro_threshold {
            micro0.insert(m)
        } else {
            micro0
        });
        assert(small =~= if params.micro_threshold <= size < params.small_threshold {
            small0.insert(m)
        } else {
            small0
        });
        assert(active =~= if size >= params.small_threshold {
            active0.insert(m)
        } else {
            active0
        });
        let a = active0.len() as int;
        assert((a + 1) * hf == a * hf + hf) by (nonlinear_arith);
    }
}

/// Whatever the plan, the budget is the one asked for, or the number of vectors where that is less;
/// a plan by token type has the groups of the token types, and is made exactly if the budget covers
/// their floors.
pub proof fn plans_use_the_budget(
    plan: TacPlan,
    token_ids: Seq<usize>,
    groups: Seq<TokenGroup>,
    total_centroids: int,
    params: TacAllocParams,
)
    requires
        token_ids.len() <= usize::MAX,
        is_grouping(token_ids, groups),
        is_plan(plan, token_ids, total_centroids, params),
    ensures
        match plan {
            TacPlan::Global { n_centroids } => n_centroids <= total_centroids && n_centroids
                <= token_ids.len() && (n_centroids == total_centroids || n_centroids
                == token_ids.len()) && n_centroids < floor_budget(
                groups,
                params,
                groups.len() as int,
            ),
            TacPlan::PerToken { groups: chosen, n_centroids } => n_centroids <= total_centroids
                && n_centroids <= token_ids.len() && (n_centroids == total_centroids || n_centroids
                == token_ids.len()) && n_centroids >= floor_budget(
                groups,
                params,
                groups.len() as int,
            ) && is_grouping(token_ids, chosen@),
        },
{
    let budget = capped(total_centroids, token_ids.len() as int);
    let other = choose|other: Seq<TokenGroup>| #[trigger]
        is_grouping(token_ids, other) && match plan {
            TacPlan::Global { n_centroids } => n_centroids == budget && budget < floor_budget(
                other,
                params,
                other.len() as int,
            ),
            TacPlan::PerToken { groups: chosen, n_centroids } => chosen@ == other && n_centroids
                == budget && floor_budget(other, params, other.len() as int) <= budget,
        };
    grouping_is_unique(token_ids, groups, other);
    lemma_same_floors(groups, other, params, groups.len() as int);
}

/// With a cap, a group is trained on as many vectors as the cap says, or on all it has.
pub proof fn capped_training(cap: usize, n: int, k: int, n_iter: int, min_pts: int)
    requires
        0 <= n,
    ensures
        ({
            let size = training_size(Some(cap), n, k, n_iter, min_pts);
            size <= cap && size <= n && (size == cap || size == n)
        }),
{
}

/// Without a cap, a group of more than a million vectors is trained on a million of them, twice the
/// least number for its centroids, or its part of two passes per iteration, whichever is most; but
/// on no more than ten million, nor than it has.
pub proof fn uncapped_training(n: int, k: int, n_iter: int, min_pts: int, part: int)
    requires
        n > 1_000_000,
        0 <= k,
        0 <= n_iter,
        0 <= min_pts,
        n_iter == 0 ==> part == n,
        n_iter > 0 ==> part * (2 * n_iter) <= n < (part + 1) * (2 * n_iter),
    ensures
        ({
            let size = training_size(None, n, k, n_iter, min_pts);
            &&& size <= n && size <= 10_000_000 && size >= 1_000_000
            &&& size >= 2 * min_pts * k || size == n || size == 10_000_000
            &&& size >= part || size == 10_000_000
            &&& size == 1_000_000 || size == 2 * min_pts * k || size == part || size == n || size
                == 10_000_000
            &&& size > 1_000_000 ==> size <= part || size <= 2 * min_pts * k
        }),
{
    if n_iter > 0 {
        let d = 2 * n_iter;
        let r = n - part * d;
        assert(n == part * d + r && 0 <= r < d) by (nonlinear_arith)
            requires
                part * d <= n < (part + 1) * d,
                r == n - part * d,
        ;
        vstd::arithmetic::div_mod::lemma_fundamental_div_mod_converse(n, d, part, r);
        assert(part <= n) by (nonlinear_arith)
            requires
                part * d <= n,
                d >= 2,
                n > 0,
        ;
    } else {
        assert(n / 1 == n);
    }
}

/// A group of no more than a million vectors is trained on whole, without a cap.
pub proof fn small_groups_train_whole(n: int, k: int, n_iter: int, min_pts: int)
    requires
        0 <= n <= 1_000_000,
    ensures
        training_size(None, n, k, n_iter, min_pts) == n,
{
}

/// A training sample has as many vectors as it should, from different places of the group.
pub proof fn training_vectors_are_of_the_group(
    full: Seq<u16>,
    dim: int,
    n: int,
    size: int,
    train: Seq<u16>,
)
    requires
        dim > 0,
        0 <= size,
        full.len() == n * dim,
        is_training_sample(full, dim, n, size, train),
    ensures
        train.len() == size * dim,
        exists|places: Seq<int>| #[trigger]
            places.no_duplicates() && places.len() == size && forall|j: int, d: int|
                0 <= j < size && 0 <= d < dim ==> 0 <= #[trigger] places[j] < n && #[trigger] train[j
                    * dim + d] == full[places[j] * dim + d],
{
    let places = choose|places: Seq<usize>|
        places.len() == size && places.no_duplicates() && in_rows(places, n) && train
            == #[trigger] gathered(full, dim, places);
    assert(n * dim == dim * n) by (nonlinear_arith);
    vstd::arithmetic::div_mod::lemma_div_multiples_vanish(n, dim);
    gathered_rows(full, dim, places);
    let at: Seq<int> = places.map_values(|p: usize| p as int);
    assert forall|i: int, j: int| 0 <= i < at.len() && 0 <= j < at.len() && i != j implies at[i]
        != at[j] by {
        assert(places[i] != places[j]);
    }
    assert forall|j: int, d: int| 0 <= j < size && 0 <= d < dim implies 0 <= #[trigger] at[j] < n
        && #[trigger] train[j * dim + d] == full[at[j] * dim + d] by {
        assert(places[j] < n);
        crate::rows::gathered_values(full, dim, places, j, d);
    }
    assert(at.no_duplicates());
}

/// In the merged result a vector is assigned to the very centroid that the k-means of its own token
/// type assigned it to.
pub proof fn merging_keeps_the_centroid(
    assignments: Seq<u32>,
    groups: Seq<TokenGroup>,
    results: Seq<TokenClusters>,
    dim: int,
    g: int,
    j: int,
    d: int,
)
    requires
        dim > 0,
        results.len() == groups.len(),
        is_assigned(assignments, groups, results, dim, g, j),
        0 <= g < groups.len(),
        0 <= j < groups[g].indices@.len(),
        forall|h: int|
            0 <= h < results.len() ==> (#[trigger] results[h]).centroids@.len() as int % dim == 0,
        results[g].assignments@[j] < results[g].centroids@.len() as int / dim,
        0 <= d < dim,
    ensures
        joined(results, results.len() as int)[assignments[groups[g].indices@[j] as int] * dim + d]
            == results[g].centroids@[results[g].assignments@[j] * dim + d],
{
    let c = results[g].assignments@[j] as int;
    block_holds_centroids(results, dim, g, c);
    lemma_block_holds(results, dim, g, c, results.len() as int);
    let all = joined(results, results.len() as int);
    let at = block_start(results, dim, g) + c;
    let len = results[g].centroids@.len() as int;
    lemma_row_bounds(dim, c, len / dim);
    lemma_whole_rows(len, dim);
    assert(row(all, dim, at)[d] == all[at * dim + d]);
    assert(row(results[g].centroids@, dim, c)[d] == results[g].centroids@[c * dim + d]);
}

/// The centroids of the token types stand one behind another, with nothing between them.
pub proof fn centroids_are_joined(results: Seq<TokenClusters>, g: int, i: int)
    requires
        0 <= g < results.len(),
        0 <= i < results[g].centroids@.len(),
    ensures
        ({
            let before = Seq::new(g as nat, |h: int| results[h].centroids@.len() as int).fold_left(
                0int,
                |s: int, l: int| s + l,
            );
            let all = Seq::new(
                results.len(),
                |h: int| results[h].centroids@.len() as int,
            ).fold_left(0int, |s: int, l: int| s + l);
            &&& joined(results, results.len() as int).len() == all
            &&& 0 <= before && before + i < all
            &&& joined(results, results.len() as int)[before + i] == results[g].centroids@[i]
        }),
{
    lemma_joined(results, g, i, results.len() as int);
}

proof fn lemma_joined_len(results: Seq<TokenClusters>, n: int)
    requires
        0 <= n <= results.len(),
    ensures
        joined(results, n).len() == Seq::new(
            n as nat,
            |h: int| results[h].centroids@.len() as int,
        ).fold_left(0int, |s: int, l: int| s + l),
    decreases n,
{
    reveal(Seq::fold_left);
    let lens = Seq::new(n as nat, |h: int| results[h].centroids@.len() as int);
    if n > 0 {
        lemma_joined_len(results, n - 1);
        assert(lens.drop_last() =~= Seq::new(
            (n - 1) as nat,
            |h: int| results[h].centroids@.len() as int,
        ));
    }
}

proof fn lemma_joined(results: Seq<TokenClusters>, g: int, i: int, n: int)
    requires
        0 <= g < n <= results.len(),
        0 <= i < results[g].centroids@.len(),
    ensures
        joined(results, g).len() + i < joined(results, n).len(),
        joined(results, n)[joined(results, g).len() + i] == results[g].centroids@[i],
        joined(results, n).len() == Seq::new(
            n as nat,
            |h: int| results[h].centroids@.len() as int,
        ).fold_left(0int, |s: int, l: int| s + l),
        joined(results, g).len() == Seq::new(
            g as nat,
            |h: int| results[h].centroids@.len() as int,
        ).fold_left(0int, |s: int, l: int| s + l),
    decreases n,
{
    lemma_joined_len(results, n);
    lemma_joined_len(results, g);
    if g < n - 1 {
        lemma_joined(results, g, i, n - 1);
    }
}

/// The settings where nothing else is said: ten iterations on samples without a cap; types below
/// 128 vectors have one centroid, those below 256 two, and the others at least four, one for no
/// fewer than 39 vectors.
pub proof fn standard_allocation()
    ensures
        ({
            let s = TacBuilder::standard();
            &&& s.n_iter == 10 && !s.verbose && s.max_sample_size is None
            &&& s.alloc_params.micro_threshold == 128 && s.alloc_params.small_threshold == 256
            &&& s.alloc_params.hard_floor == 4 && s.alloc_params.min_pts_per_centroid == 39
            &&& s.alloc_params == TacAllocParams::standard()
        }),
{
}

} // verus!
