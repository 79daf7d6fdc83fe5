//! Recommended clustering parameters, from how often the token types occur.
//!
//! The two exponents and the padded floor come from logarithms and a decimal factor, which are
//! floating-point work, and are handed in.
use crate::groups::{group_by_token, is_grouping, TokenGroup};
#[allow(unused_imports)]
use crate::groups::positions_of;
use crate::tac::TacAllocParams;
#[allow(unused_imports)]
use crate::tac::floor_budget;
use vstd::arithmetic::power2::pow2;
use vstd::prelude::*;

verus! {

/// Vectors per centroid below which more centroids are pointless, where nothing else is said.
pub const MIN_PTS_PER_CENTROID: usize = 39;

/// Centroids that a frequent token type gets at least, where nothing else is said.
pub const HARD_FLOOR: usize = 4;

/// How many token types are rare, occasional and frequent, and how many tokens the frequent
/// ones have.
#[derive(Debug, Clone, Copy, PartialEq, Eq, Structural)]
pub struct TokenCensus {
    pub n_micro: usize,
    pub n_small: usize,
    pub n_active: usize,
    pub active_tokens: usize,
}

/// The clustering parameters that were settled on.
#[derive(Debug, Clone, Copy, PartialEq, Eq, Structural)]
pub struct ResolvedTacParams {
    pub total_centroids: usize,
    pub micro_threshold: usize,
    pub small_threshold: usize,
    pub hard_floor: usize,
    pub min_pts_per_centroid: usize,
    /// More centroids than this are pointless.
    pub sat_cap: usize,
    /// The power of two that the number of tokens suggests.
    pub formula: usize,
    /// A budget was asked for that is past the cap.
    pub was_capped: bool,
}

/// Two to the power of `exp`.
pub fn power_of_two(exp: u32) -> (v: usize)
    requires
        pow2(exp as nat) <= usize::MAX,
    ensures
        v == pow2(exp as nat),
{
    let mut v: usize = 1;
    let mut i: u32 = 0;
    proof {
        vstd::arithmetic::power2::lemma2_to64();
    }
    while i < exp
        invariant
            i <= exp,
            pow2(exp as nat) <= usize::MAX,
            v == pow2(i as nat),
        decreases exp - i,
    {
        proof {
            vstd::arithmetic::power2::lemma_pow2_unfold((i + 1) as nat);
            if i + 1 < exp {
                vstd::arithmetic::power2::lemma_pow2_strictly_increases(
                    (i + 1) as nat,
                    exp as nat,
                );
            }
        }
        v = v * 2;
        i += 1;
    }
    v
}

/// The threshold below which a token type is rare: two to the power of `exp`, but at least 32 and
/// at most 128.
pub open spec fn auto_micro(exp: u32) -> usize {
    if exp <= 5 {
        32
    } else if exp == 6 {
        64
    } else {
        128
    }
}

/// The thresholds below which a token type is rare and occasional: those that are set, and
/// otherwise the automatic one and twice that.
pub fn thresholds(exp: u32, micro: Option<usize>, small: Option<usize>) -> (r: (usize, usize))
    ensures
        r.0 == (match micro {
            Some(v) => v,
            None => auto_micro(exp),
        }),
        r.1 == (match small {
            Some(v) => v,
            None => (2 * auto_micro(exp)) as usize,
        }),
{
    let auto: usize = if exp <= 5 {
        32
    } else if exp == 6 {
        64
    } else {
        128
    };
    let low: usize = match micro {
        Some(v) => v,
        None => auto,
    };
    let high: usize = match small {
        Some(v) => v,
        None => 2 * auto,
    };
    (low, high)
}

/// The census of the first `n` groups: rare, occasional and frequent types, and the tokens of the
/// frequent ones.
pub open spec fn census_of(groups: Seq<TokenGroup>, micro: int, small: int, n: int) -> (
    int,
    int,
    int,
    int,
)
    decreases n,
{
    if n <= 0 {
        (0, 0, 0, 0)
    } else {
        let before = census_of(groups, micro, small, n - 1);
        let size = groups[n - 1].indices@.len() as int;
        if size < micro {
            (before.0 + 1, before.1, before.2, before.3)
        } else if size < small {
            (before.0, before.1 + 1, before.2, before.3)
        } else {
            (before.0, before.1, before.2 + 1, before.3 + size)
        }
    }
}

/// The numbers of a census.
pub open spec fn numbers(c: TokenCensus) -> (int, int, int, int) {
    (c.n_micro as int, c.n_small as int, c.n_active as int, c.active_tokens as int)
}

/// The token ids as positions count them.
pub open spec fn widened(token_ids: Seq<u32>) -> Seq<usize> {
    token_ids.map_values(|id: u32| id as usize)
}

/// How many of the first `m` tokens have the type of one of the first `n` groups.
spec fn covered(token_ids: Seq<usize>, groups: Seq<TokenGroup>, n: int, m: int) -> int
    decreases n,
{
    if n <= 0 {
        0
    } else {
        covered(token_ids, groups, n - 1, m) + positions_of(
            token_ids,
            groups[n - 1].token_id,
            m,
        ).len()
    }
}

proof fn lemma_covered_step(token_ids: Seq<usize>, groups: Seq<TokenGroup>, n: int, m: int)
    requires
        0 <= n <= groups.len(),
        0 < m,
        forall|g: int, h: int|
            0 <= g < h < groups.len() ==> (#[trigger] groups[g]).token_id < (
            #[trigger] groups[h]).token_id,
    ensures
        covered(token_ids, groups, n, m) <= covered(token_ids, groups, n, m - 1) + 1,
        (forall|g: int| 0 <= g < n ==> (#[trigger] groups[g]).token_id != token_ids[m - 1])
            ==> covered(token_ids, groups, n, m) == covered(token_ids, groups, n, m - 1),
    decreases n,
{
    if n > 0 {
        lemma_covered_step(token_ids, groups, n - 1, m);
        if groups[n - 1].token_id == token_ids[m - 1] {
            assert forall|g: int| 0 <= g < n - 1 implies (#[trigger] groups[g]).token_id
                != token_ids[m - 1] by {
                assert(groups[g].token_id < groups[n - 1].token_id);
            }
        }
    }
}

/// The groups share the tokens among them: together they have no more than there are.
proof fn lemma_covered_bound(token_ids: Seq<usize>, groups: Seq<TokenGroup>, n: int, m: int)
    requires
        0 <= n <= groups.len(),
        0 <= m,
        forall|g: int, h: int|
            0 <= g < h < groups.len() ==> (#[trigger] groups[g]).token_id < (
            #[trigger] groups[h]).token_id,
    ensures
        covered(token_ids, groups, n, m) <= m,
    decreases m, n,
{
    if m > 0 {
        lemma_covered_bound(token_ids, groups, n, m - 1);
        lemma_covered_step(token_ids, groups, n, m);
    } else if n > 0 {
        lemma_covered_bound(token_ids, groups, n - 1, m);
    }
}

/// Counts the token types by how often they occur.
pub fn take_census(token_ids: &[u32], micro: usize, small: usize) -> (census: TokenCensus)
    ensures
        exists|groups: Seq<TokenGroup>| #[trigger]
            is_grouping(widened(token_ids@), groups) && numbers(census) == census_of(
                groups,
                micro as int,
                small as int,
                groups.len() as int,
            ),
{
    let ghost wanted = widened(token_ids@);
    let mut ids: Vec<usize> = Vec::with_capacity(token_ids.len());
    let mut i: usize = 0;
    while i < token_ids.len()
        invariant
            i <= token_ids@.len(),
            wanted == widened(token_ids@),
            ids@ == wanted.take(i as int),
        decreases token_ids@.len() - i,
    {
        ids.push(token_ids[i] as usize);
        i += 1;
        assert(ids@ =~= wanted.take(i as int));
    }
    assert(ids@ =~= wanted);
    assert(ids.len() == ids@.len());
    let groups: Vec<TokenGroup> = group_by_token(&ids);
    let mut census: TokenCensus = TokenCensus {
        n_micro: 0,
        n_small: 0,
        n_active: 0,
        active_tokens: 0,
    };
    let mut g: usize = 0;
    while g < groups.len()
        invariant
            g <= groups@.len(),
            ids@.len() <= usize::MAX,
            is_grouping(ids@, groups@),
            numbers(census) == census_of(groups@, micro as int, small as int, g as int),
            census.n_micro + census.n_small + census.n_active == g,
            census.active_tokens <= covered(ids@, groups@, g as int, ids@.len() as int),
        decreases groups@.len() - g,
    {
        let size: usize = groups[g].indices.len();
        proof {
            lemma_covered_bound(ids@, groups@, g + 1, ids@.len() as int);
        }
        if size < micro {
            census = TokenCensus { n_micro: census.n_micro + 1, ..census };
        } else if size < small {
            census = TokenCensus { n_small: census.n_small + 1, ..census };
        } else {
            census =
            TokenCensus {
                n_active: census.n_active + 1,
                active_tokens: census.active_tokens + size,
                ..census
            };
        }
        g += 1;
    }
    census
}

impl TokenCensus {
    /// The centroids that the token types need at least.
    pub open spec fn least(self, hard_floor: int) -> int {
        self.n_micro + 2 * self.n_small + self.n_active * hard_floor
    }

    /// The centroids that the token types can use at most.
    pub open spec fn most(self, min_pts: int) -> int {
        self.n_micro + 2 * self.n_small + self.active_tokens as int / min_pts
    }

    /// The budget that the token types need at least; `None` where it is past every number of
    /// centroids.
    pub fn minimum_budget(&self, hard_floor: usize) -> (budget: Option<usize>)
        ensures
            match budget {
                Some(b) => b == self.least(hard_floor as int),
                None => self.least(hard_floor as int) > usize::MAX,
            },
    {
        assert(self.n_active * hard_floor >= 0) by (nonlinear_arith);
        let active: usize = match self.n_active.checked_mul(hard_floor) {
            Some(v) => v,
            None => {
                return None;
            },
        };
        if self.n_small > usize::MAX / 2 {
            return None;
        }
        let small: usize = 2 * self.n_small;
        if small > usize::MAX - self.n_micro {
            return None;
        }
        let few: usize = self.n_micro + small;
        if active > usize::MAX - few {
            return None;
        }
        Some(few + active)
    }
}

/// The budget: the one that is asked for, but no more than `sat_cap`; otherwise what the number
/// of tokens suggests, but no less than the floor, which is itself no more than `sat_cap`.
pub open spec fn settled_budget(
    asked: Option<usize>,
    formula: usize,
    padded_floor: usize,
    sat_cap: int,
) -> int {
    match asked {
        Some(budget) => if budget > sat_cap {
            sat_cap
        } else {
            budget as int
        },
        None => {
            let floor = if padded_floor < sat_cap {
                padded_floor as int
            } else {
                sat_cap
            };
            if formula < floor {
                floor
            } else {
                formula as int
            }
        },
    }
}

/// Settles the clustering parameters. What is set stands; the rest follows from the census, from
/// the suggested power of two, `formula`, and from the least budget with some room to spare,
/// `padded_floor`.
pub fn resolve_tac_params(
    census: TokenCensus,
    thresholds: (usize, usize),
    total_centroids: Option<usize>,
    hard_floor: Option<usize>,
    min_pts_per_centroid: Option<usize>,
    formula: usize,
    padded_floor: usize,
) -> (r: ResolvedTacParams)
    requires
        min_pts_per_centroid != Some(0usize),
        census.n_micro + 2 * census.n_small + census.active_tokens <= usize::MAX,
    ensures
        r.micro_threshold == thresholds.0,
        r.small_threshold == thresholds.1,
        r.hard_floor == (match hard_floor {
            Some(v) => v,
            None => HARD_FLOOR,
        }),
        r.min_pts_per_centroid == (match min_pts_per_centroid {
            Some(v) => v,
            None => MIN_PTS_PER_CENTROID,
        }),
        r.sat_cap == census.most(r.min_pts_per_centroid as int),
        r.formula == formula,
        r.was_capped <==> (total_centroids matches Some(asked) && asked > r.sat_cap),
        r.total_centroids == settled_budget(
            total_centroids,
            formula,
            padded_floor,
            r.sat_cap as int,
        ),
{
    let least_points: usize = match min_pts_per_centroid {
        Some(v) => v,
        None => MIN_PTS_PER_CENTROID,
    };
    let floor_each: usize = match hard_floor {
        Some(v) => v,
        None => HARD_FLOOR,
    };
    proof {
        let (a, p) = (census.active_tokens as int, least_points as int);
        assert(0 <= a / p <= a) by (nonlinear_arith)
            requires
                0 <= a,
                0 < p,
        ;
    }
    let sat_cap: usize = census.n_micro + 2 * census.n_small + census.active_tokens / least_points;
    let floor: usize = if padded_floor < sat_cap {
        padded_floor
    } else {
        sat_cap
    };
    let (budget, was_capped): (usize, bool) = match total_centroids {
        Some(asked) => if asked > sat_cap {
            (sat_cap, true)
        } else {
            (asked, false)
        },
        None => if formula < floor {
            (floor, false)
        } else {
            (formula, false)
        },
    };
    ResolvedTacParams {
        total_centroids: budget,
        micro_threshold: thresholds.0,
        small_threshold: thresholds.1,
        hard_floor: floor_each,
        min_pts_per_centroid: least_points,
        sat_cap,
        formula,
        was_capped,
    }
}

/// The census and the clustering count the same floors, where the thresholds are in order.
pub proof fn census_counts_floors(
    groups: Seq<TokenGroup>,
    params: TacAllocParams,
    census: TokenCensus,
    n: int,
)
    requires
        params.micro_threshold <= params.small_threshold,
        0 <= n <= groups.len(),
        numbers(census) == census_of(
            groups,
            params.micro_threshold as int,
            params.small_threshold as int,
            n,
        ),
    ensures
        census.least(params.hard_floor as int) == floor_budget(groups, params, n),
{
    lemma_census_floors(groups, params, n);
}

proof fn lemma_census_floors(groups: Seq<TokenGroup>, params: TacAllocParams, n: int)
    requires
        params.micro_threshold <= params.small_threshold,
        0 <= n <= groups.len(),
    ensures
        ({
            let c = census_of(
                groups,
                params.micro_threshold as int,
                params.small_threshold as int,
                n,
            );
            c.0 + 2 * c.1 + c.2 * params.hard_floor == floor_budget(groups, params, n)
        }),
    decreases n,
{
    let hf = params.hard_floor as int;
    if n > 0 {
        lemma_census_floors(groups, params, n - 1);
        let c = census_of(
            groups,
            params.micro_threshold as int,
            params.small_threshold as int,
            n - 1,
        );
        let x = c.2;
        assert((x + 1) * hf == x * hf + hf) by (nonlinear_arith);
    } else {
        assert(0 * hf == 0) by (nonlinear_arith);
    }
}

/// A budget that was not asked for is enough to cluster by token type: it covers the floors of
/// all token types, where the padded floor and the cap do.
pub proof fn automatic_budget_is_enough(
    census: TokenCensus,
    hard_floor: int,
    formula: usize,
    padded_floor: usize,
    sat_cap: int,
)
    requires
        census.least(hard_floor) <= padded_floor,
        census.least(hard_floor) <= sat_cap,
    ensures
        settled_budget(None, formula, padded_floor, sat_cap) >= census.least(hard_floor),
{
}

/// A budget that is asked for is the budget, unless it is past the cap, which then is.
pub proof fn asked_budget_stands(asked: usize, formula: usize, padded_floor: usize, sat_cap: int)
    ensures
        asked <= sat_cap ==> settled_budget(Some(asked), formula, padded_floor, sat_cap) == asked,
        asked > sat_cap ==> settled_budget(Some(asked), formula, padded_floor, sat_cap) == sat_cap,
{
}

/// A budget that is not asked for is the suggested one or, where that is larger, the floor, or the
/// cap where the floor is past it.
pub proof fn automatic_budget_is_suggested(formula: usize, padded_floor: usize, sat_cap: int)
    ensures
        ({
            let budget = settled_budget(None, formula, padded_floor, sat_cap);
            &&& budget >= formula
            &&& budget >= padded_floor || budget >= sat_cap
            &&& budget == formula || (budget <= padded_floor && budget <= sat_cap)
        }),
{
}

/// The automatic threshold is the power of two, moved up to 32 or down to 128 where it is outside.
pub proof fn automatic_threshold_is_clamped(exp: u32)
    ensures
        32 <= auto_micro(exp) <= 128,
        32 <= pow2(exp as nat) <= 128 ==> auto_micro(exp) == pow2(exp as nat),
        pow2(exp as nat) < 32 ==> auto_micro(exp) == 32,
        pow2(exp as nat) > 128 ==> auto_micro(exp) == 128,
{
    vstd::arithmetic::power2::lemma2_to64();
    if exp < 5 {
        vstd::arithmetic::power2::lemma_pow2_strictly_increases(exp as nat, 5);
    } else if exp > 7 {
        vstd::arithmetic::power2::lemma_pow2_strictly_increases(7, exp as nat);
    }
}

/// The census, type by type: rare are those with fewer tokens than the first threshold, occasional
/// the others with fewer than the second, frequent the rest; every type is one of these.
pub proof fn census_counts_types(groups: Seq<TokenGroup>, micro: int, small: int, n: int)
    requires
        0 <= n <= groups.len(),
    ensures
        ({
            let c = census_of(groups, micro, small, n);
            let rare = Set::new(|g: int| 0 <= g < n && groups[g].indices@.len() < micro);
            let occasional = Set::new(
                |g: int| 0 <= g < n && micro <= groups[g].indices@.len() < small,
            );
            let frequent = Set::new(
                |g: int|
                    0 <= g < n && micro <= groups[g].indices@.len() && small
                        <= groups[g].indices@.len(),
            );
            &&& rare.finite() && occasional.finite() && frequent.finite()
            &&& c.0 == rare.len()
            &&& c.1 == occasional.len()
            &&& c.2 == frequent.len()
            &&& c.3 == Seq::new(
                n as nat,
                |g: int|
                    if frequent.contains(g) {
                        groups[g].indices@.len() as int
                    } else {
                        0
                    },
            ).fold_left(0int, |sum: int, c: int| sum + c)
        }),
    decreases n,
{
    let rare = Set::new(|g: int| 0 <= g < n && groups[g].indices@.len() < micro);
    let occasional = Set::new(|g: int| 0 <= g < n && micro <= groups[g].indices@.len() < small);
    let frequent = Set::new(
        |g: int| 0 <= g < n && micro <= groups[g].indices@.len() && small <= groups[g].indices@.len(),
    );
    let sizes = Seq::new(
        n as nat,
        |g: int|
            if frequent.contains(g) {
                groups[g].indices@.len() as int
            } else {
                0
            },
    );
    reveal(Seq::fold_left);
    if n == 0 {
        assert(rare =~= Set::empty() && occasional =~= Set::empty() && frequent =~= Set::empty());
    } else {
        census_counts_types(groups, micro, small, n - 1);
        let m = n - 1;
        let rare0 = Set::new(|g: int| 0 <= g < m && groups[g].indices@.len() < micro);
        let occasional0 = Set::new(
            |g: int| 0 <= g < m && micro <= groups[g].indices@.len() < small,
        );
        let frequent0 = Set::new(
            |g: int|
                0 <= g < m && micro <= groups[g].indices@.len() && small <= groups[g].indices@.len(),
        );
        let size = groups[m].indices@.len() as int;
        assert(rare =~= if size < micro {
            rare0.insert(m)
        } else {
            rare0
        });
        assert(occasional =~= if micro <= size < small {
            occasional0.insert(m)
        } else {
            occasional0
        });
        assert(frequent =~= if micro <= size && small <= size {
            frequent0.insert(m)
        } else {
            frequent0
        });
        let sizes0 = Seq::new(
            m as nat,
            |g: int|
                if frequent0.contains(g) {
                    groups[g].indices@.len() as int
                } else {
                    0
                },
        );
        assert(sizes.drop_last() =~= sizes0);
    }
}

/// What the token types need and can use: one centroid for a rare type, two for an occasional one;
/// for the frequent ones at least the floor each, and at most one per so many of their tokens.
pub proof fn census_bounds_the_budget(census: TokenCensus, hard_floor: int, min_pts: int)
    requires
        min_pts > 0,
    ensures
        census.least(hard_floor) - census.n_micro - census.n_small - census.n_small
            == census.n_active * hard_floor,
        ({
            let rest = census.most(min_pts) - census.n_micro - census.n_small - census.n_small;
            rest * min_pts <= census.active_tokens < (rest + 1) * min_pts
        }),
{
    let a = census.active_tokens as int;
    vstd::arithmetic::div_mod::lemma_fundamental_div_mod(a, min_pts);
    let q = a / min_pts;
    assert(q * min_pts <= a < (q + 1) * min_pts) by (nonlinear_arith)
        requires
            a == min_pts * q + a % min_pts,
            0 <= a % min_pts < min_pts,
    ;
}

/// A token id keeps its number.
pub proof fn widened_ids_are_the_same(token_ids: Seq<u32>, i: int)
    requires
        0 <= i < token_ids.len(),
    ensures
        widened(token_ids).len() == token_ids.len(),
        widened(token_ids)[i] == token_ids[i],
{
}

} // verus!
