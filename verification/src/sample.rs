//! The tokens that residual quantisation is trained on.
//!
//! Where not all are taken, each token type contributes in proportion to a score. The scores and
//! the shares that follow from them are floating-point work and are handed in, as whole parts and
//! as the bit patterns of what is left of them; rounding so that the total comes out exactly, the
//! draw and the collection are here.
use crate::groups::{group_by_token, group_sizes, is_grouping, TokenGroup};
#[allow(unused_imports)]
use crate::groups::{group_sizes_add_up, groups_are_apart, positions_are_ascending};
use crate::order::{comes_before, sort_positions, stable_order};
#[allow(unused_imports)]
use crate::order::{is_stable_order, lemma_stable_order_covers, lemma_stable_order_exists};
use crate::random::{seeded, shuffle};
#[allow(unused_imports)]
use crate::rows::{every_row, lemma_total_grows, lemma_total_update};
use crate::rows::{gather_rows, gathered, in_rows, total};
use rand::rngs::StdRng;
use vstd::prelude::*;

verus! {

/// The keys that sort the largest remainder first. The remainders are bit patterns of numbers
/// that are not negative, which order as the numbers do.
pub open spec fn remainder_keys(remainders: Seq<u64>) -> Seq<u64> {
    Seq::new(remainders.len(), |i: int| (u64::MAX - remainders[i]) as u64)
}

/// The whole share of each token type, cut to what it has. A type with a single token has none.
pub open spec fn own_shares(floors: Seq<usize>, sizes: Seq<usize>) -> Seq<usize> {
    Seq::new(
        floors.len(),
        |i: int|
            if sizes[i] <= 1 {
                0
            } else if floors[i] <= sizes[i] {
                floors[i]
            } else {
                sizes[i]
            },
    )
}

/// The least of what each token type contributes: its whole share, as long as these are no more
/// than `wanted` together; the one that passes it is cut, and those behind it have none.
pub open spec fn least_shares(floors: Seq<usize>, sizes: Seq<usize>, wanted: int) -> Seq<usize> {
    let own = own_shares(floors, sizes);
    Seq::new(
        floors.len(),
        |i: int|
            if total(own, i) + own[i] <= wanted {
                own[i]
            } else if total(own, i) < wanted {
                (wanted - total(own, i)) as usize
            } else {
                0
            },
    )
}

/// Type `i`, if it gives more than its least share, does so no sooner than type `j`, which still
/// has a token to give, is due: a single token is taken only when the types with more of them have
/// run out; and else the types give one more each in turn, the largest remainder first.
pub open spec fn in_turn(
    keys: Seq<u64>,
    sizes: Seq<usize>,
    least: Seq<usize>,
    counts: Seq<usize>,
    i: int,
    j: int,
) -> bool {
    least[i] < counts[i] && counts[j] < sizes[j] ==> {
        &&& sizes[i] <= 1 ==> sizes[j] <= 1
        &&& (sizes[i] <= 1 <==> sizes[j] <= 1) ==> counts[i] - least[i] <= counts[j] - least[j] + (
        if comes_before(keys, i, j) {
            1int
        } else {
            0int
        })
    }
}

/// How many tokens each token type contributes to a sample of `wanted`: no more than it has, at
/// least its whole share as far as these fit, and the rest in turn, so that the total is exact.
pub open spec fn is_reconciled(
    floors: Seq<usize>,
    sizes: Seq<usize>,
    remainders: Seq<u64>,
    wanted: int,
    counts: Seq<usize>,
) -> bool {
    let least = least_shares(floors, sizes, wanted);
    &&& counts.len() == floors.len()
    &&& forall|i: int| 0 <= i < counts.len() ==> least[i] <= #[trigger] counts[i] <= sizes[i]
    &&& total(counts, counts.len() as int) == wanted
    &&& forall|i: int, j: int|
        0 <= i < counts.len() && 0 <= j < counts.len() ==> #[trigger] in_turn(
            remainder_keys(remainders),
            sizes,
            least,
            counts,
            i,
            j,
        )
}

proof fn lemma_least_shares(floors: Seq<usize>, sizes: Seq<usize>, wanted: int, n: int)
    requires
        sizes.len() == floors.len(),
        0 <= n <= floors.len(),
        0 <= wanted <= usize::MAX,
    ensures
        ({
            let own = own_shares(floors, sizes);
            let have = total(least_shares(floors, sizes, wanted), n);
            have == if total(own, n) <= wanted {
                total(own, n)
            } else {
                wanted
            }
        }),
    decreases n,
{
    if n > 0 {
        lemma_least_shares(floors, sizes, wanted, n - 1);
        lemma_total_grows(own_shares(floors, sizes), 0, n - 1);
    }
}

/// The least shares, and how many tokens are missing to `wanted` then.
fn cut_shares(floors: &[usize], sizes: &[usize], wanted: usize) -> (r: (Vec<usize>, usize))
    requires
        sizes@.len() == floors@.len(),
    ensures
        r.0@ == least_shares(floors@, sizes@, wanted as int),
        r.1 == wanted - total(r.0@, floors@.len() as int),
{
    let ghost own = own_shares(floors@, sizes@);
    let ghost least = least_shares(floors@, sizes@, wanted as int);
    let mut shares: Vec<usize> = Vec::with_capacity(floors.len());
    let mut left: usize = wanted;
    let mut i: usize = 0;
    while i < floors.len()
        invariant
            i <= floors@.len() == sizes@.len(),
            own == own_shares(floors@, sizes@),
            least == least_shares(floors@, sizes@, wanted as int),
            shares@ == least.take(i as int),
            left == wanted - total(least, i as int),
        decreases floors@.len() - i,
    {
        proof {
            lemma_least_shares(floors@, sizes@, wanted as int, i as int);
            lemma_total_grows(own, 0, i as int);
        }
        let most: usize = if sizes[i] <= 1 {
            0
        } else if floors[i] <= sizes[i] {
            floors[i]
        } else {
            sizes[i]
        };
        let share: usize = if most <= left {
            most
        } else {
            left
        };
        assert(share == least[i as int]);
        shares.push(share);
        left -= share;
        i += 1;
        assert(shares@ =~= least.take(i as int));
    }
    assert(shares@ =~= least);
    (shares, left)
}

/// The positions of those types, in the given order, that have a token to give beyond `counts`:
/// of the types with a single token, or of the others.
fn with_room(
    keys: &[u64],
    order: &[usize],
    counts: &[usize],
    sizes: &[usize],
    single: bool,
) -> (open: Vec<usize>)
    requires
        is_stable_order(keys@, order@),
        keys@.len() == counts@.len() == sizes@.len(),
    ensures
        forall|a: int|
            0 <= a < open@.len() ==> (#[trigger] open@[a]) < sizes@.len() && counts@[open@[a] as int]
                < sizes@[open@[a] as int] && (sizes@[open@[a] as int] <= 1 <==> single),
        forall|a: int, b: int|
            0 <= a < b < open@.len() ==> comes_before(
                keys@,
                #[trigger] open@[a] as int,
                #[trigger] open@[b] as int,
            ),
        forall|i: int|
            0 <= i < sizes@.len() && #[trigger] counts@[i] < sizes@[i] && (sizes@[i] <= 1
                <==> single) ==> open@.contains(i as usize),
{
    assert(keys.len() == keys@.len());
    let mut open: Vec<usize> = Vec::new();
    let mut t: usize = 0;
    while t < order.len()
        invariant
            t <= order@.len(),
            is_stable_order(keys@, order@),
            keys@.len() == counts@.len() == sizes@.len(),
            forall|a: int|
                0 <= a < open@.len() ==> (#[trigger] open@[a]) < sizes@.len()
                    && counts@[open@[a] as int] < sizes@[open@[a] as int] && (
                sizes@[open@[a] as int] <= 1 <==> single),
            forall|a: int, b: int|
                0 <= a < b < open@.len() ==> comes_before(
                    keys@,
                    #[trigger] open@[a] as int,
                    #[trigger] open@[b] as int,
                ),
            forall|a: int, s: int|
                0 <= a < open@.len() && t <= s < order@.len() ==> comes_before(
                    keys@,
                    #[trigger] open@[a] as int,
                    #[trigger] order@[s] as int,
                ),
            forall|s: int|
                0 <= s < t && counts@[#[trigger] order@[s] as int] < sizes@[order@[s] as int] && (
                sizes@[order@[s] as int] <= 1 <==> single) ==> open@.contains(order@[s]),
        decreases order@.len() - t,
    {
        let slot: usize = order[t];
        let ghost before = open@;
        if counts[slot] < sizes[slot] && (sizes[slot] <= 1) == single {
            open.push(slot);
            assert(open@[before.len() as int] == slot);
        }
        proof {
            assert forall|s: int|
                0 <= s < t + 1 && counts@[#[trigger] order@[s] as int] < sizes@[order@[s] as int]
                    && (sizes@[order@[s] as int] <= 1 <==> single) implies open@.contains(
                order@[s],
            ) by {
                if s < t {
                    let a = choose|a: int| 0 <= a < before.len() && before[a] == order@[s];
                    assert(open@[a] == order@[s]);
                }
            }
        }
        t += 1;
    }
    proof {
        assert forall|i: int|
            0 <= i < sizes@.len() && #[trigger] counts@[i] < sizes@[i] && (sizes@[i] <= 1
                <==> single) implies open@.contains(i as usize) by {
            lemma_stable_order_covers(keys@, order@, i as usize);
            let s = choose|s: int| 0 <= s < order@.len() && order@[s] == i as usize;
            assert(order@[s] as int == i);
        }
    }
    open
}

/// The positions in `open` are positions of the counts, all different.
spec fn are_slots(open: Seq<usize>, n: int) -> bool {
    &&& forall|a: int| 0 <= a < open.len() ==> (#[trigger] open[a]) < n
    &&& open.no_duplicates()
}

/// Some tokens were dealt out to the types in `open`, one each in turn, as far as these have any,
/// and no others changed.
spec fn is_dealt(
    open: Seq<usize>,
    sizes: Seq<usize>,
    before: Seq<usize>,
    after: Seq<usize>,
) -> bool {
    &&& after.len() == before.len()
    &&& forall|i: int| 0 <= i < before.len() ==> before[i] <= #[trigger] after[i]
    &&& forall|i: int|
        0 <= i < before.len() && !open.contains(i as usize) ==> #[trigger] after[i] == before[i]
    &&& forall|a: int|
        0 <= a < open.len() ==> after[(#[trigger] open[a]) as int] <= sizes[open[a] as int]
    &&& forall|a: int, b: int|
        0 <= a < open.len() && 0 <= b < open.len() && after[(#[trigger] open[b]) as int]
            < sizes[open[b] as int] ==> after[(#[trigger] open[a]) as int] - before[open[a] as int]
            <= after[open[b] as int] - before[open[b] as int] + (if a < b {
            1int
        } else {
            0int
        })
}

/// Deals out up to `left` tokens to the types in `open`, and says how many are left over.
fn deal(counts: &mut Vec<usize>, sizes: &[usize], open: &[usize], left: usize) -> (rest: usize)
    requires
        old(counts)@.len() == sizes@.len(),
        are_slots(open@, sizes@.len() as int),
        forall|a: int|
            0 <= a < open@.len() ==> old(counts)@[(#[trigger] open@[a]) as int]
                < sizes@[open@[a] as int],
    ensures
        is_dealt(open@, sizes@, old(counts)@, final(counts)@),
        rest <= left,
        total(final(counts)@, sizes@.len() as int) + rest == total(
            old(counts)@,
            sizes@.len() as int,
        ) + left,
        rest > 0 ==> forall|a: int|
            0 <= a < open@.len() ==> final(counts)@[(#[trigger] open@[a]) as int]
                == sizes@[open@[a] as int],
        left == 0 ==> final(counts)@ == old(counts)@,
{
    let ghost n = sizes@.len() as int;
    let ghost first = counts@;
    assert(open.len() == open@.len());
    // Places in `open` of the types that still have a token to give.
    let mut turn: Vec<usize> = Vec::with_capacity(open.len());
    let mut a: usize = 0;
    while a < open.len()
        invariant
            a <= open@.len(),
            turn@.len() == a,
            forall|c: int| 0 <= c < a ==> #[trigger] turn@[c] == c,
        decreases open@.len() - a,
    {
        turn.push(a);
        a += 1;
    }
    let mut rest: usize = left;
    let ghost mut rounds: int = 0;
    proof {
        assert forall|b: int| 0 <= b < open@.len() && !turn@.contains(b as usize) implies counts@[(
        #[trigger] open@[b]) as int] == sizes@[open@[b] as int] by {
            assert(turn@[b] == b as usize);
        }
    }
    while rest > 0 && turn.len() > 0
        invariant
            n == sizes@.len(),
            first == old(counts)@,
            counts@.len() == first.len() == n,
            are_slots(open@, n),
            open@.len() <= usize::MAX,
            rounds >= 0,
            rest <= left,
            left == 0 ==> counts@ == first,
            total(counts@, n) + rest == total(first, n) + left,
            forall|i: int| 0 <= i < n ==> first[i] <= #[trigger] counts@[i],
            forall|i: int|
                0 <= i < n && !open@.contains(i as usize) ==> #[trigger] counts@[i] == first[i],
            forall|c: int, d: int|
                0 <= c < d < turn@.len() ==> (#[trigger] turn@[c]) < (#[trigger] turn@[d]),
            forall|c: int|
                0 <= c < turn@.len() ==> (#[trigger] turn@[c]) < open@.len()
                    && counts@[open@[turn@[c] as int] as int] == first[open@[turn@[c] as int] as int]
                    + rounds && counts@[open@[turn@[c] as int] as int]
                    < sizes@[open@[turn@[c] as int] as int],
            forall|b: int|
                0 <= b < open@.len() && !turn@.contains(b as usize) ==> counts@[(
                #[trigger] open@[b]) as int] == sizes@[open@[b] as int],
            forall|b: int|
                0 <= b < open@.len() ==> counts@[(#[trigger] open@[b]) as int]
                    <= first[open@[b] as int] + rounds,
        decreases rest,
    {
        let ghost whole = rest;
        let mut next: Vec<usize> = Vec::new();
        let mut c: usize = 0;
        while c < turn.len() && rest > 0
            invariant
                c <= turn@.len(),
                c > 0 || (rest > 0 && turn@.len() > 0),
                n == sizes@.len(),
                counts@.len() == first.len() == n,
                are_slots(open@, n),
                open@.len() <= usize::MAX,
                rounds >= 0,
                left > 0,
                rest <= whole <= left,
                c > 0 ==> rest < whole,
                total(counts@, n) + rest == total(first, n) + left,
                forall|i: int| 0 <= i < n ==> first[i] <= #[trigger] counts@[i],
                forall|i: int|
                    0 <= i < n && !open@.contains(i as usize) ==> #[trigger] counts@[i] == first[i],
                forall|d: int, e: int|
                    0 <= d < e < turn@.len() ==> (#[trigger] turn@[d]) < (#[trigger] turn@[e]),
                forall|d: int| 0 <= d < turn@.len() ==> (#[trigger] turn@[d]) < open@.len(),
                forall|d: int|
                    0 <= d < c ==> counts@[open@[(#[trigger] turn@[d]) as int] as int]
                        == first[open@[turn@[d] as int] as int] + rounds + 1
                        && counts@[open@[turn@[d] as int] as int]
                        <= sizes@[open@[turn@[d] as int] as int],
                forall|d: int|
                    c <= d < turn@.len() ==> counts@[open@[(#[trigger] turn@[d]) as int] as int]
                        == first[open@[turn@[d] as int] as int] + rounds
                        && counts@[open@[turn@[d] as int] as int]
                        < sizes@[open@[turn@[d] as int] as int],
                forall|b: int|
                    0 <= b < open@.len() && !turn@.contains(b as usize) ==> counts@[(
                    #[trigger] open@[b]) as int] == sizes@[open@[b] as int] && counts@[open@[b] as int]
                        <= first[open@[b] as int] + rounds,
                forall|e: int, f: int|
                    0 <= e < f < next@.len() ==> (#[trigger] next@[e]) < (#[trigger] next@[f]),
                forall|e: int|
                    0 <= e < next@.len() ==> exists|d: int|
                        0 <= d < c && #[trigger] turn@[d] == #[trigger] next@[e],
                forall|e: int|
                    0 <= e < next@.len() ==> counts@[open@[(#[trigger] next@[e]) as int] as int]
                        < sizes@[open@[next@[e] as int] as int],
                forall|d: int|
                    0 <= d < c && counts@[open@[(#[trigger] turn@[d]) as int] as int]
                        < sizes@[open@[turn@[d] as int] as int] ==> next@.contains(turn@[d]),
            decreases turn@.len() - c,
        {
            let place: usize = turn[c];
            let slot: usize = open[place];
            let ghost now = counts@;
            let ghost kept = next@;
            let more: usize = counts[slot] + 1;
            counts.set(slot, more);
            rest -= 1;
            proof {
                lemma_total_update(now, slot as int, more, n);
                assert(open@.contains(slot));
                assert forall|b: int| 0 <= b < open@.len() && b != place implies open@[b]
                    != slot by {}
            }
            if more < sizes[slot] {
                next.push(place);
                assert(next@[kept.len() as int] == place);
            }
            proof {
                assert forall|e: int| 0 <= e < next@.len() implies exists|d: int|
                    0 <= d < c + 1 && #[trigger] turn@[d] == #[trigger] next@[e] by {
                    if e < kept.len() {
                        assert(kept[e] == next@[e]);
                        let d = choose|d: int| 0 <= d < c && #[trigger] turn@[d] == kept[e];
                        assert(turn@[d] == next@[e]);
                    } else {
                        assert(turn@[c as int] == next@[e]);
                    }
                }
                assert forall|e: int, f: int| 0 <= e < f < next@.len() implies (
                #[trigger] next@[e]) < (#[trigger] next@[f]) by {
                    assert(kept[e] == next@[e]);
                    if f == kept.len() {
                        let d = choose|d: int| 0 <= d < c && #[trigger] turn@[d] == kept[e];
                        assert(turn@[d] < turn@[c as int]);
                    } else {
                        assert(kept[f] == next@[f]);
                    }
                }
                assert forall|e: int| 0 <= e < next@.len() implies counts@[open@[(
                #[trigger] next@[e]) as int] as int] < sizes@[open@[next@[e] as int] as int] by {
                    if e < kept.len() {
                        assert(kept[e] == next@[e]);
                        let d = choose|d: int| 0 <= d < c && #[trigger] turn@[d] == kept[e];
                        assert(turn@[d] < turn@[c as int]);
                    }
                }
                assert forall|d: int|
                    0 <= d < c + 1 && counts@[open@[(#[trigger] turn@[d]) as int] as int]
                        < sizes@[open@[turn@[d] as int] as int] implies next@.contains(turn@[d]) by {
                    if d < c {
                        assert(turn@[d] < turn@[c as int]);
                        let e = choose|e: int| 0 <= e < kept.len() && kept[e] == turn@[d];
                        assert(next@[e] == turn@[d]);
                    }
                }
                assert forall|d: int| 0 <= d < turn@.len() && d != c implies turn@[d] != place by {
                    if d < c {
                        assert(turn@[d] < turn@[c as int]);
                    } else {
                        assert(turn@[c as int] < turn@[d]);
                    }
                }
                assert forall|b: int|
                    0 <= b < open@.len() && !turn@.contains(b as usize) implies counts@[(
                #[trigger] open@[b]) as int] == sizes@[open@[b] as int] && counts@[open@[b] as int]
                    <= first[open@[b] as int] + rounds by {
                    assert(turn@.contains(place)) by {
                        assert(turn@[c as int] == place);
                    }
                    assert(b != place);
                }
            }
            c += 1;
        }
        if c < turn.len() {
            proof {
                assert forall|x: int, y: int|
                    0 <= x < open@.len() && 0 <= y < open@.len() && counts@[(
                    #[trigger] open@[y]) as int] < sizes@[open@[y] as int] implies counts@[(
                #[trigger] open@[x]) as int] - first[open@[x] as int] <= counts@[open@[y] as int]
                    - first[open@[y] as int] + (if x < y {
                    1int
                } else {
                    0int
                }) by {
                    assert(turn@.contains(y as usize));
                    let f = choose|f: int| 0 <= f < turn@.len() && turn@[f] == y as usize;
                    assert(turn@[f] as int == y);
                    if turn@.contains(x as usize) {
                        let e = choose|e: int| 0 <= e < turn@.len() && turn@[e] == x as usize;
                        assert(turn@[e] as int == x);
                        if e < c && c <= f {
                            assert(turn@[e] < turn@[f]);
                        }
                    }
                }
                assert forall|x: int| 0 <= x < open@.len() implies counts@[(
                #[trigger] open@[x]) as int] <= sizes@[open@[x] as int] by {
                    if turn@.contains(x as usize) {
                        let e = choose|e: int| 0 <= e < turn@.len() && turn@[e] == x as usize;
                        assert(turn@[e] as int == x);
                    }
                }
            }
            return rest;
        }
        proof {
            assert forall|e: int| 0 <= e < next@.len() implies (#[trigger] next@[e]) < open@.len()
                && counts@[open@[next@[e] as int] as int] == first[open@[next@[e] as int] as int]
                + (rounds + 1) && counts@[open@[next@[e] as int] as int]
                < sizes@[open@[next@[e] as int] as int] by {
                let d = choose|d: int| 0 <= d < c && #[trigger] turn@[d] == next@[e];
                assert(turn@[d] < open@.len());
            }
            assert forall|b: int| 0 <= b < open@.len() && !next@.contains(b as usize) implies counts@[(
            #[trigger] open@[b]) as int] == sizes@[open@[b] as int] by {
                if turn@.contains(b as usize) {
                    let d = choose|d: int| 0 <= d < turn@.len() && turn@[d] == b as usize;
                    assert(turn@[d] as int == b);
                }
            }
            assert forall|b: int| 0 <= b < open@.len() implies counts@[(#[trigger] open@[b]) as int]
                <= first[open@[b] as int] + (rounds + 1) by {
                if turn@.contains(b as usize) {
                    let d = choose|d: int| 0 <= d < turn@.len() && turn@[d] == b as usize;
                    assert(turn@[d] as int == b);
                }
            }
            rounds = rounds + 1;
        }
        turn = next;
    }
    proof {
        assert forall|b: int| 0 <= b < open@.len() implies counts@[(#[trigger] open@[b]) as int]
            <= sizes@[open@[b] as int] && (counts@[open@[b] as int] < sizes@[open@[b] as int]
            ==> counts@[open@[b] as int] == first[open@[b] as int] + rounds) by {
            if turn@.contains(b as usize) {
                let d = choose|d: int| 0 <= d < turn@.len() && turn@[d] == b as usize;
                assert(turn@[d] as int == b);
            }
        }
    }
    rest
}

proof fn lemma_total_at_most(a: Seq<usize>, b: Seq<usize>, n: int)
    requires
        0 <= n <= a.len(),
        n <= b.len(),
        forall|i: int| 0 <= i < n ==> #[trigger] a[i] <= b[i],
    ensures
        total(a, n) <= total(b, n),
        total(a, n) == total(b, n) ==> forall|i: int| 0 <= i < n ==> #[trigger] a[i] == b[i],
    decreases n,
{
    if n > 0 {
        lemma_total_at_most(a, b, n - 1);
        assert(a[n - 1] <= b[n - 1]);
    }
}

/// The least shares are no more than the types have.
proof fn lemma_least_within(floors: Seq<usize>, sizes: Seq<usize>, wanted: int, i: int)
    requires
        sizes.len() == floors.len(),
        0 <= i < floors.len(),
    ensures
        least_shares(floors, sizes, wanted)[i] <= own_shares(floors, sizes)[i] <= sizes[i],
{
}

/// How many tokens each token type contributes, so that they are exactly `wanted` in all: its whole
/// share, as far as it has the tokens, and what is missing then one each in turn, the types with the
/// largest remainders first. Single tokens come in only when the other types have run out.
pub fn reconcile(floors: &[usize], sizes: &[usize], remainders: &[u64], wanted: usize) -> (r: Vec<
    usize,
>)
    requires
        sizes@.len() == floors@.len(),
        remainders@.len() == floors@.len(),
        wanted <= total(sizes@, sizes@.len() as int),
    ensures
        is_reconciled(floors@, sizes@, remainders@, wanted as int, r@),
{
    let ghost least = least_shares(floors@, sizes@, wanted as int);
    let (shares, missing): (Vec<usize>, usize) = cut_shares(floors, sizes, wanted);
    let mut counts: Vec<usize> = shares;
    let ghost keyed = remainder_keys(remainders@);
    let mut keys: Vec<u64> = Vec::with_capacity(remainders.len());
    let mut i: usize = 0;
    while i < remainders.len()
        invariant
            i <= remainders@.len(),
            keyed == remainder_keys(remainders@),
            keys@ == keyed.take(i as int),
        decreases remainders@.len() - i,
    {
        keys.push(u64::MAX - remainders[i]);
        i += 1;
        assert(keys@ =~= keyed.take(i as int));
    }
    assert(keys@ =~= keyed);
    let order: Vec<usize> = sort_positions(&keys);
    let several: Vec<usize> = with_room(&keys, &order, &counts, sizes, false);
    let single: Vec<usize> = with_room(&keys, &order, &counts, sizes, true);
    proof {
        lemma_slots(keys@, several@);
        lemma_slots(keys@, single@);
    }
    let left: usize = deal(&mut counts, sizes, &several, missing);
    let ghost middle = counts@;
    proof {
        assert forall|a: int| 0 <= a < single@.len() implies middle[(#[trigger] single@[a]) as int]
            == least[single@[a] as int] by {
            if several@.contains(single@[a]) {
                let b = choose|b: int| 0 <= b < several@.len() && several@[b] == single@[a];
                assert(sizes@[several@[b] as int] > 1);
            }
        }
    }
    let over: usize = deal(&mut counts, sizes, &single, left);
    proof {
        lemma_reconciled(
            floors@,
            sizes@,
            remainders@,
            wanted as int,
            several@,
            single@,
            middle,
            counts@,
            left as int,
            over as int,
        );
    }
    counts
}

proof fn lemma_slots(keys: Seq<u64>, open: Seq<usize>)
    requires
        forall|a: int| 0 <= a < open.len() ==> (#[trigger] open[a]) < keys.len(),
        forall|a: int, b: int|
            0 <= a < b < open.len() ==> comes_before(
                keys,
                #[trigger] open[a] as int,
                #[trigger] open[b] as int,
            ),
    ensures
        are_slots(open, keys.len() as int),
{
    assert forall|a: int, b: int| 0 <= a < open.len() && 0 <= b < open.len() && a != b implies open[a]
        != open[b] by {
        if a < b {
            assert(comes_before(keys, open[a] as int, open[b] as int));
        } else {
            assert(comes_before(keys, open[b] as int, open[a] as int));
        }
    }
}

/// Of types in their order, each with a token to give at first.
spec fn are_open(
    keys: Seq<u64>,
    sizes: Seq<usize>,
    least: Seq<usize>,
    open: Seq<usize>,
    single: bool,
) -> bool {
    &&& forall|a: int|
        0 <= a < open.len() ==> (#[trigger] open[a]) < sizes.len() && least[open[a] as int]
            < sizes[open[a] as int] && (sizes[open[a] as int] <= 1 <==> single)
    &&& forall|a: int, b: int|
        0 <= a < b < open.len() ==> comes_before(
            keys,
            #[trigger] open[a] as int,
            #[trigger] open[b] as int,
        )
    &&& forall|i: int|
        0 <= i < sizes.len() && #[trigger] least[i] < sizes[i] && (sizes[i] <= 1 <==> single)
            ==> open.contains(i as usize)
}

proof fn lemma_reconciled(
    floors: Seq<usize>,
    sizes: Seq<usize>,
    remainders: Seq<u64>,
    wanted: int,
    several: Seq<usize>,
    single: Seq<usize>,
    middle: Seq<usize>,
    counts: Seq<usize>,
    left: int,
    over: int,
)
    requires
        sizes.len() == floors.len() == remainders.len(),
        floors.len() <= usize::MAX,
        0 <= wanted <= total(sizes, sizes.len() as int),
        ({
            let least = least_shares(floors, sizes, wanted);
            &&& are_open(remainder_keys(remainders), sizes, least, several, false)
            &&& are_open(remainder_keys(remainders), sizes, least, single, true)
            &&& is_dealt(several, sizes, least, middle)
            &&& is_dealt(single, sizes, middle, counts)
        }),
        0 <= over <= left,
        left == 0 ==> counts == middle,
        left > 0 ==> forall|a: int|
            0 <= a < several.len() ==> middle[(#[trigger] several[a]) as int]
                == sizes[several[a] as int],
        over > 0 ==> forall|a: int|
            0 <= a < single.len() ==> counts[(#[trigger] single[a]) as int]
                == sizes[single[a] as int],
        total(counts, sizes.len() as int) + over == wanted,
    ensures
        is_reconciled(floors, sizes, remainders, wanted, counts),
{
    let keys = remainder_keys(remainders);
    let least = least_shares(floors, sizes, wanted);
    let n = sizes.len() as int;
    assert forall|i: int| 0 <= i < n implies least[i] <= #[trigger] counts[i] <= sizes[i]
        && (sizes[i] > 1 ==> counts[i] == middle[i]) && (sizes[i] <= 1 ==> middle[i] == least[i])
        && (sizes[i] > 1 && left > 0 ==> counts[i] == sizes[i]) && (sizes[i] <= 1 && over > 0
        ==> counts[i] == sizes[i]) by {
        lemma_least_within(floors, sizes, wanted, i);
        assert(least[i] <= middle[i] <= counts[i]);
        if several.contains(i as usize) {
            let a = choose|a: int| 0 <= a < several.len() && several[a] == i as usize;
            assert(several[a] as int == i);
        }
        if single.contains(i as usize) {
            let a = choose|a: int| 0 <= a < single.len() && single[a] == i as usize;
            assert(single[a] as int == i);
        }
    }
    if over > 0 {
        assert forall|i: int| 0 <= i < n implies #[trigger] counts[i] == sizes[i] by {}
        assert(counts =~= sizes);
    }
    assert forall|i: int, j: int| 0 <= i < n && 0 <= j < n implies #[trigger] in_turn(
        keys,
        sizes,
        least,
        counts,
        i,
        j,
    ) by {
        assert(least[i] <= counts[i] <= sizes[i] && least[j] <= counts[j] <= sizes[j]);
        if least[i] < counts[i] && counts[j] < sizes[j] {
            assert(least[i] < sizes[i] && least[j] < sizes[j]);
            if sizes[i] <= 1 && sizes[j] > 1 {
                assert(left > 0);
                assert(counts[j] == sizes[j]);
            }
            if sizes[i] > 1 && sizes[j] > 1 {
                assert(several.contains(i as usize) && several.contains(j as usize));
                let a = choose|a: int| 0 <= a < several.len() && several[a] == i as usize;
                let b = choose|b: int| 0 <= b < several.len() && several[b] == j as usize;
                assert(several[a] as int == i && several[b] as int == j);
            }
            if sizes[i] <= 1 && sizes[j] <= 1 {
                assert(single.contains(i as usize) && single.contains(j as usize));
                let a = choose|a: int| 0 <= a < single.len() && single[a] == i as usize;
                let b = choose|b: int| 0 <= b < single.len() && single[b] == j as usize;
                assert(single[a] as int == i && single[b] as int == j);
            }
        }
    }
}

/// There is only one way to reconcile.
pub proof fn reconciled_is_unique(
    floors: Seq<usize>,
    sizes: Seq<usize>,
    remainders: Seq<u64>,
    wanted: int,
    a: Seq<usize>,
    b: Seq<usize>,
)
    requires
        is_reconciled(floors, sizes, remainders, wanted, a),
        is_reconciled(floors, sizes, remainders, wanted, b),
    ensures
        a == b,
{
    let n = a.len() as int;
    let keys = remainder_keys(remainders);
    let least = least_shares(floors, sizes, wanted);
    if forall|i: int| 0 <= i < n ==> #[trigger] a[i] <= b[i] {
        lemma_total_at_most(a, b, n);
        assert(a =~= b);
    } else if forall|i: int| 0 <= i < n ==> #[trigger] b[i] <= a[i] {
        lemma_total_at_most(b, a, n);
        assert(a =~= b);
    } else {
        let i = choose|i: int| 0 <= i < n && #[trigger] a[i] > b[i];
        let j = choose|j: int| 0 <= j < n && #[trigger] b[j] > a[j];
        assert(least[i] <= a[i] <= sizes[i] && least[i] <= b[i]);
        assert(least[j] <= b[j] <= sizes[j] && least[j] <= a[j]);
        assert(in_turn(keys, sizes, least, a, i, j));
        assert(in_turn(keys, sizes, least, b, j, i));
    }
}

/// How many are missing to `wanted`.
pub open spec fn deficit(floors: Seq<usize>, wanted: int) -> int {
    wanted - total(floors, floors.len() as int)
}

/// Position `i` is among the first `n` of `order`.
pub open spec fn among_first(order: Seq<usize>, n: int, i: int) -> bool {
    exists|r: int| 0 <= r < n && r < order.len() && #[trigger] order[r] == i
}

/// One more for each of the `n` token types with the largest remainders.
pub open spec fn topped_up(floors: Seq<usize>, order: Seq<usize>, n: int) -> Seq<usize> {
    Seq::new(
        floors.len(),
        |i: int|
            if among_first(order, n, i) {
                (floors[i] + 1) as usize
            } else {
                floors[i]
            },
    )
}

/// The whole shares can be contributed: no type has fewer tokens, those with a single one have no
/// share, and together they are no more than `wanted`. What is missing is at most one of each type,
/// and those with the largest remainders have it, beyond a single token.
pub open spec fn shares_fit(
    floors: Seq<usize>,
    sizes: Seq<usize>,
    remainders: Seq<u64>,
    wanted: int,
) -> bool {
    let order = stable_order(remainder_keys(remainders));
    &&& forall|i: int|
        0 <= i < floors.len() ==> (#[trigger] floors[i]) <= sizes[i] && (sizes[i] <= 1 ==> floors[i]
            == 0)
    &&& 0 <= deficit(floors, wanted) <= floors.len()
    &&& forall|r: int|
        0 <= r < deficit(floors, wanted) ==> floors[(#[trigger] order[r]) as int]
            < sizes[order[r] as int] && sizes[order[r] as int] > 1
}

proof fn lemma_topped_up_total(floors: Seq<usize>, keys: Seq<u64>, order: Seq<usize>, t: int)
    requires
        is_stable_order(keys, order),
        keys.len() == floors.len(),
        0 <= t <= order.len(),
        forall|r: int| 0 <= r < t ==> floors[(#[trigger] order[r]) as int] < usize::MAX,
    ensures
        total(topped_up(floors, order, t), floors.len() as int) == total(
            floors,
            floors.len() as int,
        ) + t,
    decreases t,
{
    let n = floors.len() as int;
    if t > 0 {
        lemma_topped_up_total(floors, keys, order, t - 1);
        let slot = order[t - 1] as int;
        let now = topped_up(floors, order, t - 1);
        let next = topped_up(floors, order, t);
        assert forall|r: int| 0 <= r < t - 1 implies #[trigger] order[r] != slot by {
            assert(comes_before(keys, order[r] as int, order[t - 1] as int));
        }
        assert(!among_first(order, t - 1, slot));
        assert forall|i: int| 0 <= i < n implies among_first(order, t, i) == (
        #[trigger] among_first(order, t - 1, i) || i == slot) by {
            if among_first(order, t - 1, i) {
                let r = choose|r: int|
                    0 <= r < t - 1 && r < order.len() && #[trigger] order[r] == i;
                assert(order[r] == i);
            }
            if i == slot {
                assert(order[t - 1] == i);
            }
        }
        let more = (floors[slot] + 1) as usize;
        assert forall|i: int| 0 <= i < n implies #[trigger] next[i] == now.update(slot, more)[i] by {
            assert(among_first(order, t, i) == (among_first(order, t - 1, i) || i == slot));
        }
        assert(next =~= now.update(slot, more));
        assert(now[slot] == floors[slot]);
        lemma_total_update(now, slot, more, n);
    } else {
        assert(topped_up(floors, order, 0) =~= floors);
    }
}

proof fn lemma_fitting_least(floors: Seq<usize>, sizes: Seq<usize>, wanted: int)
    requires
        sizes.len() == floors.len(),
        forall|i: int|
            0 <= i < floors.len() ==> (#[trigger] floors[i]) <= sizes[i] && (sizes[i] <= 1
                ==> floors[i] == 0),
        total(floors, floors.len() as int) <= wanted,
    ensures
        least_shares(floors, sizes, wanted) == floors,
{
    let own = own_shares(floors, sizes);
    assert forall|i: int| 0 <= i < floors.len() implies #[trigger] own[i] == floors[i] by {
        assert(floors[i] <= sizes[i]);
    }
    assert(own =~= floors);
    assert forall|i: int| 0 <= i < floors.len() implies least_shares(floors, sizes, wanted)[i]
        == floors[i] by {
        lemma_total_grows(floors, i + 1, floors.len() as int);
    }
    assert(least_shares(floors, sizes, wanted) =~= floors);
}

/// Where the whole shares fit, each type contributes its own, and those with the largest remainders
/// one more, as many as are missing.
pub proof fn largest_remainders_are_rounded_up(
    floors: Seq<usize>,
    sizes: Seq<usize>,
    remainders: Seq<u64>,
    wanted: int,
    counts: Seq<usize>,
)
    requires
        sizes.len() == floors.len() == remainders.len(),
        floors.len() <= usize::MAX,
        shares_fit(floors, sizes, remainders, wanted),
        is_reconciled(floors, sizes, remainders, wanted, counts),
    ensures
        counts == topped_up(
            floors,
            stable_order(remainder_keys(remainders)),
            deficit(floors, wanted),
        ),
{
    let keys = remainder_keys(remainders);
    lemma_stable_order_exists(keys);
    let order = stable_order(keys);
    let d = deficit(floors, wanted);
    let up = topped_up(floors, order, d);
    lemma_fitting_least(floors, sizes, wanted);
    lemma_topped_up_total(floors, keys, order, d);
    assert forall|i: int| 0 <= i < up.len() implies floors[i] <= #[trigger] up[i] <= sizes[i]
        && (among_first(order, d, i) ==> up[i] == floors[i] + 1 && sizes[i] > 1) && (
    !among_first(order, d, i) ==> up[i] == floors[i]) by {
        assert(floors[i] <= sizes[i]);
        if among_first(order, d, i) {
            let r = choose|r: int| 0 <= r < d && r < order.len() && #[trigger] order[r] == i;
            assert(order[r] as int == i);
        }
    }
    assert forall|i: int, j: int| 0 <= i < up.len() && 0 <= j < up.len() implies #[trigger] in_turn(
        keys,
        sizes,
        floors,
        up,
        i,
        j,
    ) by {
        assert(up[i] >= floors[i] && up[j] >= floors[j]);
        if floors[i] < up[i] && !among_first(order, d, j) {
            let r = choose|r: int| 0 <= r < d && r < order.len() && #[trigger] order[r] == i;
            lemma_stable_order_covers(keys, order, j as usize);
            let s = choose|s: int| 0 <= s < order.len() && order[s] == j as usize;
            assert(order[s] == j);
            assert(comes_before(keys, order[r] as int, order[s] as int));
        }
    }
    assert(is_reconciled(floors, sizes, remainders, wanted, up));
    reconciled_is_unique(floors, sizes, remainders, wanted, counts, up);
}

/// Which tokens come into question.
pub enum SamplePlan {
    /// All of them.
    All,
    /// `wanted` of them, by token type.
    ByType { groups: Vec<TokenGroup>, wanted: usize },
}

/// The tokens of the groups are all different.
pub open spec fn apart(groups: Seq<TokenGroup>) -> bool {
    forall|g: int, j: int, h: int, k: int|
        0 <= g < groups.len() && 0 <= j < groups[g].indices@.len() && 0 <= h < groups.len() && 0
            <= k < groups[h].indices@.len() && (g != h || j != k) ==> (
        #[trigger] groups[g].indices@[j]) != (#[trigger] groups[h].indices@[k])
}

/// Every token of the groups is below `n`.
pub open spec fn within(groups: Seq<TokenGroup>, n: int) -> bool {
    forall|g: int| 0 <= g < groups.len() ==> in_rows((#[trigger] groups[g]).indices@, n)
}

/// All tokens come into question where no fewer are asked for; and otherwise as many as are asked
/// for, or as have a type, by type.
pub open spec fn is_plan(
    token_ids: Seq<usize>,
    n_tokens: int,
    pq_sample_size: int,
    plan: SamplePlan,
) -> bool {
    match plan {
        SamplePlan::All => pq_sample_size >= n_tokens,
        SamplePlan::ByType { groups, wanted } => pq_sample_size < n_tokens && is_grouping(
            token_ids,
            groups@,
        ) && wanted == if pq_sample_size <= token_ids.len() {
            pq_sample_size
        } else {
            token_ids.len() as int
        },
    }
}

/// Which tokens come into question for a sample of `pq_sample_size` of `n_tokens`, which have the
/// given types.
pub fn plan_sample(token_ids: &[usize], n_tokens: usize, pq_sample_size: usize) -> (plan: SamplePlan)
    ensures
        is_plan(token_ids@, n_tokens as int, pq_sample_size as int, plan),
        plan matches SamplePlan::ByType { groups, wanted } ==> {
            &&& apart(groups@)
            &&& within(groups@, token_ids@.len() as int)
            &&& wanted <= total(group_sizes(groups@), groups@.len() as int)
        },
{
    if pq_sample_size >= n_tokens {
        return SamplePlan::All;
    }
    assert(token_ids.len() == token_ids@.len());
    let groups: Vec<TokenGroup> = group_by_token(token_ids);
    let wanted: usize = if pq_sample_size <= token_ids.len() {
        pq_sample_size
    } else {
        token_ids.len()
    };
    proof {
        lemma_grouping_apart(token_ids@, groups@);
        group_sizes_add_up(token_ids@, groups@);
    }
    SamplePlan::ByType { groups, wanted }
}

proof fn lemma_grouping_apart(token_ids: Seq<usize>, groups: Seq<TokenGroup>)
    requires
        token_ids.len() <= usize::MAX,
        is_grouping(token_ids, groups),
    ensures
        apart(groups),
        within(groups, token_ids.len() as int),
{
    assert forall|g: int, j: int, h: int, k: int|
        0 <= g < groups.len() && 0 <= j < groups[g].indices@.len() && 0 <= h < groups.len() && 0 <= k
            < groups[h].indices@.len() && (g != h || j != k) implies (
    #[trigger] groups[g].indices@[j]) != (#[trigger] groups[h].indices@[k]) by {
        groups_are_apart(token_ids, groups, g, j, h, k);
    }
    assert forall|g: int| 0 <= g < groups.len() implies in_rows(
        (#[trigger] groups[g]).indices@,
        token_ids.len() as int,
    ) by {
        positions_are_ascending(token_ids, groups[g].token_id, token_ids.len() as int);
    }
}

/// What a token type gives: its first tokens, as many as it contributes, or all where it has no
/// more.
pub open spec fn front(tokens: Seq<usize>, count: int) -> Seq<usize> {
    if count < tokens.len() {
        tokens.take(count)
    } else {
        tokens
    }
}

/// Some of the first `n` token types gives the token.
pub open spec fn is_given(
    tokens: Seq<Vec<usize>>,
    counts: Seq<usize>,
    n: int,
    token: usize,
) -> bool {
    exists|g: int| 0 <= g < n && front((#[trigger] tokens[g])@, counts[g] as int).contains(token)
}

/// How many tokens the first `n` token types give.
pub open spec fn given_len(tokens: Seq<Vec<usize>>, counts: Seq<usize>, n: int) -> int
    decreases n,
{
    if n <= 0 {
        0
    } else {
        given_len(tokens, counts, n - 1) + front(tokens[n - 1]@, counts[n - 1] as int).len()
    }
}

/// The sample: the tokens that the token types give, ascending.
pub open spec fn is_sample_of(
    sample: Seq<usize>,
    tokens: Seq<Vec<usize>>,
    counts: Seq<usize>,
) -> bool {
    &&& forall|i: int, j: int|
        0 <= i < j < sample.len() ==> (#[trigger] sample[i]) < (#[trigger] sample[j])
    &&& sample.len() == given_len(tokens, counts, tokens.len() as int)
    &&& forall|token: usize| #[trigger]
        sample.contains(token) <==> is_given(tokens, counts, tokens.len() as int, token)
}

/// No token occurs twice.
pub open spec fn all_different(tokens: Seq<Vec<usize>>) -> bool {
    forall|g: int, j: int, h: int, k: int|
        0 <= g < tokens.len() && 0 <= j < tokens[g]@.len() && 0 <= h < tokens.len() && 0 <= k
            < tokens[h]@.len() && (g != h || j != k) ==> (#[trigger] tokens[g]@[j]) != (
        #[trigger] tokens[h]@[k])
}

/// Collects what the token types give, from their tokens in the order in which they give them.
pub fn merge_fronts(tokens: &[Vec<usize>], counts: &[usize]) -> (sample: Vec<usize>)
    requires
        counts@.len() == tokens@.len(),
        all_different(tokens@),
    ensures
        is_sample_of(sample@, tokens@, counts@),
{
    let mut taken: Vec<usize> = Vec::new();
    let mut g: usize = 0;
    while g < tokens.len()
        invariant
            g <= tokens@.len() == counts@.len(),
            all_different(tokens@),
            taken@.no_duplicates(),
            taken@.len() == given_len(tokens@, counts@, g as int),
            forall|token: usize| #[trigger]
                taken@.contains(token) <==> is_given(tokens@, counts@, g as int, token),
        decreases tokens@.len() - g,
    {
        let group: &Vec<usize> = &tokens[g];
        let count: usize = if counts[g] < group.len() {
            counts[g]
        } else {
            group.len()
        };
        let ghost before = taken@;
        let mut j: usize = 0;
        while j < count
            invariant
                j <= count <= group@.len(),
                taken@ == before + group@.take(j as int),
            decreases count - j,
        {
            taken.push(group[j]);
            j += 1;
            assert(taken@ =~= before + group@.take(j as int));
        }
        proof {
            assert(group@.take(count as int) =~= front(group@, counts@[g as int] as int));
            assert(taken@ =~= before + front(group@, counts@[g as int] as int));
            lemma_next_front(tokens@, counts@, before, g as int);
        }
        g += 1;
    }
    sort_ascending(&taken)
}

proof fn lemma_next_front(
    tokens: Seq<Vec<usize>>,
    counts: Seq<usize>,
    before: Seq<usize>,
    g: int,
)
    requires
        0 <= g < tokens.len() == counts.len(),
        all_different(tokens),
        before.no_duplicates(),
        forall|token: usize| #[trigger]
            before.contains(token) <==> is_given(tokens, counts, g, token),
    ensures
        (before + front(tokens[g]@, counts[g] as int)).no_duplicates(),
        forall|token: usize| #[trigger]
            (before + front(tokens[g]@, counts[g] as int)).contains(token) <==> is_given(
                tokens,
                counts,
                g + 1,
                token,
            ),
{
    let part = front(tokens[g]@, counts[g] as int);
    let all = before + part;
    assert forall|token: usize| #[trigger] all.contains(token) <==> is_given(
        tokens,
        counts,
        g + 1,
        token,
    ) by {
        if all.contains(token) {
            let i = choose|i: int| 0 <= i < all.len() && all[i] == token;
            if i < before.len() {
                assert(before[i] == token);
                assert(before.contains(token));
                let h = choose|h: int|
                    0 <= h < g && front((#[trigger] tokens[h])@, counts[h] as int).contains(token);
                assert(front(tokens[h]@, counts[h] as int).contains(token));
            } else {
                assert(part[i - before.len()] == token);
                assert(part.contains(token));
            }
        }
        if is_given(tokens, counts, g + 1, token) {
            let h = choose|h: int|
                0 <= h < g + 1 && front((#[trigger] tokens[h])@, counts[h] as int).contains(token);
            if h < g {
                assert(is_given(tokens, counts, g, token));
                assert(before.contains(token));
                let i = choose|i: int| 0 <= i < before.len() && before[i] == token;
                assert(all[i] == token);
            } else {
                let i = choose|i: int| 0 <= i < part.len() && part[i] == token;
                assert(all[before.len() + i] == token);
            }
        }
    }
    assert forall|i: int, j: int| 0 <= i < part.len() && 0 <= j < part.len() && i != j implies part[i]
        != part[j] by {
        assert(tokens[g]@[i] != tokens[g]@[j]);
    }
    assert forall|i: int, j: int| 0 <= i < before.len() && 0 <= j < part.len() implies before[i]
        != part[j] by {
        let token = before[i];
        assert(before.contains(token));
        let h = choose|h: int|
            0 <= h < g && front((#[trigger] tokens[h])@, counts[h] as int).contains(token);
        let other = front(tokens[h]@, counts[h] as int);
        let p = choose|p: int| 0 <= p < other.len() && other[p] == token;
        assert(tokens[h]@[p] == token);
        assert(tokens[h]@[p] != tokens[g]@[j]);
    }
    assert(all.no_duplicates());
}

/// Each group's tokens, in some order.
pub open spec fn are_shuffles(groups: Seq<TokenGroup>, shuffled: Seq<Vec<usize>>) -> bool {
    &&& shuffled.len() == groups.len()
    &&& forall|g: int|
        0 <= g < groups.len() ==> (#[trigger] shuffled[g])@.to_multiset()
            == groups[g].indices@.to_multiset()
}

/// Draws the sample: from each group as many tokens as it contributes, by a fixed seed.
pub fn draw_tokens(groups: &[TokenGroup], counts: &[usize]) -> (sample: Vec<usize>)
    requires
        counts@.len() == groups@.len(),
        apart(groups@),
    ensures
        exists|shuffled: Seq<Vec<usize>>| #[trigger]
            are_shuffles(groups@, shuffled) && is_sample_of(sample@, shuffled, counts@),
        (forall|g: int| 0 <= g < groups@.len() ==> (#[trigger] counts@[g]) <= groups@[g].indices@.len())
            ==> sample@.len() == total(counts@, counts@.len() as int),
        forall|n: int| #[trigger] within(groups@, n) ==> in_rows(sample@, n),
{
    let mut rng: StdRng = seeded(42);
    let mut shuffled: Vec<Vec<usize>> = Vec::with_capacity(groups.len());
    let mut g: usize = 0;
    while g < groups.len()
        invariant
            g <= groups@.len() == counts@.len(),
            shuffled@.len() == g,
            forall|h: int|
                0 <= h < g ==> (#[trigger] shuffled@[h])@.to_multiset()
                    == groups@[h].indices@.to_multiset(),
        decreases groups@.len() - g,
    {
        let mut tokens: Vec<usize> = groups[g].indices.clone();
        assert(tokens@ =~= groups@[g as int].indices@);
        if counts[g] > 0 && tokens.len() > 0 {
            shuffle(&mut rng, &mut tokens);
        }
        shuffled.push(tokens);
        g += 1;
    }
    proof {
        lemma_shuffles_differ(groups@, shuffled@);
    }
    let sample: Vec<usize> = merge_fronts(&shuffled, counts);
    proof {
        assert(are_shuffles(groups@, shuffled@));
        if forall|g: int|
            0 <= g < groups@.len() ==> (#[trigger] counts@[g]) <= groups@[g].indices@.len() {
            lemma_drawn_len(groups@, shuffled@, counts@, sample@);
        }
        assert forall|n: int| #[trigger] within(groups@, n) implies in_rows(sample@, n) by {
            lemma_sample_within(sample@, groups@, shuffled@, counts@, n);
        }
    }
    sample
}

/// A shuffled group has the tokens of the group, and none twice.
proof fn lemma_shuffle(group: TokenGroup, shuffled: Seq<usize>)
    requires
        group.indices@.no_duplicates(),
        shuffled.to_multiset() == group.indices@.to_multiset(),
    ensures
        shuffled.no_duplicates(),
        forall|j: int| 0 <= j < shuffled.len() ==> group.indices@.contains(#[trigger] shuffled[j]),
{
    broadcast use vstd::seq_lib::group_to_multiset_ensures;

    let all = group.indices@;
    all.lemma_multiset_has_no_duplicates();
    assert forall|j: int| 0 <= j < shuffled.len() implies all.contains(#[trigger] shuffled[j]) by {
        assert(shuffled.contains(shuffled[j]));
        assert(shuffled.to_multiset().count(shuffled[j]) > 0);
        assert(all.to_multiset().count(shuffled[j]) > 0);
    }
    shuffled.lemma_multiset_has_no_duplicates_conv();
}

proof fn lemma_group_no_duplicates(groups: Seq<TokenGroup>, g: int)
    requires
        apart(groups),
        0 <= g < groups.len(),
    ensures
        groups[g].indices@.no_duplicates(),
{
    let items = groups[g].indices@;
    assert forall|i: int, j: int|
        0 <= i < items.len() && 0 <= j < items.len() && i != j implies items[i] != items[j] by {
        assert(groups[g].indices@[i] != groups[g].indices@[j]);
    }
}

proof fn lemma_shuffles_differ(groups: Seq<TokenGroup>, shuffled: Seq<Vec<usize>>)
    requires
        apart(groups),
        are_shuffles(groups, shuffled),
    ensures
        all_different(shuffled),
{
    assert forall|g: int, j: int, h: int, k: int|
        0 <= g < shuffled.len() && 0 <= j < shuffled[g]@.len() && 0 <= h < shuffled.len() && 0 <= k
            < shuffled[h]@.len() && (g != h || j != k) implies (#[trigger] shuffled[g]@[j]) != (
    #[trigger] shuffled[h]@[k]) by {
        lemma_group_no_duplicates(groups, g);
        lemma_group_no_duplicates(groups, h);
        lemma_shuffle(groups[g], shuffled[g]@);
        lemma_shuffle(groups[h], shuffled[h]@);
        let (x, y) = (shuffled[g]@[j], shuffled[h]@[k]);
        if g != h {
            assert(groups[g].indices@.contains(shuffled[g]@[j]));
            assert(groups[h].indices@.contains(shuffled[h]@[k]));
            let a = choose|a: int| 0 <= a < groups[g].indices@.len() && groups[g].indices@[a] == x;
            let b = choose|b: int| 0 <= b < groups[h].indices@.len() && groups[h].indices@[b] == y;
            assert(groups[g].indices@[a] != groups[h].indices@[b]);
        }
    }
}

/// The tokens of the sample are tokens of the groups.
proof fn lemma_sample_within(
    sample: Seq<usize>,
    groups: Seq<TokenGroup>,
    shuffled: Seq<Vec<usize>>,
    counts: Seq<usize>,
    n: int,
)
    requires
        is_sample_of(sample, shuffled, counts),
        are_shuffles(groups, shuffled),
        apart(groups),
        within(groups, n),
    ensures
        in_rows(sample, n),
{
    assert forall|i: int| 0 <= i < sample.len() implies (#[trigger] sample[i]) < n by {
        let token = sample[i];
        assert(sample.contains(token));
        let g = choose|g: int|
            0 <= g < shuffled.len() && front(
                (#[trigger] shuffled[g])@,
                counts[g] as int,
            ).contains(token);
        let part = front(shuffled[g]@, counts[g] as int);
        let p = choose|p: int| 0 <= p < part.len() && part[p] == token;
        assert(shuffled[g]@[p] == token);
        lemma_group_no_duplicates(groups, g);
        lemma_shuffle(groups[g], shuffled[g]@);
        let items = groups[g].indices@;
        assert(items.contains(shuffled[g]@[p]));
        let a = choose|a: int| 0 <= a < items.len() && items[a] == token;
        assert(in_rows(groups[g].indices@, n));
        assert(items[a] < n);
    }
}

/// The same positions, ascending.
fn sort_ascending(items: &[usize]) -> (sorted: Vec<usize>)
    requires
        items@.no_duplicates(),
    ensures
        sorted@.len() == items@.len(),
        forall|i: int, j: int|
            0 <= i < j < sorted@.len() ==> (#[trigger] sorted@[i]) < (#[trigger] sorted@[j]),
        forall|x: usize| #[trigger] sorted@.contains(x) <==> items@.contains(x),
{
    let mut keys: Vec<u64> = Vec::with_capacity(items.len());
    let mut i: usize = 0;
    while i < items.len()
        invariant
            i <= items@.len(),
            keys@.len() == i,
            forall|j: int| 0 <= j < i ==> #[trigger] keys@[j] == items@[j],
        decreases items@.len() - i,
    {
        keys.push(items[i] as u64);
        i += 1;
    }
    let order: Vec<usize> = sort_positions(&keys);
    let mut sorted: Vec<usize> = Vec::with_capacity(items.len());
    let mut j: usize = 0;
    while j < order.len()
        invariant
            j <= order@.len(),
            order@.len() == items@.len() == keys@.len(),
            is_stable_order(keys@, order@),
            sorted@.len() == j,
            forall|k: int| 0 <= k < j ==> #[trigger] sorted@[k] == items@[order@[k] as int],
        decreases order@.len() - j,
    {
        sorted.push(items[order[j]]);
        j += 1;
    }
    proof {
        assert(items.len() == items@.len());
        assert forall|a: int, b: int| 0 <= a < b < sorted@.len() implies (#[trigger] sorted@[a]) < (
        #[trigger] sorted@[b]) by {
            assert(comes_before(keys@, order@[a] as int, order@[b] as int));
            assert(items@[order@[a] as int] != items@[order@[b] as int]);
        }
        assert forall|x: usize| #[trigger] sorted@.contains(x) <==> items@.contains(x) by {
            if sorted@.contains(x) {
                let k = choose|k: int| 0 <= k < sorted@.len() && sorted@[k] == x;
                assert(items@[order@[k] as int] == x);
            }
            if items@.contains(x) {
                let k = choose|k: int| 0 <= k < items@.len() && items@[k] == x;
                lemma_stable_order_covers(keys@, order@, k as usize);
                let p = choose|p: int| 0 <= p < order@.len() && order@[p] == k as usize;
                assert(sorted@[p] == x);
            }
        }
    }
    sorted
}

/// The vectors of the sampled tokens, and the centroids that they are assigned to.
pub fn collect_sample(flat: &[u16], dim: usize, assignments: &[usize], sample: &[usize]) -> (r: (
    Vec<u16>,
    Vec<usize>,
))
    requires
        dim > 0,
        in_rows(sample@, flat@.len() as int / dim as int),
        in_rows(sample@, assignments@.len() as int),
    ensures
        r.0@ == gathered(flat@, dim as int, sample@),
        r.1@ == Seq::new(sample@.len(), |i: int| assignments@[sample@[i] as int]),
{
    let vectors: Vec<u16> = gather_rows(flat, dim, sample);
    let ghost wanted = Seq::new(sample@.len(), |i: int| assignments@[sample@[i] as int]);
    let mut centroids: Vec<usize> = Vec::with_capacity(sample.len());
    let mut i: usize = 0;
    while i < sample.len()
        invariant
            i <= sample@.len(),
            in_rows(sample@, assignments@.len() as int),
            wanted == Seq::new(sample@.len(), |i: int| assignments@[sample@[i] as int]),
            centroids@ == wanted.take(i as int),
        decreases sample@.len() - i,
    {
        assert(sample@[i as int] < assignments@.len());
        centroids.push(assignments[sample[i]]);
        i += 1;
        assert(centroids@ =~= wanted.take(i as int));
    }
    assert(wanted.take(i as int) =~= wanted);
    (vectors, centroids)
}

proof fn lemma_given_total(tokens: Seq<Vec<usize>>, counts: Seq<usize>, n: int)
    requires
        0 <= n <= tokens.len() == counts.len(),
        forall|g: int| 0 <= g < tokens.len() ==> (#[trigger] counts[g]) <= tokens[g]@.len(),
    ensures
        given_len(tokens, counts, n) == total(counts, n),
    decreases n,
{
    if n > 0 {
        lemma_given_total(tokens, counts, n - 1);
        assert(counts[n - 1] <= tokens[n - 1]@.len());
    }
}

/// A sample of counts that the groups have is as large as the counts together.
proof fn lemma_drawn_len(
    groups: Seq<TokenGroup>,
    shuffled: Seq<Vec<usize>>,
    counts: Seq<usize>,
    sample: Seq<usize>,
)
    requires
        counts.len() == groups.len(),
        are_shuffles(groups, shuffled),
        is_sample_of(sample, shuffled, counts),
        forall|g: int| 0 <= g < groups.len() ==> (#[trigger] counts[g]) <= groups[g].indices@.len(),
    ensures
        sample.len() == total(counts, counts.len() as int),
{
    broadcast use vstd::seq_lib::group_to_multiset_ensures;

    assert forall|g: int| 0 <= g < shuffled.len() implies (#[trigger] counts[g])
        <= shuffled[g]@.len() by {
        assert(shuffled[g]@.to_multiset() == groups[g].indices@.to_multiset());
        assert(shuffled[g]@.to_multiset().len() == shuffled[g]@.len());
        assert(groups[g].indices@.to_multiset().len() == groups[g].indices@.len());
    }
    lemma_given_total(shuffled, counts, shuffled.len() as int);
}

/// A sample of `wanted` tokens by type: what the types contribute, each some of its tokens.
pub open spec fn is_sample_by_type(
    groups: Seq<TokenGroup>,
    floors: Seq<usize>,
    remainders: Seq<u64>,
    wanted: int,
    sample: Seq<usize>,
) -> bool {
    exists|counts: Seq<usize>, shuffled: Seq<Vec<usize>>|
        #![trigger is_sample_of(sample, shuffled, counts)]
        is_reconciled(floors, group_sizes(groups), remainders, wanted, counts) && are_shuffles(
            groups,
            shuffled,
        ) && is_sample_of(sample, shuffled, counts)
}

/// Draws a sample of exactly `wanted` tokens, from the shares of the token types.
pub fn sample_tokens(
    groups: &[TokenGroup],
    floors: &[usize],
    remainders: &[u64],
    wanted: usize,
) -> (sample: Vec<usize>)
    requires
        floors@.len() == groups@.len(),
        remainders@.len() == groups@.len(),
        apart(groups@),
        wanted <= total(group_sizes(groups@), groups@.len() as int),
    ensures
        sample@.len() == wanted,
        is_sample_by_type(groups@, floors@, remainders@, wanted as int, sample@),
        forall|n: int| #[trigger] within(groups@, n) ==> in_rows(sample@, n),
{
    let ghost wide = group_sizes(groups@);
    let mut sizes: Vec<usize> = Vec::with_capacity(groups.len());
    let mut g: usize = 0;
    while g < groups.len()
        invariant
            g <= groups@.len(),
            wide == group_sizes(groups@),
            sizes@ == wide.take(g as int),
        decreases groups@.len() - g,
    {
        sizes.push(groups[g].indices.len());
        g += 1;
        assert(sizes@ =~= wide.take(g as int));
    }
    assert(sizes@ =~= wide);
    let counts: Vec<usize> = reconcile(floors, &sizes, remainders, wanted);
    let sample: Vec<usize> = draw_tokens(groups, &counts);
    proof {
        let shuffled = choose|shuffled: Seq<Vec<usize>>| #[trigger]
            are_shuffles(groups@, shuffled) && is_sample_of(sample@, shuffled, counts@);
        assert(is_sample_of(sample@, shuffled, counts@));
        assert forall|g: int| 0 <= g < groups@.len() implies (#[trigger] counts@[g])
            <= groups@[g].indices@.len() by {
            assert(counts@[g] <= wide[g]);
        }
    }
    sample
}

/// The sample has exactly as many tokens as the token types contribute together.
pub proof fn sample_size_is_exact(
    groups: Seq<TokenGroup>,
    floors: Seq<usize>,
    remainders: Seq<u64>,
    wanted: int,
    sample: Seq<usize>,
)
    requires
        floors.len() == groups.len(),
        is_sample_by_type(groups, floors, remainders, wanted, sample),
    ensures
        sample.len() == wanted,
{
    let (counts, shuffled) = choose|counts: Seq<usize>, shuffled: Seq<Vec<usize>>|
        #![trigger is_sample_of(sample, shuffled, counts)]
        is_reconciled(floors, group_sizes(groups), remainders, wanted, counts) && are_shuffles(
            groups,
            shuffled,
        ) && is_sample_of(sample, shuffled, counts);
    assert forall|g: int| 0 <= g < groups.len() implies (#[trigger] counts[g])
        <= groups[g].indices@.len() by {
        assert(counts[g] <= group_sizes(groups)[g]);
    }
    lemma_drawn_len(groups, shuffled, counts, sample);
}

/// Of a collection with a type for every token, the sample holds exactly as many tokens as are
/// asked for, or all of them where there are no more.
pub proof fn sample_is_as_large_as_asked(
    token_ids: Seq<usize>,
    pq_sample_size: int,
    plan: SamplePlan,
    floors: Seq<usize>,
    remainders: Seq<u64>,
    sample: Seq<usize>,
)
    requires
        token_ids.len() <= usize::MAX,
        is_plan(token_ids, token_ids.len() as int, pq_sample_size, plan),
        match plan {
            SamplePlan::All => sample == every_row(token_ids.len() as int),
            SamplePlan::ByType { groups, wanted } => floors.len() == groups@.len()
                && is_sample_by_type(groups@, floors, remainders, wanted as int, sample),
        },
    ensures
        sample.len() == if pq_sample_size <= token_ids.len() {
            pq_sample_size
        } else {
            token_ids.len() as int
        },
        pq_sample_size >= token_ids.len() ==> sample == every_row(token_ids.len() as int),
{
    match plan {
        SamplePlan::All => {},
        SamplePlan::ByType { groups, wanted } => {
            sample_size_is_exact(groups@, floors, remainders, wanted as int, sample);
        },
    }
}

proof fn lemma_own(floors: Seq<usize>, sizes: Seq<usize>, own: Seq<usize>)
    requires
        sizes.len() == floors.len() == own.len(),
        forall|i: int|
            0 <= i < own.len() ==> (#[trigger] own[i]) == if sizes[i] <= 1 {
                0
            } else if floors[i] < sizes[i] {
                floors[i]
            } else {
                sizes[i]
            },
    ensures
        own == own_shares(floors, sizes),
{
    assert(own =~= own_shares(floors, sizes));
}

/// The types contribute as many tokens as are wanted, none more than it has. They do so from the
/// front: a type whose share (its whole part, cut to the tokens that it has; none for a single
/// token) still fits contributes it at least; the first that does not fit fills up what is left; and
/// those behind it contribute nothing.
pub proof fn shares_are_met_from_the_front(
    floors: Seq<usize>,
    sizes: Seq<usize>,
    remainders: Seq<u64>,
    wanted: int,
    counts: Seq<usize>,
    own: Seq<usize>,
    i: int,
)
    requires
        sizes.len() == floors.len() == own.len(),
        0 <= wanted <= usize::MAX,
        is_reconciled(floors, sizes, remainders, wanted, counts),
        forall|j: int|
            0 <= j < own.len() ==> (#[trigger] own[j]) == if sizes[j] <= 1 {
                0
            } else if floors[j] < sizes[j] {
                floors[j]
            } else {
                sizes[j]
            },
        0 <= i < floors.len(),
    ensures
        counts.len() == floors.len(),
        counts.fold_left(0int, |sum: int, c: usize| sum + c) == wanted,
        counts[i] <= sizes[i],
        ({
            let before = own.take(i).fold_left(0int, |sum: int, c: usize| sum + c);
            &&& before + own[i] <= wanted ==> counts[i] >= own[i]
            &&& before < wanted < before + own[i] ==> counts[i] == wanted - before
            &&& before >= wanted && own[i] > 0 ==> counts[i] == 0
        }),
{
    let n = floors.len() as int;
    lemma_own(floors, sizes, own);
    let least = least_shares(floors, sizes, wanted);
    crate::rows::total_adds_up(own, i);
    crate::rows::total_adds_up(counts, n);
    assert(counts.take(n) =~= counts);
    assert(least[i] <= counts[i] <= sizes[i]);
    if total(own, i) + own[i] > wanted {
        lemma_least_shares(floors, sizes, wanted, n);
        lemma_total_grows(own, i + 1, n);
        assert forall|j: int| 0 <= j < n implies #[trigger] least[j] <= counts[j] by {
            assert(least[j] <= counts[j]);
        }
        lemma_total_at_most(least, counts, n);
        assert(least[i] == counts[i]);
    }
}

/// What the shares leave open is given in turn. If one type gives more than its share while another
/// still has tokens, then it is no single token unless the other is; and among types with several
/// tokens, or among single tokens, it has given at most one more beyond its share than the other,
/// and that only where its remainder is larger, or as large and the type comes first.
pub proof fn the_rest_is_given_in_turn(
    floors: Seq<usize>,
    sizes: Seq<usize>,
    remainders: Seq<u64>,
    wanted: int,
    counts: Seq<usize>,
    own: Seq<usize>,
    i: int,
    j: int,
)
    requires
        sizes.len() == floors.len() == own.len() == remainders.len(),
        is_reconciled(floors, sizes, remainders, wanted, counts),
        forall|h: int|
            0 <= h < own.len() ==> (#[trigger] own[h]) == if sizes[h] <= 1 {
                0
            } else if floors[h] < sizes[h] {
                floors[h]
            } else {
                sizes[h]
            },
        own.fold_left(0int, |sum: int, c: usize| sum + c) <= wanted,
        0 <= i < floors.len(),
        0 <= j < floors.len(),
        counts[i] > own[i],
        counts[j] < sizes[j],
    ensures
        sizes[i] <= 1 ==> sizes[j] <= 1,
        (sizes[i] <= 1) == (sizes[j] <= 1) ==> counts[i] - own[i] <= counts[j] - own[j] + 1,
        (sizes[i] <= 1) == (sizes[j] <= 1) && counts[i] - own[i] > counts[j] - own[j] ==> remainders[i]
            > remainders[j] || (remainders[i] == remainders[j] && i < j),
{
    let n = floors.len() as int;
    lemma_own(floors, sizes, own);
    crate::rows::total_adds_up(own, n);
    assert(own.take(n) =~= own);
    let least = least_shares(floors, sizes, wanted);
    lemma_total_grows(own, i + 1, n);
    lemma_total_grows(own, j + 1, n);
    assert(least[i] == own[i] && least[j] == own[j]);
    assert(in_turn(remainder_keys(remainders), sizes, least, counts, i, j));
}

/// A sample holds a token exactly if it is among the first tokens of some type, as many as that type
/// contributes; and its tokens ascend.
pub proof fn samples_are_of_the_fronts(
    sample: Seq<usize>,
    tokens: Seq<Vec<usize>>,
    counts: Seq<usize>,
    token: usize,
    i: int,
    j: int,
)
    requires
        is_sample_of(sample, tokens, counts),
        counts.len() == tokens.len(),
    ensures
        sample.contains(token) <==> exists|g: int, p: int|
            0 <= g < tokens.len() && 0 <= p < counts[g] && p < tokens[g]@.len()
                && #[trigger] tokens[g]@[p] == token,
        0 <= i < j < sample.len() ==> sample[i] < sample[j],
{
    if sample.contains(token) {
        assert(is_given(tokens, counts, tokens.len() as int, token));
        let g = choose|g: int|
            0 <= g < tokens.len() && front((#[trigger] tokens[g])@, counts[g] as int).contains(
                token,
            );
        let given = front(tokens[g]@, counts[g] as int);
        let p = choose|p: int| 0 <= p < given.len() && given[p] == token;
        assert(tokens[g]@[p] == token);
    }
    if exists|g: int, p: int|
        0 <= g < tokens.len() && 0 <= p < counts[g] && p < tokens[g]@.len()
            && #[trigger] tokens[g]@[p] == token {
        let (g, p) = choose|g: int, p: int|
            0 <= g < tokens.len() && 0 <= p < counts[g] && p < tokens[g]@.len()
                && #[trigger] tokens[g]@[p] == token;
        let given = front(tokens[g]@, counts[g] as int);
        assert(given[p] == token);
        assert(given.contains(token));
        assert(is_given(tokens, counts, tokens.len() as int, token));
    }
}

/// A sample by type is made of tokens of the types, each once, and holds of each type exactly as
/// many as it contributes.
pub proof fn types_give_what_they_contribute(
    groups: Seq<TokenGroup>,
    floors: Seq<usize>,
    remainders: Seq<u64>,
    wanted: int,
    sample: Seq<usize>,
    counts: Seq<usize>,
    sizes: Seq<usize>,
    g: int,
    i: int,
)
    requires
        floors.len() == groups.len() == sizes.len(),
        forall|h: int| 0 <= h < sizes.len() ==> (#[trigger] sizes[h]) == groups[h].indices@.len(),
        forall|a: int, j: int, b: int, k: int|
            0 <= a < groups.len() && 0 <= j < groups[a].indices@.len() && 0 <= b < groups.len() && 0
                <= k < groups[b].indices@.len() && (a != b || j != k) ==> (
            #[trigger] groups[a].indices@[j]) != (#[trigger] groups[b].indices@[k]),
        is_sample_by_type(groups, floors, remainders, wanted, sample),
        is_reconciled(floors, sizes, remainders, wanted, counts),
        0 <= g < groups.len(),
        0 <= i < sample.len(),
    ensures
        ({
            let given = Set::new(
                |token: usize| sample.contains(token) && groups[g].indices@.contains(token),
            );
            given.finite() && given.len() == counts[g]
        }),
        exists|h: int|
            0 <= h < groups.len() && (#[trigger] groups[h]).indices@.contains(sample[i]),
        i + 1 < sample.len() ==> sample[i] < sample[i + 1],
{
    broadcast use vstd::seq_lib::group_to_multiset_ensures;

    assert(sizes =~= group_sizes(groups));
    let (same, shuffled) = choose|same: Seq<usize>, shuffled: Seq<Vec<usize>>|
        #![trigger is_sample_of(sample, shuffled, same)]
        is_reconciled(floors, group_sizes(groups), remainders, wanted, same) && are_shuffles(
            groups,
            shuffled,
        ) && is_sample_of(sample, shuffled, same);
    reconciled_is_unique(floors, sizes, remainders, wanted, counts, same);
    assert(apart(groups));
    lemma_shuffles_differ(groups, shuffled);
    assert forall|h: int| 0 <= h < groups.len() implies (#[trigger] shuffled[h])@.len()
        == groups[h].indices@.len() && shuffled[h]@.no_duplicates() && (forall|j: int|
        0 <= j < shuffled[h]@.len() ==> groups[h].indices@.contains(#[trigger] shuffled[h]@[j])) by {
        lemma_group_no_duplicates(groups, h);
        assert(shuffled[h]@.to_multiset() == groups[h].indices@.to_multiset());
        assert(shuffled[h]@.to_multiset().len() == shuffled[h]@.len());
        assert(groups[h].indices@.to_multiset().len() == groups[h].indices@.len());
        lemma_shuffle(groups[h], shuffled[h]@);
    }
    let given = Set::new(
        |token: usize| sample.contains(token) && groups[g].indices@.contains(token),
    );
    let here = front(shuffled[g]@, counts[g] as int);
    assert(counts[g] <= sizes[g]);
    assert(here.len() == counts[g]);
    assert(here =~= shuffled[g]@.take(counts[g] as int));
    assert forall|token: usize| given.contains(token) <==> here.to_set().contains(token) by {
        samples_are_of_the_fronts(sample, shuffled, counts, token, 0, 0);
        if given.contains(token) {
            let (h, p) = choose|h: int, p: int|
                0 <= h < shuffled.len() && 0 <= p < counts[h] && p < shuffled[h]@.len()
                    && #[trigger] shuffled[h]@[p] == token;
            let j = choose|j: int| 0 <= j < groups[g].indices@.len() && groups[g].indices@[j] == token;
            assert(groups[h].indices@.contains(shuffled[h]@[p]));
            let k = choose|k: int| 0 <= k < groups[h].indices@.len() && groups[h].indices@[k] == token;
            assert(h == g);
            assert(here[p] == token);
        }
        if here.contains(token) {
            let p = choose|p: int| 0 <= p < here.len() && here[p] == token;
            assert(shuffled[g]@[p] == token);
            assert(groups[g].indices@.contains(shuffled[g]@[p]));
        }
    }
    assert(given =~= here.to_set());
    assert(here.no_duplicates()) by {
        assert forall|a: int, b: int| 0 <= a < here.len() && 0 <= b < here.len() && a != b implies here[a]
            != here[b] by {
            assert(shuffled[g]@[a] != shuffled[g]@[b]);
        }
    }
    here.unique_seq_to_set();
    samples_are_of_the_fronts(sample, shuffled, counts, sample[i], i, i + 1);
    assert(sample.contains(sample[i]));
    let (h, p) = choose|h: int, p: int|
        0 <= h < shuffled.len() && 0 <= p < counts[h] && p < shuffled[h]@.len()
            && #[trigger] shuffled[h]@[p] == sample[i];
    assert(groups[h].indices@.contains(shuffled[h]@[p]));
}

/// A plan takes all tokens exactly if no fewer are asked for than there are; else it wants as many
/// as are asked for, but no more than have a type, from the groups of the types.
pub proof fn plans_want_what_is_asked_for(
    token_ids: Seq<usize>,
    n_tokens: int,
    pq_sample_size: int,
    plan: SamplePlan,
)
    requires
        is_plan(token_ids, n_tokens, pq_sample_size, plan),
    ensures
        plan is All <==> pq_sample_size >= n_tokens,
        plan matches SamplePlan::ByType { groups, wanted } ==> wanted <= pq_sample_size && wanted
            <= token_ids.len() && (wanted == pq_sample_size || wanted == token_ids.len())
            && is_grouping(token_ids, groups@),
{
}

} // verus!
