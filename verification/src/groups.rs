//! Vectors grouped by token type.
#[allow(unused_imports)]
use crate::order::{comes_before, is_stable_order, lemma_stable_order_covers};
use crate::order::sort_positions;
#[allow(unused_imports)]
use crate::rows::lemma_total_update;
use crate::rows::total;
use std::collections::HashMap;
use vstd::prelude::*;

verus! {

/// The vectors of one token type.
#[derive(Debug)]
pub struct TokenGroup {
    pub token_id: usize,
    /// Their positions, ascending.
    pub indices: Vec<usize>,
}

/// The positions below `n` whose token type is `token`, ascending.
pub open spec fn positions_of(token_ids: Seq<usize>, token: usize, n: int) -> Seq<usize>
    decreases n,
{
    if n <= 0 {
        Seq::empty()
    } else {
        let before = positions_of(token_ids, token, n - 1);
        if token_ids[n - 1] == token {
            before.push((n - 1) as usize)
        } else {
            before
        }
    }
}

/// Some group is that of the token type.
pub open spec fn has_group(groups: Seq<TokenGroup>, token: usize) -> bool {
    exists|g: int| 0 <= g < groups.len() && (#[trigger] groups[g]).token_id == token
}

/// One group for each token type that occurs, by ascending token id.
pub open spec fn is_grouping(token_ids: Seq<usize>, groups: Seq<TokenGroup>) -> bool {
    &&& forall|g: int, h: int|
        0 <= g < h < groups.len() ==> (#[trigger] groups[g]).token_id < (
        #[trigger] groups[h]).token_id
    &&& forall|g: int|
        0 <= g < groups.len() ==> (#[trigger] groups[g]).indices@ == positions_of(
            token_ids,
            groups[g].token_id,
            token_ids.len() as int,
        ) && groups[g].indices@.len() > 0
    &&& forall|i: int|
        0 <= i < token_ids.len() ==> has_group(groups, #[trigger] token_ids[i])
}

/// The positions of a token type are ascending, and are exactly those at which it stands.
pub proof fn positions_are_ascending(token_ids: Seq<usize>, token: usize, n: int)
    requires
        0 <= n <= token_ids.len() <= usize::MAX,
    ensures
        positions_of(token_ids, token, n).len() <= n,
        forall|j: int|
            0 <= j < positions_of(token_ids, token, n).len() ==> (#[trigger] positions_of(
                token_ids,
                token,
                n,
            )[j]) < n && token_ids[positions_of(token_ids, token, n)[j] as int] == token,
        forall|j: int, k: int|
            0 <= j < k < positions_of(token_ids, token, n).len() ==> (#[trigger] positions_of(
                token_ids,
                token,
                n,
            )[j]) < #[trigger] positions_of(token_ids, token, n)[k],
        forall|i: int|
            0 <= i < n && #[trigger] token_ids[i] == token ==> positions_of(
                token_ids,
                token,
                n,
            ).contains(i as usize),
    decreases n,
{
    if n > 0 {
        positions_are_ascending(token_ids, token, n - 1);
        let before = positions_of(token_ids, token, n - 1);
        let all = positions_of(token_ids, token, n);
        assert forall|i: int| 0 <= i < n && #[trigger] token_ids[i] == token implies all.contains(
            i as usize,
        ) by {
            if i < n - 1 {
                let j = choose|j: int| 0 <= j < before.len() && before[j] == i as usize;
                assert(all[j] == i as usize);
            } else {
                assert(all[before.len() as int] == i as usize);
            }
        }
    }
}

/// There is only one way to group: the same token types, in the same order, with the same
/// vectors.
pub proof fn grouping_is_unique(token_ids: Seq<usize>, a: Seq<TokenGroup>, b: Seq<TokenGroup>)
    requires
        token_ids.len() <= usize::MAX,
        is_grouping(token_ids, a),
        is_grouping(token_ids, b),
    ensures
        a.len() == b.len(),
        forall|g: int|
            0 <= g < a.len() ==> (#[trigger] a[g]).token_id == (#[trigger] b[g]).token_id
                && a[g].indices@ == b[g].indices@,
{
    if a.len() <= b.len() {
        lemma_same_front(token_ids, a, b, a.len() as int);
        if a.len() < b.len() {
            lemma_occurs(token_ids, b, a.len() as int);
            lemma_place(token_ids, b, a, a.len() as int, a.len() as int);
        }
    } else {
        lemma_same_front(token_ids, b, a, b.len() as int);
        lemma_place(token_ids, a, b, b.len() as int, b.len() as int);
    }
}

/// The token type of a group occurs.
proof fn lemma_occurs(token_ids: Seq<usize>, a: Seq<TokenGroup>, g: int)
    requires
        token_ids.len() <= usize::MAX,
        is_grouping(token_ids, a),
        0 <= g < a.len(),
    ensures
        exists|i: int| 0 <= i < token_ids.len() && #[trigger] token_ids[i] == a[g].token_id,
{
    let t = a[g].token_id;
    positions_are_ascending(token_ids, t, token_ids.len() as int);
    let first = positions_of(token_ids, t, token_ids.len() as int)[0];
    assert(a[g].indices@[0] == first);
    assert(token_ids[first as int] == t);
}

/// Group `g` of `a` stands in `b` no earlier than `n`, where the first `n` agree.
proof fn lemma_place(
    token_ids: Seq<usize>,
    a: Seq<TokenGroup>,
    b: Seq<TokenGroup>,
    g: int,
    n: int,
)
    requires
        token_ids.len() <= usize::MAX,
        is_grouping(token_ids, a),
        is_grouping(token_ids, b),
        0 <= n <= g < a.len(),
        n <= b.len(),
        forall|h: int| 0 <= h < n ==> (#[trigger] a[h]).token_id == (#[trigger] b[h]).token_id,
    ensures
        n < b.len(),
        b[n].token_id <= a[g].token_id,
{
    lemma_occurs(token_ids, a, g);
    let i = choose|i: int| 0 <= i < token_ids.len() && #[trigger] token_ids[i] == a[g].token_id;
    assert(has_group(b, token_ids[i]));
    let h = choose|h: int| 0 <= h < b.len() && (#[trigger] b[h]).token_id == token_ids[i];
    if h < n {
        assert(a[h].token_id == b[h].token_id);
        assert(a[h].token_id < a[g].token_id);
    } else if n < h {
        assert(b[n].token_id < b[h].token_id);
    }
}

proof fn lemma_same_front(token_ids: Seq<usize>, a: Seq<TokenGroup>, b: Seq<TokenGroup>, n: int)
    requires
        token_ids.len() <= usize::MAX,
        is_grouping(token_ids, a),
        is_grouping(token_ids, b),
        0 <= n <= a.len(),
        n <= b.len(),
    ensures
        forall|h: int| 0 <= h < n ==> (#[trigger] a[h]).token_id == (#[trigger] b[h]).token_id,
    decreases n,
{
    if n > 0 {
        lemma_same_front(token_ids, a, b, n - 1);
        lemma_place(token_ids, a, b, n - 1, n - 1);
        lemma_place(token_ids, b, a, n - 1, n - 1);
    }
}

/// Vectors of different groups, or different ones of one group, stand at different positions.
pub proof fn groups_are_apart(
    token_ids: Seq<usize>,
    groups: Seq<TokenGroup>,
    g: int,
    j: int,
    h: int,
    k: int,
)
    requires
        token_ids.len() <= usize::MAX,
        is_grouping(token_ids, groups),
        0 <= g < groups.len(),
        0 <= h < groups.len(),
        0 <= j < groups[g].indices@.len(),
        0 <= k < groups[h].indices@.len(),
    ensures
        g != h || j != k ==> groups[g].indices@[j] != groups[h].indices@[k],
        groups[g].indices@[j] < token_ids.len(),
{
    let n = token_ids.len() as int;
    positions_are_ascending(token_ids, groups[g].token_id, n);
    positions_are_ascending(token_ids, groups[h].token_id, n);
    assert(groups[g].indices@[j] == positions_of(token_ids, groups[g].token_id, n)[j]);
    assert(groups[h].indices@[k] == positions_of(token_ids, groups[h].token_id, n)[k]);
    if g == h {
        if j < k {
            assert(groups[g].indices@[j] < groups[g].indices@[k]);
        } else if k < j {
            assert(groups[g].indices@[k] < groups[g].indices@[j]);
        }
    }
}

/// Every vector stands in the group of its token type.
pub proof fn every_vector_is_grouped(token_ids: Seq<usize>, groups: Seq<TokenGroup>, i: int)
    requires
        token_ids.len() <= usize::MAX,
        is_grouping(token_ids, groups),
        0 <= i < token_ids.len(),
    ensures
        exists|g: int, j: int|
            0 <= g < groups.len() && 0 <= j < groups[g].indices@.len() && (
            #[trigger] groups[g].indices@[j]) == i && groups[g].token_id == token_ids[i],
{
    assert(has_group(groups, token_ids[i]));
    let g = choose|g: int| 0 <= g < groups.len() && (#[trigger] groups[g]).token_id == token_ids[i];
    positions_are_ascending(token_ids, token_ids[i], token_ids.len() as int);
    assert(groups[g].indices@.contains(i as usize));
    let j = choose|j: int| 0 <= j < groups[g].indices@.len() && groups[g].indices@[j] == i as usize;
    assert(groups[g].indices@[j] == i);
}

/// How many vectors each group has.
pub open spec fn group_sizes(groups: Seq<TokenGroup>) -> Seq<usize> {
    Seq::new(groups.len(), |g: int| groups[g].indices.len())
}

/// The groups have as many vectors as there are.
pub proof fn group_sizes_add_up(token_ids: Seq<usize>, groups: Seq<TokenGroup>)
    requires
        token_ids.len() <= usize::MAX,
        is_grouping(token_ids, groups),
    ensures
        total(group_sizes(groups), groups.len() as int) == token_ids.len(),
{
    let n = token_ids.len() as int;
    lemma_sizes_before(token_ids, groups, n);
    assert forall|g: int| 0 <= g < groups.len() implies group_sizes(groups)[g] == sizes_before(
        token_ids,
        groups,
        n,
    )[g] by {
        assert(groups[g].indices@ == positions_of(token_ids, groups[g].token_id, n));
    }
    assert(group_sizes(groups) =~= sizes_before(token_ids, groups, n));
}

/// How many of the first `n` vectors each group has.
spec fn sizes_before(token_ids: Seq<usize>, groups: Seq<TokenGroup>, n: int) -> Seq<usize> {
    Seq::new(
        groups.len(),
        |g: int| positions_of(token_ids, groups[g].token_id, n).len() as usize,
    )
}

proof fn lemma_sizes_before(token_ids: Seq<usize>, groups: Seq<TokenGroup>, n: int)
    requires
        token_ids.len() <= usize::MAX,
        is_grouping(token_ids, groups),
        0 <= n <= token_ids.len(),
    ensures
        total(sizes_before(token_ids, groups, n), groups.len() as int) == n,
    decreases n,
{
    if n == 0 {
        lemma_total_of_none(sizes_before(token_ids, groups, 0), groups.len() as int);
    } else {
        lemma_sizes_before(token_ids, groups, n - 1);
        let before = sizes_before(token_ids, groups, n - 1);
        let token = token_ids[n - 1];
        assert(has_group(groups, token_ids[n - 1]));
        let own = choose|g: int| 0 <= g < groups.len() && (#[trigger] groups[g]).token_id == token;
        positions_are_ascending(token_ids, token, n - 1);
        let more = (before[own] + 1) as usize;
        assert forall|g: int| 0 <= g < groups.len() implies sizes_before(token_ids, groups, n)[g]
            == before.update(own, more)[g] by {
            if g < own {
                assert(groups[g].token_id < groups[own].token_id);
            } else if own < g {
                assert(groups[own].token_id < groups[g].token_id);
            }
        }
        assert(sizes_before(token_ids, groups, n) =~= before.update(own, more));
        lemma_total_update(before, own, more, groups.len() as int);
    }
}

proof fn lemma_total_of_none(counts: Seq<usize>, n: int)
    requires
        forall|i: int| 0 <= i < n ==> #[trigger] counts[i] == 0,
    ensures
        total(counts, n) == 0,
    decreases n,
{
    if n > 0 {
        lemma_total_of_none(counts, n - 1);
    }
}

/// The groups in the order in which their token types first occur, before they are sorted.
spec fn is_found(token_ids: Seq<usize>, n: int, found: Seq<TokenGroup>) -> bool {
    &&& forall|g: int, h: int|
        0 <= g < h < found.len() ==> (#[trigger] found[g]).token_id != (#[trigger] found[h]).token_id
    &&& forall|g: int|
        0 <= g < found.len() ==> (#[trigger] found[g]).indices@ == positions_of(
            token_ids,
            found[g].token_id,
            n,
        ) && found[g].indices@.len() > 0
    &&& forall|i: int|
        0 <= i < n ==> has_group(found, #[trigger] token_ids[i])
}

proof fn lemma_absent(token_ids: Seq<usize>, token: usize, n: int)
    requires
        forall|i: int| 0 <= i < n ==> #[trigger] token_ids[i] != token,
    ensures
        positions_of(token_ids, token, n) == Seq::<usize>::empty(),
    decreases n,
{
    if n > 0 {
        lemma_absent(token_ids, token, n - 1);
    }
}

fn find_groups(token_ids: &[usize]) -> (found: Vec<TokenGroup>)
    ensures
        is_found(token_ids@, token_ids@.len() as int, found@),
{
    broadcast use vstd::std_specs::hash::group_hash_axioms;

    let mut slots: HashMap<usize, usize> = HashMap::new();
    let mut found: Vec<TokenGroup> = Vec::new();
    let mut i: usize = 0;
    while i < token_ids.len()
        invariant
            i <= token_ids@.len(),
            is_found(token_ids@, i as int, found@),
            forall|t: usize| #[trigger]
                slots@.contains_key(t) ==> slots@[t] < found@.len()
                    && found@[slots@[t] as int].token_id == t,
            forall|g: int|
                0 <= g < found@.len() ==> slots@.contains_key((#[trigger] found@[g]).token_id)
                    && slots@[found@[g].token_id] == g,
        decreases token_ids@.len() - i,
    {
        broadcast use vstd::std_specs::hash::group_hash_axioms;

        let token: usize = token_ids[i];
        let known: Option<usize> = match slots.get(&token) {
            Some(slot) => Some(*slot),
            None => None,
        };
        let ghost before = found@;
        match known {
            Some(slot) => {
                found[slot].indices.push(i);
                assert forall|j: int| 0 <= j < i + 1 implies has_group(
                    found@,
                    #[trigger] token_ids@[j],
                ) by {
                    if j < i {
                        assert(has_group(before, token_ids@[j]));
                        let g = choose|g: int|
                            0 <= g < before.len() && (#[trigger] before[g]).token_id
                                == token_ids@[j];
                        assert(found@[g].token_id == token_ids@[j]);
                    } else {
                        assert(found@[slot as int].token_id == token_ids@[j]);
                    }
                }
            },
            None => {
                slots.insert(token, found.len());
                let mut indices: Vec<usize> = Vec::new();
                indices.push(i);
                proof {
                    assert forall|j: int| 0 <= j < i implies #[trigger] token_ids@[j] != token by {
                        assert(has_group(before, token_ids@[j]));
                        let g = choose|g: int|
                            0 <= g < before.len() && (#[trigger] before[g]).token_id
                                == token_ids@[j];
                        assert(slots@.contains_key(before[g].token_id));
                    }
                    lemma_absent(token_ids@, token, i as int);
                }
                found.push(TokenGroup { token_id: token, indices });
                assert forall|j: int| 0 <= j < i + 1 implies has_group(
                    found@,
                    #[trigger] token_ids@[j],
                ) by {
                    if j < i {
                        assert(has_group(before, token_ids@[j]));
                        let g = choose|g: int|
                            0 <= g < before.len() && (#[trigger] before[g]).token_id
                                == token_ids@[j];
                        assert(found@[g].token_id == token_ids@[j]);
                    } else {
                        assert(found@[before.len() as int].token_id == token_ids@[j]);
                    }
                }
            },
        }
        i += 1;
    }
    found
}

/// The vectors by token type, the token types ascending.
pub fn group_by_token(token_ids: &[usize]) -> (groups: Vec<TokenGroup>)
    ensures
        is_grouping(token_ids@, groups@),
{
    let mut found: Vec<TokenGroup> = find_groups(token_ids);
    let ghost all = found@;
    let mut keys: Vec<u64> = Vec::with_capacity(found.len());
    let mut g: usize = 0;
    while g < found.len()
        invariant
            g <= found@.len(),
            found@ == all,
            keys@.len() == g,
            forall|h: int| 0 <= h < g ==> #[trigger] keys@[h] == all[h].token_id,
        decreases found@.len() - g,
    {
        keys.push(found[g].token_id as u64);
        g += 1;
    }
    let order: Vec<usize> = sort_positions(&keys);
    let mut groups: Vec<TokenGroup> = Vec::with_capacity(found.len());
    let mut j: usize = 0;
    while j < order.len()
        invariant
            j <= order@.len(),
            order@.len() == all.len() == found@.len() == keys@.len(),
            is_stable_order(keys@, order@),
            groups@.len() == j,
            forall|h: int| 0 <= h < j ==> #[trigger] groups@[h] == all[order@[h] as int],
            forall|h: int|
                j <= h < order@.len() ==> found@[#[trigger] order@[h] as int]
                    == all[order@[h] as int],
        decreases order@.len() - j,
    {
        let slot: usize = order[j];
        let mut indices: Vec<usize> = Vec::new();
        let token_id: usize = found[slot].token_id;
        std::mem::swap(&mut indices, &mut found[slot].indices);
        groups.push(TokenGroup { token_id, indices });
        j += 1;
    }
    proof {
        assert forall|a: int, b: int| 0 <= a < b < groups@.len() implies (
        #[trigger] groups@[a]).token_id < (#[trigger] groups@[b]).token_id by {
            assert(comes_before(keys@, order@[a] as int, order@[b] as int));
            let (x, y) = (order@[a] as int, order@[b] as int);
            assert(all[x].token_id != all[y].token_id);
        }
        assert(keys.len() == all.len());
        assert forall|i: int| 0 <= i < token_ids@.len() implies has_group(
            groups@,
            #[trigger] token_ids@[i],
        ) by {
            let g = choose|g: int|
                0 <= g < all.len() && (#[trigger] all[g]).token_id == token_ids@[i];
            lemma_stable_order_covers(keys@, order@, g as usize);
            let h = choose|h: int| 0 <= h < order@.len() && order@[h] == g as usize;
            assert(groups@[h].token_id == token_ids@[i]);
        }
    }
    groups
}

/// A grouping, group by group: the token ids ascend; a group holds the positions of its token type,
/// all of them and no others, ascending.
pub proof fn grouping_holds_positions(token_ids: Seq<usize>, groups: Seq<TokenGroup>)
    requires
        token_ids.len() <= usize::MAX,
        is_grouping(token_ids, groups),
    ensures
        forall|g: int, h: int|
            0 <= g < h < groups.len() ==> (#[trigger] groups[g]).token_id < (
            #[trigger] groups[h]).token_id,
        forall|g: int, j: int, k: int|
            0 <= g < groups.len() && 0 <= j < k < groups[g].indices@.len() ==> (
            #[trigger] groups[g].indices@[j]) < (#[trigger] groups[g].indices@[k]),
        forall|g: int, i: usize|
            0 <= g < groups.len() ==> (#[trigger] groups[g].indices@.contains(i) <==> i
                < token_ids.len() && token_ids[i as int] == groups[g].token_id),
        forall|g: int|
            0 <= g < groups.len() ==> (#[trigger] groups[g]).indices@.len() > 0
                && group_sizes(groups)[g] == groups[g].indices@.len(),
        group_sizes(groups).len() == groups.len(),
{
    let n = token_ids.len() as int;
    assert forall|g: int, j: int, k: int|
        0 <= g < groups.len() && 0 <= j < k < groups[g].indices@.len() implies (
    #[trigger] groups[g].indices@[j]) < (#[trigger] groups[g].indices@[k]) by {
        positions_are_ascending(token_ids, groups[g].token_id, n);
    }
    assert forall|g: int, i: usize| 0 <= g < groups.len() implies (
    #[trigger] groups[g].indices@.contains(i) <==> i < token_ids.len() && token_ids[i as int]
        == groups[g].token_id) by {
        positions_are_ascending(token_ids, groups[g].token_id, n);
        if groups[g].indices@.contains(i) {
            let j = choose|j: int| 0 <= j < groups[g].indices@.len() && groups[g].indices@[j] == i;
            assert(positions_of(token_ids, groups[g].token_id, n)[j] == i);
        }
        if i < token_ids.len() && token_ids[i as int] == groups[g].token_id {
            assert(positions_of(token_ids, groups[g].token_id, n).contains(i as int as usize));
        }
    }
}

} // verus!
