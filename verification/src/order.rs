//! Sorting positions by 64-bit keys.
//!
//! Everything the index ranks (documents by score, token types by id, shares by remainder)
//! is ranked through one stable sort over unsigned keys.
use vstd::prelude::*;

verus! {

/// Position `a` comes strictly before position `b` in the stable order of `keys`:
/// by key, and by position where the keys agree.
pub open spec fn comes_before(keys: Seq<u64>, a: int, b: int) -> bool {
    keys[a] < keys[b] || (keys[a] == keys[b] && a < b)
}

/// `p` lists every position of `keys` exactly once, in the stable order of the keys.
pub open spec fn is_stable_order(keys: Seq<u64>, p: Seq<usize>) -> bool {
    &&& p.len() == keys.len()
    &&& forall|i: int| 0 <= i < p.len() ==> (#[trigger] p[i]) < keys.len()
    &&& forall|i: int, j: int|
        0 <= i < j < p.len() ==> comes_before(keys, #[trigger] p[i] as int, #[trigger] p[j] as int)
}

/// The one listing of the positions of `keys` in stable order.
pub open spec fn stable_order(keys: Seq<u64>) -> Seq<usize> {
    choose|p: Seq<usize>| is_stable_order(keys, p)
}

/// The entries of `items` in the stable order of `keys`.
pub open spec fn in_order<T>(keys: Seq<u64>, items: Seq<T>) -> Seq<T> {
    Seq::new(items.len(), |i: int| items[stable_order(keys)[i] as int])
}

/// A stable order names every position.
pub proof fn lemma_stable_order_covers(keys: Seq<u64>, p: Seq<usize>, x: usize)
    requires
        is_stable_order(keys, p),
        x < keys.len(),
    ensures
        p.contains(x),
{
    let q: Seq<int> = Seq::new(p.len(), |i: int| p[i] as int);
    assert(q.no_duplicates()) by {
        assert forall|i: int, j: int| 0 <= i < q.len() && 0 <= j < q.len() && i != j implies q[i]
            != q[j] by {
            if i < j {
                assert(comes_before(keys, p[i] as int, p[j] as int));
            } else {
                assert(comes_before(keys, p[j] as int, p[i] as int));
            }
        }
    }
    q.unique_seq_to_set();
    let all = vstd::set_lib::set_int_range(0, keys.len() as int);
    vstd::set_lib::lemma_int_range(0, keys.len() as int);
    assert forall|v: int| q.to_set().contains(v) implies all.contains(v) by {
        let i = choose|i: int| 0 <= i < q.len() && q[i] == v;
        assert(p[i] < keys.len());
    }
    vstd::set_lib::lemma_subset_equality(q.to_set(), all);
    assert(all.contains(x as int));
    let i = choose|i: int| 0 <= i < q.len() && q[i] == x;
    assert(p[i] == x);
}

/// Two stable orders of the same keys are the same.
pub proof fn lemma_stable_order_unique(keys: Seq<u64>, p: Seq<usize>, q: Seq<usize>)
    requires
        is_stable_order(keys, p),
        is_stable_order(keys, q),
    ensures
        p == q,
{
    assert forall|i: int| 0 <= i < p.len() implies p[i] == q[i] by {
        lemma_same_at(keys, p, q, i);
    }
    assert(p =~= q);
}

proof fn lemma_same_at(keys: Seq<u64>, p: Seq<usize>, q: Seq<usize>, i: int)
    requires
        is_stable_order(keys, p),
        is_stable_order(keys, q),
        0 <= i < p.len(),
    ensures
        p[i] == q[i],
    decreases i,
{
    assert forall|j: int| 0 <= j < i implies p[j] == q[j] by {
        lemma_same_at(keys, p, q, j);
    }
    lemma_stable_order_covers(keys, q, p[i]);
    lemma_stable_order_covers(keys, p, q[i]);
    let a = choose|a: int| 0 <= a < q.len() && q[a] == p[i];
    let b = choose|b: int| 0 <= b < p.len() && p[b] == q[i];
    if a < i {
        assert(comes_before(keys, p[a] as int, p[i] as int));
    } else if b < i {
        assert(comes_before(keys, q[b] as int, q[i] as int));
    } else if a > i && b > i {
        assert(comes_before(keys, q[i] as int, q[a] as int));
        assert(comes_before(keys, p[i] as int, p[b] as int));
    }
}

/// The keys have a stable order, and `stable_order` is it.
pub proof fn lemma_stable_order_exists(keys: Seq<u64>)
    requires
        keys.len() <= usize::MAX,
    ensures
        is_stable_order(keys, stable_order(keys)),
{
    let p = build_order(keys);
    assert(is_stable_order(keys, p));
}

proof fn build_order(keys: Seq<u64>) -> (p: Seq<usize>)
    requires
        keys.len() <= usize::MAX,
    ensures
        is_stable_order(keys, p),
    decreases keys.len(),
{
    if keys.len() == 0 {
        Seq::empty()
    } else {
        let shorter = keys.drop_last();
        let q = build_order(shorter);
        let x = (keys.len() - 1) as usize;
        let at = end_of_smaller(keys, q, q.len() as int);
        let p = q.insert(at, x);
        assert forall|i: int| 0 <= i < p.len() implies (#[trigger] p[i]) < keys.len() by {
            if i < at {
                assert(p[i] == q[i]);
            } else if i > at {
                assert(p[i] == q[i - 1]);
            }
        }
        assert forall|i: int, j: int| 0 <= i < j < p.len() implies comes_before(
            keys,
            #[trigger] p[i] as int,
            #[trigger] p[j] as int,
        ) by {
            let a = if i < at {
                i
            } else {
                i - 1
            };
            let b = if j < at {
                j
            } else {
                j - 1
            };
            if i != at && j != at {
                assert(p[i] == q[a] && p[j] == q[b]);
                assert(comes_before(shorter, q[a] as int, q[b] as int));
            } else if i == at {
                assert(p[j] == q[b]);
            } else {
                assert(p[i] == q[a]);
            }
        }
        p
    }
}

/// The end of the entries of `q` whose key is no larger than the last of `keys`.
proof fn end_of_smaller(keys: Seq<u64>, q: Seq<usize>, n: int) -> (at: int)
    requires
        keys.len() > 0,
        is_stable_order(keys.drop_last(), q),
        0 <= n <= q.len(),
    ensures
        0 <= at <= n,
        forall|i: int| 0 <= i < at ==> keys[#[trigger] q[i] as int] <= keys.last(),
        forall|i: int| at <= i < n ==> keys[#[trigger] q[i] as int] > keys.last(),
    decreases n,
{
    let shorter = keys.drop_last();
    if n == 0 || keys[q[n - 1] as int] <= keys.last() {
        assert forall|i: int| 0 <= i < n implies keys[#[trigger] q[i] as int] <= keys.last() by {
            if i < n - 1 {
                assert(comes_before(shorter, q[i] as int, q[n - 1] as int));
            }
        }
        n
    } else {
        end_of_smaller(keys, q, n - 1)
    }
}

/// What a sorted stretch of positions looks like: positions of `lo..hi`, in stable order.
spec fn is_sorted_run(keys: Seq<u64>, lo: int, hi: int, p: Seq<usize>) -> bool {
    &&& p.len() == hi - lo
    &&& forall|i: int| 0 <= i < p.len() ==> lo <= #[trigger] p[i] < hi
    &&& forall|i: int, j: int|
        0 <= i < j < p.len() ==> comes_before(keys, #[trigger] p[i] as int, #[trigger] p[j] as int)
}

fn merge_runs(keys: &[u64], left: &Vec<usize>, right: &Vec<usize>, Ghost(lo): Ghost<int>, Ghost(mid): Ghost<int>, Ghost(hi): Ghost<int>) -> (out: Vec<usize>)
    requires
        0 <= lo <= mid <= hi <= keys@.len(),
        is_sorted_run(keys@, lo, mid, left@),
        is_sorted_run(keys@, mid, hi, right@),
    ensures
        is_sorted_run(keys@, lo, hi, out@),
{
    let mut out: Vec<usize> = Vec::with_capacity(left.len());
    let mut i: usize = 0;
    let mut j: usize = 0;
    while i < left.len() || j < right.len()
        invariant
            0 <= lo <= mid <= hi <= keys@.len(),
            is_sorted_run(keys@, lo, mid, left@),
            is_sorted_run(keys@, mid, hi, right@),
            i <= left@.len(),
            j <= right@.len(),
            out@.len() == i + j,
            forall|a: int| 0 <= a < out@.len() ==> lo <= #[trigger] out@[a] < hi,
            forall|a: int, b: int|
                0 <= a < b < out@.len() ==> comes_before(
                    keys@,
                    #[trigger] out@[a] as int,
                    #[trigger] out@[b] as int,
                ),
            forall|a: int, b: int|
                0 <= a < out@.len() && i <= b < left@.len() ==> comes_before(
                    keys@,
                    #[trigger] out@[a] as int,
                    #[trigger] left@[b] as int,
                ),
            forall|a: int, b: int|
                0 <= a < out@.len() && j <= b < right@.len() ==> comes_before(
                    keys@,
                    #[trigger] out@[a] as int,
                    #[trigger] right@[b] as int,
                ),
        decreases left@.len() - i + right@.len() - j,
    {
        let take_left: bool = if i >= left.len() {
            false
        } else if j >= right.len() {
            true
        } else {
            keys[left[i]] <= keys[right[j]]
        };
        if take_left {
            out.push(left[i]);
            i += 1;
        } else {
            out.push(right[j]);
            j += 1;
        }
    }
    out
}

fn sort_run(keys: &[u64], lo: usize, hi: usize) -> (out: Vec<usize>)
    requires
        lo <= hi <= keys@.len(),
    ensures
        is_sorted_run(keys@, lo as int, hi as int, out@),
    decreases hi - lo,
{
    if hi - lo <= 1 {
        let mut out: Vec<usize> = Vec::new();
        if lo < hi {
            out.push(lo);
        }
        out
    } else {
        let mid: usize = lo + (hi - lo) / 2;
        let left = sort_run(keys, lo, mid);
        let right = sort_run(keys, mid, hi);
        merge_runs(keys, &left, &right, Ghost(lo as int), Ghost(mid as int), Ghost(hi as int))
    }
}

/// The positions of `keys` in ascending key order; equal keys keep their positions' order.
pub fn sort_positions(keys: &[u64]) -> (order: Vec<usize>)
    ensures
        is_stable_order(keys@, order@),
        order@ == stable_order(keys@),
{
    let order = sort_run(keys, 0, keys.len());
    proof {
        assert(is_stable_order(keys@, order@));
        lemma_stable_order_unique(keys@, order@, stable_order(keys@));
    }
    order
}

/// A stable order names every position exactly once, by ascending key, and positions of one key
/// ascending; entries in it stand accordingly.
pub proof fn stable_order_sorts<T>(keys: Seq<u64>, items: Seq<T>)
    requires
        keys.len() <= usize::MAX,
        items.len() == keys.len(),
    ensures
        ({
            let p = stable_order(keys);
            &&& p.len() == keys.len()
            &&& forall|i: int| 0 <= i < p.len() ==> (#[trigger] p[i]) < keys.len()
            &&& forall|i: int, j: int|
                0 <= i < j < p.len() ==> #[trigger] p[i] != #[trigger] p[j] && keys[p[i] as int]
                    <= keys[p[j] as int] && (keys[p[i] as int] == keys[p[j] as int] ==> p[i] < p[j])
            &&& forall|x: usize| x < keys.len() ==> #[trigger] p.contains(x)
            &&& in_order(keys, items).len() == items.len()
            &&& forall|i: int|
                0 <= i < items.len() ==> #[trigger] in_order(keys, items)[i] == items[p[i] as int]
        }),
{
    lemma_stable_order_exists(keys);
    let p = stable_order(keys);
    assert(is_stable_order(keys, p));
    assert forall|i: int, j: int| 0 <= i < j < p.len() implies #[trigger] p[i] != #[trigger] p[j]
        && keys[p[i] as int] <= keys[p[j] as int] && (keys[p[i] as int] == keys[p[j] as int]
        ==> p[i] < p[j]) by {
        assert(comes_before(keys, p[i] as int, p[j] as int));
    }
    assert forall|x: usize| x < keys.len() implies #[trigger] p.contains(x) by {
        lemma_stable_order_covers(keys, p, x);
    }
}

/// Whatever is a stable order is that order: each position once, by key, and by position where the
/// keys agree.
pub proof fn stable_orders_sort(keys: Seq<u64>, p: Seq<usize>)
    requires
        keys.len() <= usize::MAX,
        is_stable_order(keys, p),
    ensures
        p.len() == keys.len(),
        forall|i: int| 0 <= i < p.len() ==> (#[trigger] p[i]) < keys.len(),
        forall|i: int, j: int|
            0 <= i < j < p.len() ==> #[trigger] p[i] != #[trigger] p[j] && keys[p[i] as int]
                <= keys[p[j] as int] && (keys[p[i] as int] == keys[p[j] as int] ==> p[i] < p[j]),
{
    assert forall|i: int, j: int| 0 <= i < j < p.len() implies #[trigger] p[i] != #[trigger] p[j]
        && keys[p[i] as int] <= keys[p[j] as int] && (keys[p[i] as int] == keys[p[j] as int]
        ==> p[i] < p[j]) by {
        assert(comes_before(keys, p[i] as int, p[j] as int));
    }
}

} // verus!
