//! Vectors laid out one behind another in a flat buffer.
//!
//! Vector `i` of a buffer of half-precision bit patterns is its `i`-th run of `dim` values.
use vstd::prelude::*;

verus! {

/// Vector `i` of the buffer.
pub open spec fn row(data: Seq<u16>, dim: int, i: int) -> Seq<u16> {
    data.subrange(i * dim, i * dim + dim)
}

/// The vectors at the given positions, one behind another.
pub open spec fn gathered(data: Seq<u16>, dim: int, indices: Seq<usize>) -> Seq<u16>
    decreases indices.len(),
{
    if indices.len() == 0 {
        Seq::empty()
    } else {
        gathered(data, dim, indices.drop_last()) + row(data, dim, indices.last() as int)
    }
}

/// Every position names a whole vector of a buffer that holds `n` of them.
pub open spec fn in_rows(indices: Seq<usize>, n: int) -> bool {
    forall|j: int| 0 <= j < indices.len() ==> (#[trigger] indices[j]) < n
}

pub proof fn lemma_row_bounds(dim: int, i: int, n: int)
    requires
        0 <= i < n,
        0 <= dim,
    ensures
        0 <= i * dim,
        i * dim + dim <= n * dim,
{
    assert(0 <= i * dim && i * dim + dim <= n * dim) by (nonlinear_arith)
        requires
            0 <= i < n,
            0 <= dim,
    ;
}

/// A buffer of `n` vectors of `dim` values holds `n`, and each lies in it.
pub proof fn lemma_whole_rows(len: int, dim: int)
    requires
        dim > 0,
        len >= 0,
    ensures
        0 <= (len / dim) * dim <= len,
        len % dim == 0 ==> (len / dim) * dim == len,
{
    vstd::arithmetic::div_mod::lemma_fundamental_div_mod(len, dim);
    assert((len / dim) * dim == dim * (len / dim)) by (nonlinear_arith);
    assert(len / dim >= 0) by (nonlinear_arith)
        requires
            dim > 0,
            len >= 0,
    ;
    assert(0 <= (len / dim) * dim) by (nonlinear_arith)
        requires
            dim > 0,
            len / dim >= 0,
    ;
}

/// Gathering gives as many vectors as there are positions, each the one at its position.
pub proof fn gathered_rows(data: Seq<u16>, dim: int, indices: Seq<usize>)
    requires
        dim > 0,
        in_rows(indices, data.len() as int / dim),
    ensures
        gathered(data, dim, indices).len() == indices.len() * dim,
        forall|j: int|
            0 <= j < indices.len() ==> #[trigger] row(gathered(data, dim, indices), dim, j) == row(
                data,
                dim,
                indices[j] as int,
            ),
    decreases indices.len(),
{
    let all = gathered(data, dim, indices);
    if indices.len() > 0 {
        let front = indices.drop_last();
        let n = data.len() as int / dim;
        gathered_rows(data, dim, front);
        let before = gathered(data, dim, front);
        let last = indices.last() as int;
        lemma_row_bounds(dim, last, n);
        lemma_whole_rows(data.len() as int, dim);
        assert(indices.len() * dim == front.len() * dim + dim) by (nonlinear_arith)
            requires
                indices.len() == front.len() + 1,
        ;
        assert forall|j: int| 0 <= j < indices.len() implies #[trigger] row(all, dim, j) == row(
            data,
            dim,
            indices[j] as int,
        ) by {
            if j < front.len() {
                lemma_row_bounds(dim, j, front.len() as int);
                assert(row(all, dim, j) =~= row(before, dim, j));
                assert(front[j] == indices[j]);
            } else {
                assert(row(all, dim, j) =~= row(data, dim, last));
            }
        }
    } else {
        assert(indices.len() * dim == 0) by (nonlinear_arith)
            requires
                indices.len() == 0,
        ;
    }
}

/// Appends vector `i` of `data` to `out`.
pub(crate) fn push_row(out: &mut Vec<u16>, data: &[u16], dim: usize, i: usize)
    requires
        (i + 1) * dim <= data@.len(),
    ensures
        final(out)@ == old(out)@ + row(data@, dim as int, i as int),
{
    assert(i * dim + dim == (i + 1) * dim && 0 <= i * dim) by (nonlinear_arith);
    assert(data.len() == data@.len());
    let start: usize = i * dim;
    let mut j: usize = 0;
    while j < dim
        invariant
            j <= dim,
            start == i * dim,
            start + dim <= data@.len(),
            data@.len() <= usize::MAX,
            out@ == old(out)@ + data@.subrange(start as int, start + j),
        decreases dim - j,
    {
        out.push(data[start + j]);
        j += 1;
        assert(out@ =~= old(out)@ + data@.subrange(start as int, start + j));
    }
}

/// The vectors at the given positions, one behind another.
pub fn gather_rows(data: &[u16], dim: usize, indices: &[usize]) -> (r: Vec<u16>)
    requires
        dim > 0,
        in_rows(indices@, data@.len() as int / dim as int),
    ensures
        r@ == gathered(data@, dim as int, indices@),
{
    let mut r: Vec<u16> = Vec::new();
    let mut j: usize = 0;
    while j < indices.len()
        invariant
            j <= indices@.len(),
            dim > 0,
            in_rows(indices@, data@.len() as int / dim as int),
            r@ == gathered(data@, dim as int, indices@.take(j as int)),
        decreases indices@.len() - j,
    {
        proof {
            let n = data@.len() as int / dim as int;
            assert(indices@[j as int] < n);
            lemma_row_bounds(dim as int, indices@[j as int] as int, n);
            lemma_whole_rows(data@.len() as int, dim as int);
            let i = indices@[j as int];
            assert((i + 1) * dim == i * dim + dim) by (nonlinear_arith);
            assert(indices@.take(j + 1).drop_last() =~= indices@.take(j as int));
        }
        push_row(&mut r, data, dim, indices[j]);
        j += 1;
    }
    assert(indices@.take(j as int) =~= indices@);
    r
}

/// Every position below `n`, in order.
pub open spec fn every_row(n: int) -> Seq<usize> {
    Seq::new(n as nat, |i: int| i as usize)
}

/// Every position below `n`, in order.
pub fn all_rows(n: usize) -> (all: Vec<usize>)
    ensures
        all@ == every_row(n as int),
{
    let mut all: Vec<usize> = Vec::with_capacity(n);
    let mut i: usize = 0;
    while i < n
        invariant
            i <= n,
            all@ == every_row(i as int),
        decreases n - i,
    {
        all.push(i);
        i += 1;
        assert(all@ =~= every_row(i as int));
    }
    all
}

/// The sum of the first `n` numbers.
pub open spec fn total(counts: Seq<usize>, n: int) -> int
    decreases n,
{
    if n <= 0 {
        0
    } else {
        total(counts, n - 1) + counts[n - 1]
    }
}

pub proof fn lemma_total_grows(counts: Seq<usize>, m: int, n: int)
    requires
        0 <= m <= n,
    ensures
        0 <= total(counts, m) <= total(counts, n),
    decreases n,
{
    if m < n {
        lemma_total_grows(counts, m, n - 1);
    } else if n > 0 {
        lemma_total_grows(counts, n - 1, n - 1);
    }
}

/// What changing one number does to the sum.
pub proof fn lemma_total_update(counts: Seq<usize>, i: int, v: usize, n: int)
    requires
        0 <= i < counts.len(),
        0 <= n <= counts.len(),
    ensures
        total(counts.update(i, v), n) == total(counts, n) + (if i < n {
            v - counts[i]
        } else {
            0
        }),
    decreases n,
{
    if n > 0 {
        lemma_total_update(counts, i, v, n - 1);
    }
}

/// The sum is what adding up one number after another gives.
pub proof fn total_adds_up(counts: Seq<usize>, n: int)
    requires
        0 <= n <= counts.len(),
    ensures
        total(counts, n) == counts.take(n).fold_left(0int, |sum: int, c: usize| sum + c),
    decreases n,
{
    let add = |sum: int, c: usize| sum + c;
    reveal(Seq::fold_left);
    if n > 0 {
        total_adds_up(counts, n - 1);
        assert(counts.take(n).drop_last() =~= counts.take(n - 1));
    }
}

/// Value `d` of the `j`-th gathered vector is value `d` of the vector at the `j`-th position.
pub proof fn gathered_values(data: Seq<u16>, dim: int, indices: Seq<usize>, j: int, d: int)
    requires
        dim > 0,
        forall|i: int| 0 <= i < indices.len() ==> (#[trigger] indices[i]) < data.len() as int / dim,
        0 <= j < indices.len(),
        0 <= d < dim,
    ensures
        gathered(data, dim, indices).len() == indices.len() * dim,
        gathered(data, dim, indices)[j * dim + d] == data[indices[j] * dim + d],
        row(data, dim, indices[j] as int).len() == dim,
        row(data, dim, indices[j] as int)[d] == data[indices[j] * dim + d],
        in_rows(indices, data.len() as int / dim),
{
    gathered_rows(data, dim, indices);
    let all = gathered(data, dim, indices);
    let n = data.len() as int / dim;
    lemma_row_bounds(dim, j, indices.len() as int);
    lemma_row_bounds(dim, indices[j] as int, n);
    lemma_whole_rows(data.len() as int, dim);
    assert(row(all, dim, j)[d] == all[j * dim + d]);
    assert(row(all, dim, j) == row(data, dim, indices[j] as int));
}

/// Every position is listed, each at its own place.
pub proof fn every_row_is_listed(n: int, i: int)
    requires
        0 <= i < n <= usize::MAX,
    ensures
        every_row(n).len() == n,
        every_row(n)[i] == i,
{
}

} // verus!
