//! The collection that an index is built from, checked for consistency.
use crate::rows::total;
#[allow(unused_imports)]
use crate::rows::{lemma_total_grows, lemma_whole_rows};
#[allow(unused_imports)]
use crate::tachiom::doc_tokens;
use crate::tachiom::is_boundaries;
use vstd::prelude::*;

verus! {

/// Why a collection is refused.
#[derive(Debug, Clone, Copy, PartialEq, Eq, Structural)]
pub enum DatasetError {
    /// There is not one token type per token.
    TokenIdsLength,
    /// A document has a negative length.
    NegativeDoclen,
    /// The document lengths do not add up to the number of tokens.
    DoclensSum,
    /// The documents do not fill the vectors.
    VectorsLength,
}

/// The sum of the first `n` numbers is past the `usize` or not; where it is not, it.
fn checked_total(counts: &[usize]) -> (sum: Option<usize>)
    ensures
        match sum {
            Some(s) => s == total(counts@, counts@.len() as int),
            None => total(counts@, counts@.len() as int) > usize::MAX,
        },
{
    let mut sum: usize = 0;
    let mut i: usize = 0;
    while i < counts.len()
        invariant
            i <= counts@.len(),
            sum == total(counts@, i as int),
        decreases counts@.len() - i,
    {
        proof {
            lemma_total_grows(counts@, i + 1, counts@.len() as int);
        }
        if counts[i] > usize::MAX - sum {
            return None;
        }
        sum += counts[i];
        i += 1;
    }
    Some(sum)
}

/// Where each document starts in a buffer of `dim` values per token, and where the last one ends.
pub open spec fn starts_of(doclens: Seq<usize>, dim: int, offsets: Seq<usize>) -> bool {
    &&& offsets.len() == doclens.len() + 1
    &&& forall|d: int|
        0 <= d <= doclens.len() ==> #[trigger] offsets[d] == total(doclens, d) * dim
}

/// Lays out documents of the given lengths over `n_tokens` tokens.
pub fn document_offsets(n_tokens: usize, dim: usize, doclens: &[usize]) -> (r: Result<
    Vec<usize>,
    DatasetError,
>)
    requires
        n_tokens * dim <= usize::MAX,
        doclens@.len() < usize::MAX,
    ensures
        r is Ok <==> total(doclens@, doclens@.len() as int) == n_tokens,
        match r {
            Ok(offsets) => starts_of(doclens@, dim as int, offsets@) && is_boundaries(offsets@)
                && offsets@.last() == n_tokens * dim,
            Err(e) => e == DatasetError::DoclensSum,
        },
{
    match checked_total(doclens) {
        Some(sum) => {
            if sum != n_tokens {
                return Err(DatasetError::DoclensSum);
            }
        },
        None => {
            return Err(DatasetError::DoclensSum);
        },
    }
    let ghost n = doclens@.len() as int;
    let mut offsets: Vec<usize> = Vec::with_capacity(doclens.len() + 1);
    offsets.push(0);
    let mut end: usize = 0;
    let mut d: usize = 0;
    assert(0 * dim as int == 0) by (nonlinear_arith);
    while d < doclens.len()
        invariant
            d <= doclens@.len() == n,
            n_tokens * dim <= usize::MAX,
            total(doclens@, n) == n_tokens,
            end == total(doclens@, d as int) * dim,
            offsets@.len() == d + 1,
            forall|e: int|
                0 <= e <= d ==> #[trigger] offsets@[e] == total(doclens@, e) * dim,
        decreases doclens@.len() - d,
    {
        proof {
            lemma_total_grows(doclens@, d as int, d + 1);
            lemma_total_grows(doclens@, d + 1, n);
            let (t, c, all, w) = (
                total(doclens@, d as int),
                doclens@[d as int] as int,
                n_tokens as int,
                dim as int,
            );
            assert((t + c) * w == t * w + c * w && 0 <= c * w && (t + c) * w <= all * w && 0 <= t
                * w) by (nonlinear_arith)
                requires
                    0 <= t,
                    0 <= c,
                    0 <= w,
                    t + c <= all,
            ;
        }
        end += doclens[d] * dim;
        offsets.push(end);
        d += 1;
    }
    proof {
        assert forall|i: int, j: int| 0 <= i <= j < offsets@.len() implies offsets@[i]
            <= offsets@[j] by {
            lemma_total_grows(doclens@, i, j);
            let (a, b, w) = (total(doclens@, i), total(doclens@, j), dim as int);
            assert(a * w <= b * w) by (nonlinear_arith)
                requires
                    a <= b,
                    0 <= w,
            ;
            assert(offsets@[i] == a * w && offsets@[j] == b * w);
        }
        assert(offsets@[n] == n_tokens * dim);
    }
    Ok(offsets)
}

/// What comes of a collection of `flat_len` values, `dim` per token, with `n_token_ids` token types
/// and documents of the given lengths.
pub open spec fn is_load_outcome(
    flat_len: int,
    dim: int,
    n_token_ids: int,
    doclens: Seq<usize>,
    r: Result<Vec<usize>, DatasetError>,
) -> bool {
    let n_tokens = flat_len / dim;
    let sum = total(doclens, doclens.len() as int);
    match r {
        Ok(offsets) => n_token_ids == n_tokens && sum == n_tokens && flat_len % dim == 0
            && starts_of(doclens, dim, offsets@) && is_boundaries(offsets@) && offsets@.last()
            == flat_len,
        Err(DatasetError::TokenIdsLength) => n_token_ids != n_tokens,
        Err(DatasetError::DoclensSum) => n_token_ids == n_tokens && sum != n_tokens,
        Err(DatasetError::VectorsLength) => n_token_ids == n_tokens && sum == n_tokens && flat_len
            % dim != 0,
        Err(DatasetError::NegativeDoclen) => false,
    }
}

/// Checks a collection of `flat_len` values, `dim` per token, and lays out its documents: there
/// must be one token type per token, the document lengths must add up to the tokens, and the
/// tokens must fill the values.
pub fn load_offsets(flat_len: usize, dim: usize, n_token_ids: usize, doclens: &[usize]) -> (r:
    Result<Vec<usize>, DatasetError>)
    requires
        dim > 0,
        doclens@.len() < usize::MAX,
    ensures
        is_load_outcome(flat_len as int, dim as int, n_token_ids as int, doclens@, r),
{
    let n_tokens: usize = flat_len / dim;
    if n_token_ids != n_tokens {
        return Err(DatasetError::TokenIdsLength);
    }
    proof {
        lemma_whole_rows(flat_len as int, dim as int);
        vstd::arithmetic::div_mod::lemma_fundamental_div_mod(flat_len as int, dim as int);
        let (q, w) = (n_tokens as int, dim as int);
        assert(q * w == w * q) by (nonlinear_arith);
    }
    match document_offsets(n_tokens, dim, doclens) {
        Ok(offsets) => {
            if n_tokens * dim != flat_len {
                Err(DatasetError::VectorsLength)
            } else {
                Ok(offsets)
            }
        },
        Err(e) => Err(e),
    }
}

/// The document lengths without sign, where none is negative.
fn unsigned_doclens(doclens: &[i32]) -> (r: Option<Vec<usize>>)
    ensures
        r is None <==> exists|d: int| 0 <= d < doclens@.len() && #[trigger] doclens@[d] < 0,
        r matches Some(lens) ==> lens@ == doclens@.map_values(|len: i32| len as usize),
{
    let ghost widen = |len: i32| len as usize;
    let mut lens: Vec<usize> = Vec::with_capacity(doclens.len());
    let mut d: usize = 0;
    while d < doclens.len()
        invariant
            d <= doclens@.len(),
            widen == (|len: i32| len as usize),
            forall|e: int| 0 <= e < d ==> #[trigger] doclens@[e] >= 0,
            lens@ == doclens@.take(d as int).map_values(widen),
        decreases doclens@.len() - d,
    {
        let len: i32 = doclens[d];
        if len < 0 {
            assert(doclens@[d as int] < 0);
            return None;
        }
        lens.push(len as usize);
        d += 1;
        assert(lens@ =~= doclens@.take(d as int).map_values(widen));
    }
    assert(doclens@.take(d as int) =~= doclens@);
    Some(lens)
}

/// What comes of a collection given as arrays: `n_tokens` vectors of `dim` values, `n_token_ids`
/// token types, and documents of the given lengths.
pub open spec fn is_array_outcome(
    n_tokens: int,
    dim: int,
    n_token_ids: int,
    doclens: Seq<i32>,
    r: Result<Vec<usize>, DatasetError>,
) -> bool {
    let lens = doclens.map_values(|len: i32| len as usize);
    let sum = total(lens, lens.len() as int);
    let negative = exists|d: int| 0 <= d < doclens.len() && #[trigger] doclens[d] < 0;
    match r {
        Ok(offsets) => n_token_ids == n_tokens && !negative && sum == n_tokens && starts_of(
            lens,
            dim,
            offsets@,
        ) && is_boundaries(offsets@) && offsets@.last() == n_tokens * dim,
        Err(DatasetError::TokenIdsLength) => n_token_ids != n_tokens,
        Err(DatasetError::NegativeDoclen) => n_token_ids == n_tokens && negative,
        Err(DatasetError::DoclensSum) => n_token_ids == n_tokens && !negative && sum != n_tokens,
        Err(DatasetError::VectorsLength) => false,
    }
}

/// Checks a collection given as arrays, whose `n_tokens` vectors have `dim` values, and lays out
/// its documents.
pub fn array_offsets(n_tokens: usize, dim: usize, n_token_ids: usize, doclens: &[i32]) -> (r:
    Result<Vec<usize>, DatasetError>)
    requires
        n_tokens * dim <= usize::MAX,
        doclens@.len() < usize::MAX,
    ensures
        is_array_outcome(n_tokens as int, dim as int, n_token_ids as int, doclens@, r),
{
    if n_token_ids != n_tokens {
        return Err(DatasetError::TokenIdsLength);
    }
    match unsigned_doclens(doclens) {
        Some(lens) => document_offsets(n_tokens, dim, &lens),
        None => Err(DatasetError::NegativeDoclen),
    }
}

/// The same collection is laid out alike, or refused for the same reason, whether it comes as
/// `n_tokens * dim` values out of a file or as an array of `n_tokens` vectors.
pub proof fn files_and_arrays_agree(
    n_tokens: int,
    dim: int,
    n_token_ids: int,
    doclens: Seq<usize>,
    array_doclens: Seq<i32>,
    from_file: Result<Vec<usize>, DatasetError>,
    from_array: Result<Vec<usize>, DatasetError>,
)
    requires
        dim > 0,
        n_tokens >= 0,
        doclens.len() == array_doclens.len(),
        forall|d: int| 0 <= d < doclens.len() ==> #[trigger] doclens[d] == #[trigger] array_doclens[d],
        is_load_outcome(n_tokens * dim, dim, n_token_ids, doclens, from_file),
        is_array_outcome(n_tokens, dim, n_token_ids, array_doclens, from_array),
    ensures
        match (from_file, from_array) {
            (Ok(a), Ok(b)) => a@ == b@,
            (Err(a), Err(b)) => a == b,
            _ => false,
        },
{
    let lens = array_doclens.map_values(|len: i32| len as usize);
    assert forall|d: int| 0 <= d < doclens.len() implies #[trigger] doclens[d] == lens[d] by {
        assert(doclens[d] == array_doclens[d]);
    }
    assert(doclens =~= lens);
    assert forall|d: int| 0 <= d < array_doclens.len() implies #[trigger] array_doclens[d] >= 0 by {
        assert(doclens[d] == array_doclens[d]);
    }
    assert(n_tokens * dim == dim * n_tokens) by (nonlinear_arith);
    vstd::arithmetic::div_mod::lemma_div_multiples_vanish(n_tokens, dim);
    vstd::arithmetic::div_mod::lemma_mod_multiples_basic(n_tokens, dim);
    match (from_file, from_array) {
        (Ok(a), Ok(b)) => {
            assert forall|d: int| 0 <= d < a@.len() implies a@[d] == b@[d] by {
                assert(a@[d] == total(doclens, d) * dim && b@[d] == total(lens, d) * dim);
            }
            assert(a@ =~= b@);
        },
        _ => {},
    }
}

/// The documents of a laid-out collection have the lengths that they were given.
pub proof fn offsets_keep_doclens(doclens: Seq<usize>, dim: int, offsets: Seq<usize>, d: int)
    requires
        dim > 0,
        starts_of(doclens, dim, offsets),
        0 <= d < doclens.len(),
    ensures
        doc_tokens(offsets, dim, d) == doclens[d],
{
    let (t, c) = (total(doclens, d), doclens[d] as int);
    assert(offsets[d + 1] == total(doclens, d + 1) * dim);
    assert(offsets[d] == t * dim);
    assert((t + c) * dim - t * dim == dim * c) by (nonlinear_arith);
    vstd::arithmetic::div_mod::lemma_div_multiples_vanish(c, dim);
}

/// A laid-out collection starts at 0, and each document takes up as many values as its tokens have.
pub proof fn documents_take_up_their_tokens(
    doclens: Seq<usize>,
    dim: int,
    offsets: Seq<usize>,
    d: int,
)
    requires
        starts_of(doclens, dim, offsets),
        0 <= d < doclens.len(),
    ensures
        offsets.len() == doclens.len() + 1,
        offsets[0] == 0,
        offsets[d + 1] - offsets[d] == doclens[d] * dim,
{
    let (t, c) = (total(doclens, d), doclens[d] as int);
    assert(offsets[d + 1] == total(doclens, d + 1) * dim);
    assert(offsets[d] == total(doclens, d) * dim);
    assert(offsets[0] == total(doclens, 0) * dim);
    assert((t + c) * dim - t * dim == c * dim) by (nonlinear_arith);
    assert(0 * dim == 0) by (nonlinear_arith);
}

/// A collection out of files is accepted exactly if it has one token type per token, documents that
/// have all tokens between them, and whole tokens; it is refused for the first of these that fails.
pub proof fn file_collections_are_checked(
    flat_len: int,
    dim: int,
    n_token_ids: int,
    doclens: Seq<usize>,
    r: Result<Vec<usize>, DatasetError>,
)
    requires
        dim > 0,
        is_load_outcome(flat_len, dim, n_token_ids, doclens, r),
    ensures
        ({
            let sum = doclens.fold_left(0int, |s: int, l: usize| s + l);
            match r {
                Ok(offsets) => n_token_ids * dim == flat_len && sum * dim == flat_len
                    && offsets@.len() == doclens.len() + 1 && offsets@[0] == 0
                    && offsets@[offsets@.len() - 1] == flat_len,
                Err(DatasetError::TokenIdsLength) => n_token_ids != flat_len / dim,
                Err(DatasetError::DoclensSum) => n_token_ids == flat_len / dim && sum
                    != n_token_ids,
                Err(DatasetError::VectorsLength) => n_token_ids == flat_len / dim && sum
                    == n_token_ids && flat_len % dim != 0,
                Err(DatasetError::NegativeDoclen) => false,
            }
        }),
{
    crate::rows::total_adds_up(doclens, doclens.len() as int);
    assert(doclens.take(doclens.len() as int) =~= doclens);
    vstd::arithmetic::div_mod::lemma_fundamental_div_mod(flat_len, dim);
    assert((flat_len / dim) * dim == dim * (flat_len / dim)) by (nonlinear_arith);
    if let Ok(offsets) = r {
        assert(offsets@[0] == total(doclens, 0) * dim);
        assert(0 * dim == 0) by (nonlinear_arith);
    }
}

/// A collection given as arrays is accepted exactly if it has one token type per token, no document
/// of negative length, and documents that have all tokens between them; it is refused for the first
/// of these that fails.
pub proof fn array_collections_are_checked(
    n_tokens: int,
    dim: int,
    n_token_ids: int,
    doclens: Seq<i32>,
    r: Result<Vec<usize>, DatasetError>,
    d: int,
)
    requires
        0 <= d < doclens.len(),
        is_array_outcome(n_tokens, dim, n_token_ids, doclens, r),
    ensures
        ({
            let sum = doclens.fold_left(0int, |s: int, l: i32| s + l);
            match r {
                Ok(offsets) => n_token_ids == n_tokens && sum == n_tokens && doclens[d] >= 0
                    && offsets@.len() == doclens.len() + 1 && offsets@[d + 1] - offsets@[d]
                    == doclens[d] * dim && offsets@[offsets@.len() - 1] == n_tokens * dim,
                Err(DatasetError::TokenIdsLength) => n_token_ids != n_tokens,
                Err(DatasetError::NegativeDoclen) => n_token_ids == n_tokens && exists|e: int|
                    0 <= e < doclens.len() && #[trigger] doclens[e] < 0,
                Err(DatasetError::DoclensSum) => n_token_ids == n_tokens && doclens[d] >= 0 && sum
                    != n_tokens,
                Err(DatasetError::VectorsLength) => false,
            }
        }),
{
    let lens = doclens.map_values(|len: i32| len as usize);
    if forall|e: int| 0 <= e < doclens.len() ==> #[trigger] doclens[e] >= 0 {
        lemma_signed_sum(doclens, doclens.len() as int);
        assert(doclens.take(doclens.len() as int) =~= doclens);
    }
    if let Ok(offsets) = r {
        assert forall|e: int| 0 <= e < doclens.len() implies #[trigger] doclens[e] >= 0 by {}
        documents_take_up_their_tokens(lens, dim, offsets@, d);
        assert(lens[d] == doclens[d]);
    }
    if r == Err::<Vec<usize>, DatasetError>(DatasetError::DoclensSum) {
        assert forall|e: int| 0 <= e < doclens.len() implies #[trigger] doclens[e] >= 0 by {}
    }
}

proof fn lemma_signed_sum(doclens: Seq<i32>, n: int)
    requires
        0 <= n <= doclens.len(),
        forall|e: int| 0 <= e < doclens.len() ==> #[trigger] doclens[e] >= 0,
    ensures
        total(doclens.map_values(|len: i32| len as usize), n) == doclens.take(n).fold_left(
            0int,
            |s: int, l: i32| s + l,
        ),
    decreases n,
{
    reveal(Seq::fold_left);
    if n > 0 {
        lemma_signed_sum(doclens, n - 1);
        assert(doclens.take(n).drop_last() =~= doclens.take(n - 1));
        assert(doclens[n - 1] >= 0);
    }
}

} // verus!
