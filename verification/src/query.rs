//! Batches of queries: where each query's tokens lie, and how the results are laid out.
use crate::rerank::Scored;
use crate::score::{Score, NEG_INFINITY_BITS};
use vstd::prelude::*;

verus! {

/// Why a batch is refused.
#[derive(Debug, Clone, Copy, PartialEq, Eq, Structural)]
pub enum QueryError {
    /// The tokens are not rows of as many values as the index has dimensions.
    WrongShape,
    /// There is no query.
    NoQueries,
    /// Without offsets the tokens cannot be divided evenly among the queries.
    NotDivisible,
    /// There is not one offset more than there are queries.
    OffsetsLength,
    /// The last offset is not the number of tokens.
    OffsetsEnd,
    /// The offsets do not ascend.
    OffsetsOrder,
}

/// The shape is that of rows of `dim` values.
pub fn check_shape(shape: &[usize], dim: usize) -> (r: Result<usize, QueryError>)
    ensures
        match r {
            Ok(rows) => shape@.len() == 2 && shape@[1] == dim && rows == shape@[0],
            Err(e) => !(shape@.len() == 2 && shape@[1] == dim) && e == QueryError::WrongShape,
        },
{
    if shape.len() != 2 || shape[1] != dim {
        Err(QueryError::WrongShape)
    } else {
        Ok(shape[0])
    }
}

/// Every offset is at most the next one.
pub open spec fn ascends(offsets: Seq<u64>) -> bool {
    forall|i: int, j: int|
        0 <= i <= j < offsets.len() ==> (#[trigger] offsets[i] as usize) <= (
        #[trigger] offsets[j] as usize)
}

/// Query `i` has the rows from one offset to the next.
pub open spec fn ranges_between(offsets: Seq<u64>) -> Seq<(usize, usize)> {
    Seq::new(
        (offsets.len() - 1) as nat,
        |i: int| (offsets[i] as usize, offsets[i + 1] as usize),
    )
}

/// Query `i` has the `i`-th run of `stride` rows.
pub open spec fn even_ranges(n_queries: int, stride: int) -> Seq<(usize, usize)> {
    Seq::new(
        n_queries as nat,
        |i: int| ((i * stride) as usize, (i * stride + stride) as usize),
    )
}

/// The rows of each query where all have as many.
pub fn uniform_ranges(total_tokens: usize, n_queries: usize) -> (r: Result<
    Vec<(usize, usize)>,
    QueryError,
>)
    ensures
        match r {
            Ok(ranges) => n_queries > 0 && total_tokens as int % n_queries as int == 0 && ranges@
                == even_ranges(n_queries as int, total_tokens as int / n_queries as int),
            Err(QueryError::NoQueries) => n_queries == 0,
            Err(QueryError::NotDivisible) => n_queries > 0 && total_tokens as int
                % n_queries as int != 0,
            Err(_) => false,
        },
{
    if n_queries == 0 {
        return Err(QueryError::NoQueries);
    }
    if total_tokens % n_queries != 0 {
        return Err(QueryError::NotDivisible);
    }
    let stride: usize = total_tokens / n_queries;
    let ghost wanted = even_ranges(n_queries as int, stride as int);
    proof {
        vstd::arithmetic::div_mod::lemma_fundamental_div_mod(total_tokens as int, n_queries as int);
        let (n, s) = (n_queries as int, stride as int);
        assert(n * s == s * n) by (nonlinear_arith);
    }
    let mut ranges: Vec<(usize, usize)> = Vec::with_capacity(n_queries);
    let mut i: usize = 0;
    while i < n_queries
        invariant
            i <= n_queries,
            n_queries * stride == total_tokens,
            wanted == even_ranges(n_queries as int, stride as int),
            ranges@ == wanted.take(i as int),
        decreases n_queries - i,
    {
        assert(0 <= i * stride && i * stride + stride <= n_queries * stride) by (nonlinear_arith)
            requires
                0 <= i < n_queries,
                0 <= stride,
        ;
        ranges.push((i * stride, i * stride + stride));
        i += 1;
        assert(ranges@ =~= wanted.take(i as int));
    }
    assert(wanted.take(i as int) =~= wanted);
    Ok(ranges)
}

/// The rows of each query where the offsets say.
pub fn ragged_ranges(total_tokens: usize, n_queries: usize, offsets: &[u64]) -> (r: Result<
    Vec<(usize, usize)>,
    QueryError,
>)
    ensures
        ({
            let fits = offsets@.len() == n_queries + 1;
            let ends = offsets@.last() as usize == total_tokens;
            match r {
                Ok(ranges) => n_queries > 0 && fits && ends && ascends(offsets@) && ranges@
                    == ranges_between(offsets@),
                Err(QueryError::NoQueries) => n_queries == 0,
                Err(QueryError::OffsetsLength) => n_queries > 0 && !fits,
                Err(QueryError::OffsetsEnd) => n_queries > 0 && fits && !ends,
                Err(QueryError::OffsetsOrder) => n_queries > 0 && fits && ends && !ascends(
                    offsets@,
                ),
                Err(_) => false,
            }
        }),
{
    if n_queries == 0 {
        return Err(QueryError::NoQueries);
    }
    if offsets.len() == 0 || offsets.len() - 1 != n_queries {
        return Err(QueryError::OffsetsLength);
    }
    let end: usize = #[verifier::truncate]
    (offsets[n_queries] as usize);
    if end != total_tokens {
        return Err(QueryError::OffsetsEnd);
    }
    let ghost wanted = ranges_between(offsets@);
    let mut ranges: Vec<(usize, usize)> = Vec::with_capacity(n_queries);
    let mut i: usize = 0;
    while i < n_queries
        invariant
            i <= n_queries,
            n_queries > 0,
            offsets@.len() == n_queries + 1,
            offsets@.last() as usize == total_tokens,
            wanted == ranges_between(offsets@),
            ranges@ == wanted.take(i as int),
            forall|a: int, b: int|
                0 <= a <= b <= i ==> (#[trigger] offsets@[a] as usize) <= (
                #[trigger] offsets@[b] as usize),
        decreases n_queries - i,
    {
        let from: usize = #[verifier::truncate]
        (offsets[i] as usize);
        let to: usize = #[verifier::truncate]
        (offsets[i + 1] as usize);
        if from > to {
            assert((offsets@[i as int] as usize) > (offsets@[i + 1] as usize));
            return Err(QueryError::OffsetsOrder);
        }
        ranges.push((from, to));
        i += 1;
        assert(ranges@ =~= wanted.take(i as int));
        assert forall|a: int, b: int| 0 <= a <= b <= i implies (#[trigger] offsets@[a] as usize) <= (
        #[trigger] offsets@[b] as usize) by {
            if b == i && a < i {
                assert((offsets@[a] as usize) <= (offsets@[i - 1] as usize));
            }
        }
    }
    assert(wanted.take(i as int) =~= wanted);
    Ok(ranges)
}

/// Queries of as many tokens each lie where offsets at equal distances say: the offset of query
/// `i` is `i` strides.
pub proof fn uniform_is_ragged(n_queries: int, stride: int, offsets: Seq<u64>)
    requires
        0 < n_queries,
        0 <= stride,
        offsets.len() == n_queries + 1,
        n_queries * stride <= usize::MAX,
        forall|i: int| 0 <= i <= n_queries ==> #[trigger] offsets[i] == i * stride,
    ensures
        ascends(offsets),
        ranges_between(offsets) == even_ranges(n_queries, stride),
{
    assert forall|i: int, j: int| 0 <= i <= j < offsets.len() implies (#[trigger] offsets[i] as usize)
        <= (#[trigger] offsets[j] as usize) by {
        assert(0 <= i * stride <= j * stride && j * stride <= n_queries * stride)
            by (nonlinear_arith)
            requires
                0 <= i <= j <= n_queries,
                0 <= stride,
        ;
    }
    assert forall|i: int| 0 <= i < n_queries implies #[trigger] ranges_between(offsets)[i]
        == even_ranges(n_queries, stride)[i] by {
        assert((i + 1) * stride == i * stride + stride) by (nonlinear_arith);
        assert(offsets[i] == i * stride && offsets[i + 1] == (i + 1) * stride);
    }
    assert(ranges_between(offsets) =~= even_ranges(n_queries, stride));
}

/// The document id that stands where there is no result.
pub const NO_DOC: u32 = 0xffff_ffff;

/// The score at rank `j`; negative infinity where there is none.
pub open spec fn padded_score(result: Seq<Scored>, j: int) -> Score {
    if j < result.len() {
        result[j].0
    } else {
        Score { bits: NEG_INFINITY_BITS }
    }
}

/// The document at rank `j`.
pub open spec fn padded_doc(result: Seq<Scored>, j: int) -> u32 {
    if j < result.len() {
        result[j].1
    } else {
        NO_DOC
    }
}

/// The scores of one query, filled up to `k`.
pub open spec fn score_row(result: Seq<Scored>, k: int) -> Seq<Score> {
    Seq::new(k as nat, |j: int| padded_score(result, j))
}

/// The documents of one query, filled up to `k`.
pub open spec fn doc_row(result: Seq<Scored>, k: int) -> Seq<u32> {
    Seq::new(k as nat, |j: int| padded_doc(result, j))
}

/// Lays out the result of one query in `k` places; what is past them is left out.
pub fn pad_result(result: &[Scored], k: usize) -> (r: (Vec<Score>, Vec<u32>))
    ensures
        r.0@ == score_row(result@, k as int),
        r.1@ == doc_row(result@, k as int),
{
    let mut scores: Vec<Score> = Vec::with_capacity(k);
    let mut docs: Vec<u32> = Vec::with_capacity(k);
    push_row(&mut scores, &mut docs, result, k);
    assert(scores@ =~= score_row(result@, k as int));
    assert(docs@ =~= doc_row(result@, k as int));
    (scores, docs)
}

/// Appends the result of one query, filled up to `k`.
fn push_row(scores: &mut Vec<Score>, docs: &mut Vec<u32>, result: &[Scored], k: usize)
    ensures
        final(scores)@ == old(scores)@ + score_row(result@, k as int),
        final(docs)@ == old(docs)@ + doc_row(result@, k as int),
{
    let mut j: usize = 0;
    assert(scores@ =~= old(scores)@ + score_row(result@, 0));
    assert(docs@ =~= old(docs)@ + doc_row(result@, 0));
    while j < k
        invariant
            j <= k,
            scores@ == old(scores)@ + score_row(result@, j as int),
            docs@ == old(docs)@ + doc_row(result@, j as int),
        decreases k - j,
    {
        if j < result.len() {
            scores.push(result[j].0);
            docs.push(result[j].1);
        } else {
            scores.push(Score::neg_infinity());
            docs.push(NO_DOC);
        }
        j += 1;
        assert(scores@ =~= old(scores)@ + score_row(result@, j as int));
        assert(docs@ =~= old(docs)@ + doc_row(result@, j as int));
    }
}

/// The result of query `i`; none where there is no such query.
pub open spec fn result_of(results: Seq<Vec<Scored>>, i: int) -> Seq<Scored> {
    if i < results.len() {
        results[i]@
    } else {
        Seq::empty()
    }
}

/// The score rows of the first `n` queries, one behind another.
pub open spec fn score_rows(results: Seq<Vec<Scored>>, k: int, n: int) -> Seq<Score>
    decreases n,
{
    if n <= 0 {
        Seq::empty()
    } else {
        score_rows(results, k, n - 1) + score_row(result_of(results, n - 1), k)
    }
}

/// The document rows of the first `n` queries, one behind another.
pub open spec fn doc_rows(results: Seq<Vec<Scored>>, k: int, n: int) -> Seq<u32>
    decreases n,
{
    if n <= 0 {
        Seq::empty()
    } else {
        doc_rows(results, k, n - 1) + doc_row(result_of(results, n - 1), k)
    }
}

/// Lays out the results of a batch in rows of `k` places, one row per query.
pub fn pad_results_batch(results: &[Vec<Scored>], n_queries: usize, k: usize) -> (r: (
    Vec<Score>,
    Vec<u32>,
))
    requires
        results@.len() <= n_queries,
    ensures
        r.0@ == score_rows(results@, k as int, n_queries as int),
        r.1@ == doc_rows(results@, k as int, n_queries as int),
{
    let mut scores: Vec<Score> = Vec::new();
    let mut docs: Vec<u32> = Vec::new();
    let nothing: Vec<Scored> = Vec::new();
    let mut i: usize = 0;
    while i < n_queries
        invariant
            i <= n_queries,
            nothing@ == Seq::<Scored>::empty(),
            scores@ == score_rows(results@, k as int, i as int),
            docs@ == doc_rows(results@, k as int, i as int),
        decreases n_queries - i,
    {
        if i < results.len() {
            push_row(&mut scores, &mut docs, &results[i], k);
        } else {
            push_row(&mut scores, &mut docs, &nothing, k);
        }
        i += 1;
    }
    (scores, docs)
}

/// Row `i` of a batch is the padded result of query `i`.
pub proof fn batch_rows_are_results(results: Seq<Vec<Scored>>, k: int, n: int, i: int)
    requires
        0 <= k,
        0 <= i < n,
    ensures
        score_rows(results, k, n).len() == n * k,
        doc_rows(results, k, n).len() == n * k,
        score_rows(results, k, n).subrange(i * k, i * k + k) == score_row(result_of(results, i), k),
        doc_rows(results, k, n).subrange(i * k, i * k + k) == doc_row(result_of(results, i), k),
    decreases n,
{
    lemma_rows_len(results, k, n - 1);
    lemma_rows_len(results, k, n);
    let (scores, docs) = (score_rows(results, k, n), doc_rows(results, k, n));
    assert(0 <= i * k) by (nonlinear_arith)
        requires
            0 <= i,
            0 <= k,
    ;
    if i == n - 1 {
        assert(scores.subrange(i * k, i * k + k) =~= score_row(result_of(results, i), k));
        assert(docs.subrange(i * k, i * k + k) =~= doc_row(result_of(results, i), k));
    } else {
        batch_rows_are_results(results, k, n - 1, i);
        assert(i * k + k <= (n - 1) * k) by (nonlinear_arith)
            requires
                0 <= i < n - 1,
                0 <= k,
        ;
        assert(scores.subrange(i * k, i * k + k) =~= score_rows(results, k, n - 1).subrange(
            i * k,
            i * k + k,
        ));
        assert(docs.subrange(i * k, i * k + k) =~= doc_rows(results, k, n - 1).subrange(
            i * k,
            i * k + k,
        ));
    }
}

proof fn lemma_rows_len(results: Seq<Vec<Scored>>, k: int, n: int)
    requires
        0 <= k,
        0 <= n,
    ensures
        score_rows(results, k, n).len() == n * k,
        doc_rows(results, k, n).len() == n * k,
    decreases n,
{
    if n > 0 {
        lemma_rows_len(results, k, n - 1);
        assert(n * k == (n - 1) * k + k) by (nonlinear_arith);
    } else {
        assert(0 * k == 0) by (nonlinear_arith);
    }
}

/// A line of a result list: which query, which document, at what rank, with what score.
#[derive(Debug, Clone, Copy, PartialEq, Eq, Structural)]
pub struct ResultLine {
    pub query_id: usize,
    pub doc_id: u32,
    pub rank: usize,
    pub score: Score,
}

/// The lines of one query, its ranks counted from 1.
pub open spec fn lines_of(result: Seq<Scored>, query_id: int) -> Seq<ResultLine> {
    Seq::new(
        result.len(),
        |j: int|
            ResultLine {
                query_id: query_id as usize,
                doc_id: result[j].1,
                rank: (j + 1) as usize,
                score: result[j].0,
            },
    )
}

/// The lines of the first `n` queries.
pub open spec fn all_lines(results: Seq<Vec<Scored>>, n: int) -> Seq<ResultLine>
    decreases n,
{
    if n <= 0 {
        Seq::empty()
    } else {
        all_lines(results, n - 1) + lines_of(results[n - 1]@, n - 1)
    }
}

/// The results of a batch, line by line.
pub fn result_lines(results: &[Vec<Scored>]) -> (lines: Vec<ResultLine>)
    ensures
        lines@ == all_lines(results@, results@.len() as int),
{
    let mut lines: Vec<ResultLine> = Vec::new();
    let mut i: usize = 0;
    while i < results.len()
        invariant
            i <= results@.len(),
            lines@ == all_lines(results@, i as int),
        decreases results@.len() - i,
    {
        let ghost before = lines@;
        let result: &Vec<Scored> = &results[i];
        let ghost wanted = lines_of(result@, i as int);
        let mut j: usize = 0;
        while j < result.len()
            invariant
                j <= result@.len(),
                wanted == lines_of(result@, i as int),
                lines@ == before + wanted.take(j as int),
            decreases result@.len() - j,
        {
            lines.push(
                ResultLine {
                    query_id: i,
                    doc_id: result[j].1,
                    rank: j + 1,
                    score: result[j].0,
                },
            );
            j += 1;
            assert(lines@ =~= before + wanted.take(j as int));
        }
        assert(wanted.take(j as int) =~= wanted);
        i += 1;
    }
    lines
}

/// Where every query has `k` results, line `p` belongs to query `p / k`, at rank `p % k + 1`.
pub proof fn full_results_by_position(results: Seq<Vec<Scored>>, k: int, n: int, p: int)
    requires
        0 < k <= usize::MAX,
        0 <= n <= results.len() <= usize::MAX,
        forall|i: int| 0 <= i < results.len() ==> (#[trigger] results[i])@.len() == k,
        0 <= p < n * k,
    ensures
        all_lines(results, n).len() == n * k,
        all_lines(results, n)[p].query_id == p / k,
        all_lines(results, n)[p].rank == p % k + 1,
    decreases n,
{
    lemma_lines_len(results, k, n);
    lemma_lines_len(results, k, n - 1);
    assert(n * k == (n - 1) * k + k) by (nonlinear_arith);
    if p < (n - 1) * k {
        full_results_by_position(results, k, n - 1, p);
        assert(all_lines(results, n)[p] == all_lines(results, n - 1)[p]);
    } else {
        let j = p - (n - 1) * k;
        assert((n - 1) * k == k * (n - 1)) by (nonlinear_arith);
        vstd::arithmetic::div_mod::lemma_fundamental_div_mod_converse(p, k, n - 1, j);
        assert(results[n - 1]@.len() == k);
        assert(all_lines(results, n)[p] == lines_of(results[n - 1]@, n - 1)[j]);
    }
}

proof fn lemma_lines_len(results: Seq<Vec<Scored>>, k: int, n: int)
    requires
        n <= results.len(),
        forall|i: int| 0 <= i < results.len() ==> (#[trigger] results[i])@.len() == k,
    ensures
        n >= 0 ==> all_lines(results, n).len() == n * k,
    decreases n,
{
    if n > 0 {
        lemma_lines_len(results, k, n - 1);
        assert(results[n - 1]@.len() == k);
        assert(n * k == (n - 1) * k + k) by (nonlinear_arith);
    } else if n == 0 {
        assert(0 * k == 0) by (nonlinear_arith);
    }
}

/// How many tokens a collection holds: its last boundary, in tokens of `width` values.
pub fn n_tokens(offsets: &[usize], width: usize) -> (n: usize)
    ensures
        n == (if width == 0 || offsets@.len() == 0 {
            0
        } else {
            offsets@.last() as int / width as int
        }),
{
    if width == 0 || offsets.len() == 0 {
        0
    } else {
        offsets[offsets.len() - 1] / width
    }
}

/// Queries of as many tokens each share the tokens: they follow one another from the first token to
/// the last, each with as many.
pub proof fn even_ranges_share_the_tokens(n_queries: int, stride: int, i: int)
    requires
        0 <= i < n_queries,
        0 <= stride,
        n_queries * stride <= usize::MAX,
    ensures
        even_ranges(n_queries, stride).len() == n_queries,
        even_ranges(n_queries, stride)[0].0 == 0,
        even_ranges(n_queries, stride)[n_queries - 1].1 == n_queries * stride,
        even_ranges(n_queries, stride)[i].1 - even_ranges(n_queries, stride)[i].0 == stride,
        i + 1 < n_queries ==> even_ranges(n_queries, stride)[i + 1].0 == even_ranges(
            n_queries,
            stride,
        )[i].1,
{
    assert(0 * stride == 0) by (nonlinear_arith);
    assert((n_queries - 1) * stride + stride == n_queries * stride) by (nonlinear_arith);
    assert((i + 1) * stride == i * stride + stride) by (nonlinear_arith);
    assert(0 <= i * stride && i * stride + stride <= n_queries * stride) by (nonlinear_arith)
        requires
            0 <= i < n_queries,
            0 <= stride,
    ;
    if i + 1 < n_queries {
        assert((i + 1) * stride <= n_queries * stride) by (nonlinear_arith)
            requires
                i + 1 < n_queries,
                0 <= stride,
        ;
    }
}

/// Query `i` has the tokens from its own offset to the next one, and the offsets ascend exactly if
/// none is past the next.
pub proof fn ragged_ranges_follow_the_offsets(offsets: Seq<u64>, i: int)
    requires
        0 <= i < offsets.len() - 1,
        forall|j: int| 0 <= j < offsets.len() ==> (#[trigger] offsets[j]) <= usize::MAX,
    ensures
        ranges_between(offsets).len() == offsets.len() - 1,
        ranges_between(offsets)[i].0 == offsets[i],
        ranges_between(offsets)[i].1 == offsets[i + 1],
        ascends(offsets) ==> offsets[i] <= offsets[i + 1],
        (forall|a: int, b: int|
            0 <= a <= b < offsets.len() ==> (#[trigger] offsets[a]) <= (#[trigger] offsets[b]))
            ==> ascends(offsets),
{
    assert(offsets[i] <= usize::MAX && offsets[i + 1] <= usize::MAX);
    if ascends(offsets) {
        assert((offsets[i] as usize) <= (offsets[i + 1] as usize));
    }
    if forall|a: int, b: int|
        0 <= a <= b < offsets.len() ==> (#[trigger] offsets[a]) <= (#[trigger] offsets[b]) {
        assert forall|a: int, b: int| 0 <= a <= b < offsets.len() implies (
        #[trigger] offsets[a] as usize) <= (#[trigger] offsets[b] as usize) by {
            assert(offsets[a] <= usize::MAX && offsets[b] <= usize::MAX);
        }
    }
}

/// Place `j` of row `i` holds the result of query `i` at that rank, score and document, and where
/// there is none negative infinity and the largest id.
pub proof fn batch_places_hold_results(results: Seq<Vec<Scored>>, k: int, n: int, i: int, j: int)
    requires
        0 <= i < n,
        0 <= j < k,
        results.len() <= n,
    ensures
        score_rows(results, k, n).len() == n * k,
        doc_rows(results, k, n).len() == n * k,
        ({
            let at = i * k + j;
            if i < results.len() && j < results[i]@.len() {
                score_rows(results, k, n)[at] == results[i]@[j].0 && doc_rows(results, k, n)[at]
                    == results[i]@[j].1
            } else {
                score_rows(results, k, n)[at].bits == 0xff80_0000 && doc_rows(results, k, n)[at]
                    == 0xffff_ffff
            }
        }),
{
    batch_rows_are_results(results, k, n, i);
    let (scores, docs) = (score_rows(results, k, n), doc_rows(results, k, n));
    assert(i * k + k <= n * k && 0 <= i * k) by (nonlinear_arith)
        requires
            0 <= i < n,
            0 < k,
    ;
    assert(scores.subrange(i * k, i * k + k)[j] == scores[i * k + j]);
    assert(docs.subrange(i * k, i * k + k)[j] == docs[i * k + j]);
}

/// The places of one query hold its results in order, and then nothing; what is past `k` is left
/// out.
pub proof fn places_hold_the_result(result: Seq<Scored>, k: int, j: int)
    requires
        0 <= j < k,
    ensures
        score_row(result, k).len() == k,
        doc_row(result, k).len() == k,
        j < result.len() ==> (score_row(result, k)[j], doc_row(result, k)[j]) == result[j],
        j >= result.len() ==> score_row(result, k)[j].bits == 0xff80_0000 && doc_row(result, k)[j]
            == 0xffff_ffff,
{
}

/// The line of a query's result at rank `j + 1` stands behind those of the queries before it, and
/// says all of it; there are no lines but these.
pub proof fn lines_tell_every_result(results: Seq<Vec<Scored>>, n: int, q: int, j: int)
    requires
        0 <= q < n <= results.len() <= usize::MAX,
        0 <= j < results[q]@.len(),
    ensures
        ({
            let lens = |m: int| Seq::new(m as nat, |i: int| results[i]@.len() as int);
            let sum = |m: int| lens(m).fold_left(0int, |s: int, l: int| s + l);
            let line = all_lines(results, n)[sum(q) + j];
            &&& all_lines(results, n).len() == sum(n)
            &&& 0 <= sum(q) && sum(q) + j < sum(n)
            &&& line.query_id == q
            &&& line.rank == j + 1
            &&& line.doc_id == results[q]@[j].1
            &&& line.score == results[q]@[j].0
        }),
    decreases n,
{
    let lens = |m: int| Seq::new(m as nat, |i: int| results[i]@.len() as int);
    let sum = |m: int| lens(m).fold_left(0int, |s: int, l: int| s + l);
    lemma_lines_sum(results, n);
    lemma_lines_sum(results, n - 1);
    assert(results[q].len() == results[q]@.len());
    if q < n - 1 {
        lines_tell_every_result(results, n - 1, q, j);
    } else {
        lemma_lines_sum(results, q);
    }
}

proof fn lemma_lines_sum(results: Seq<Vec<Scored>>, n: int)
    requires
        0 <= n <= results.len(),
    ensures
        ({
            let lens = |m: int| Seq::new(m as nat, |i: int| results[i]@.len() as int);
            let sum = |m: int| lens(m).fold_left(0int, |s: int, l: int| s + l);
            &&& all_lines(results, n).len() == sum(n)
            &&& sum(n) >= 0
        }),
    decreases n,
{
    let lens = |m: int| Seq::new(m as nat, |i: int| results[i]@.len() as int);
    reveal(Seq::fold_left);
    if n > 0 {
        lemma_lines_sum(results, n - 1);
        assert(lens(n).drop_last() =~= lens(n - 1));
    }
}

} // verus!
