//! Documents cut out of the token buffer for encoding, and put together again as bytes.
use crate::rows::total;
#[allow(unused_imports)]
use crate::rows::lemma_total_grows;
#[allow(unused_imports)]
use crate::tachiom::first_token;
use crate::tachiom::{doc_tokens, is_boundaries};
use vstd::prelude::*;

verus! {

/// How many tokens of `dim` values each document has.
pub fn doc_token_counts(offsets: &[usize], dim: usize) -> (counts: Vec<usize>)
    requires
        dim > 0,
        is_boundaries(offsets@),
    ensures
        counts@.len() == offsets@.len() - 1,
        forall|d: int|
            0 <= d < counts@.len() ==> #[trigger] counts@[d] == doc_tokens(
                offsets@,
                dim as int,
                d,
            ),
{
    let n_docs: usize = offsets.len() - 1;
    let mut counts: Vec<usize> = Vec::with_capacity(n_docs);
    let mut d: usize = 0;
    while d < n_docs
        invariant
            d <= n_docs,
            n_docs == offsets@.len() - 1,
            dim > 0,
            is_boundaries(offsets@),
            counts@.len() == d,
            forall|e: int|
                0 <= e < d ==> #[trigger] counts@[e] == doc_tokens(offsets@, dim as int, e),
        decreases n_docs - d,
    {
        let n_tok: usize = (offsets[d + 1] - offsets[d]) / dim;
        counts.push(n_tok);
        d += 1;
    }
    counts
}

/// Where the tokens of each document start, and where the last one's end.
pub fn token_starts(counts: &[usize]) -> (starts: Vec<usize>)
    requires
        total(counts@, counts@.len() as int) <= usize::MAX,
        counts@.len() < usize::MAX,
    ensures
        starts@.len() == counts@.len() + 1,
        forall|d: int|
            0 <= d <= counts@.len() ==> #[trigger] starts@[d] == total(counts@, d),
{
    let mut starts: Vec<usize> = Vec::with_capacity(counts.len() + 1);
    starts.push(0);
    let mut start: usize = 0;
    let mut d: usize = 0;
    while d < counts.len()
        invariant
            d <= counts@.len(),
            total(counts@, counts@.len() as int) <= usize::MAX,
            start == total(counts@, d as int),
            starts@.len() == d + 1,
            forall|e: int| 0 <= e <= d ==> #[trigger] starts@[e] == total(counts@, e),
        decreases counts@.len() - d,
    {
        proof {
            lemma_total_grows(counts@, d + 1, counts@.len() as int);
        }
        start += counts[d];
        starts.push(start);
        d += 1;
    }
    starts
}

/// The tokens of one document: their vectors, and the centroids that they are assigned to.
pub fn document_tokens(
    flat: &[u16],
    dim: usize,
    assignments: &[usize],
    start: usize,
    n_tok: usize,
) -> (r: (Vec<u16>, Vec<u32>))
    requires
        (start + n_tok) * dim <= flat@.len(),
        start + n_tok <= assignments@.len(),
    ensures
        r.0@ == flat@.subrange(start * dim, (start + n_tok) * dim),
        r.1@ == Seq::new(n_tok as nat, |i: int| assignments@[start + i] as u32),
{
    assert(flat.len() == flat@.len());
    assert(assignments.len() == assignments@.len());
    assert(0 <= start * dim <= (start + n_tok) * dim) by (nonlinear_arith);
    let first: usize = start * dim;
    let end: usize = (start + n_tok) * dim;
    let mut vectors: Vec<u16> = Vec::with_capacity(end - first);
    let mut i: usize = first;
    while i < end
        invariant
            first <= i <= end <= flat@.len(),
            vectors@ == flat@.subrange(first as int, i as int),
        decreases end - i,
    {
        vectors.push(flat[i]);
        i += 1;
        assert(vectors@ =~= flat@.subrange(first as int, i as int));
    }
    let ghost wanted = Seq::new(n_tok as nat, |i: int| assignments@[start + i] as u32);
    let mut ids: Vec<u32> = Vec::with_capacity(n_tok);
    let mut j: usize = 0;
    while j < n_tok
        invariant
            j <= n_tok,
            start + n_tok <= assignments@.len() <= usize::MAX,
            wanted == Seq::new(n_tok as nat, |i: int| assignments@[start + i] as u32),
            ids@ == wanted.take(j as int),
        decreases n_tok - j,
    {
        let id: u32 = #[verifier::truncate]
        (assignments[start + j] as u32);
        ids.push(id);
        j += 1;
        assert(ids@ =~= wanted.take(j as int));
    }
    assert(wanted.take(j as int) =~= wanted);
    (vectors, ids)
}

/// The bytes of document `d`.
pub open spec fn doc_bytes(data: Seq<u8>, offsets: Seq<usize>, d: int) -> Seq<u8> {
    data.subrange(offsets[d] as int, offsets[d + 1] as int)
}

/// The encoded documents one behind another, and where each starts and ends.
pub fn join_documents(encoded: &[Vec<u8>]) -> (r: (Vec<u8>, Vec<usize>))
    requires
        encoded@.len() < usize::MAX,
    ensures
        is_boundaries(r.1@),
        r.1@.len() == encoded@.len() + 1,
        r.1@[0] == 0,
        r.1@.last() == r.0@.len(),
        forall|d: int|
            0 <= d < encoded@.len() ==> #[trigger] doc_bytes(r.0@, r.1@, d) == encoded@[d]@,
{
    let mut data: Vec<u8> = Vec::new();
    let mut offsets: Vec<usize> = Vec::with_capacity(encoded.len() + 1);
    offsets.push(0);
    let mut d: usize = 0;
    while d < encoded.len()
        invariant
            d <= encoded@.len(),
            is_boundaries(offsets@),
            offsets@.len() == d + 1,
            offsets@[0] == 0,
            offsets@.last() == data@.len(),
            forall|e: int|
                0 <= e < d ==> #[trigger] doc_bytes(data@, offsets@, e) == encoded@[e]@,
        decreases encoded@.len() - d,
    {
        let ghost (old_data, old_offsets) = (data@, offsets@);
        let doc: &Vec<u8> = &encoded[d];
        let mut i: usize = 0;
        while i < doc.len()
            invariant
                i <= doc@.len(),
                data@ == old_data + doc@.take(i as int),
            decreases doc@.len() - i,
        {
            data.push(doc[i]);
            i += 1;
            assert(data@ =~= old_data + doc@.take(i as int));
        }
        assert(doc@.take(i as int) =~= doc@);
        offsets.push(data.len());
        proof {
            assert forall|e: int| 0 <= e < d + 1 implies #[trigger] doc_bytes(data@, offsets@, e)
                == encoded@[e]@ by {
                if e < d {
                    assert(offsets@[e] == old_offsets[e] && offsets@[e + 1] == old_offsets[e + 1]);
                    assert(old_offsets[e] <= old_offsets[e + 1] <= old_offsets[d as int]);
                    assert(doc_bytes(old_data, old_offsets, e) == encoded@[e]@);
                    assert(doc_bytes(data@, offsets@, e) =~= doc_bytes(old_data, old_offsets, e));
                } else {
                    assert(doc_bytes(data@, offsets@, e) =~= doc@);
                }
            }
        }
        d += 1;
    }
    (data, offsets)
}

/// Where every document is encoded in `width` bytes per token, the boundaries of the bytes count
/// the same tokens as the documents had: each document keeps its number of tokens, and its tokens
/// start where they did.
pub proof fn encoding_keeps_tokens(
    data: Seq<u8>,
    offsets: Seq<usize>,
    counts: Seq<usize>,
    width: int,
    d: int,
)
    requires
        width > 0,
        is_boundaries(offsets),
        offsets.len() == counts.len() + 1,
        offsets[0] == 0,
        offsets.last() == data.len(),
        forall|e: int|
            0 <= e < counts.len() ==> (#[trigger] doc_bytes(data, offsets, e)).len() == counts[e]
                * width,
        0 <= d <= counts.len(),
    ensures
        offsets[d] == total(counts, d) * width,
        first_token(offsets, width, d as nat) == total(counts, d),
        offsets[d] as int / width == total(counts, d),
        d < counts.len() ==> doc_tokens(offsets, width, d) == counts[d],
    decreases d,
{
    if d > 0 {
        encoding_keeps_tokens(data, offsets, counts, width, d - 1);
        let (t, c) = (total(counts, d - 1), counts[d - 1] as int);
        assert((t + c) * width == t * width + c * width) by (nonlinear_arith);
        assert(offsets[d - 1] <= offsets[d] <= offsets.last());
        assert(doc_bytes(data, offsets, d - 1).len() == offsets[d] - offsets[d - 1]);
    } else {
        assert(0 * width == 0) by (nonlinear_arith);
    }
    let n = total(counts, d);
    assert(n * width == width * n) by (nonlinear_arith);
    vstd::arithmetic::div_mod::lemma_div_multiples_vanish(n, width);
    if d < counts.len() {
        let c = counts[d] as int;
        assert(offsets[d] <= offsets[d + 1] <= offsets.last());
        assert(doc_bytes(data, offsets, d).len() == offsets[d + 1] - offsets[d]);
        assert(c * width == width * c) by (nonlinear_arith);
        vstd::arithmetic::div_mod::lemma_div_multiples_vanish(c, width);
    }
}

/// The bytes of a document are those from its own offset to the next one.
pub proof fn document_bytes_are_a_stretch(data: Seq<u8>, offsets: Seq<usize>, d: int, i: int)
    requires
        0 <= d < offsets.len() - 1,
        offsets[d] <= offsets[d + 1] <= data.len(),
        0 <= i < offsets[d + 1] - offsets[d],
    ensures
        doc_bytes(data, offsets, d).len() == offsets[d + 1] - offsets[d],
        doc_bytes(data, offsets, d)[i] == data[offsets[d] + i],
{
}

} // verus!
