//! The last steps of a build: from encoded documents to the index.
use crate::encode::{doc_bytes, join_documents};
#[allow(unused_imports)]
use crate::encode::encoding_keeps_tokens;
use crate::rows::total;
#[allow(unused_imports)]
use crate::rows::lemma_total_grows;
use crate::tachiom::{is_boundaries, Tachiom};
#[allow(unused_imports)]
use crate::tachiom::{is_listed, owns};
use vstd::prelude::*;

verus! {

/// Token `t`, counted over all documents, belongs to document `d`.
pub open spec fn is_token_of(counts: Seq<usize>, d: int, t: int) -> bool {
    0 <= d < counts.len() && total(counts, d) <= t < total(counts, d + 1)
}

/// A token of the document known as `doc` is assigned to centroid `c`. A document is known by the
/// low 32 bits of its position.
pub open spec fn is_touched(counts: Seq<usize>, assignments: Seq<usize>, c: int, doc: u32) -> bool {
    exists|d: int, t: int| #[trigger]
        is_token_of(counts, d, t) && assignments[t] == c && doc == d as u32
}

/// An index with the bytes of its documents.
pub struct BuiltIndex {
    pub index: Tachiom,
    /// The encoded documents, one behind another.
    pub data: Vec<u8>,
    /// Where each document starts in `data`, and where the last one ends.
    pub doc_offsets: Vec<usize>,
}

impl Tachiom {
    /// Puts an index together from the centroid that every token is assigned to, how many tokens
    /// each document has, and the documents, encoded in `output_dim` bytes per token: a centroid
    /// lists exactly the documents of which it has a token.
    pub fn build_index_from_tac(
        n_centroids: usize,
        assignments: &[usize],
        counts: &[usize],
        encoded: &[Vec<u8>],
        output_dim: usize,
    ) -> (r: BuiltIndex)
        requires
            output_dim > 0,
            n_centroids < usize::MAX,
            encoded@.len() == counts@.len(),
            counts@.len() < usize::MAX,
            forall|d: int|
                0 <= d < encoded@.len() ==> (#[trigger] encoded@[d])@.len() == counts@[d]
                    * output_dim,
            assignments@.len() == total(counts@, counts@.len() as int),
            forall|t: int| 0 <= t < assignments@.len() ==> #[trigger] assignments@[t] < n_centroids,
        ensures
            r.index.wf(),
            r.index.n_lists() == n_centroids,
            r.index.dataset_mean is None,
            r.index.inverted_lists@.len() <= assignments@.len(),
            forall|c: int, doc: u32|
                0 <= c < n_centroids ==> (#[trigger] r.index.list(c).contains(doc) <==> is_touched(
                    counts@,
                    assignments@,
                    c,
                    doc,
                )),
            forall|d: int|
                0 <= d < counts@.len() ==> #[trigger] counts@[d] <= r.index.max_doc_tokens,
            r.index.max_doc_tokens == 0 || counts@.contains(r.index.max_doc_tokens),
            is_boundaries(r.doc_offsets@),
            r.doc_offsets@.len() == counts@.len() + 1,
            r.doc_offsets@[0] == 0,
            r.doc_offsets@.last() == r.data@.len(),
            forall|d: int|
                0 <= d < encoded@.len() ==> #[trigger] doc_bytes(r.data@, r.doc_offsets@, d)
                    == encoded@[d]@,
    {
        let (data, doc_offsets): (Vec<u8>, Vec<usize>) = join_documents(encoded);
        let ghost (off, w, n) = (doc_offsets@, output_dim as int, counts@.len() as int);
        proof {
            assert forall|e: int| 0 <= e < n implies (#[trigger] doc_bytes(data@, off, e)).len()
                == counts@[e] * w by {
                assert(encoded@[e]@.len() == counts@[e] * w);
            }
            encoding_keeps_tokens(data@, off, counts@, w, n);
        }
        let index: Tachiom = Tachiom::from_parts(
            n_centroids,
            assignments,
            &doc_offsets,
            output_dim,
        );
        proof {
            assert forall|c: int, doc: u32|
                0 <= c < n_centroids implies (#[trigger] index.list(c).contains(doc) <==> is_touched(
                counts@,
                assignments@,
                c,
                doc,
            )) by {
                if is_touched(counts@, assignments@, c, doc) {
                    let (d, t) = choose|d: int, t: int| #[trigger]
                        is_token_of(counts@, d, t) && assignments@[t] == c && doc == d as u32;
                    encoding_keeps_tokens(data@, off, counts@, w, d);
                    encoding_keeps_tokens(data@, off, counts@, w, d + 1);
                    lemma_total_grows(counts@, 0, d);
                    lemma_total_grows(counts@, d + 1, n);
                    assert(owns(off, w, d, t));
                    assert(is_listed(off, w, assignments@, c, doc, assignments@.len() as int));
                }
                if is_listed(off, w, assignments@, c, doc, assignments@.len() as int) {
                    let (d, t) = choose|d: int, t: int|
                        0 <= t < assignments@.len() && #[trigger] owns(off, w, d, t)
                            && assignments@[t] == c && doc == d as u32;
                    encoding_keeps_tokens(data@, off, counts@, w, d);
                    encoding_keeps_tokens(data@, off, counts@, w, d + 1);
                    assert(is_token_of(counts@, d, t));
                }
            }
            assert forall|d: int| 0 <= d < n implies #[trigger] counts@[d]
                <= index.max_doc_tokens by {
                encoding_keeps_tokens(data@, off, counts@, w, d);
            }
            if index.max_doc_tokens != 0 {
                let d = choose|d: int|
                    0 <= d < off.len() - 1 && #[trigger] crate::tachiom::doc_tokens(off, w, d)
                        == index.max_doc_tokens;
                encoding_keeps_tokens(data@, off, counts@, w, d);
                assert(counts@[d] == index.max_doc_tokens);
            }
        }
        BuiltIndex { index, data, doc_offsets }
    }
}

/// A centroid touches a document exactly if one of the document's tokens is assigned to it.
pub proof fn touched_by_its_tokens(
    counts: Seq<usize>,
    assignments: Seq<usize>,
    c: int,
    doc: u32,
    start: int,
)
    requires
        doc < counts.len() ==> start == counts.take(doc as int).fold_left(
            0int,
            |sum: int, c: usize| sum + c,
        ),
        counts.len() <= 0x1_0000_0000,
    ensures
        is_touched(counts, assignments, c, doc) <==> doc < counts.len() && exists|j: int|
            0 <= j < counts[doc as int] && #[trigger] assignments[start + j] == c,
{
    if is_touched(counts, assignments, c, doc) {
        let (d, t) = choose|d: int, t: int| #[trigger]
            is_token_of(counts, d, t) && assignments[t] == c && doc == d as u32;
        assert(d as u32 == d);
        crate::rows::total_adds_up(counts, d);
        assert(assignments[start + (t - start)] == c);
    }
    if doc < counts.len() && exists|j: int|
        0 <= j < counts[doc as int] && #[trigger] assignments[start + j] == c {
        let d = doc as int;
        let j = choose|j: int| 0 <= j < counts[d] && #[trigger] assignments[start + j] == c;
        crate::rows::total_adds_up(counts, d);
        crate::rows::total_adds_up(counts, d + 1);
        assert(is_token_of(counts, d, start + j));
        assert(d as u32 == doc);
    }
}

} // verus!
