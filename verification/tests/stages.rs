use tachiom::coarse::Probe;
use tachiom::score::Score;
use tachiom::search::SearchRequest;
use tachiom::tachiom::Tachiom;

fn s(x: f32) -> Score {
    Score::from_bits(x.to_bits())
}

/// Five documents of one token each; document `d` belongs to centroid `d % 3`.
fn index() -> Tachiom {
    let encoded: Vec<Vec<u8>> = (0..5u8).map(|d| vec![d, d + 100]).collect();
    let built = Tachiom::build_index_from_tac(4, &[0, 1, 2, 0, 1], &[1; 5], &encoded, 2);
    assert_eq!(built.data, vec![0, 100, 1, 101, 2, 102, 3, 103, 4, 104]);
    assert_eq!(built.doc_offsets, vec![0, 2, 4, 6, 8, 10]);
    assert_eq!(built.index.max_doc_tokens, 1);
    built.index
}

/// Searches with the given probes, taking the sum of the best similarities as the coarse score
/// and ten times the document id as the full score.
fn search(probes: &[Vec<(usize, f32)>], request: SearchRequest, alpha: f32) -> Vec<(f32, u32)> {
    search_in(&index(), probes, request, alpha)
}

fn search_in(
    index: &Tachiom,
    probes: &[Vec<(usize, f32)>],
    request: SearchRequest,
    alpha: f32,
) -> Vec<(f32, u32)> {
    let mut stage = index.search(request);
    for token in probes {
        stage.take_probes(
            token.iter().map(|&(centroid, x)| Probe { centroid, similarity: s(x) }).collect(),
        );
    }
    let stage = stage.accumulate();
    let coarse: Vec<Score> = stage
        .documents()
        .iter()
        .map(|d| s(d.hits.iter().map(|h| f32::from_bits(h.best.to_bits())).sum()))
        .collect();
    let stage = stage.select(&coarse);
    let threshold = stage.band().map(|(_, kth)| {
        let kth = f32::from_bits(kth.to_bits());
        s(kth - kth.abs() * alpha)
    });
    assert_eq!(threshold.is_some(), request.prunes && request.k > 0 && !coarse.is_empty());
    let mut rerank = stage.rerank(threshold);
    while let Some(doc) = rerank.next_doc() {
        rerank.feed(s(10.0 * doc as f32));
    }
    rerank.finish().iter().map(|(x, d)| (f32::from_bits(x.to_bits()), *d)).collect()
}

fn request(k: usize, k_docs_to_score: usize, prunes: bool) -> SearchRequest {
    SearchRequest { k, k_docs_to_score, prunes, beta: None }
}

#[test]
fn a_search_reranks_what_its_probes_list() {
    let probes = [vec![(0, 1.0), (1, 0.5)], vec![(1, 0.25)]];
    // Centroid 2 is not probed, so document 2 is not found.
    assert_eq!(
        search(&probes, request(10, 100, false), 0.0),
        vec![(40.0, 4), (30.0, 3), (10.0, 1), (0.0, 0)]
    );
    assert_eq!(search(&probes, request(2, 100, false), 0.0), vec![(40.0, 4), (30.0, 3)]);
}

#[test]
fn only_the_best_candidates_are_scored() {
    // Coarse scores: documents 0 and 3 have 1.0, documents 1 and 4 have 0.75.
    let probes = [vec![(0, 1.0), (1, 0.5)], vec![(1, 0.25)]];
    assert_eq!(search(&probes, request(10, 2, false), 0.0), vec![(30.0, 3), (0.0, 0)]);
    assert_eq!(
        search(&probes, request(10, 3, false), 0.0),
        vec![(30.0, 3), (10.0, 1), (0.0, 0)]
    );
}

#[test]
fn a_narrow_band_prunes_and_keeps_the_top() {
    let probes = [vec![(0, 1.0), (1, 0.5)], vec![(1, 0.25)]];
    assert_eq!(search(&probes, request(2, 100, true), 0.0), vec![(30.0, 3), (0.0, 0)]);
    assert_eq!(search(&probes, request(2, 100, true), 0.25), vec![(40.0, 4), (30.0, 3)]);
    assert_eq!(search(&probes, request(0, 100, true), 0.0), vec![]);
}

#[test]
fn a_search_that_finds_nothing_is_empty() {
    assert_eq!(search(&[], request(3, 5, true), 0.5), vec![]);
    assert_eq!(search(&[vec![(3, 1.0)], vec![]], request(3, 0, true), 0.5), vec![]);
}

#[test]
fn no_document_is_a_result_twice() {
    // Three documents of two tokens each, every one listed by two of the three centroids.
    let encoded: Vec<Vec<u8>> = (0..3u8).map(|d| vec![d; 4]).collect();
    let built = Tachiom::build_index_from_tac(3, &[0, 1, 1, 2, 2, 0], &[2; 3], &encoded, 2);
    let probes = [vec![(0, 1.0), (1, 0.5), (2, 0.25)], vec![(2, 0.5), (1, 1.0), (1, 0.5)]];
    let all = vec![(20.0, 2), (10.0, 1), (0.0, 0)];
    assert_eq!(search_in(&built.index, &probes, request(5, 100, false), 0.0), all);
    assert_eq!(search_in(&built.index, &probes, request(3, 100, true), 0.0), all);
    let patient = SearchRequest { k: 2, k_docs_to_score: 100, prunes: false, beta: Some(3) };
    assert_eq!(search_in(&built.index, &probes, patient, 0.0), all[..2].to_vec());
}
