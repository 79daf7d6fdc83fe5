use tachiom::candidates::{alpha_band, prune_by_alpha, select_candidates};
use tachiom::coarse::{imputed_similarity, Probe};
use tachiom::rerank::Reranker;
use tachiom::score::Score;
use tachiom::tachiom::{SearchTimings, Tachiom, TachiomSearchParams};

fn s(x: f32) -> Score {
    Score::from_bits(x.to_bits())
}

fn probe(centroid: usize, similarity: f32) -> Probe {
    Probe { centroid, similarity: s(similarity) }
}

/// Three documents of 2, 1 and 3 tokens over 4 centroids.
fn small_index() -> Tachiom {
    // Two values per token.
    let offsets = [0usize, 4, 6, 12];
    let assignments = [0usize, 1, 1, 2, 2, 0];
    Tachiom::from_parts(4, &assignments, &offsets, 2)
}

fn sorted_list(index: &Tachiom, c: usize) -> Vec<u32> {
    let mut list = index.inverted_lists[index.offsets[c]..index.offsets[c + 1]].to_vec();
    list.sort();
    list
}

#[test]
fn inverted_lists_hold_each_document_once() {
    let index = small_index();
    assert_eq!(index.offsets.len(), 5);
    assert_eq!(index.offsets[0], 0);
    assert_eq!(*index.offsets.last().unwrap(), index.inverted_lists.len());
    assert_eq!(sorted_list(&index, 0), vec![0, 2]);
    assert_eq!(sorted_list(&index, 1), vec![0, 1]);
    assert_eq!(sorted_list(&index, 2), vec![2]);
    assert_eq!(sorted_list(&index, 3), Vec::<u32>::new());
    assert_eq!(index.max_doc_tokens, 3);
    assert!(index.dataset_mean.is_none());
}

#[test]
fn an_empty_collection_has_empty_lists() {
    let index = Tachiom::from_parts(2, &[], &[0], 8);
    assert_eq!(index.offsets, vec![0, 0, 0]);
    assert!(index.inverted_lists.is_empty());
    assert_eq!(index.max_doc_tokens, 0);
}

#[test]
fn coarse_hits_carry_the_best_similarity() {
    let index = small_index();
    let probes = vec![
        vec![probe(0, 0.5), probe(1, 0.75)],
        vec![probe(2, -0.25)],
        vec![],
        vec![probe(3, 1.0)],
    ];
    let mut found = index.accumulate_coarse_scores(&probes);
    found.sort_by_key(|d| d.doc);
    let plain: Vec<(u32, Vec<(usize, f32)>)> = found
        .iter()
        .map(|d| (d.doc, d.hits.iter().map(|h| (h.token, f32::from_bits(h.best.to_bits()))).collect()))
        .collect();
    assert_eq!(
        plain,
        vec![
            (0, vec![(0, 0.75)]),
            (1, vec![(0, 0.75)]),
            (2, vec![(0, 0.5), (1, -0.25)]),
        ]
    );
}

#[test]
fn the_imputed_similarity_is_the_smallest() {
    assert_eq!(imputed_similarity(&[probe(0, 0.5), probe(1, -0.5), probe(2, 0.0)]), s(-0.5));
    assert_eq!(imputed_similarity(&[]), Score::infinity());
}

#[test]
fn candidates_come_best_first_then_by_id() {
    let docs = [(7, s(0.5)), (3, s(2.0)), (9, s(-1.0)), (4, s(0.5)), (1, s(0.5))];
    let all = select_candidates(&docs, 10);
    assert_eq!(all, vec![(3, s(2.0)), (1, s(0.5)), (4, s(0.5)), (7, s(0.5)), (9, s(-1.0))]);
    assert_eq!(select_candidates(&docs, 2), vec![(3, s(2.0)), (1, s(0.5))]);
    assert_eq!(select_candidates(&[], 0), vec![]);
}

#[test]
fn the_alpha_band_spans_best_to_kth() {
    let docs = [(3, s(2.0)), (1, s(0.5)), (4, s(-0.5))];
    assert_eq!(alpha_band(&docs, 2), Some((s(2.0), s(0.5))));
    assert_eq!(alpha_band(&docs, 8), Some((s(2.0), s(-0.5))));
    assert_eq!(alpha_band(&docs, 0), None);
    assert_eq!(alpha_band(&[], 3), None);
}

#[test]
fn pruning_keeps_the_front() {
    let mut docs = vec![(3, s(2.0)), (1, s(0.5)), (4, s(0.5)), (2, s(0.25)), (9, s(-3.0))];
    prune_by_alpha(&mut docs, s(0.5));
    assert_eq!(docs, vec![(3, s(2.0)), (1, s(0.5)), (4, s(0.5))]);
    prune_by_alpha(&mut docs, s(9.0));
    assert!(docs.is_empty());
}

fn rerank(scores: &[(u32, f32)], k: usize, beta: Option<usize>) -> (Vec<(f32, u32)>, usize) {
    let candidates: Vec<(u32, Score)> = scores.iter().map(|(d, _)| (*d, s(0.0))).collect();
    let mut r = Reranker::new(&candidates, k, beta);
    let mut asked = 0;
    while let Some(doc) = r.next_doc() {
        assert_eq!(doc, scores[asked].0);
        r.feed(s(scores[asked].1));
        asked += 1;
    }
    let out = r.finish().iter().map(|(x, d)| (f32::from_bits(x.to_bits()), *d)).collect();
    (out, asked)
}

#[test]
fn reranking_without_patience_scores_everything() {
    let scores = [(5, 0.5), (2, 2.0), (8, 0.5), (1, -1.0)];
    let (out, asked) = rerank(&scores, 3, None);
    assert_eq!(asked, 4);
    assert_eq!(out, vec![(2.0, 2), (0.5, 5), (0.5, 8)]);
    let (out, _) = rerank(&scores, 0, None);
    assert!(out.is_empty());
}

#[test]
fn reranking_stops_after_stalls() {
    let scores = [(1, 3.0), (2, 2.0), (3, 1.0), (4, 4.0), (5, 1.0), (6, 1.5), (7, 9.0)];
    let (out, asked) = rerank(&scores, 2, Some(2));
    assert_eq!(asked, 6);
    assert_eq!(out, vec![(4.0, 4), (3.0, 1)]);
    let (out, asked) = rerank(&scores, 2, Some(100));
    assert_eq!(asked, 7);
    assert_eq!(out, vec![(9.0, 7), (4.0, 4)]);
}

#[test]
fn equal_scores_do_not_displace() {
    let scores = [(9, 1.0), (4, 1.0), (1, 1.0), (0, 1.0)];
    let (out, _) = rerank(&scores, 2, Some(10));
    assert_eq!(out, vec![(1.0, 4), (1.0, 9)]);
}

#[test]
fn fewer_candidates_than_wanted_are_all_scored() {
    let scores = [(1, 1.0), (2, 3.0)];
    let (out, asked) = rerank(&scores, 5, Some(1));
    assert_eq!(asked, 2);
    assert_eq!(out, vec![(3.0, 2), (1.0, 1)]);
}

#[test]
fn search_defaults() {
    let p = TachiomSearchParams::default();
    assert_eq!((p.k_centroids, p.k_docs_to_score, p.ef_search), (20, 500, 30));
    assert_eq!(p.alpha, Some(s(0.45)));
    assert!(p.beta.is_none() && p.lambda.is_none());
    assert!(!p.impute_missing && !p.gap_relative);
    let t = SearchTimings::default();
    assert_eq!((t.stage1_ns, t.stage2_ns, t.stage3_ns), (0, 0, 0));
}

#[test]
fn soundness_of_lists_is_told() {
    let made = |inverted_lists: Vec<u32>, offsets: Vec<usize>| Tachiom {
        inverted_lists,
        offsets,
        max_doc_tokens: 1,
        dataset_mean: None,
    };
    assert!(small_index().is_sound());
    assert!(made(vec![], vec![0]).is_sound());
    assert!(made(vec![4, 7, 4], vec![0, 2, 2, 3]).is_sound());
    assert!(!made(vec![], vec![]).is_sound());
    assert!(!made(vec![4, 7], vec![1, 2]).is_sound());
    assert!(!made(vec![4, 7], vec![0, 1]).is_sound());
    assert!(!made(vec![4, 7], vec![0, 2, 1, 2]).is_sound());
    assert!(!made(vec![4, 7, 4], vec![0, 3]).is_sound());
}

#[test]
fn pruning_again_changes_nothing() {
    let ranked = vec![(1, s(9.0)), (4, s(7.0)), (2, s(6.5)), (3, s(2.0))];
    let mut once = ranked.clone();
    prune_by_alpha(&mut once, s(6.0));
    assert_eq!(once, ranked[..3].to_vec());
    assert_eq!(alpha_band(&once, 2), alpha_band(&ranked, 2));
    let mut twice = once.clone();
    prune_by_alpha(&mut twice, s(6.0));
    assert_eq!(twice, once);
    // No more than are wanted, and a threshold at the last score: nothing goes.
    let mut short = ranked.clone();
    prune_by_alpha(&mut short, s(2.0));
    assert_eq!(short, ranked);
}

#[test]
fn a_long_patience_changes_no_score() {
    let items = [(5, 1.0), (6, 3.0), (7, 0.5), (8, 2.0), (9, 3.0)];
    let scores = |beta: Option<usize>| -> Vec<f32> {
        rerank(&items, 2, beta).0.iter().map(|x| x.0).collect()
    };
    assert_eq!(scores(None), vec![3.0, 3.0]);
    // Three candidates beyond the first two.
    assert_eq!(scores(Some(3)), scores(None));
    assert_eq!(scores(Some(4)), scores(None));
    assert_eq!(scores(Some(1)), vec![3.0, 1.0]);
}

#[test]
fn coarse_scores_do_not_matter_to_reranking() {
    let run = |candidates: &[(u32, Score)]| {
        let mut rerank = Reranker::new(candidates, 2, Some(2));
        while let Some(doc) = rerank.next_doc() {
            rerank.feed(s(doc as f32));
        }
        rerank.finish()
    };
    let results = run(&[(3, s(1.0)), (1, s(0.5)), (2, s(0.25))]);
    assert_eq!(results, vec![(s(3.0), 3), (s(2.0), 2)]);
    assert_eq!(run(&[(3, s(-1.0)), (1, s(8.0)), (2, s(0.0))]), results);
}
