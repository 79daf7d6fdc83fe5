use tachiom::groups::group_by_token;
use tachiom::pgc::{
    busiest_anchor, group_by_anchor, updated_anchors, EmptyAnchorStrategy, PgcBuilder, PgcStep,
    ProximityGraphClustering,
};
use tachiom::rows::{all_rows, gather_rows};
use tachiom::tac::{
    merge_token_results, minimum_budget, TacAllocParams, TacBuilder, TacPlan, TokenAwareClustering,
    TokenClusters,
};

fn grouped(ids: &[usize]) -> Vec<(usize, Vec<usize>)> {
    group_by_token(ids).into_iter().map(|g| (g.token_id, g.indices)).collect()
}

#[test]
fn rows_are_gathered_in_order() {
    let data = [1u16, 2, 3, 4, 5, 6];
    assert_eq!(gather_rows(&data, 2, &[2, 0, 2]), vec![5, 6, 1, 2, 5, 6]);
    assert_eq!(gather_rows(&data, 2, &[]), Vec::<u16>::new());
    assert_eq!(all_rows(3), vec![0, 1, 2]);
}

#[test]
fn tokens_group_by_ascending_type() {
    assert_eq!(
        grouped(&[9, 3, 9, 100, 3, 9]),
        vec![(3, vec![1, 4]), (9, vec![0, 2, 5]), (100, vec![3])]
    );
    assert_eq!(grouped(&[]), vec![]);
}

#[test]
fn tac_settings() {
    let b = TokenAwareClustering::builder();
    assert_eq!((b.n_iter, b.verbose, b.max_sample_size), (10, false, None));
    assert_eq!(b.alloc_params, TacAllocParams::default());
    let p = TacAllocParams {
        micro_threshold: 1,
        small_threshold: 2,
        hard_floor: 3,
        min_pts_per_centroid: 4,
    };
    let c = TacBuilder::new().n_iter(3).verbose(true).max_sample_size(Some(7)).alloc_params(p).build();
    assert_eq!(c.settings.n_iter, 3);
    assert!(c.settings.verbose);
    assert_eq!(c.settings.max_sample_size, Some(7));
    assert_eq!(c.settings.alloc_params, p);
    assert_eq!(TokenAwareClustering::default().settings.n_iter, 10);
    let d = TacAllocParams::default();
    assert_eq!(
        (d.micro_threshold, d.small_threshold, d.hard_floor, d.min_pts_per_centroid),
        (128, 256, 4, 39)
    );
}

fn tiny_params() -> TacAllocParams {
    TacAllocParams { micro_threshold: 2, small_threshold: 3, hard_floor: 4, min_pts_per_centroid: 1 }
}

#[test]
fn the_minimum_budget_adds_the_floors() {
    // One type of each class: 1 + 2 + 4.
    let groups = group_by_token(&[1, 2, 2, 3, 3, 3]);
    assert_eq!(minimum_budget(&groups, tiny_params()), Some(7));
    let huge = TacAllocParams { hard_floor: usize::MAX, ..tiny_params() };
    assert_eq!(minimum_budget(&groups, huge), None);
}

#[test]
fn a_small_budget_falls_back_to_one_clustering() {
    let data: Vec<u16> = (0..16).collect();
    let ids = [1, 2, 2, 3, 3, 3, 3, 3];
    let tac = TacBuilder::new().alloc_params(tiny_params()).build();
    match tac.train(&data, 2, &ids, 6) {
        TacPlan::Global { n_centroids } => assert_eq!(n_centroids, 6),
        TacPlan::PerToken { .. } => panic!("expected one clustering"),
    }
    match tac.train(&data, 2, &ids, 7) {
        TacPlan::PerToken { groups, n_centroids } => {
            assert_eq!(n_centroids, 7);
            assert_eq!(groups.len(), 3);
            assert_eq!(groups[2].indices, vec![3, 4, 5, 6, 7]);
        }
        TacPlan::Global { .. } => panic!("expected one clustering per type"),
    }
    // More centroids than vectors are capped.
    match tac.train(&data, 2, &ids, 1000) {
        TacPlan::PerToken { n_centroids, .. } => assert_eq!(n_centroids, 8),
        TacPlan::Global { .. } => panic!("expected one clustering per type"),
    }
}

#[test]
fn training_sizes() {
    let auto = TacBuilder::new().build();
    assert_eq!(auto.training_count(1_000_000, 5), 1_000_000);
    // max(1M, 2 * 39 * 10, 1_000_001 / 20)
    assert_eq!(auto.training_count(1_000_001, 10), 1_000_000);
    // 2 * 39 * 20_000
    assert_eq!(auto.training_count(5_000_000, 20_000), 1_560_000);
    // 60M / 20
    assert_eq!(auto.training_count(60_000_000, 1), 3_000_000);
    assert_eq!(auto.training_count(400_000_000, 1), 10_000_000);
    assert_eq!(auto.training_count(3_000_000, usize::MAX), 3_000_000);
    let never = TacBuilder::new().max_sample_size(Some(usize::MAX)).build();
    assert_eq!(never.training_count(50_000_000, 3), 50_000_000);
    let capped = TacBuilder::new().max_sample_size(Some(4)).build();
    assert_eq!(capped.training_count(9, 3), 4);
    assert_eq!(capped.training_count(3, 3), 3);
    let no_iter = TacBuilder::new().n_iter(0).build();
    assert_eq!(no_iter.training_count(2_000_000, 1), 2_000_000);
}

#[test]
fn training_vectors_are_drawn_without_repetition() {
    let data: Vec<u16> = (0..40).collect();
    let tac = TacBuilder::new().max_sample_size(Some(5)).build();
    let indices: Vec<usize> = (0..20).rev().collect();
    let t = tac.training_for_token(&data, 2, &indices, 3).unwrap();
    assert_eq!(t.full, gather_rows(&data, 2, &indices));
    let train = t.train.unwrap();
    assert_eq!(train.len(), 10);
    let mut rows: Vec<&[u16]> = train.chunks(2).collect();
    rows.sort();
    rows.dedup();
    assert_eq!(rows.len(), 5);
    assert!(rows.iter().all(|r| r[1] == r[0] + 1 && r[0] % 2 == 0));
    let again = tac.training_for_token(&data, 2, &indices, 3).unwrap();
    assert_eq!(again.train.unwrap(), train);

    let whole = TacBuilder::new().build().training_for_token(&data, 2, &indices, 3).unwrap();
    assert!(whole.train.is_none());
    assert!(tac.training_for_token(&data, 2, &indices, 0).is_none());
    assert!(tac.training_for_token(&data, 2, &[], 3).is_none());
}

#[test]
fn merged_assignments_count_from_their_block() {
    let ids = [9usize, 3, 9, 3, 9];
    let groups = group_by_token(&ids);
    let results = vec![
        TokenClusters { centroids: vec![10, 11, 12, 13], assignments: vec![1, 0] },
        TokenClusters { centroids: vec![20, 21, 22, 23, 24, 25], assignments: vec![2, 0, 1] },
    ];
    let r = merge_token_results(&ids, &groups, &results, 2);
    assert_eq!(r.centroids, vec![10, 11, 12, 13, 20, 21, 22, 23, 24, 25]);
    assert_eq!(r.assignments, vec![4, 1, 2, 0, 3]);
    assert_eq!((r.dim, r.n_centroids), (2, 5));
}

#[test]
fn pgc_settings() {
    let b = ProximityGraphClustering::builder();
    assert_eq!((b.n_iter, b.sample_multiplier, b.iter_hnsw_m), (10, 5, 16));
    assert_eq!((b.iter_ef_construction, b.iter_ef_search, b.seed, b.verbose), (200, 50, 42, false));
    assert_eq!(b.empty_strategy, EmptyAnchorStrategy::Resample);
    let p = PgcBuilder::new()
        .n_iter(1)
        .sample_multiplier(2)
        .empty_strategy(EmptyAnchorStrategy::Split)
        .iter_hnsw_m(3)
        .iter_ef_construction(4)
        .iter_ef_search(5)
        .seed(6)
        .verbose(true)
        .build()
        .settings;
    assert_eq!((p.n_iter, p.sample_multiplier, p.iter_hnsw_m), (1, 2, 3));
    assert_eq!((p.iter_ef_construction, p.iter_ef_search, p.seed, p.verbose), (4, 5, 6, true));
    assert_eq!(p.empty_strategy, EmptyAnchorStrategy::Split);
    assert_eq!(ProximityGraphClustering::default().settings.seed, 42);
}

#[test]
fn strategies_have_names() {
    assert_eq!(EmptyAnchorStrategy::from_name("resample"), Some(EmptyAnchorStrategy::Resample));
    assert_eq!(EmptyAnchorStrategy::from_name("remove"), Some(EmptyAnchorStrategy::Remove));
    assert_eq!(EmptyAnchorStrategy::from_name("split"), Some(EmptyAnchorStrategy::Split));
    assert_eq!(EmptyAnchorStrategy::from_name("Split"), None);
}

#[test]
fn hits_are_grouped_and_clamped() {
    let sampled = [7usize, 8, 9, 7, 5];
    let hits = [Some(1usize), None, Some(99), Some(1), Some(2)];
    let clusters = group_by_anchor(&sampled, &hits, 3);
    assert_eq!(clusters, vec![vec![8], vec![7, 7], vec![9, 5]]);
    // The last of the largest.
    assert_eq!(busiest_anchor(&clusters), 2);
}

#[test]
fn anchors_move_to_means_or_replacements() {
    let data = [1u16, 2, 3, 4, 5, 6];
    let clusters = vec![vec![0usize], vec![], vec![1, 2]];
    let means = vec![vec![70u16, 71], vec![], vec![90, 91]];
    assert_eq!(
        updated_anchors(&data, 2, &clusters, &means, &[None, Some(2), None]),
        vec![70, 71, 5, 6, 90, 91]
    );
    assert_eq!(
        updated_anchors(&data, 2, &clusters, &means, &[None, None, None]),
        vec![70, 71, 90, 91]
    );
}

/// Runs a clustering in which every sampled vector goes to anchor 0 and no mean moves it.
fn run(strategy: EmptyAnchorStrategy, multiplier: usize, n_iter: usize) -> (Vec<usize>, Vec<u16>, usize) {
    let data: Vec<u16> = (0..60).collect();
    let pgc = PgcBuilder::new()
        .n_iter(n_iter)
        .sample_multiplier(multiplier)
        .empty_strategy(strategy)
        .build();
    let mut run = pgc.cluster(&data, 3, 4);
    let mut counts = vec![run.anchor_count()];
    while run.next_step() == PgcStep::Refine {
        let n_active = run.anchor_count();
        assert_eq!(run.current_anchors().len(), n_active * 3);
        let sample = run.draw_sample();
        assert_eq!(sample.len(), (n_active * multiplier).min(20));
        assert!(sample.iter().all(|&i| i < 20));
        let hits: Vec<Option<usize>> = sample.iter().map(|_| Some(0)).collect();
        let clusters = group_by_anchor(&sample, &hits, n_active);
        let means: Vec<Vec<u16>> = clusters
            .iter()
            .map(|c| if c.is_empty() { Vec::new() } else { vec![100, 101, 102] })
            .collect();
        run.refine(&clusters, &means);
        counts.push(run.anchor_count());
    }
    let result = match run.next_step() {
        PgcStep::Assign => run.finish(&vec![None; 20]),
        _ => run.fall_back(),
    };
    assert_eq!(result.dim, 3);
    assert_eq!(result.assignments, vec![0; 20]);
    assert_eq!(result.centroids.len(), result.n_centroids * 3);
    (counts, result.centroids, result.n_centroids)
}

fn is_data_row(row: &[u16]) -> bool {
    row[0] % 3 == 0 && row[1] == row[0] + 1 && row[2] == row[0] + 2
}

#[test]
fn resampling_keeps_the_count() {
    let (counts, centroids, n) = run(EmptyAnchorStrategy::Resample, 2, 3);
    assert_eq!(counts, vec![4, 4, 4, 4]);
    assert_eq!(n, 4);
    assert_eq!(&centroids[..3], &[100, 101, 102]);
    assert!(centroids[3..].chunks(3).all(is_data_row));
    assert_eq!(run(EmptyAnchorStrategy::Resample, 2, 3).1, centroids);
}

#[test]
fn removal_keeps_populated_anchors() {
    let (counts, centroids, n) = run(EmptyAnchorStrategy::Remove, 2, 2);
    assert_eq!(counts, vec![4, 1, 1]);
    assert_eq!(n, 1);
    assert_eq!(centroids, vec![100, 101, 102]);
}

#[test]
fn splitting_seeds_from_the_crowd() {
    let (counts, centroids, n) = run(EmptyAnchorStrategy::Split, 9, 1);
    assert_eq!(counts, vec![4, 4]);
    assert_eq!(n, 4);
    assert!(centroids[3..].chunks(3).all(is_data_row));
}

#[test]
fn a_run_without_anchors_falls_back() {
    let (counts, centroids, n) = run(EmptyAnchorStrategy::Remove, 0, 5);
    assert_eq!(counts, vec![4, 0]);
    assert_eq!(n, 4);
    assert_eq!(centroids, (0..12).collect::<Vec<u16>>());
}

#[test]
fn first_anchors_are_vectors() {
    let (counts, centroids, _) = run(EmptyAnchorStrategy::Resample, 1, 0);
    assert_eq!(counts, vec![4]);
    assert!(centroids.chunks(3).all(is_data_row));
}

#[test]
fn final_assignments_are_not_clamped() {
    let data: Vec<u16> = (0..8).collect();
    let run = PgcBuilder::new().n_iter(0).build().cluster(&data, 2, 2);
    let r = run.finish(&[Some(1), None, Some(7), Some(0)]);
    assert_eq!(r.assignments, vec![1, 0, 7, 0]);
    assert_eq!(r.n_centroids, 2);
}
