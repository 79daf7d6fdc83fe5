use tachiom::auto::{power_of_two, resolve_tac_params, take_census, thresholds, TokenCensus};
use tachiom::dataset::{array_offsets, document_offsets, load_offsets, DatasetError};
use tachiom::encode::{doc_token_counts, document_tokens, join_documents, token_starts};
use tachiom::groups::group_by_token;
use tachiom::sample::{
    collect_sample, draw_tokens, merge_fronts, plan_sample, reconcile, sample_tokens, SamplePlan,
};
use tachiom::tac::{minimum_budget, TacAllocParams};
use tachiom::tachiom::{HnswBuildParams, Tachiom, TachiomBuildParams};

#[test]
fn build_defaults() {
    let p = TachiomBuildParams::default();
    assert!(p.token_ids.is_empty());
    assert_eq!((p.total_centroids, p.tac_n_iter), (4_194_304, 10));
    assert_eq!((p.pq_sample_size, p.pq_n_iter, p.pq_seed), (10_000_000, 10, Some(42)));
    assert!(!p.normalize && p.center_dataset);
    assert_eq!(p.hnsw_params, HnswBuildParams { num_neighbors: 32, ef_construction: 1500 });
}

#[test]
fn a_sample_as_large_as_the_collection_takes_all() {
    assert!(matches!(plan_sample(&[1, 2, 3], 3, 3), SamplePlan::All));
    assert!(matches!(plan_sample(&[1, 2, 3], 3, 10), SamplePlan::All));
}

#[test]
fn a_smaller_sample_is_planned_by_type() {
    match plan_sample(&[5, 7, 5, 8, 7, 5], 6, 4) {
        SamplePlan::ByType { groups, wanted } => {
            assert_eq!(wanted, 4);
            let plain: Vec<(usize, Vec<usize>)> =
                groups.into_iter().map(|g| (g.token_id, g.indices)).collect();
            assert_eq!(plain, vec![(5, vec![0, 2, 5]), (7, vec![1, 4]), (8, vec![3])]);
        }
        SamplePlan::All => panic!("expected a sample by type"),
    }
    // No more than have a type.
    match plan_sample(&[5, 7], 6, 4) {
        SamplePlan::ByType { wanted, .. } => assert_eq!(wanted, 2),
        SamplePlan::All => panic!("expected a sample by type"),
    }
}

#[test]
fn the_largest_remainders_are_rounded_up() {
    let bits = |x: f64| x.to_bits();
    // 7 wanted, 5 whole: the two largest remainders get one more.
    let r = reconcile(&[2, 1, 2], &[9, 9, 9], &[bits(0.7), bits(0.1), bits(0.9)], 7);
    assert_eq!(r, vec![3, 1, 3]);
    // Equal remainders: the first in order.
    let r = reconcile(&[1, 1, 1], &[9, 9, 9], &[bits(0.5), bits(0.5), bits(0.5)], 4);
    assert_eq!(r, vec![2, 1, 1]);
}

#[test]
fn the_contributions_add_up_exactly() {
    let bits = |x: f64| x.to_bits();
    // A type that has given all it has is passed over.
    assert_eq!(reconcile(&[2, 1], &[2, 9], &[bits(0.9), bits(0.1)], 4), vec![2, 2]);
    // Whole shares are cut to what is there, and the others make up for them.
    assert_eq!(reconcile(&[4, 0], &[2, 3], &[0, 0], 4), vec![2, 2]);
    // As many rounds as it takes.
    assert_eq!(reconcile(&[0], &[5], &[bits(0.5)], 3), vec![3]);
    let r = reconcile(&[0, 1, 0], &[2, 9, 9], &[bits(0.2), bits(0.1), bits(0.7)], 8);
    assert_eq!(r, vec![2, 3, 3]);
    // Whole shares that are too many are cut from the end.
    assert_eq!(reconcile(&[4, 4], &[9, 9], &[bits(0.5), bits(0.5)], 3), vec![3, 0]);
    assert_eq!(reconcile(&[4, 4, 4], &[9, 9, 9], &[0, 0, 0], 6), vec![4, 2, 0]);
    assert_eq!(reconcile(&[usize::MAX, usize::MAX], &[3, 4], &[0, 0], 7), vec![3, 4]);
    assert_eq!(reconcile(&[], &[], &[], 0), Vec::<usize>::new());
}

#[test]
fn single_tokens_come_last() {
    let bits = |x: f64| x.to_bits();
    let remainders = [bits(0.9), bits(0.1), bits(0.8), bits(0.9)];
    assert_eq!(reconcile(&[1, 1, 1, 0], &[1, 3, 1, 0], &remainders, 2), vec![0, 2, 0, 0]);
    assert_eq!(reconcile(&[1, 1, 1, 0], &[1, 3, 1, 0], &remainders, 4), vec![1, 3, 0, 0]);
    assert_eq!(reconcile(&[1, 1, 1, 0], &[1, 3, 1, 0], &remainders, 5), vec![1, 3, 1, 0]);
}

#[test]
fn tokens_are_drawn_by_type_and_sorted() {
    let ids: Vec<usize> = (0..40).map(|i| i % 4).collect();
    let groups = group_by_token(&ids);
    let sample = draw_tokens(&groups, &[3, 0, 100, 1]);
    assert_eq!(sample.len(), 3 + 10 + 1);
    assert!(sample.windows(2).all(|w| w[0] < w[1]));
    for (token, expected) in [(0, 3), (1, 0), (2, 10), (3, 1)] {
        assert_eq!(sample.iter().filter(|&&i| ids[i] == token).count(), expected);
    }
    assert_eq!(draw_tokens(&groups, &[3, 0, 100, 1]), sample);
    assert_ne!(draw_tokens(&groups, &[3, 0, 0, 0]), vec![0, 4, 8]);
}

#[test]
fn fronts_are_merged_in_order() {
    let tokens = vec![vec![9, 2, 5], vec![7], vec![8, 0, 1]];
    assert_eq!(merge_fronts(&tokens, &[2, 5, 0]), vec![2, 7, 9]);
    assert_eq!(merge_fronts(&tokens, &[0, 0, 3]), vec![0, 1, 8]);
    assert_eq!(merge_fronts(&[], &[]), Vec::<usize>::new());
}

#[test]
fn the_sample_has_the_wanted_size() {
    let ids: Vec<usize> = (0..60).map(|i| i % 3).collect();
    let groups = group_by_token(&ids);
    let remainders = [0.5f64.to_bits(), 0.25f64.to_bits(), 0.25f64.to_bits()];
    let sample = sample_tokens(&groups, &[4, 5, 6], &remainders, 16);
    assert_eq!(sample.len(), 16);
    for (token, expected) in [(0, 5), (1, 5), (2, 6)] {
        assert_eq!(sample.iter().filter(|&&i| ids[i] == token).count(), expected);
    }
}

#[test]
fn any_sample_size_is_met() {
    // Types with 4, 2, 1, 1 and 1 tokens, whatever their shares.
    let ids = [3usize, 1, 3, 8, 1, 3, 9, 3, 7];
    for size in 0..12 {
        for floors in [[0; 5], [9; 5], [0, 4, 1, 0, 0]] {
            let sample = match plan_sample(&ids, ids.len(), size) {
                SamplePlan::All => (0..ids.len()).collect(),
                SamplePlan::ByType { groups, wanted } => {
                    sample_tokens(&groups, &floors, &[1, 2, 3, 4, 5], wanted)
                }
            };
            assert_eq!(sample.len(), size.min(ids.len()));
            assert!(sample.windows(2).all(|w| w[0] < w[1]));
            assert!(sample.iter().all(|&i| i < ids.len()));
        }
    }
    // Single tokens only.
    match plan_sample(&[4, 2, 6], 3, 2) {
        SamplePlan::ByType { groups, wanted } => {
            assert_eq!(sample_tokens(&groups, &[0; 3], &[0; 3], wanted).len(), 2);
        }
        SamplePlan::All => panic!("expected a sample by type"),
    }
}

#[test]
fn the_sample_brings_vectors_and_assignments() {
    let flat = [1u16, 2, 3, 4, 5, 6];
    let (vectors, centroids) = collect_sample(&flat, 2, &[7, 8, 9], &[0, 2]);
    assert_eq!(vectors, vec![1, 2, 5, 6]);
    assert_eq!(centroids, vec![7, 9]);
}

#[test]
fn documents_are_cut_out_and_joined() {
    assert_eq!(doc_token_counts(&[0, 4, 4, 10], 2), vec![2, 0, 3]);
    assert_eq!(token_starts(&[2, 0, 3]), vec![0, 2, 2, 5]);
    let flat: Vec<u16> = (0..10).collect();
    let (vectors, ids) = document_tokens(&flat, 2, &[9, 8, 7, 6, 5], 2, 3);
    assert_eq!(vectors, vec![4, 5, 6, 7, 8, 9]);
    assert_eq!(ids, vec![7, 6, 5]);
    let (data, offsets) = join_documents(&[vec![1, 2], vec![], vec![3]]);
    assert_eq!(data, vec![1, 2, 3]);
    assert_eq!(offsets, vec![0, 2, 2, 3]);
    assert_eq!(join_documents(&[]), (vec![], vec![0]));
}

#[test]
fn encoded_documents_make_the_same_lists() {
    let counts = [2usize, 0, 3];
    let width = 5;
    let encoded: Vec<Vec<u8>> = counts.iter().map(|n| vec![0; n * width]).collect();
    let (_, offsets) = join_documents(&encoded);
    assert_eq!(doc_token_counts(&offsets, width), counts.to_vec());
    let index = Tachiom::from_parts(2, &[0, 1, 1, 1, 1], &offsets, width);
    assert_eq!(index.inverted_lists[index.offsets[0]..index.offsets[1]], [0]);
    assert_eq!(index.offsets[2] - index.offsets[1], 2);
    assert_eq!(index.max_doc_tokens, 3);
}

#[test]
fn offsets_follow_the_document_lengths() {
    assert_eq!(document_offsets(5, 3, &[2, 0, 3]), Ok(vec![0, 6, 6, 15]));
    assert_eq!(document_offsets(5, 3, &[2, 2]), Err(DatasetError::DoclensSum));
    assert_eq!(document_offsets(0, 0, &[]), Ok(vec![0]));
    assert_eq!(document_offsets(5, 3, &[usize::MAX, 7]), Err(DatasetError::DoclensSum));
}

#[test]
fn loaded_collections_are_checked() {
    assert_eq!(load_offsets(12, 3, 4, &[1, 3]), Ok(vec![0, 3, 12]));
    assert_eq!(load_offsets(12, 3, 5, &[1, 3]), Err(DatasetError::TokenIdsLength));
    assert_eq!(load_offsets(12, 3, 4, &[1, 2]), Err(DatasetError::DoclensSum));
    assert_eq!(load_offsets(13, 3, 4, &[1, 3]), Err(DatasetError::VectorsLength));
}

#[test]
fn array_collections_are_checked() {
    assert_eq!(array_offsets(4, 3, 4, &[1, 3]), Ok(vec![0, 3, 12]));
    assert_eq!(array_offsets(4, 3, 3, &[1, -3]), Err(DatasetError::TokenIdsLength));
    assert_eq!(array_offsets(4, 3, 4, &[5, -1]), Err(DatasetError::NegativeDoclen));
    assert_eq!(array_offsets(4, 3, 4, &[5]), Err(DatasetError::DoclensSum));
}

#[test]
fn thresholds_are_clamped_powers_of_two() {
    assert_eq!(thresholds(0, None, None), (32, 64));
    assert_eq!(thresholds(5, None, None), (32, 64));
    assert_eq!(thresholds(6, None, None), (64, 128));
    assert_eq!(thresholds(7, None, None), (128, 256));
    assert_eq!(thresholds(12, None, None), (128, 256));
    assert_eq!(thresholds(6, Some(3), None), (3, 128));
    assert_eq!(thresholds(6, None, Some(9)), (64, 9));
    for exp in 0..20u32 {
        let v = (1usize << exp).clamp(32, 128);
        assert_eq!(thresholds(exp, None, None), (v, 2 * v));
        assert_eq!(power_of_two(exp), 1 << exp);
    }
}

#[test]
fn the_census_counts_types_by_frequency() {
    let ids = [1u32, 2, 2, 3, 3, 3, 4, 4, 4, 4];
    let c = take_census(&ids, 2, 3);
    assert_eq!(c, TokenCensus { n_micro: 1, n_small: 1, n_active: 2, active_tokens: 7 });
    assert_eq!(c.minimum_budget(4), Some(11));
    assert_eq!(c.minimum_budget(usize::MAX), None);
    let params =
        TacAllocParams { micro_threshold: 2, small_threshold: 3, hard_floor: 4, min_pts_per_centroid: 1 };
    let wide: Vec<usize> = ids.iter().map(|&x| x as usize).collect();
    assert_eq!(minimum_budget(&group_by_token(&wide), params), Some(11));
}

#[test]
fn parameters_are_settled() {
    let c = TokenCensus { n_micro: 10, n_small: 5, n_active: 2, active_tokens: 390 };
    // The cap: 10 + 2 * 5 + 390 / 39.
    let r = resolve_tac_params(c, (32, 64), Some(31), None, None, 8, 31);
    assert_eq!((r.total_centroids, r.sat_cap, r.was_capped), (30, 30, true));
    assert_eq!((r.hard_floor, r.min_pts_per_centroid), (4, 39));
    let r = resolve_tac_params(c, (32, 64), Some(7), Some(5), Some(10), 8, 31);
    assert_eq!((r.total_centroids, r.sat_cap, r.was_capped), (7, 59, false));
    assert_eq!((r.hard_floor, r.min_pts_per_centroid), (5, 10));
    assert_eq!((r.micro_threshold, r.small_threshold, r.formula), (32, 64, 8));
    // Unasked: the formula, but no less than the floor, which stays under the cap.
    assert_eq!(resolve_tac_params(c, (32, 64), None, None, None, 64, 31).total_centroids, 64);
    assert_eq!(resolve_tac_params(c, (32, 64), None, None, None, 8, 29).total_centroids, 29);
    assert_eq!(resolve_tac_params(c, (32, 64), None, None, None, 8, 99).total_centroids, 30);
}

#[test]
fn files_and_arrays_are_laid_out_alike() {
    for (n_token_ids, lens) in [(4, vec![1, 3]), (5, vec![1, 3]), (4, vec![1, 2]), (4, vec![0, 4])] {
        let wide: Vec<usize> = lens.iter().map(|&x| x as usize).collect();
        assert_eq!(load_offsets(12, 3, n_token_ids, &wide), array_offsets(4, 3, n_token_ids, &lens));
    }
}

#[test]
fn lists_have_no_more_entries_than_tokens() {
    let index = Tachiom::from_parts(3, &[0, 0, 1, 1, 1, 2], &[0, 4, 6], 1);
    assert_eq!(index.inverted_lists.len(), 4);
    let index = Tachiom::from_parts(3, &[0, 1, 2], &[0, 2, 3], 1);
    assert_eq!(index.inverted_lists.len(), 3);
}
