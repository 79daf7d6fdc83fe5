use tachiom::query::{
    check_shape, n_tokens, pad_result, pad_results_batch, ragged_ranges, result_lines,
    uniform_ranges, QueryError, ResultLine, NO_DOC,
};
use tachiom::score::Score;

fn s(x: f32) -> Score {
    Score::from_bits(x.to_bits())
}

#[test]
fn token_arrays_have_rows_of_the_right_width() {
    assert_eq!(check_shape(&[7, 128], 128), Ok(7));
    assert_eq!(check_shape(&[7, 127], 128), Err(QueryError::WrongShape));
    assert_eq!(check_shape(&[7], 128), Err(QueryError::WrongShape));
}

#[test]
fn uniform_queries_share_evenly() {
    assert_eq!(uniform_ranges(6, 3), Ok(vec![(0, 2), (2, 4), (4, 6)]));
    assert_eq!(uniform_ranges(0, 2), Ok(vec![(0, 0), (0, 0)]));
    assert_eq!(uniform_ranges(7, 3), Err(QueryError::NotDivisible));
    assert_eq!(uniform_ranges(7, 0), Err(QueryError::NoQueries));
}

#[test]
fn ragged_queries_follow_the_offsets() {
    assert_eq!(ragged_ranges(6, 3, &[0, 1, 1, 6]), Ok(vec![(0, 1), (1, 1), (1, 6)]));
    // The first offset need not be 0.
    assert_eq!(ragged_ranges(6, 1, &[2, 6]), Ok(vec![(2, 6)]));
    assert_eq!(ragged_ranges(6, 0, &[6]), Err(QueryError::NoQueries));
    assert_eq!(ragged_ranges(6, 3, &[0, 6]), Err(QueryError::OffsetsLength));
    assert_eq!(ragged_ranges(6, 3, &[]), Err(QueryError::OffsetsLength));
    assert_eq!(ragged_ranges(6, usize::MAX, &[]), Err(QueryError::OffsetsLength));
    assert_eq!(ragged_ranges(6, 2, &[0, 3, 5]), Err(QueryError::OffsetsEnd));
    assert_eq!(ragged_ranges(6, 3, &[0, 4, 3, 6]), Err(QueryError::OffsetsOrder));
    assert_eq!(ragged_ranges(6, 2, &[0, 9, 6]), Err(QueryError::OffsetsOrder));
}

#[test]
fn uniform_is_ragged_at_equal_distances() {
    let offsets: Vec<u64> = (0..=5).map(|i| i * 4).collect();
    assert_eq!(uniform_ranges(20, 5), ragged_ranges(20, 5, &offsets));
}

#[test]
fn results_are_padded_to_k() {
    let result = [(s(2.0), 5), (s(1.0), 6)];
    let (scores, docs) = pad_result(&result, 3);
    assert_eq!(scores, vec![s(2.0), s(1.0), s(f32::NEG_INFINITY)]);
    assert_eq!(docs, vec![5, 6, NO_DOC]);
    assert_eq!(NO_DOC, u32::MAX);
    let (scores, docs) = pad_result(&result, 1);
    assert_eq!((scores, docs), (vec![s(2.0)], vec![5]));
}

#[test]
fn batches_are_padded_row_by_row() {
    let results = vec![vec![(s(2.0), 5), (s(1.0), 6), (s(0.0), 7)], vec![], vec![(s(3.0), 8)]];
    let (scores, docs) = pad_results_batch(&results, 4, 2);
    let none = s(f32::NEG_INFINITY);
    assert_eq!(scores, vec![s(2.0), s(1.0), none, none, s(3.0), none, none, none]);
    assert_eq!(docs, vec![5, 6, NO_DOC, NO_DOC, 8, NO_DOC, NO_DOC, NO_DOC]);
    for (i, result) in results.iter().enumerate() {
        let (row_scores, row_docs) = pad_result(result, 2);
        assert_eq!(scores[2 * i..2 * i + 2], row_scores[..]);
        assert_eq!(docs[2 * i..2 * i + 2], row_docs[..]);
    }
}

#[test]
fn result_lines_name_their_query() {
    let results = vec![vec![(s(2.0), 5)], vec![], vec![(s(3.0), 8), (s(1.0), 9)]];
    let line = |query_id, doc_id, rank, score| ResultLine { query_id, doc_id, rank, score: s(score) };
    assert_eq!(
        result_lines(&results),
        vec![line(0, 5, 1, 2.0), line(2, 8, 1, 3.0), line(2, 9, 2, 1.0)]
    );
}

#[test]
fn full_results_are_labelled_by_position() {
    let k = 3;
    let results: Vec<Vec<(Score, u32)>> =
        (0..4).map(|q| (0..k).map(|j| (s(j as f32), 10 * q + j)).collect()).collect();
    for (i, line) in result_lines(&results).iter().enumerate() {
        assert_eq!(line.query_id, i / k as usize);
        assert_eq!(line.rank, i % k as usize + 1);
    }
}

#[test]
fn tokens_are_counted_from_the_last_boundary() {
    assert_eq!(n_tokens(&[0, 8, 20], 4), 5);
    assert_eq!(n_tokens(&[0, 8, 20], 0), 0);
    assert_eq!(n_tokens(&[], 4), 0);
}
