use tachiom::order::sort_positions;
use tachiom::score::Score;

fn s(x: f32) -> Score {
    Score::from_bits(x.to_bits())
}

const SAMPLES: [f32; 12] = [
    0.0,
    -0.0,
    1.0,
    -1.0,
    0.45,
    1.0e-40,
    -1.0e-40,
    f32::MAX,
    f32::MIN,
    f32::INFINITY,
    f32::NEG_INFINITY,
    f32::NAN,
];

#[test]
fn score_bits_round_trip() {
    for x in SAMPLES {
        assert_eq!(s(x).to_bits(), x.to_bits());
    }
    assert_eq!(Score::infinity().to_bits(), f32::INFINITY.to_bits());
    assert_eq!(Score::neg_infinity().to_bits(), f32::NEG_INFINITY.to_bits());
}

#[test]
fn scores_order_as_numbers() {
    for a in SAMPLES {
        assert_eq!(s(a).is_nan(), a.is_nan());
        for b in SAMPLES {
            assert_eq!(s(a).is_above(s(b)), a > b, "{a} > {b}");
            assert_eq!(s(a).is_at_least(s(b)), a >= b, "{a} >= {b}");
        }
    }
}

#[test]
fn larger_and_smaller_scores() {
    for a in SAMPLES {
        for b in SAMPLES {
            let max = f32::from_bits(s(a).max(s(b)).to_bits());
            let min = f32::from_bits(s(a).min(s(b)).to_bits());
            if a.is_nan() && b.is_nan() {
                assert!(max.is_nan() && min.is_nan());
            } else {
                assert_eq!(max, a.max(b));
                assert_eq!(min, a.min(b));
            }
        }
    }
}

#[test]
fn descending_keys_sort_best_first() {
    let mut values: Vec<f32> = SAMPLES.iter().copied().filter(|x| !x.is_nan()).collect();
    values.sort_by_key(|x| s(*x).to_descending_key());
    for pair in values.windows(2) {
        assert!(pair[0] >= pair[1]);
    }
    assert_eq!(s(0.0).to_descending_key(), s(-0.0).to_descending_key());
}

#[test]
fn sorting_is_stable() {
    let keys = [5u64, 1, 5, 0, 1, u64::MAX, 0];
    assert_eq!(sort_positions(&keys), vec![3, 6, 1, 4, 0, 2, 5]);
    assert_eq!(sort_positions(&[]), Vec::<usize>::new());
    let many: Vec<u64> = (0..500u64).map(|i| (i * 7919) % 97).collect();
    let mut expected: Vec<usize> = (0..500).collect();
    expected.sort_by_key(|&i| many[i]);
    assert_eq!(sort_positions(&many), expected);
}
