use rank_fusion::{rrf, rrf3, rrf_sum, RrfError, RrfSum};

/// Rounds an exact score to a double, adding the terms in slot order.
fn rounded(sum: &RrfSum) -> f64 {
    let kf = sum.k as f64;
    let mut total = 0.0f64;
    for rank in sum.ranks.iter() {
        total += 1.0 / (kf + (*rank as f64));
    }
    total
}

#[test]
fn test_rrf_basic() {
    let sum = rrf(Some(1), Some(2), 60).unwrap().unwrap();
    let score = rounded(&sum);
    let expected = 1.0 / 61.0 + 1.0 / 62.0;
    assert!((score - expected).abs() < 1e-12);
}

#[test]
fn test_rrf_nulls() {
    let sum = rrf(Some(1), None, 60).unwrap().unwrap();
    let score = rounded(&sum);
    let expected = 1.0 / 61.0;
    assert!((score - expected).abs() < 1e-12);

    let score = rrf(None, None, 60).unwrap();
    assert!(score.is_none());
}

#[test]
fn test_rrf_ignores_non_positive_ranks() {
    let sum = rrf(Some(0), Some(2), 60).unwrap().unwrap();
    let score = rounded(&sum);
    let expected = 1.0 / 62.0;
    assert!((score - expected).abs() < 1e-12);

    let score = rrf(Some(-1), None, 60).unwrap();
    assert!(score.is_none());
}

#[test]
fn test_rrf_invalid_k() {
    let refusal = rrf(Some(1), Some(2), 0).unwrap_err();
    assert_eq!(refusal, RrfError::InvalidConstant);
    assert_eq!(refusal.message(), "rrf k must be positive");
}

#[test]
fn test_rrf3_basic() {
    let sum = rrf3(Some(1), Some(2), Some(3), 60).unwrap().unwrap();
    let score = rounded(&sum);
    let expected = 1.0 / 61.0 + 1.0 / 62.0 + 1.0 / 63.0;
    assert!((score - expected).abs() < 1e-12);
}

#[test]
fn rrf_keeps_terms_in_slot_order() {
    assert_eq!(rrf(Some(1), Some(2), 60), Ok(Some(RrfSum { k: 60, ranks: vec![1, 2] })));
    assert_eq!(rrf(Some(2), Some(1), 60), Ok(Some(RrfSum { k: 60, ranks: vec![2, 1] })));
    assert_eq!(rrf(Some(7), Some(7), 1), Ok(Some(RrfSum { k: 1, ranks: vec![7, 7] })));
}

#[test]
fn rrf3_keeps_terms_in_slot_order() {
    assert_eq!(
        rrf3(Some(1), Some(2), Some(3), 60),
        Ok(Some(RrfSum { k: 60, ranks: vec![1, 2, 3] }))
    );
    assert_eq!(rrf3(None, Some(5), None, 60), Ok(Some(RrfSum { k: 60, ranks: vec![5] })));
    assert_eq!(rrf3(Some(9), Some(0), Some(4), 3), Ok(Some(RrfSum { k: 3, ranks: vec![9, 4] })));
    assert_eq!(rrf3(None, None, None, 60), Ok(None));
    assert_eq!(rrf3(Some(0), Some(-5), None, 60), Ok(None));
}

#[test]
fn rrf_sum_of_two_positive_ranks_is_both_reciprocals() {
    for k in [1i64, 2, 60, 1000] {
        for r1 in [1i64, 2, 17] {
            for r2 in [1i64, 3, 250] {
                let sum = rrf(Some(r1), Some(r2), k).unwrap().unwrap();
                assert_eq!(sum, RrfSum { k, ranks: vec![r1, r2] });
                let expected = 1.0 / (k as f64 + r1 as f64) + 1.0 / (k as f64 + r2 as f64);
                assert_eq!(rounded(&sum), expected);
            }
        }
    }
}

#[test]
fn rrf_exact_values() {
    let sum = rrf(Some(1), Some(1), 1).unwrap().unwrap();
    assert_eq!(rounded(&sum), 1.0);
    let sum = rrf(Some(3), None, 1).unwrap().unwrap();
    assert_eq!(rounded(&sum), 0.25);
    let sum = rrf3(Some(2), Some(2), Some(6), 2).unwrap().unwrap();
    assert_eq!(rounded(&sum), 0.625);
}

#[test]
fn rrf_absent_slots_have_no_score_for_any_valid_k() {
    for k in [1i64, 2, 60, i64::MAX] {
        assert_eq!(rrf(None, None, k), Ok(None));
    }
}

#[test]
fn rrf_zero_and_negative_ranks_count_as_absent() {
    for k in [1i64, 60] {
        for other in [None, Some(0i64), Some(1), Some(2), Some(-3)] {
            let absent = rrf(None, other, k);
            assert_eq!(rrf(Some(0), other, k), absent);
            assert_eq!(rrf(Some(-1), other, k), absent);
            assert_eq!(rrf(Some(i64::MIN), other, k), absent);
            let absent = rrf(other, None, k);
            assert_eq!(rrf(other, Some(0), k), absent);
            assert_eq!(rrf(other, Some(-1), k), absent);
        }
    }
    assert_eq!(rrf(Some(0), Some(2), 60), Ok(Some(RrfSum { k: 60, ranks: vec![2] })));
}

#[test]
fn rrf_negative_rank_alone_has_no_score() {
    assert_eq!(rrf(Some(-1), None, 60), Ok(None));
    assert_eq!(rrf(Some(-1), None, 1), Ok(None));
}

#[test]
fn rrf_refuses_every_invalid_constant() {
    for k in [0i64, -1, -60, i64::MIN] {
        assert_eq!(rrf(Some(1), Some(2), k), Err(RrfError::InvalidConstant));
        assert_eq!(rrf(None, None, k), Err(RrfError::InvalidConstant));
        assert_eq!(rrf(Some(-1), Some(0), k), Err(RrfError::InvalidConstant));
        assert_eq!(rrf3(Some(1), Some(2), Some(3), k), Err(RrfError::InvalidConstant));
        assert_eq!(rrf3(None, None, None, k), Err(RrfError::InvalidConstant));
        assert_eq!(rrf_sum(&[], k), Err(RrfError::InvalidConstant));
        assert_eq!(rrf_sum(&[Some(4)], k), Err(RrfError::InvalidConstant));
    }
}

#[test]
fn rrf_sum_takes_any_number_of_slots() {
    assert_eq!(rrf_sum(&[], 60), Ok(None));
    assert_eq!(rrf_sum(&[Some(4)], 60), Ok(Some(RrfSum { k: 60, ranks: vec![4] })));
    assert_eq!(
        rrf_sum(&[Some(4), None, Some(0), Some(1), Some(-2), Some(4)], 10),
        Ok(Some(RrfSum { k: 10, ranks: vec![4, 1, 4] }))
    );
    assert_eq!(rrf_sum(&[None, Some(0), Some(-2)], 10), Ok(None));
}

#[test]
fn rrf_sum_agrees_with_the_fixed_arities() {
    let slots = [Some(3i64), None, Some(8), Some(0), Some(-1)];
    for a in slots {
        for b in slots {
            assert_eq!(rrf_sum(&[a, b], 60), rrf(a, b, 60));
            for c in slots {
                assert_eq!(rrf_sum(&[a, b, c], 60), rrf3(a, b, c, 60));
            }
        }
    }
}

#[test]
fn rrf_takes_the_largest_values() {
    let sum = rrf(Some(i64::MAX), Some(1), i64::MAX).unwrap().unwrap();
    assert_eq!(sum, RrfSum { k: i64::MAX, ranks: vec![i64::MAX, 1] });
    let score = rounded(&sum);
    assert!(score > 0.0);
    assert!(score < 1e-18);
}

#[test]
fn rrf_score_is_never_zero() {
    for k in [1i64, 60, i64::MAX] {
        for r in [1i64, 2, 1 << 40, i64::MAX] {
            let sum = rrf(Some(r), None, k).unwrap().unwrap();
            assert!(rounded(&sum) > 0.0);
        }
    }
}

#[test]
fn invalid_constant_message() {
    assert_eq!(RrfError::InvalidConstant.message(), "rrf k must be positive");
}
