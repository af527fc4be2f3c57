use acoustic_drone::lags::{effective_max_lag, search_lags, wrap_index};

#[test]
fn wrap_negative_and_positive_lags() {
    assert_eq!(wrap_index(-3, 8), 5);
    assert_eq!(wrap_index(11, 8), 3);
    assert_eq!(wrap_index(0, 8), 0);
    assert_eq!(wrap_index(-8, 8), 0);
    assert_eq!(wrap_index(-17, 8), 7);
}

#[test]
fn wrap_is_periodic() {
    for lag in -20isize..20 {
        assert_eq!(wrap_index(lag, 8), wrap_index(lag + 8, 8));
    }
}

#[test]
fn max_lag_is_capped_at_half_window() {
    assert_eq!(effective_max_lag(None, 1024), 512);
    assert_eq!(effective_max_lag(Some(6), 1024), 6);
    assert_eq!(effective_max_lag(Some(5000), 1024), 512);
}

#[test]
fn lags_searched_smallest_magnitude_first() {
    assert_eq!(search_lags(0), vec![0]);
    assert_eq!(search_lags(2), vec![0, 1, -1, 2, -2]);
}
