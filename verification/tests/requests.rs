use mlua_mathlib::requests::{
    check_permutation_request, check_resample_request, check_window, parse_alternative, plan_lag,
    Alternative, DrawTally, LagPlan, LagTooLong, PermutationRequestError, ResampleRequestError,
    UnknownAlternative, WindowOutOfRange, MAX_PERMUTATION_DRAWS, MAX_RESAMPLE_DRAWS,
};

#[test]
fn alternatives_parse_by_name() {
    assert_eq!(parse_alternative("two_sided"), Ok(Alternative::TwoSided));
    assert_eq!(parse_alternative("greater"), Ok(Alternative::Greater));
    assert_eq!(parse_alternative("less"), Ok(Alternative::Less));
    assert_eq!(parse_alternative("sideways"), Err(UnknownAlternative));
    assert_eq!(parse_alternative("Greater"), Err(UnknownAlternative));
    assert_eq!(parse_alternative(""), Err(UnknownAlternative));
}

#[test]
fn permutation_requests_are_checked_in_order() {
    assert_eq!(check_permutation_request(0, 3, 100), Err(PermutationRequestError::EmptyGroup));
    assert_eq!(check_permutation_request(3, 3, 0), Err(PermutationRequestError::NoDraws));
    assert_eq!(
        check_permutation_request(3, 3, MAX_PERMUTATION_DRAWS + 1),
        Err(PermutationRequestError::TooManyDraws)
    );
    assert_eq!(check_permutation_request(3, 3, MAX_PERMUTATION_DRAWS), Ok(()));
    assert!(parse_alternative("sideways").is_err());
}

#[test]
fn resample_requests_are_checked_in_order() {
    assert_eq!(check_resample_request(1, 0), Err(ResampleRequestError::TooFewUnits));
    assert_eq!(check_resample_request(2, 0), Err(ResampleRequestError::NoDraws));
    assert_eq!(
        check_resample_request(2, MAX_RESAMPLE_DRAWS + 1),
        Err(ResampleRequestError::TooManyDraws)
    );
    assert_eq!(check_resample_request(2, 1), Ok(()));
}

#[test]
fn windows_must_fit_the_series() {
    assert_eq!(check_window(5, 0), Err(WindowOutOfRange));
    assert_eq!(check_window(5, 6), Err(WindowOutOfRange));
    assert_eq!(check_window(5, 5), Ok(()));
    assert_eq!(check_window(5, 1), Ok(()));
}

#[test]
fn lag_zero_is_answered_without_the_data() {
    assert_eq!(plan_lag(5, 0), Ok(LagPlan::Zero));
}

#[test]
fn lags_must_be_shorter_than_the_series() {
    assert_eq!(plan_lag(5, 4), Ok(LagPlan::Overlapping));
    assert_eq!(plan_lag(5, 5), Err(LagTooLong));
    assert_eq!(plan_lag(1, 0), Ok(LagPlan::Zero));
}

#[test]
fn tally_p_value_never_reaches_zero() {
    let mut tally = DrawTally::new();
    for _ in 0..999 {
        tally.record(false);
    }
    assert_eq!(tally.p_value_ratio(), (1, 1000));
    assert_eq!(tally.draws(), 999);
    assert_eq!(tally.misses(), 999);
}

#[test]
fn every_draw_extreme_gives_p_one() {
    let mut tally = DrawTally::new();
    for i in 0..2000 {
        tally.record(i >= 0);
    }
    assert_eq!(tally.hits(), 2000);
    assert_eq!(tally.p_value_ratio(), (2001, 2001));
}
