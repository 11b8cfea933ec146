//! The argument checks of the resampling and permutation procedures, the
//! choice of tail for a permutation test, and the tally of draws behind a
//! resampled p-value.

use vstd::prelude::*;

verus! {

/// Ceiling on permutation draws: the draw count and the seed are adjacent
/// bare numbers, so a swapped pair must fail rather than run for hours.
pub const MAX_PERMUTATION_DRAWS: usize = 10_000_000;

/// Ceiling on bootstrap draws, for the same reason.
pub const MAX_RESAMPLE_DRAWS: usize = 10_000_000;

/// Smallest number of resampling units that gives distinct draws.
pub const MIN_RESAMPLE_UNITS: usize = 2;

/// Which tail a permutation test counts against.
#[derive(Debug, Clone, Copy, PartialEq, Eq)]
pub enum Alternative {
    /// A difference in either direction.
    TwoSided,
    /// The first group greater than the second.
    Greater,
    /// The first group less than the second.
    Less,
}

/// A name that is not one of the three alternatives.
#[derive(Debug, Clone, Copy, PartialEq, Eq)]
pub struct UnknownAlternative;

/// The two strings hold the same characters.
fn same_text(a: &str, b: &str) -> (r: bool)
    ensures
        r == (a@ == b@),
{
    a.to_owned() == b.to_owned()
}

/// Reads `"two_sided"`, `"greater"` or `"less"`; anything else is refused.
pub fn parse_alternative(s: &str) -> (r: Result<Alternative, UnknownAlternative>)
    ensures
        r == Ok::<_, UnknownAlternative>(Alternative::TwoSided) <==> s@ == "two_sided"@,
        r == Ok::<_, UnknownAlternative>(Alternative::Greater) <==> s@ == "greater"@,
        r == Ok::<_, UnknownAlternative>(Alternative::Less) <==> s@ == "less"@,
{
    proof {
        reveal_strlit("two_sided");
        reveal_strlit("greater");
        reveal_strlit("less");
        assert("two_sided"@.len() != "greater"@.len());
        assert("two_sided"@.len() != "less"@.len());
        assert("greater"@.len() != "less"@.len());
    }
    if same_text(s, "two_sided") {
        Ok(Alternative::TwoSided)
    } else if same_text(s, "greater") {
        Ok(Alternative::Greater)
    } else if same_text(s, "less") {
        Ok(Alternative::Less)
    } else {
        Err(UnknownAlternative)
    }
}

/// Why a permutation test was refused.
#[derive(Debug, Clone, Copy, PartialEq, Eq)]
pub enum PermutationRequestError {
    /// One of the groups holds no observation.
    EmptyGroup,
    /// Zero draws were asked for.
    NoDraws,
    /// More than [`MAX_PERMUTATION_DRAWS`] draws were asked for.
    TooManyDraws,
}

/// Checks the shape of a permutation test: two non-empty groups and a draw
/// count in `1..=MAX_PERMUTATION_DRAWS`, reported in that order.
pub fn check_permutation_request(nx: usize, ny: usize, draws: usize) -> (r: Result<(), PermutationRequestError>)
    ensures
        r == Err::<(), _>(PermutationRequestError::EmptyGroup) <==> nx == 0 || ny == 0,
        r == Err::<(), _>(PermutationRequestError::NoDraws) <==> nx > 0 && ny > 0 && draws == 0,
        r == Err::<(), _>(PermutationRequestError::TooManyDraws) <==> nx > 0 && ny > 0 && draws > MAX_PERMUTATION_DRAWS,
{
    if nx == 0 || ny == 0 {
        return Err(PermutationRequestError::EmptyGroup);
    }
    if draws == 0 {
        return Err(PermutationRequestError::NoDraws);
    }
    if draws > MAX_PERMUTATION_DRAWS {
        return Err(PermutationRequestError::TooManyDraws);
    }
    Ok(())
}

/// Why a bootstrap was refused.
#[derive(Debug, Clone, Copy, PartialEq, Eq)]
pub enum ResampleRequestError {
    /// Fewer than [`MIN_RESAMPLE_UNITS`] units: every draw would be the same.
    TooFewUnits,
    /// Zero draws were asked for.
    NoDraws,
    /// More than [`MAX_RESAMPLE_DRAWS`] draws were asked for.
    TooManyDraws,
}

/// Checks the shape of a bootstrap over `units` resampling units (clusters,
/// or observations of a flat series): at least two units and a draw count in
/// `1..=MAX_RESAMPLE_DRAWS`, reported in that order.
pub fn check_resample_request(units: usize, draws: usize) -> (r: Result<(), ResampleRequestError>)
    ensures
        r == Err::<(), _>(ResampleRequestError::TooFewUnits) <==> units < MIN_RESAMPLE_UNITS,
        r == Err::<(), _>(ResampleRequestError::NoDraws) <==> units >= MIN_RESAMPLE_UNITS && draws == 0,
        r == Err::<(), _>(ResampleRequestError::TooManyDraws) <==> units >= MIN_RESAMPLE_UNITS && draws
            > MAX_RESAMPLE_DRAWS,
{
    if units < MIN_RESAMPLE_UNITS {
        return Err(ResampleRequestError::TooFewUnits);
    }
    if draws == 0 {
        return Err(ResampleRequestError::NoDraws);
    }
    if draws > MAX_RESAMPLE_DRAWS {
        return Err(ResampleRequestError::TooManyDraws);
    }
    Ok(())
}

/// A window that does not fit the series: zero, or longer than the series.
#[derive(Debug, Clone, Copy, PartialEq, Eq)]
pub struct WindowOutOfRange;

/// A moving-average window must lie in `1..=len`.
pub fn check_window(len: usize, window: usize) -> (r: Result<(), WindowOutOfRange>)
    ensures
        r is Err <==> window == 0 || window > len,
{
    if window == 0 || window > len {
        Err(WindowOutOfRange)
    } else {
        Ok(())
    }
}

/// What an autocorrelation at a given lag amounts to.
#[derive(Debug, Clone, Copy, PartialEq, Eq)]
pub enum LagPlan {
    /// Lag zero: every series correlates perfectly with itself.
    Zero,
    /// A lag that leaves overlapping stretches to compare.
    Overlapping,
}

/// A lag at or past the length of the series.
#[derive(Debug, Clone, Copy, PartialEq, Eq)]
pub struct LagTooLong;

/// Lag zero is answered without looking at the data; otherwise the lag must
/// be shorter than the series.
pub fn plan_lag(len: usize, lag: usize) -> (r: Result<LagPlan, LagTooLong>)
    ensures
        r == Ok::<_, LagTooLong>(LagPlan::Zero) <==> lag == 0,
        r == Ok::<_, LagTooLong>(LagPlan::Overlapping) <==> 0 < lag < len,
        r is Err <==> lag != 0 && lag >= len,
{
    if lag == 0 {
        Ok(LagPlan::Zero)
    } else if lag >= len {
        Err(LagTooLong)
    } else {
        Ok(LagPlan::Overlapping)
    }
}

/// The draws of a resampling procedure and how many of them met a condition
/// (a permuted difference at least as extreme as the observed one, or a
/// bootstrap statistic that was defined).
pub struct DrawTally {
    draws: u64,
    hits: u64,
}

impl DrawTally {
    /// Draws recorded so far.
    pub closed spec fn spec_draws(&self) -> nat {
        self.draws as nat
    }

    /// Draws that met the condition.
    pub closed spec fn spec_hits(&self) -> nat {
        self.hits as nat
    }

    /// A hit is a draw.
    pub closed spec fn well_formed(&self) -> bool {
        self.hits <= self.draws
    }

    /// No draws yet.
    pub fn new() -> (t: Self)
        ensures
            t.well_formed(),
            t.spec_draws() == 0,
            t.spec_hits() == 0,
    {
        DrawTally { draws: 0, hits: 0 }
    }

    /// Records one draw, a hit or not.
    pub fn record(&mut self, hit: bool)
        requires
            old(self).well_formed(),
            old(self).spec_draws() < u64::MAX,
        ensures
            final(self).well_formed(),
            final(self).spec_draws() == old(self).spec_draws() + 1,
            final(self).spec_hits() == old(self).spec_hits() + if hit { 1nat } else { 0nat },
    {
        self.draws = self.draws + 1;
        if hit {
            self.hits = self.hits + 1;
        }
    }

    /// Draws recorded so far.
    pub fn draws(&self) -> (d: u64)
        ensures
            d == self.spec_draws(),
    {
        self.draws
    }

    /// Draws that met the condition.
    pub fn hits(&self) -> (h: u64)
        ensures
            h == self.spec_hits(),
    {
        self.hits
    }

    /// Draws that did not meet the condition.
    pub fn misses(&self) -> (m: u64)
        requires
            self.well_formed(),
        ensures
            m == self.spec_draws() - self.spec_hits(),
    {
        self.draws - self.hits
    }

    /// The permutation p-value `(1 + hits) / (1 + draws)` as numerator and
    /// denominator. The observed arrangement counts as one of the
    /// permutations, so the value is never zero: it is at least
    /// `1 / (1 + draws)` and at most 1.
    pub fn p_value_ratio(&self) -> (r: (u64, u64))
        requires
            self.well_formed(),
            self.spec_draws() < u64::MAX,
        ensures
            r.0 == self.spec_hits() + 1,
            r.1 == self.spec_draws() + 1,
            1 <= r.0 <= r.1,
    {
        (self.hits + 1, self.draws + 1)
    }
}

} // verus!
