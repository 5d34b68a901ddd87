//! Checked sleep parameters for the test server's sleepy endpoint: a request
//! asks for a pause between `min` and `max` milliseconds.

use vstd::prelude::*;

verus! {

/// The request asked for an empty range: a given `max` not above `min`.
#[derive(Clone, Copy, PartialEq, Eq, Structural, Debug)]
pub struct SleepParamsError;

/// A validated sleep range in milliseconds: `min <= max` always holds.
#[derive(Clone, Copy, PartialEq, Eq, Structural, Debug)]
pub struct SleepParams {
    pub min: u64,
    pub max: u64,
}

/// `min` doubled, capped at the largest millisecond count.
pub open spec fn doubled(min: u64) -> u64 {
    if min <= u64::MAX / 2 {
        (2 * min) as u64
    } else {
        u64::MAX
    }
}

/// What checking the raw query fields yields: a missing `min` defaults to
/// 500; a given `max` must exceed `min`; a missing `max` is twice `min`,
/// saturating.
pub open spec fn sleep_params_of(min: Option<u64>, max: Option<u64>) -> Result<
    SleepParams,
    SleepParamsError,
> {
    let m = match min {
        Some(v) => v,
        None => 500,
    };
    match max {
        Some(x) => if m < x {
            Ok(SleepParams { min: m, max: x })
        } else {
            Err(SleepParamsError)
        },
        None => Ok(SleepParams { min: m, max: doubled(m) }),
    }
}

impl SleepParams {
    /// The range is never empty.
    pub open spec fn wf(&self) -> bool {
        self.min <= self.max
    }

    /// Checks the raw query fields. Fails exactly when a `max` was given
    /// that is not above `min`; the checked range is always well-formed.
    pub fn try_from_raw(min: Option<u64>, max: Option<u64>) -> (r: Result<
        SleepParams,
        SleepParamsError,
    >)
        ensures
            r == sleep_params_of(min, max),
            (r matches Ok(p) ==> p.wf()),
    {
        let m = match min {
            Some(v) => v,
            None => 500,
        };
        match max {
            Some(x) => {
                if m < x {
                    Ok(SleepParams { min: m, max: x })
                } else {
                    Err(SleepParamsError)
                }
            },
            None => {
                let d = if m <= u64::MAX / 2 {
                    2 * m
                } else {
                    u64::MAX
                };
                Ok(SleepParams { min: m, max: d })
            },
        }
    }

    /// Draws the pause to take: some duration within the range, decided by
    /// the generator.
    pub fn get_duration(&self, rng: &mut rand::rngs::ThreadRng) -> (d: u64)
        requires
            self.wf(),
        ensures
            self.min <= d <= self.max,
    {
        crate::rng::gen_range_u64(rng, self.min, self.max)
    }
}

} // verus!
