//! Estimates of strength that have been made. A value of [`Estimated`] stands for
//! one question to the estimator: the text it was asked about, and its answer.

use crate::password_policy::StrengthEstimate;
use vstd::prelude::*;

verus! {

/// A text whose strength was estimated.
pub struct Estimated<'a> {
    text: &'a str,
    estimate: StrengthEstimate,
}

impl<'a> Estimated<'a> {
    /// The text that the estimator was asked about.
    pub closed spec fn text(self) -> Seq<char> {
        self.text@
    }

    /// What it answered.
    pub closed spec fn estimate(self) -> StrengthEstimate {
        self.estimate
    }

    /// Keeps an answer. That it was given for this text is for whoever asked to say.
    pub(crate) fn record(text: &'a str, estimate: StrengthEstimate) -> (estimated: Self)
        ensures
            estimated.estimate() == estimate,
    {
        Estimated { text, estimate }
    }

    /// The answer.
    pub(crate) fn into_estimate(self) -> (estimate: StrengthEstimate)
        ensures
            estimate == self.estimate(),
    {
        self.estimate
    }
}

} // verus!
