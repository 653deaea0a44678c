//! The decision a human analyst made about a transaction.

use vstd::prelude::*;

verus! {

#[derive(Debug, Clone, Copy, PartialEq, Eq, Structural)]
pub enum HumanReviewStatus {
    NotNeeded,
    NeedCheck,
    FalsePositive,
    TruePositive,
}

impl HumanReviewStatus {
    /// The fraud decision a human review imposes, if the transaction was reviewed:
    /// `FalsePositive` clears it, `TruePositive` confirms it.
    pub fn likely_fraud_override(&self) -> (r: Option<bool>)
        ensures
            r == match *self {
                HumanReviewStatus::FalsePositive => Some(false),
                HumanReviewStatus::TruePositive => Some(true),
                _ => None::<bool>,
            },
    {
        match self {
            HumanReviewStatus::FalsePositive => Some(false),
            HumanReviewStatus::TruePositive => Some(true),
            HumanReviewStatus::NotNeeded | HumanReviewStatus::NeedCheck => None,
        }
    }
}

} // verus!
