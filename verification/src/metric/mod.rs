pub mod binary_logloss;

pub use binary_logloss::BinaryLogloss;

use vstd::prelude::*;

use crate::number::Wide;

verus! {

/// A score of raw predictions against labels.
pub trait Metric<W: Wide>: Send + Sync {
    spec fn title(&self) -> &'static str;

    spec fn lower_wins(&self) -> bool;

    /// The score of raw additive scores.
    spec fn score(&self, raw_scores: Seq<W>, labels: Seq<W::Narrow>) -> W;

    fn name(&self) -> (r: &'static str)
        ensures
            r@ == self.title()@,
    ;

    /// Lower is better → `true`; higher is better → `false`.
    fn lower_is_better(&self) -> (r: bool)
        ensures
            r == self.lower_wins(),
    ;

    /// Score from raw additive scores and labels.
    fn evaluate(&self, raw_scores: &[W], labels: &[W::Narrow]) -> (r: W)
        requires
            raw_scores@.len() <= labels@.len(),
        ensures
            r == self.score(raw_scores@, labels@),
    ;
}

} // verus!
