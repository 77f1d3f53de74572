use vstd::prelude::*;

use crate::loss::{binary_logloss, logloss_of};
use crate::metric::Metric;
use crate::number::Wide;

verus! {

/// Mean binary cross-entropy.
pub struct BinaryLogloss;

impl<W: Wide> Metric<W> for BinaryLogloss {
    open spec fn title(&self) -> &'static str {
        "binary_logloss"
    }

    open spec fn lower_wins(&self) -> bool {
        true
    }

    open spec fn score(&self, raw_scores: Seq<W>, labels: Seq<W::Narrow>) -> W {
        logloss_of(raw_scores, labels)
    }

    fn name(&self) -> (r: &'static str) {
        "binary_logloss"
    }

    fn lower_is_better(&self) -> (r: bool) {
        true
    }

    fn evaluate(&self, raw_scores: &[W], labels: &[W::Narrow]) -> (r: W) {
        binary_logloss(raw_scores, labels)
    }
}

} // verus!
