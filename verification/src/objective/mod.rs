pub mod binary;

pub use binary::BinaryObjective;

use vstd::prelude::*;

use crate::number::Wide;

verus! {

/// Maps raw scores and labels to per-sample gradients/hessians and provides an
/// initial constant score.
pub trait Objective<W: Wide>: Send + Sync {
    /// The constant that boosting starts from.
    spec fn start(&self, labels: Seq<W::Narrow>) -> W;

    /// What a raw score becomes.
    spec fn output(&self, raw: W) -> W;

    /// Gradient and hessian of a row.
    spec fn slope(&self, raw: W, label: W::Narrow) -> (W::Narrow, W::Narrow);

    fn init_score(&self, labels: &[W::Narrow]) -> (r: W)
        ensures
            r == self.start(labels@),
    ;

    /// Convert raw scores; the shorter of the two slices decides how many.
    fn convert_output(&self, raw_scores: &[W], out: &mut [W])
        ensures
            final(out)@ == Seq::new(
                old(out)@.len(),
                |i: int|
                    if i < raw_scores@.len() {
                        self.output(raw_scores@[i])
                    } else {
                        old(out)@[i]
                    },
            ),
    ;

    /// Pack `[grad, hess]` pairs into a single buffer.
    fn gradients_packed(
        &self,
        raw_scores: &[W],
        labels: &[W::Narrow],
        out: &mut [[W::Narrow; 2]],
    )
        requires
            raw_scores@.len() <= labels@.len(),
            raw_scores@.len() <= old(out)@.len(),
        ensures
            final(out)@.len() == old(out)@.len(),
            forall|i: int|
                #![trigger final(out)@[i]]
                0 <= i < raw_scores@.len() ==> (final(out)@[i]@[0], final(out)@[i]@[1])
                    == self.slope(raw_scores@[i], labels@[i]),
            forall|i: int|
                raw_scores@.len() <= i < old(out)@.len() ==> #[trigger] final(out)@[i] == old(
                    out,
                )@[i],
    ;
}

} // verus!
