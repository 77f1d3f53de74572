pub use crate::loss::sigmoid;

use vstd::prelude::*;

use crate::loss::{init_score_of, sigmoid_of};
use crate::number::{constant, less, lt, whole, Wide};
use crate::objective::Objective;

verus! {

/// Binary logistic objective: probability = sigmoid(raw_score), with gradient
/// `p - y` and hessian `p (1 - p)`.
#[derive(Debug, Clone, Copy, Default)]
pub struct BinaryObjective;

/// The gradient of one row, computed in the wide type.
pub open spec fn wide_gradient<W: Wide>(raw: W, label: W::Narrow) -> W::Narrow {
    sigmoid_of(raw).difference_of(W::widened(label)).narrowed()
}

/// The hessian of one row, computed in the wide type and kept away from zero.
pub open spec fn wide_hessian<W: Wide>(raw: W) -> W::Narrow {
    let p = sigmoid_of(raw);
    let h = p.product_of(whole::<W>(1).difference_of(p));
    let least = W::ratio_of(1, 1_000_000);
    (if lt(least, h) {
        h
    } else {
        least
    }).narrowed()
}

fn wide_pair<W: Wide>(raw: W, label: W::Narrow) -> (r: (W::Narrow, W::Narrow))
    ensures
        r == (wide_gradient(raw, label), wide_hessian(raw)),
{
    let p: W = sigmoid(raw);
    let h: W = p.times(constant::<W>(1).minus(p));
    let least: W = W::ratio(1, 1_000_000);
    let h: W = if less(least, h) {
        h
    } else {
        least
    };
    (p.minus(W::widen(label)).narrow(), h.narrow())
}

impl<W: Wide> Objective<W> for BinaryObjective {
    open spec fn start(&self, labels: Seq<W::Narrow>) -> W {
        init_score_of::<W>(labels, None)
    }

    open spec fn output(&self, raw: W) -> W {
        sigmoid_of(raw)
    }

    open spec fn slope(&self, raw: W, label: W::Narrow) -> (W::Narrow, W::Narrow) {
        (wide_gradient(raw, label), wide_hessian(raw))
    }

    fn init_score(&self, labels: &[W::Narrow]) -> (r: W) {
        crate::loss::init_score::<W>(labels, None)
    }

    fn convert_output(&self, raw_scores: &[W], out: &mut [W]) {
        let ghost before = out@;
        let n: usize = if raw_scores.len() <= out.len() {
            raw_scores.len()
        } else {
            out.len()
        };
        let mut i: usize = 0;
        while i < n
            invariant
                i <= n <= raw_scores@.len(),
                n <= out@.len() == before.len(),
                forall|k: int| 0 <= k < i ==> #[trigger] out@[k] == sigmoid_of(raw_scores@[k]),
                forall|k: int| i <= k < out@.len() ==> #[trigger] out@[k] == before[k],
            decreases n - i,
        {
            out[i] = sigmoid(raw_scores[i]);
            i = i + 1;
        }
    }

    fn gradients_packed(
        &self,
        raw_scores: &[W],
        labels: &[W::Narrow],
        out: &mut [[W::Narrow; 2]],
    ) {
        let ghost before = out@;
        let mut i: usize = 0;
        while i < raw_scores.len()
            invariant
                i <= raw_scores@.len() <= labels@.len(),
                raw_scores@.len() <= out@.len() == before.len(),
                forall|k: int|
                    #![trigger out@[k]]
                    0 <= k < i ==> (out@[k]@[0], out@[k]@[1]) == (
                        wide_gradient(raw_scores@[k], labels@[k]),
                        wide_hessian(raw_scores@[k]),
                    ),
                forall|k: int| i <= k < before.len() ==> #[trigger] out@[k] == before[k],
            decreases raw_scores@.len() - i,
        {
            let (g, h) = wide_pair(raw_scores[i], labels[i]);
            out[i] = [g, h];
            i = i + 1;
        }
    }
}

impl BinaryObjective {
    /// Gradients and hessians in separate buffers.
    pub fn gradients<W: Wide>(
        &self,
        raw_scores: &[W],
        labels: &[W::Narrow],
        grads: &mut [W::Narrow],
        hesss: &mut [W::Narrow],
    )
        requires
            raw_scores@.len() <= labels@.len(),
            raw_scores@.len() <= old(grads)@.len(),
            raw_scores@.len() <= old(hesss)@.len(),
        ensures
            final(grads)@ == Seq::new(
                old(grads)@.len(),
                |i: int|
                    if i < raw_scores@.len() {
                        wide_gradient(raw_scores@[i], labels@[i])
                    } else {
                        old(grads)@[i]
                    },
            ),
            final(hesss)@ == Seq::new(
                old(hesss)@.len(),
                |i: int|
                    if i < raw_scores@.len() {
                        wide_hessian(raw_scores@[i])
                    } else {
                        old(hesss)@[i]
                    },
            ),
    {
        let ghost g0 = grads@;
        let ghost h0 = hesss@;
        let mut i: usize = 0;
        while i < raw_scores.len()
            invariant
                i <= raw_scores@.len() <= labels@.len(),
                raw_scores@.len() <= grads@.len() == g0.len(),
                raw_scores@.len() <= hesss@.len() == h0.len(),
                forall|k: int|
                    0 <= k < i ==> #[trigger] grads@[k] == wide_gradient(
                        raw_scores@[k],
                        labels@[k],
                    ),
                forall|k: int| 0 <= k < i ==> #[trigger] hesss@[k] == wide_hessian(raw_scores@[k]),
                forall|k: int| i <= k < g0.len() ==> #[trigger] grads@[k] == g0[k],
                forall|k: int| i <= k < h0.len() ==> #[trigger] hesss@[k] == h0[k],
            decreases raw_scores@.len() - i,
        {
            let (g, h) = wide_pair(raw_scores[i], labels[i]);
            grads[i] = g;
            hesss[i] = h;
            i = i + 1;
        }
    }
}

} // verus!
