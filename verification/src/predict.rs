//! Inference on row-major matrices of raw values.

use vstd::prelude::*;
use vstd::slice::slice_to_vec;

use crate::dataset::binnings_of;
use crate::feature::{binned_row, flat};
use crate::model::{sigmoid_all, Model};
use crate::number::Wide;
use crate::objective::Objective;

verus! {

/// Row `r` of a row-major matrix.
pub open spec fn matrix_row<W>(features: Seq<W>, width: nat, r: int) -> Seq<W> {
    features.subrange(r * width, (r + 1) * width)
}

/// Raw additive scores of a row-major matrix. `n_features` must equal
/// `model.n_features()`.
pub fn predict_raw_scores<W: Wide>(
    model: &Model<W>,
    features: &[W],
    n_rows: usize,
    n_features: usize,
) -> (r: Vec<W>)
    requires
        model.wf(),
        n_features == model@.binnings.len(),
        n_rows * n_features <= features@.len(),
    ensures
        r@ == Seq::new(
            n_rows as nat,
            |i: int|
                model@.raw_score_of_values(matrix_row(features@, n_features as nat, i)),
        ),
{
    let ghost binnings = model@.binnings;
    let ghost mut coded: Seq<Seq<u16>> = Seq::empty();
    let mut bins: Vec<u16> = Vec::new();
    let mappers = model.bin_mappers();
    proof {
        model.lemma_wf();
        assert(features@.len() == features.len());
        assert forall|f: int| 0 <= f < mappers@.len() implies (#[trigger] mappers@[f])@
            == binnings[f] by {
            assert(binnings_of(mappers@)[f] == mappers@[f]@);
        }
    }
    let mut i: usize = 0;
    while i < n_rows
        invariant
            i <= n_rows,
            model.wf(),
            binnings == model@.binnings,
            model@.valid(),
            n_features == binnings.len() == mappers@.len(),
            forall|f: int| 0 <= f < mappers@.len() ==> (#[trigger] mappers@[f])@ == binnings[f],
            n_rows * n_features <= features@.len() <= usize::MAX,
            coded.len() == i,
            forall|k: int|
                0 <= k < i ==> #[trigger] coded[k] == binned_row(
                    binnings,
                    matrix_row(features@, n_features as nat, k),
                ),
            forall|k: int| 0 <= k < i ==> (#[trigger] coded[k]).len() == n_features,
            bins@ == flat(coded),
        decreases n_rows - i,
    {
        proof {
            lemma_row_end(i as int, n_rows as int, n_features as int);
        }
        let start: usize = i * n_features;
        let ghost before = bins@;
        let ghost row = matrix_row(features@, n_features as nat, i as int);
        assert(row.len() == n_features);
        let mut f: usize = 0;
        while f < n_features
            invariant
                f <= n_features,
                start == i * n_features,
                start + n_features <= features@.len() <= usize::MAX,
                row == features@.subrange(start as int, start + n_features),
                model@.valid(),
                binnings == model@.binnings,
                n_features == binnings.len() == mappers@.len(),
                forall|f: int| 0 <= f < mappers@.len() ==> (#[trigger] mappers@[f])@ == binnings[f],
                bins@ =~= before + binned_row(binnings, row).take(f as int),
            decreases n_features - f,
        {
            assert(binnings[f as int].valid());
            assert(mappers@[f as int]@ == binnings[f as int]);
            bins.push(mappers[f].value_to_bin(features[start + f]));
            f = f + 1;
        }
        proof {
            let last = coded;
            coded = coded.push(binned_row(binnings, row));
            assert(coded.drop_last() =~= last);
            assert(binned_row(binnings, row).take(n_features as int) =~= binned_row(
                binnings,
                row,
            ));
            assert forall|k: int| 0 <= k < i + 1 implies (#[trigger] coded[k]).len()
                == n_features by {
                if k < i {
                    assert(last[k].len() == n_features);
                }
            }
        }
        i = i + 1;
    }
    let r: Vec<W> = model.score_rows(&bins, n_rows, Ghost(coded));
    assert(r@ =~= Seq::new(
        n_rows as nat,
        |i: int| model@.raw_score_of_values(matrix_row(features@, n_features as nat, i)),
    ));
    r
}

proof fn lemma_row_end(i: int, n: int, width: int)
    requires
        0 <= i < n,
        0 <= width,
    ensures
        0 <= i * width,
        (i + 1) * width == i * width + width,
        (i + 1) * width <= n * width,
{
    assert(0 <= i * width) by (nonlinear_arith)
        requires
            0 <= i,
            0 <= width,
    ;
    assert((i + 1) * width == i * width + width) by (nonlinear_arith);
    assert((i + 1) * width <= n * width) by (nonlinear_arith)
        requires
            i + 1 <= n,
            0 <= width,
    ;
}

/// Probabilities of a row-major matrix. `n_features` must equal
/// `model.n_features()`.
pub fn predict_proba<W: Wide>(
    model: &Model<W>,
    features: &[W],
    n_rows: usize,
    n_features: usize,
) -> (r: Vec<W>)
    requires
        model.wf(),
        n_features == model@.binnings.len(),
        n_rows * n_features <= features@.len(),
    ensures
        r@ == Seq::new(
            n_rows as nat,
            |i: int| model@.probability(matrix_row(features@, n_features as nat, i)),
        ),
{
    let r: Vec<W> = sigmoid_all(&predict_raw_scores(model, features, n_rows, n_features));
    assert(r@ =~= Seq::new(
        n_rows as nat,
        |i: int| model@.probability(matrix_row(features@, n_features as nat, i)),
    ));
    r
}

/// Apply an objective's output transform to raw scores in place.
pub fn convert_with<W: Wide, O: Objective<W>>(obj: &O, raw: &mut [W])
    ensures
        final(raw)@ == Seq::new(old(raw)@.len(), |i: int| obj.output(old(raw)@[i])),
{
    let copy: Vec<W> = slice_to_vec(raw);
    obj.convert_output(copy.as_slice(), raw);
}

/// The value of feature `f` in row `r` of a row-major matrix stands `r` rows and `f`
/// values from its start.
pub proof fn law_matrix_row<W>(features: Seq<W>, width: nat, rows: nat, r: int, f: int)
    requires
        rows * width <= features.len(),
        0 <= r < rows,
        0 <= f < width,
    ensures
        matrix_row(features, width, r).len() == width,
        matrix_row(features, width, r)[f] == features[r * width + f],
{
    lemma_row_end(r, rows as int, width as int);
}

} // verus!
