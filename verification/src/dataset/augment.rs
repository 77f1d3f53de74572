use vstd::prelude::*;

use crate::dataset::{all_codes, codes_of, Bin, Dataset, Table, MISSING_BIN};
use crate::draws::{chacha8_below, chacha8_word, unit_of, Draws};
use crate::number::{at_most, constant, le, less, lt, whole, Wide};

verus! {

/// The features that may be masked, in ascending order.
pub open spec fn maskable_features(maskable: Seq<bool>, features: nat) -> Seq<usize>
    decreases features,
{
    if features == 0 {
        Seq::empty()
    } else {
        let before = maskable_features(maskable, (features - 1) as nat);
        if features - 1 < maskable.len() && maskable[features - 1] {
            before.push((features - 1) as usize)
        } else {
            before
        }
    }
}

/// What is drawn for the first `rows` rows: each row is taken with probability
/// `fraction`, together with one of `choices`.
pub open spec fn drawn_plan<W: Wide>(
    start: Draws,
    fraction: W,
    choices: Seq<usize>,
    rows: nat,
) -> (Seq<(usize, usize)>, Draws)
    decreases rows,
{
    if rows == 0 {
        (Seq::empty(), start)
    } else {
        let (plan, draws) = drawn_plan(start, fraction, choices, (rows - 1) as nat);
        let (word, pos) = chacha8_word(draws.seed, draws.pos);
        if lt(unit_of::<W>(word), fraction) {
            let (pick, next) = chacha8_below(draws.seed, pos, choices.len() as u64);
            (
                plan.push(((rows - 1) as usize, choices[pick as int])),
                Draws { seed: draws.seed, pos: next },
            )
        } else {
            (plan, Draws { seed: draws.seed, pos })
        }
    }
}

/// A column with a copy of each planned row appended, missing where the plan
/// masks this feature.
pub open spec fn column_with_copies(codes: Seq<u16>, plan: Seq<(usize, usize)>, f: int) -> Seq<
    u16,
> {
    codes + Seq::new(
        plan.len(),
        |k: int|
            if plan[k].1 == f {
                MISSING_BIN
            } else {
                codes[plan[k].0 as int]
            },
    )
}

/// A table with the planned copies appended, each with the label of its row.
pub open spec fn with_copies<W: Wide>(table: Table<W>, plan: Seq<(usize, usize)>) -> Table<W> {
    Table {
        rows: table.rows + plan.len(),
        codes: Seq::new(
            table.codes.len(),
            |f: int| column_with_copies(table.codes[f], plan, f),
        ),
        binnings: table.binnings,
        labels: table.labels + Seq::new(plan.len(), |k: int| table.labels[plan[k].0 as int]),
    }
}

/// What augmentation plans: nothing when no feature may be masked or the
/// fraction is not positive.
pub open spec fn augmentation<W: Wide>(
    table: Table<W>,
    fraction: W,
    maskable: Seq<bool>,
    start: Draws,
) -> (Seq<(usize, usize)>, Draws) {
    let choices = maskable_features(maskable, table.codes.len());
    if le(fraction, whole(0)) || choices.len() == 0 {
        (Seq::empty(), start)
    } else {
        drawn_plan(start, fraction, choices, table.rows)
    }
}

/// Every planned copy is of a row of the table and masks a feature that may be
/// masked, and no row is copied twice.
pub open spec fn plan_sound<W: Wide>(
    table: Table<W>,
    maskable: Seq<bool>,
    plan: Seq<(usize, usize)>,
) -> bool {
    &&& forall|k: int|
        #![trigger plan[k]]
        0 <= k < plan.len() ==> {
            &&& plan[k].0 < table.rows
            &&& plan[k].1 < table.codes.len()
            &&& plan[k].1 < maskable.len() && maskable[plan[k].1 as int]
        }
    &&& forall|i: int, j: int|
        #![trigger plan[i], plan[j]]
        0 <= i < j < plan.len() ==> plan[i].0 < plan[j].0
}

/// An appended row is its base row with exactly the planned feature missing; the
/// rows that were there before stay as they are.
pub proof fn law_copies<W: Wide>(
    table: Table<W>,
    maskable: Seq<bool>,
    plan: Seq<(usize, usize)>,
    k: int,
    f: int,
    r: int,
)
    requires
        table.valid(),
        plan_sound(table, maskable, plan),
        0 <= k < plan.len(),
        0 <= f < table.codes.len(),
        0 <= r < table.rows,
    ensures
        ({
            let after = with_copies(table, plan);
            let base = plan[k].0 as int;
            &&& after.labels[table.rows + k] == table.labels[base]
            &&& after.codes[f][table.rows + k] == if f == plan[k].1 {
                MISSING_BIN
            } else {
                table.codes[f][base]
            }
            &&& after.codes[f][r] == table.codes[f][r]
            &&& after.labels[r] == table.labels[r]
        }),
{
    assert(table.codes[f].len() == table.rows);
    assert(plan[k].0 < table.rows);
}

proof fn lemma_maskable(maskable: Seq<bool>, features: nat)
    requires
        features <= usize::MAX,
    ensures
        forall|i: int|
            0 <= i < maskable_features(maskable, features).len() ==> {
                let f = #[trigger] maskable_features(maskable, features)[i];
                f < features && f < maskable.len() && maskable[f as int]
            },
    decreases features,
{
    if features > 0 {
        lemma_maskable(maskable, (features - 1) as nat);
        let before = maskable_features(maskable, (features - 1) as nat);
        let after = maskable_features(maskable, features);
        assert forall|i: int| 0 <= i < after.len() implies {
            let f = #[trigger] after[i];
            f < features && f < maskable.len() && maskable[f as int]
        } by {
            if i < before.len() {
                assert(after[i] == before[i]);
            }
        }
    }
}

proof fn lemma_plan<W: Wide>(start: Draws, fraction: W, choices: Seq<usize>, rows: nat)
    requires
        rows <= usize::MAX,
    ensures
        drawn_plan(start, fraction, choices, rows).0.len() <= rows,
        drawn_plan(start, fraction, choices, rows).1.seed == start.seed,
        forall|k: int|
            0 <= k < drawn_plan(start, fraction, choices, rows).0.len() ==> (#[trigger] drawn_plan(
                start,
                fraction,
                choices,
                rows,
            ).0[k]).0 < rows,
    decreases rows,
{
    if rows > 0 {
        lemma_plan(start, fraction, choices, (rows - 1) as nat);
    }
}

/// Copy each planned base row across every column, with the masked feature
/// overwritten by `missing`.
pub(crate) fn append_masked<B: Bin>(cols: &mut Vec<Vec<B>>, plan: &Vec<(usize, usize)>, missing: B)
    requires
        missing.code() == MISSING_BIN,
        forall|f: int, k: int|
            #![trigger old(cols)@[f], plan@[k]]
            0 <= f < old(cols)@.len() && 0 <= k < plan@.len() ==> plan@[k].0
                < old(cols)@[f]@.len(),
    ensures
        all_codes(final(cols)@) == Seq::new(
            old(cols)@.len(),
            |f: int| column_with_copies(codes_of(old(cols)@[f]@), plan@, f),
        ),
{
    let ghost before = cols@;
    let mut f: usize = 0;
    while f < cols.len()
        invariant
            f <= cols@.len() == before.len(),
            missing.code() == MISSING_BIN,
            forall|f: int, k: int|
                #![trigger before[f], plan@[k]]
                0 <= f < before.len() && 0 <= k < plan@.len() ==> plan@[k].0 < before[f]@.len(),
            forall|g: int| f <= g < before.len() ==> #[trigger] cols@[g] == before[g],
            forall|g: int|
                0 <= g < f ==> codes_of((#[trigger] cols@[g])@) == column_with_copies(
                    codes_of(before[g]@),
                    plan@,
                    g,
                ),
        decreases before.len() - f,
    {
        let mut column: Vec<B> = Vec::new();
        std::mem::swap(&mut cols[f], &mut column);
        let ghost base = column@;
        assert(base == before[f as int]@);
        let mut k: usize = 0;
        while k < plan.len()
            invariant
                k <= plan@.len(),
                base.len() <= column@.len(),
                missing.code() == MISSING_BIN,
                f < before.len(),
                base == before[f as int]@,
                forall|f: int, k: int|
                    #![trigger before[f], plan@[k]]
                    0 <= f < before.len() && 0 <= k < plan@.len() ==> plan@[k].0
                        < before[f]@.len(),
                column@.len() == base.len() + k,
                forall|r: int| 0 <= r < base.len() ==> #[trigger] column@[r] == base[r],
                forall|j: int|
                    #![trigger plan@[j]]
                    0 <= j < k ==> column@[base.len() + j].code() == if plan@[j].1 == f {
                        MISSING_BIN
                    } else {
                        base[plan@[j].0 as int].code()
                    },
            decreases plan@.len() - k,
        {
            let (row, mask) = plan[k];
            assert(plan@[k as int].0 < before[f as int]@.len());
            let v: B = if f == mask {
                missing
            } else {
                column[row]
            };
            column.push(v);
            k = k + 1;
        }
        proof {
            assert(codes_of(column@) =~= column_with_copies(codes_of(base), plan@, f as int));
        }
        cols.set(f, column);
        f = f + 1;
    }
    assert(all_codes(cols@) =~= Seq::new(
        before.len(),
        |f: int| column_with_copies(codes_of(before[f]@), plan@, f),
    ));
}

fn list_maskable(maskable: &[bool], features: usize) -> (r: Vec<usize>)
    ensures
        r@ == maskable_features(maskable@, features as nat),
{
    let mut r: Vec<usize> = Vec::new();
    let mut f: usize = 0;
    while f < features
        invariant
            f <= features,
            r@ == maskable_features(maskable@, f as nat),
        decreases features - f,
    {
        if f < maskable.len() && maskable[f] {
            r.push(f);
        }
        f = f + 1;
    }
    r
}

impl<W: Wide> Dataset<W> {
    /// Append "unknown"-value synthetic rows in place. For each existing row,
    /// with probability `fraction`, append a copy with one randomly chosen
    /// maskable feature forced to [`MISSING_BIN`], carrying the same label. This
    /// trains the fallback path that unseen category values map to.
    /// `maskable[f]` selects which columns are eligible.
    ///
    /// Returns the base-row index for each appended row, so that the caller can
    /// extend per-row weights consistently. Does nothing when `fraction` is not
    /// positive or no feature is maskable.
    pub fn augment_unknown(
        &mut self,
        fraction: W,
        maskable: &[bool],
        rng: &mut Draws,
    ) -> (r: Vec<usize>)
        requires
            old(self).wf(),
            2 * old(self)@.rows <= usize::MAX,
        ensures
            ({
                let plan = augmentation(old(self)@, fraction, maskable@, *old(rng)).0;
                &&& final(self)@ == with_copies(old(self)@, plan)
                &&& r@ == Seq::new(plan.len(), |k: int| plan[k].0)
                &&& plan_sound(old(self)@, maskable@, plan)
            }),
            *final(rng) == augmentation(old(self)@, fraction, maskable@, *old(rng)).1,
            final(self).wf(),
            final(self).stored_width() == old(self).stored_width(),
    {
        let ghost before = self@;
        let ghost start = *rng;
        proof {
            self.lemma_wf();
        }
        let choices: Vec<usize> = list_maskable(maskable, self.n_features());
        let ghost planned = augmentation(before, fraction, maskable@, start);
        if at_most(fraction, constant::<W>(0)) || choices.len() == 0 {
            assert(with_copies(before, planned.0) =~~= before);
            return Vec::new();
        }
        let base_rows: usize = self.n_rows();
        proof {
            lemma_maskable(maskable@, before.codes.len());
        }
        let mut plan: Vec<(usize, usize)> = Vec::new();
        let mut row: usize = 0;
        while row < base_rows
            invariant
                row <= base_rows,
                choices@.len() > 0,
                choices@ == maskable_features(maskable@, before.codes.len()),
                (plan@, *rng) == drawn_plan(start, fraction, choices@, row as nat),
                base_rows == before.rows,
                plan_sound(before, maskable@, plan@),
                forall|k: int| 0 <= k < plan@.len() ==> (#[trigger] plan@[k]).0 < row,
                forall|i: int|
                    0 <= i < choices@.len() ==> {
                        let f = #[trigger] choices@[i];
                        f < before.codes.len() && f < maskable@.len() && maskable@[f as int]
                    },
            decreases base_rows - row,
        {
            if less(rng.unit::<W>(), fraction) {
                let m: usize = rng.below(choices.len());
                plan.push((row, choices[m]));
            }
            row = row + 1;
        }
        proof {
            lemma_plan(start, fraction, choices@, base_rows as nat);
        }
        self.append_copies(&plan);
        let mut bases: Vec<usize> = Vec::with_capacity(plan.len());
        let mut k: usize = 0;
        while k < plan.len()
            invariant
                k <= plan@.len(),
                bases@ =~= Seq::new(k as nat, |k: int| plan@[k].0),
            decreases plan@.len() - k,
        {
            bases.push(plan[k].0);
            k = k + 1;
        }
        bases
    }
}

/// The choices are the features that may be masked, each once, in ascending order.
pub proof fn law_choices(maskable: Seq<bool>, features: nat, f: usize)
    requires
        features <= usize::MAX,
    ensures
        maskable_features(maskable, features).contains(f) <==> f < features && f < maskable.len()
            && maskable[f as int],
        forall|i: int, j: int|
            0 <= i < j < maskable_features(maskable, features).len() ==> (
            #[trigger] maskable_features(maskable, features)[i]) < (
            #[trigger] maskable_features(maskable, features)[j]),
    decreases features,
{
    lemma_maskable(maskable, features);
    if features > 0 {
        let before = maskable_features(maskable, (features - 1) as nat);
        let after = maskable_features(maskable, features);
        law_choices(maskable, (features - 1) as nat, f);
        lemma_maskable(maskable, (features - 1) as nat);
        if before.contains(f) {
            let i = choose|i: int| 0 <= i < before.len() && before[i] == f;
            assert(after[i] == f);
        }
        if f == features - 1 && f < maskable.len() && maskable[f as int] {
            assert(after[before.len() as int] == f);
        }
        if after.contains(f) {
            let i = choose|i: int| 0 <= i < after.len() && after[i] == f;
            if i < before.len() {
                assert(before[i] == f);
            }
        }
        assert forall|i: int, j: int| 0 <= i < j < after.len() implies (#[trigger] after[i]) < (
        #[trigger] after[j]) by {
            assert(after[i] == before[i]);
            if j < before.len() {
                assert(after[j] == before[j]);
            }
        }
    }
}

/// One row more takes one number between 0 and 1 from the stream. The row is copied
/// exactly when that number lies below the fraction, and then the next number of the
/// stream below the number of choices tells which of them is masked. What was planned
/// for earlier rows stays.
pub proof fn law_row_is_copied<W: Wide>(
    start: Draws,
    fraction: W,
    choices: Seq<usize>,
    row: usize,
)
    ensures
        ({
            let (plan, draws) = drawn_plan(start, fraction, choices, row as nat);
            let (longer, after) = drawn_plan(start, fraction, choices, row as nat + 1);
            let (word, pos) = chacha8_word(draws.seed, draws.pos);
            let (pick, end) = chacha8_below(draws.seed, pos, choices.len() as u64);
            let share = W::ratio_of(word >> 11, 0x20_0000_0000_0000);
            &&& after.seed == draws.seed
            &&& longer.take(plan.len() as int) == plan
            &&& lt(share, fraction) <==> longer.len() > plan.len()
            &&& lt(share, fraction) ==> longer.len() == plan.len() + 1 && longer.last() == (
                row,
                choices[pick as int],
            ) && after.pos == end
            &&& !lt(share, fraction) ==> after.pos == pos
        }),
{
    let plan = drawn_plan(start, fraction, choices, row as nat).0;
    assert(plan.take(plan.len() as int) =~= plan);
    let longer = drawn_plan(start, fraction, choices, row as nat + 1).0;
    assert(longer.take(plan.len() as int) =~= plan);
}

/// Nothing is copied and nothing is drawn where the fraction is not positive or no
/// feature may be masked; in all other cases every row is drawn for.
pub proof fn law_nothing_to_copy<W: Wide>(
    table: Table<W>,
    fraction: W,
    maskable: Seq<bool>,
    start: Draws,
)
    requires
        table.codes.len() <= usize::MAX,
    ensures
        ({
            let (plan, after) = augmentation(table, fraction, maskable, start);
            let none = forall|f: int|
                0 <= f < table.codes.len() && f < maskable.len() ==> !#[trigger] maskable[f];
            &&& le(fraction, W::ratio_of(0, 1)) || none ==> plan.len() == 0 && after == start
            &&& !le(fraction, W::ratio_of(0, 1)) && !none ==> (plan, after) == drawn_plan(
                start,
                fraction,
                maskable_features(maskable, table.codes.len()),
                table.rows,
            )
        }),
{
    let choices = maskable_features(maskable, table.codes.len());
    lemma_maskable(maskable, table.codes.len());
    if choices.len() > 0 {
        assert(maskable[choices[0] as int]);
    }
    assert forall|f: int|
        0 <= f < table.codes.len() && f < maskable.len() && choices.len()
            == 0 implies !#[trigger] maskable[f] by {
        law_choices(maskable, table.codes.len(), f as usize);
        if maskable[f] {
            assert(choices.contains(f as usize));
        }
    }
}

} // verus!
