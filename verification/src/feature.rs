//! Declarative feature extraction.
//!
//! A [`FeatureBuilder`] declares the columns of a training set as a list of named
//! extractors over your own row type. Each feature names itself and pulls one
//! [`Datum`] out of a row. The same builder is handed to the trainer and to the
//! model: extractors cannot be stored, so a model only keeps bin mappers and
//! feature names and extracts again through the builder you supply.

use vstd::prelude::*;

use crate::config::Config;
use crate::dataset::builder::{
    build_dataset, code_dataset, coded_table, columns_of, shape_problem, table_of, width_for, Caps,
};
use crate::dataset::{binnings_of, BinMapper, Binning, Dataset};
use crate::error::{Error, Result};
use crate::hash::{gx_hash_int, gx_hash_text, hash_int, hash_text, CATEGORY_SEED};
use crate::number::{constant, whole, Wide};

verus! {

/// What an extractor pulls out of a row.
pub enum Datum<W> {
    /// A number; one that is not finite is missing.
    Number(W),
    /// Yes or no.
    Flag(bool),
    /// An integer category.
    Int(i64),
    /// A text category.
    Text(String),
}

/// The number that stands for a datum in its column. Categories are hashed, and
/// the bits of the hash are read as a number.
pub open spec fn value_of<W: Wide>(datum: Datum<W>) -> W {
    match datum {
        Datum::Number(v) => v,
        Datum::Flag(b) => if b {
            whole(1)
        } else {
            whole(0)
        },
        Datum::Int(i) => W::of_bits(gx_hash_int(CATEGORY_SEED, i)),
        Datum::Text(s) => W::of_bits(gx_hash_text(CATEGORY_SEED, s@)),
    }
}

pub fn value<W: Wide>(datum: Datum<W>) -> (r: W)
    ensures
        r == value_of(datum),
{
    match datum {
        Datum::Number(v) => v,
        Datum::Flag(b) => if b {
            constant(1)
        } else {
            constant(0)
        },
        Datum::Int(i) => W::from_bits(hash_int(i)),
        Datum::Text(s) => W::from_bits(hash_text(s.as_str())),
    }
}

/// One declared feature: a name and an extractor.
pub struct Feature<X> {
    pub name: String,
    /// When true, the column is split by category subsets rather than by a
    /// threshold.
    pub categorical: bool,
    pub extract: X,
}

/// Declares the feature columns of a dataset.
pub struct FeatureBuilder<X> {
    pub features: Vec<Feature<X>>,
    /// Names of the categorical features eligible for unknown-value
    /// augmentation; `None` means every categorical feature.
    pub augmentable: Option<Vec<String>>,
}

/// `v` is a value that the extractor may give for the row.
pub open spec fn yields<X: Fn(&T) -> Datum<W>, T, W: Wide>(extract: X, row: T, v: W) -> bool {
    exists|d: Datum<W>| #[trigger] call_ensures(extract, (&row,), d) && v == value_of(d)
}

/// The contents of a list of names.
pub open spec fn texts_of(names: Seq<String>) -> Seq<Seq<char>> {
    Seq::new(names.len(), |i: int| names[i]@)
}

impl<X> FeatureBuilder<X> {
    /// The feature names in declaration order.
    pub open spec fn declared(self) -> Seq<Seq<char>> {
        Seq::new(self.features@.len(), |f: int| self.features@[f].name@)
    }

    /// Which features are categorical, in declaration order.
    pub open spec fn flags(self) -> Seq<bool> {
        Seq::new(self.features@.len(), |f: int| self.features@[f].categorical)
    }

    /// Which features may be masked: the categorical ones that a restriction, if
    /// there is one, names.
    pub open spec fn maskable(self) -> Seq<bool> {
        Seq::new(
            self.features@.len(),
            |f: int|
                self.features@[f].categorical && match self.augmentable {
                    None => true,
                    Some(names) => texts_of(names@).contains(self.features@[f].name@),
                },
        )
    }

    /// One feature more.
    pub open spec fn extended(self, name: Seq<char>, categorical: bool, extract: X, after: Self) -> bool {
        &&& after.features@.len() == self.features@.len() + 1
        &&& after.features@.drop_last() == self.features@
        &&& after.features@.last().name@ == name
        &&& after.features@.last().categorical == categorical
        &&& after.features@.last().extract == extract
        &&& after.augmentable == self.augmentable
    }

    /// Every extractor can be called on every row.
    pub open spec fn accepts<T, W: Wide>(self, rows: Seq<T>) -> bool where X: Fn(&T) -> Datum<W> {
        forall|f: int, r: int|
            #![trigger self.features@[f], rows[r]]
            0 <= f < self.features@.len() && 0 <= r < rows.len() ==> call_requires(
                self.features@[f].extract,
                (&rows[r],),
            )
    }

    /// `columns[f][r]` is what feature `f` gives for row `r`.
    pub open spec fn extracted<T, W: Wide>(self, rows: Seq<T>, columns: Seq<Seq<W>>) -> bool where
        X: Fn(&T) -> Datum<W>,
     {
        &&& columns.len() == self.features@.len()
        &&& forall|f: int|
            0 <= f < columns.len() ==> (#[trigger] columns[f]).len() == rows.len()
        &&& forall|f: int, r: int|
            #![trigger columns[f][r]]
            0 <= f < columns.len() && 0 <= r < rows.len() ==> yields(
                self.features@[f].extract,
                rows[r],
                columns[f][r],
            )
    }
}

impl<X> Default for FeatureBuilder<X> {
    fn default() -> (r: Self)
        ensures
            r.features@ == Seq::<Feature<X>>::empty(),
            r.augmentable is None,
    {
        FeatureBuilder { features: Vec::new(), augmentable: None }
    }
}

impl<X> FeatureBuilder<X> {
    pub fn new() -> (r: Self)
        ensures
            r.features@ == Seq::<Feature<X>>::empty(),
            r.augmentable is None,
    {
        FeatureBuilder { features: Vec::new(), augmentable: None }
    }

    fn add_feature(self, name: &str, categorical: bool, extract: X) -> (r: Self)
        ensures
            self.extended(name@, categorical, extract, r),
    {
        let mut features: Vec<Feature<X>> = self.features;
        features.push(Feature { name: name.to_owned(), categorical, extract });
        assert(features@.drop_last() =~= self.features@);
        FeatureBuilder { features, augmentable: self.augmentable }
    }

    /// Declare a yes-or-no feature, split as a categorical one.
    pub fn add_boolean(self, name: &str, extract: X) -> (r: Self)
        ensures
            self.extended(name@, true, extract, r),
    {
        self.add_feature(name, true, extract)
    }

    /// Declare a numeric feature.
    pub fn add_continuous(self, name: &str, extract: X) -> (r: Self)
        ensures
            self.extended(name@, false, extract, r),
    {
        self.add_feature(name, false, extract)
    }

    /// Declare a categorical feature. The extractor should give a [`Datum::Int`] or a
    /// [`Datum::Text`], whose hash stands for the category; a [`Datum::Number`] is
    /// taken as it is, with equal bits for equal categories.
    pub fn add_categorical(self, name: &str, extract: X) -> (r: Self)
        ensures
            self.extended(name@, true, extract, r),
    {
        self.add_feature(name, true, extract)
    }

    pub fn len(&self) -> (r: usize)
        ensures
            r == self.features@.len(),
    {
        self.features.len()
    }

    pub fn is_empty(&self) -> (r: bool)
        ensures
            r == (self.features@.len() == 0),
    {
        self.features.len() == 0
    }

    /// Feature names in declaration (index) order.
    pub fn names(&self) -> (r: Vec<&str>)
        ensures
            r@.len() == self.declared().len(),
            forall|f: int| 0 <= f < r@.len() ==> (#[trigger] r@[f])@ == self.declared()[f],
    {
        let mut r: Vec<&str> = Vec::with_capacity(self.features.len());
        let mut f: usize = 0;
        while f < self.features.len()
            invariant
                f <= self.features@.len(),
                r@.len() == f,
                forall|g: int| 0 <= g < f ==> (#[trigger] r@[g])@ == self.declared()[g],
            decreases self.features@.len() - f,
        {
            r.push(self.features[f].name.as_str());
            f = f + 1;
        }
        r
    }

    /// Restrict unknown-value augmentation to the named categorical features.
    /// Names that no feature has are ignored; names of other features have no
    /// effect. Without this call, every categorical feature is eligible.
    pub fn with_augmentable_features(self, names: &[&str]) -> (r: Self)
        ensures
            r.features == self.features,
            r.augmentable matches Some(list) && texts_of(list@) == Seq::new(
                names@.len(),
                |i: int| names@[i]@,
            ),
    {
        let mut list: Vec<String> = Vec::with_capacity(names.len());
        let mut i: usize = 0;
        while i < names.len()
            invariant
                i <= names@.len(),
                texts_of(list@) =~= Seq::new(i as nat, |i: int| names@[i]@),
            decreases names@.len() - i,
        {
            let ghost before = list@;
            let name: String = names[i].to_owned();
            list.push(name);
            assert(texts_of(list@) =~= texts_of(before).push(name@));
            i = i + 1;
        }
        FeatureBuilder { features: self.features, augmentable: Some(list) }
    }

    /// Per-feature categorical flag, in declaration (index) order.
    pub fn categorical_flags(&self) -> (r: Vec<bool>)
        ensures
            r@ == self.flags(),
    {
        let mut r: Vec<bool> = Vec::with_capacity(self.features.len());
        let mut f: usize = 0;
        while f < self.features.len()
            invariant
                f <= self.features@.len(),
                r@ =~= self.flags().take(f as int),
            decreases self.features@.len() - f,
        {
            r.push(self.features[f].categorical);
            f = f + 1;
        }
        r
    }

    /// Per-feature mask eligibility for unknown-value augmentation, in
    /// declaration (index) order: categorical, and named by the restriction if
    /// there is one.
    pub fn augmentable_flags(&self) -> (r: Vec<bool>)
        ensures
            r@ == self.maskable(),
    {
        let mut r: Vec<bool> = Vec::with_capacity(self.features.len());
        let mut f: usize = 0;
        while f < self.features.len()
            invariant
                f <= self.features@.len(),
                r@ =~= self.maskable().take(f as int),
            decreases self.features@.len() - f,
        {
            let named: bool = match &self.augmentable {
                None => true,
                Some(names) => lists(names, self.features[f].name.as_str()),
            };
            r.push(self.features[f].categorical && named);
            f = f + 1;
        }
        r
    }
}

fn lists(names: &Vec<String>, name: &str) -> (r: bool)
    ensures
        r == texts_of(names@).contains(name@),
{
    let wanted: String = name.to_owned();
    let mut i: usize = 0;
    while i < names.len()
        invariant
            i <= names@.len(),
            wanted@ == name@,
            forall|k: int| 0 <= k < i ==> (#[trigger] names@[k])@ != name@,
        decreases names@.len() - i,
    {
        if names[i] == wanted {
            assert(texts_of(names@)[i as int] == name@);
            return true;
        }
        i = i + 1;
    }
    assert forall|k: int| 0 <= k < names@.len() implies texts_of(names@)[k] != name@ by {
        assert(names@[k]@ != name@);
    }
    false
}

impl<X> FeatureBuilder<X> {
    /// Extract column-major data: `out[feat][row]`.
    pub fn extract_columns<T, W: Wide>(&self, rows: &[T]) -> (out: Vec<Vec<W>>) where
        X: Fn(&T) -> Datum<W>,

        requires
            self.accepts::<T, W>(rows@),
        ensures
            self.extracted(rows@, columns_of(out@)),
    {
        let mut out: Vec<Vec<W>> = Vec::with_capacity(self.features.len());
        let mut f: usize = 0;
        while f < self.features.len()
            invariant
                f <= self.features@.len(),
                self.accepts::<T, W>(rows@),
                out@.len() == f,
                forall|g: int| 0 <= g < f ==> (#[trigger] out@[g])@.len() == rows@.len(),
                forall|g: int, r: int|
                    #![trigger out@[g]@[r]]
                    0 <= g < f && 0 <= r < rows@.len() ==> yields(
                        self.features@[g].extract,
                        rows@[r],
                        out@[g]@[r],
                    ),
            decreases self.features@.len() - f,
        {
            let mut column: Vec<W> = Vec::with_capacity(rows.len());
            let mut r: usize = 0;
            while r < rows.len()
                invariant
                    r <= rows@.len(),
                    f < self.features@.len(),
                    self.accepts::<T, W>(rows@),
                    column@.len() == r,
                    forall|q: int|
                        0 <= q < r ==> yields(
                            self.features@[f as int].extract,
                            rows@[q],
                            #[trigger] column@[q],
                        ),
                decreases rows@.len() - r,
            {
                assert(call_requires(self.features@[f as int].extract, (&rows@[r as int],)));
                let datum: Datum<W> = (self.features[f].extract)(&rows[r]);
                column.push(value(datum));
                assert(yields(self.features@[f as int].extract, rows@[r as int], column@[r as int]));
                r = r + 1;
            }
            out.push(column);
            f = f + 1;
        }
        out
    }
}

/// Rows one after the other.
pub open spec fn flat(rows: Seq<Seq<u16>>) -> Seq<u16>
    decreases rows.len(),
{
    if rows.len() == 0 {
        Seq::empty()
    } else {
        flat(rows.drop_last()) + rows.last()
    }
}

/// Row `r` of a list of rows of equal length stands at `r * width`.
pub proof fn lemma_flat(rows: Seq<Seq<u16>>, width: nat, r: int)
    requires
        0 <= r < rows.len(),
        forall|i: int| 0 <= i < rows.len() ==> (#[trigger] rows[i]).len() == width,
    ensures
        flat(rows).len() == rows.len() * width,
        0 <= r * width <= (r + 1) * width <= flat(rows).len(),
        flat(rows).subrange(r * width, (r + 1) * width) == rows[r],
    decreases rows.len(),
{
    let rest = rows.drop_last();
    let n = rows.len();
    assert forall|i: int| 0 <= i < rest.len() implies (#[trigger] rest[i]).len() == width by {
        assert(rows[i].len() == width);
    }
    lemma_flat_len(rest, width);
    lemma_flat_len(rows, width);
    assert(rows[n - 1].len() == width);
    assert((r + 1) * width == r * width + width) by (nonlinear_arith);
    assert(0 <= r * width) by (nonlinear_arith)
        requires
            0 <= r,
            0 <= width,
    ;
    if r < n - 1 {
        lemma_flat(rest, width, r);
        assert(flat(rows).subrange(r * width, (r + 1) * width) =~= flat(rest).subrange(
            r * width,
            (r + 1) * width,
        ));
    } else {
        assert(flat(rows).subrange(r * width, (r + 1) * width) =~= rows[r]);
    }
}

proof fn lemma_flat_len(rows: Seq<Seq<u16>>, width: nat)
    requires
        forall|i: int| 0 <= i < rows.len() ==> (#[trigger] rows[i]).len() == width,
    ensures
        flat(rows).len() == rows.len() * width,
    decreases rows.len(),
{
    if rows.len() > 0 {
        let rest = rows.drop_last();
        assert forall|i: int| 0 <= i < rest.len() implies (#[trigger] rest[i]).len() == width by {
            assert(rows[i].len() == width);
        }
        lemma_flat_len(rest, width);
        assert(rows[rows.len() - 1].len() == width);
        assert(rest.len() * width + width == rows.len() * width) by (nonlinear_arith)
            requires
                rest.len() + 1 == rows.len(),
        ;
    }
}

/// Row `r` of column-major values.
pub open spec fn row_values<W>(columns: Seq<Seq<W>>, r: int) -> Seq<W> {
    Seq::new(columns.len(), |f: int| columns[f][r])
}

/// The bin codes of one row of raw values.
pub open spec fn binned_row<W: Wide>(binnings: Seq<Binning<W>>, row: Seq<W>) -> Seq<u16> {
    Seq::new(row.len(), |f: int| binnings[f].code_of(row[f]))
}

/// The bin codes of the first `n` rows of column-major values.
pub open spec fn binned_rows<W: Wide>(
    binnings: Seq<Binning<W>>,
    columns: Seq<Seq<W>>,
    n: nat,
) -> Seq<Seq<u16>> {
    Seq::new(n, |r: int| binned_row(binnings, row_values(columns, r)))
}

/// The columns of a list of rows of values.
spec fn transposed<W>(rows: Seq<Seq<W>>, width: nat) -> Seq<Seq<W>> {
    Seq::new(width, |f: int| Seq::new(rows.len(), |r: int| rows[r][f]))
}

impl<X> FeatureBuilder<X> {
    /// Extract and bin features row-major into `out`:
    /// `out[row * n_features + feat]` is the bin code. Fuses extraction and
    /// binning in one pass, so no column buffers are allocated.
    pub fn extract_bins_row_major<T, W: Wide>(
        &self,
        rows: &[T],
        mappers: &[BinMapper<W>],
        out: &mut Vec<u16>,
    ) where X: Fn(&T) -> Datum<W>,
        requires
            self.accepts::<T, W>(rows@),
            mappers@.len() == self.features@.len(),
            forall|f: int| 0 <= f < mappers@.len() ==> (#[trigger] mappers@[f])@.valid(),
        ensures
            exists|columns: Seq<Seq<W>>| #[trigger]
                self.extracted(rows@, columns) && final(out)@ == flat(
                    binned_rows(binnings_of(mappers@), columns, rows@.len()),
                ),
    {
        let ghost binnings = binnings_of(mappers@);
        let ghost width = self.features@.len();
        let ghost mut values: Seq<Seq<W>> = Seq::empty();
        let ghost mut coded: Seq<Seq<u16>> = Seq::empty();
        out.clear();
        let mut r: usize = 0;
        while r < rows.len()
            invariant
                r <= rows@.len(),
                self.accepts::<T, W>(rows@),
                width == self.features@.len() == mappers@.len(),
                binnings == binnings_of(mappers@),
                forall|f: int| 0 <= f < mappers@.len() ==> (#[trigger] mappers@[f])@.valid(),
                values.len() == r,
                coded.len() == r,
                forall|q: int| 0 <= q < r ==> (#[trigger] values[q]).len() == width,
                forall|q: int|
                    0 <= q < r ==> #[trigger] coded[q] == binned_row(binnings, values[q]),
                forall|q: int, f: int|
                    #![trigger values[q][f]]
                    0 <= q < r && 0 <= f < width ==> yields(
                        self.features@[f].extract,
                        rows@[q],
                        values[q][f],
                    ),
                out@ == flat(coded),
            decreases rows@.len() - r,
        {
            let ghost mut row: Seq<W> = Seq::empty();
            let ghost start = out@;
            let mut f: usize = 0;
            while f < self.features.len()
                invariant
                    f <= self.features@.len(),
                    r < rows@.len(),
                    self.accepts::<T, W>(rows@),
                    width == self.features@.len() == mappers@.len(),
                    binnings == binnings_of(mappers@),
                    forall|f: int| 0 <= f < mappers@.len() ==> (#[trigger] mappers@[f])@.valid(),
                    row.len() == f,
                    forall|g: int|
                        0 <= g < f ==> yields(
                            self.features@[g].extract,
                            rows@[r as int],
                            #[trigger] row[g],
                        ),
                    out@ =~= start + binned_row(binnings, row),
                decreases self.features@.len() - f,
            {
                assert(call_requires(self.features@[f as int].extract, (&rows@[r as int],)));
                let datum: Datum<W> = (self.features[f].extract)(&rows[r]);
                let v: W = value(datum);
                assert(mappers@[f as int]@.valid());
                out.push(mappers[f].value_to_bin(v));
                proof {
                    assert(yields(self.features@[f as int].extract, rows@[r as int], v));
                    let before = row;
                    row = row.push(v);
                    assert(binned_row(binnings, row) =~= binned_row(binnings, before).push(
                        binnings[f as int].code_of(v),
                    ));
                }
                f = f + 1;
            }
            proof {
                let before = coded;
                let rows_before = values;
                values = values.push(row);
                coded = coded.push(binned_row(binnings, row));
                assert(coded.drop_last() =~= before);
                assert forall|q: int| 0 <= q < r + 1 implies (#[trigger] values[q]).len()
                    == width by {
                    if q < r {
                        assert(rows_before[q].len() == width);
                    }
                }
                assert forall|q: int, f: int|
                    #![trigger values[q][f]]
                    0 <= q < r + 1 && 0 <= f < width implies yields(
                    self.features@[f].extract,
                    rows@[q],
                    values[q][f],
                ) by {
                    if q < r {
                        assert(values[q][f] == rows_before[q][f]);
                    }
                }
            }
            r = r + 1;
        }
        proof {
            let columns = transposed(values, width);
            assert(self.extracted(rows@, columns)) by {
                assert forall|f: int, r: int|
                    #![trigger columns[f][r]]
                    0 <= f < columns.len() && 0 <= r < rows@.len() implies yields(
                    self.features@[f].extract,
                    rows@[r],
                    columns[f][r],
                ) by {
                    assert(columns[f][r] == values[r][f]);
                }
            }
            assert(coded =~= binned_rows(binnings, columns, rows@.len())) by {
                assert forall|q: int| 0 <= q < coded.len() implies #[trigger] coded[q]
                    == binned_rows(binnings, columns, rows@.len())[q] by {
                    assert(values[q].len() == width);
                    assert(row_values(columns, q) =~= values[q]);
                }
            }
        }
    }

    /// The caps that a configuration sets.
    pub open spec fn caps<W: Wide>(config: Config<W>) -> Caps {
        Caps {
            max_bin: config.max_bin,
            max_cat_bins: config.max_cat_bins,
            min_data_in_bin: config.min_data_in_bin,
        }
    }

    /// Extract features from `rows`, fit one [`BinMapper`] per column, and pack
    /// into a binned [`Dataset`]. This is the step the trainer runs first; it is
    /// public so that you can bin once and reuse.
    pub fn build_dataset<T, W: Wide>(
        &self,
        rows: &[T],
        labels: &[W::Narrow],
        config: &Config<W>,
    ) -> (r: Result<Dataset<W>>) where X: Fn(&T) -> Datum<W>,
        requires
            self.accepts::<T, W>(rows@),
            config.max_bin <= 0x10000,
            config.max_cat_bins <= 0x10000,
        ensures
            exists|columns: Seq<Seq<W>>| #[trigger]
                self.extracted(rows@, columns) && match r {
                    Ok(ds) => {
                        &&& shape_problem(columns, labels@.len()) is None
                        &&& ds.wf()
                        &&& ds@ == table_of(columns, self.flags(), Self::caps(*config), labels@)
                        &&& ds.stored_width() == width_for(ds@.binnings)
                    },
                    Err(Error::Shape(m)) => shape_problem(columns, labels@.len()) == Some(m@),
                    Err(_) => false,
                },
    {
        let columns: Vec<Vec<W>> = self.extract_columns(rows);
        let categorical: Vec<bool> = self.categorical_flags();
        assert(columns_of(columns@).len() == columns@.len());
        build_dataset(
            columns,
            config.max_bin,
            config.max_cat_bins,
            categorical.as_slice(),
            config.min_data_in_bin,
            labels,
        )
    }

    /// Extract features from `rows` and bin them with the mappers of a
    /// [`Dataset`] or a model that was built before.
    pub fn code_dataset<T, W: Wide>(
        &self,
        rows: &[T],
        labels: &[W::Narrow],
        bin_mappers: &[BinMapper<W>],
    ) -> (r: Result<Dataset<W>>) where X: Fn(&T) -> Datum<W>,
        requires
            self.accepts::<T, W>(rows@),
            bin_mappers@.len() == self.features@.len(),
            forall|f: int| 0 <= f < bin_mappers@.len() ==> (#[trigger] bin_mappers@[f])@.valid(),
        ensures
            exists|columns: Seq<Seq<W>>| #[trigger]
                self.extracted(rows@, columns) && match r {
                    Ok(ds) => {
                        &&& shape_problem(columns, labels@.len()) is None
                        &&& ds.wf()
                        &&& ds@ == coded_table(columns, binnings_of(bin_mappers@), labels@)
                        &&& ds.stored_width() == width_for(ds@.binnings)
                    },
                    Err(Error::Shape(m)) => shape_problem(columns, labels@.len()) == Some(m@),
                    Err(_) => false,
                },
    {
        let columns: Vec<Vec<W>> = self.extract_columns(rows);
        assert(columns_of(columns@).len() == columns@.len());
        code_dataset(columns, bin_mappers, labels)
    }
}

/// A flag has the value of the number 1 or 0, and integers and texts that are the same
/// have the same value.
pub proof fn law_values<W: Wide>(flag: bool, v: W, i: i64, s: String, t: String)
    ensures
        value_of(Datum::<W>::Number(v)) == v,
        value_of(Datum::<W>::Flag(flag)) == value_of(
            Datum::Number(
                W::ratio_of(
                    if flag {
                        1
                    } else {
                        0
                    },
                    1,
                ),
            ),
        ),
        value_of(Datum::<W>::Int(i)) == W::of_bits(gx_hash_int(CATEGORY_SEED, i)),
        s@ == t@ ==> value_of(Datum::<W>::Text(s)) == value_of(Datum::<W>::Text(t)),
{
}

/// Only categorical features may be masked: all of them without a restriction, and
/// otherwise those that the restriction names.
pub proof fn law_maskable<X>(features: FeatureBuilder<X>, f: int)
    requires
        0 <= f < features.features@.len(),
    ensures
        ({
            let feature = features.features@[f];
            &&& features.maskable().len() == features.features@.len()
            &&& features.maskable()[f] ==> feature.categorical
            &&& features.augmentable is None ==> features.maskable()[f] == feature.categorical
            &&& features.augmentable matches Some(names) ==> (features.maskable()[f] <==> {
                &&& feature.categorical
                &&& exists|k: int| 0 <= k < names@.len() && #[trigger] names@[k]@ == feature.name@
            })
        }),
{
    if features.augmentable is Some {
        let names = features.augmentable->0@;
        let name = features.features@[f].name@;
        assert forall|k: int| 0 <= k < names.len() && #[trigger] names[k]@ == name implies texts_of(
            names,
        ).contains(name) by {
            assert(texts_of(names)[k] == name);
        }
        if texts_of(names).contains(name) {
            let k = choose|k: int| 0 <= k < names.len() && texts_of(names)[k] == name;
            assert(names[k]@ == name);
        }
    }
}

} // verus!
