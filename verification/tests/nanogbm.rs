use nanogbm::boosting::Booster;
use nanogbm::dataset::builder::build_dataset;
use nanogbm::dataset::{BinData, BinMapper, BinWidth, MISSING_BIN};
use nanogbm::draws::Draws;
use nanogbm::hash::{hash_int, hash_text};
use nanogbm::loss::{
    binary_logloss, gradients_packed, init_score, sigmoid, sigmoid_fast_f32,
};
use nanogbm::metric::{BinaryLogloss, Metric};
use nanogbm::number::{Rounded, Rounding};
use nanogbm::objective::{BinaryObjective, Objective};
use nanogbm::predict;
use nanogbm::tree::bitset::{bitset, bitset_contains};
use nanogbm::tree::histogram::{
    build_histograms_batched, build_histograms_batched_full, FeatureHistogram,
};
use nanogbm::tree::learner::TreeLearner;
use nanogbm::tree::split::{
    find_best_categorical_split, find_best_split_for_feature, node_score, threshold_leaf,
};
use nanogbm::tree::{MissingDir, SplitNode, Tree};
use nanogbm::{
    Config, Dataset, Datum, Error, FeatureBuilder, GbdtTrainer, Model, Real, Wide,
};
use rand::seq::SliceRandom;
use rand::{Rng, SeedableRng};
use rand_chacha::ChaCha8Rng;
use std::hash::{Hash, Hasher};

/// Double precision.
#[derive(Clone, Copy, Debug, PartialEq)]
struct D(f64);

/// Single precision.
#[derive(Clone, Copy, Debug, PartialEq)]
struct S(f32);

impl Real for D {
    fn rank_of(self) -> Option<i64> {
        self.rank()
    }
    fn ratio_of(num: u64, den: u64) -> Self {
        Self::ratio(num, den)
    }
    fn sum_of(self, other: Self) -> Self {
        self.plus(other)
    }
    fn difference_of(self, other: Self) -> Self {
        self.minus(other)
    }
    fn product_of(self, other: Self) -> Self {
        self.times(other)
    }
    fn quotient_of(self, other: Self) -> Self {
        self.over(other)
    }
    fn negation_of(self) -> Self {
        self.negate()
    }
    fn magnitude_of(self) -> Self {
        self.magnitude()
    }
    fn floor_of(self) -> Self {
        self.floor()
    }
    fn to_i32_of(self) -> i32 {
        self.to_i32()
    }
    fn power_of_two(exponent: i32) -> Self {
        Self::two_to(exponent)
    }
    fn exp_of(self) -> Self {
        self.exp()
    }
    fn ln_of(self) -> Self {
        self.ln()
    }
    fn rank(self) -> Option<i64> {
        if self.0.is_nan() {
            return None;
        }
        let bits = self.0.to_bits() as i64;
        Some(if bits < 0 { i64::MIN - bits } else { bits })
    }
    fn ratio(num: u64, den: u64) -> Self {
        D(num as f64 / den as f64)
    }
    fn plus(self, other: Self) -> Self {
        D(self.0 + other.0)
    }
    fn minus(self, other: Self) -> Self {
        D(self.0 - other.0)
    }
    fn times(self, other: Self) -> Self {
        D(self.0 * other.0)
    }
    fn over(self, other: Self) -> Self {
        D(self.0 / other.0)
    }
    fn negate(self) -> Self {
        D(-self.0)
    }
    fn magnitude(self) -> Self {
        D(self.0.abs())
    }
    fn floor(self) -> Self {
        D(self.0.floor())
    }
    fn to_i32(self) -> i32 {
        self.0 as i32
    }
    fn two_to(exponent: i32) -> Self {
        D(2f64.powi(exponent))
    }
    fn exp(self) -> Self {
        D(self.0.exp())
    }
    fn ln(self) -> Self {
        D(self.0.ln())
    }
}

impl Real for S {
    fn rank_of(self) -> Option<i64> {
        self.rank()
    }
    fn ratio_of(num: u64, den: u64) -> Self {
        Self::ratio(num, den)
    }
    fn sum_of(self, other: Self) -> Self {
        self.plus(other)
    }
    fn difference_of(self, other: Self) -> Self {
        self.minus(other)
    }
    fn product_of(self, other: Self) -> Self {
        self.times(other)
    }
    fn quotient_of(self, other: Self) -> Self {
        self.over(other)
    }
    fn negation_of(self) -> Self {
        self.negate()
    }
    fn magnitude_of(self) -> Self {
        self.magnitude()
    }
    fn floor_of(self) -> Self {
        self.floor()
    }
    fn to_i32_of(self) -> i32 {
        self.to_i32()
    }
    fn power_of_two(exponent: i32) -> Self {
        Self::two_to(exponent)
    }
    fn exp_of(self) -> Self {
        self.exp()
    }
    fn ln_of(self) -> Self {
        self.ln()
    }
    fn rank(self) -> Option<i64> {
        if self.0.is_nan() {
            return None;
        }
        let bits = self.0.to_bits() as i32;
        Some(if bits < 0 { (i32::MIN - bits) as i64 } else { bits as i64 })
    }
    fn ratio(num: u64, den: u64) -> Self {
        S(num as f32 / den as f32)
    }
    fn plus(self, other: Self) -> Self {
        S(self.0 + other.0)
    }
    fn minus(self, other: Self) -> Self {
        S(self.0 - other.0)
    }
    fn times(self, other: Self) -> Self {
        S(self.0 * other.0)
    }
    fn over(self, other: Self) -> Self {
        S(self.0 / other.0)
    }
    fn negate(self) -> Self {
        S(-self.0)
    }
    fn magnitude(self) -> Self {
        S(self.0.abs())
    }
    fn floor(self) -> Self {
        S(self.0.floor())
    }
    fn to_i32(self) -> i32 {
        self.0 as i32
    }
    fn two_to(exponent: i32) -> Self {
        S(f32::from_bits(((exponent + 127) as u32) << 23))
    }
    fn exp(self) -> Self {
        S(self.0.exp())
    }
    fn ln(self) -> Self {
        S(self.0.ln())
    }
}

impl Wide for D {
    type Narrow = S;
    fn widened(n: S) -> Self {
        Self::widen(n)
    }
    fn narrowed(self) -> S {
        self.narrow()
    }
    fn finite(self) -> bool {
        self.is_finite()
    }
    fn infinite() -> Self {
        Self::infinity()
    }
    fn bits_of(self) -> u64 {
        self.to_bits()
    }
    fn of_bits(bits: u64) -> Self {
        Self::from_bits(bits)
    }
    fn ceil_of(self) -> usize {
        self.ceil_count()
    }
    fn rounded_of(self, _: u8) -> Rounding {
        unreachable!("for specifications only")
    }
    fn finite_compares(self) {}
    fn constants_ordered(_: u64, _: u64, _: u64, _: u64) {}
    fn constant_positive(_: u64, _: u64) {}
    fn part_is_finite(_: Self, _: Self) {}
    fn finite_step_compares(self, _: Self) {}
    fn sum_grows(_: Self, _: Self) {}
    fn negation_flips(self) {}
    fn exp_within_one(self) {}
    fn share_within_one(_: Self, _: Self) {}
    fn infinite_is_last(self) {}
    fn midpoints_ascend(_: Self, _: Self, _: Self, _: Self) {}
    fn widen(n: S) -> Self {
        D(n.0 as f64)
    }
    fn narrow(self) -> S {
        S(self.0 as f32)
    }
    fn is_finite(self) -> bool {
        self.0.is_finite()
    }
    fn infinity() -> Self {
        D(f64::INFINITY)
    }
    fn to_bits(self) -> u64 {
        self.0.to_bits()
    }
    fn from_bits(bits: u64) -> Self {
        D(f64::from_bits(bits))
    }
    fn ceil_count(self) -> usize {
        self.0.ceil() as usize
    }
    fn rounded(self, decimals: u8) -> Rounded {
        if self.0.is_nan() {
            return Rounded::NotANumber;
        }
        let negative = self.0.is_sign_negative();
        if self.0.is_infinite() {
            return Rounded::Infinite { negative };
        }
        let text = format!("{:.*}", decimals as usize, self.0.abs());
        let (whole, decimals) = text.split_once('.').unwrap_or((&text, ""));
        Rounded::Finite { negative, whole: whole.to_string(), decimals: decimals.to_string() }
    }
}

/// A training row is just a vector of feature values.
type Row = Vec<f64>;

type Extract = Box<dyn Fn(&Row) -> Datum<D>>;

fn wide(values: &[f64]) -> Vec<D> {
    values.iter().map(|&v| D(v)).collect()
}

fn narrow(values: &[f32]) -> Vec<S> {
    values.iter().map(|&v| S(v)).collect()
}

fn number(f: impl Fn(&Row) -> f64 + 'static) -> Extract {
    Box::new(move |r: &Row| Datum::Number(D(f(r))))
}

fn category(f: impl Fn(&Row) -> i64 + 'static) -> Extract {
    Box::new(move |r: &Row| Datum::Int(f(r)))
}

/// A builder with `d` numeric features indexing into a row.
fn feature_builder(d: usize) -> FeatureBuilder<Extract> {
    let mut fb = FeatureBuilder::new();
    for j in 0..d {
        fb = fb.add_continuous(&format!("f{j}"), number(move |r| r[j]));
    }
    fb
}

/// Logloss computed directly from predicted probabilities.
fn proba_logloss(probs: &[D], labels: &[S]) -> f64 {
    const EPS: f64 = 1e-15;
    let n = probs.len() as f64;
    let mut total = 0.0;
    for (&p, &y) in probs.iter().zip(labels.iter()) {
        let p = p.0.clamp(EPS, 1.0 - EPS);
        let y = y.0 as f64;
        total += -(y * p.ln() + (1.0 - y) * (1.0 - p).ln());
    }
    total / n
}

/// A noisy linearly separable binary classification problem, with the same
/// weights and bias for training and validation rows.
fn make_classification(
    train_n: usize,
    valid_n: usize,
    d: usize,
    seed: u64,
) -> (Vec<Row>, Vec<S>, Vec<Row>, Vec<S>) {
    let mut rng = ChaCha8Rng::seed_from_u64(seed);
    let weights: Vec<f64> = (0..d).map(|_| rng.gen_range(-1.0..1.0)).collect();
    let bias: f64 = rng.gen_range(-0.5..0.5);
    let mut sample = |n: usize| -> (Vec<Row>, Vec<S>) {
        let mut rows = Vec::with_capacity(n);
        let mut labels = vec![S(0.0); n];
        for label in labels.iter_mut() {
            let mut z = bias;
            let mut row = vec![0.0; d];
            for j in 0..d {
                let x: f64 = rng.gen_range(-3.0..3.0);
                row[j] = x;
                z += weights[j] * x;
            }
            z += rng.gen_range(-0.4..0.4);
            let p = 1.0 / (1.0 + (-z).exp());
            *label = S(if rng.gen::<f64>() < p { 1.0 } else { 0.0 });
            rows.push(row);
        }
        (rows, labels)
    };
    let (tx, ty) = sample(train_n);
    let (vx, vy) = sample(valid_n);
    (tx, ty, vx, vy)
}

fn fit(fb: &FeatureBuilder<Extract>, cfg: &Config<D>, x: &[Row], y: &[S]) -> Model<D> {
    match GbdtTrainer::new(cfg, fb).fit(x, y, None) {
        Ok(model) => model,
        Err(e) => panic!("{}", e.message()),
    }
}

fn dataset(columns: &[&[f64]], categorical: &[bool], labels: &[f32]) -> Dataset<D> {
    let columns: Vec<Vec<D>> = columns.iter().map(|c| wide(c)).collect();
    match build_dataset(columns, 16, 16, categorical, 1, &narrow(labels)) {
        Ok(ds) => ds,
        Err(e) => panic!("{}", e.message()),
    }
}

// Binning.

#[test]
fn few_distinct_values_each_get_own_bin() {
    let vals = wide(&[1.0, 2.0, 3.0, 1.0, 2.0, 3.0]);
    let bm = BinMapper::fit(&vals, 16, 1);
    assert_eq!(bm.num_real_bins(), 3);
    assert_eq!(bm.value_to_bin(D(1.0)), 1);
    assert_eq!(bm.value_to_bin(D(2.0)), 2);
    assert_eq!(bm.value_to_bin(D(3.0)), 3);
}

#[test]
fn nan_maps_to_missing() {
    let vals = wide(&[1.0, 2.0, 3.0]);
    let bm = BinMapper::fit(&vals, 16, 1);
    assert_eq!(bm.value_to_bin(D(f64::NAN)), MISSING_BIN);
}

#[test]
fn many_values_capped_at_max_bin() {
    let vals: Vec<D> = (0..1000).map(|i| D(i as f64)).collect();
    let bm = BinMapper::fit(&vals, 16, 1);
    assert!(bm.num_real_bins() <= 15);
}

#[test]
fn categorical_each_value_gets_its_own_bin() {
    let vals = wide(&[30.0, 10.0, 20.0, 30.0, 10.0, 20.0]);
    let bm = BinMapper::fit_categorical(&vals, 16);
    assert!(bm.is_categorical());
    assert_eq!(bm.num_real_bins(), 3);
    let bins = [
        bm.value_to_bin(D(10.0)),
        bm.value_to_bin(D(20.0)),
        bm.value_to_bin(D(30.0)),
    ];
    assert!(bins.iter().all(|&b| b != MISSING_BIN));
    assert_eq!(bins.iter().copied().collect::<std::collections::HashSet<_>>().len(), 3);
    assert_eq!(bm.value_to_bin(D(99.0)), MISSING_BIN);
    assert_eq!(bm.value_to_bin(D(f64::NAN)), MISSING_BIN);
}

#[test]
fn categorical_value_zero_does_not_collide_with_missing() {
    let vals = wide(&[0.0, 1.0, 2.0, 0.0, 1.0, 2.0]);
    let bm = BinMapper::fit_categorical(&vals, 16);
    let zero_bin = bm.value_to_bin(D(0.0));
    assert_ne!(zero_bin, MISSING_BIN, "value 0.0 must not map to the missing bin");
    assert_ne!(zero_bin, bm.value_to_bin(D(1.0)));
    assert_ne!(zero_bin, bm.value_to_bin(D(2.0)));
    assert_eq!(bm.value_to_bin(D(99.0)), MISSING_BIN);
    assert_eq!(bm.value_to_bin(D(f64::NAN)), MISSING_BIN);
}

#[test]
fn categorical_keeps_most_frequent_when_capped() {
    let vals = wide(&[1.0, 1.0, 1.0, 2.0, 2.0, 3.0]);
    let bm = BinMapper::fit_categorical(&vals, 3);
    assert_eq!(bm.num_real_bins(), 2);
    assert_ne!(bm.value_to_bin(D(1.0)), MISSING_BIN);
    assert_ne!(bm.value_to_bin(D(2.0)), MISSING_BIN);
    assert_eq!(bm.value_to_bin(D(3.0)), MISSING_BIN);
}

#[test]
fn bounds_lie_halfway_and_are_inclusive() {
    let bm = BinMapper::fit(&wide(&[4.0, 1.0, f64::NAN, 2.0, f64::INFINITY]), 16, 1);
    assert_eq!(bm.upper_bounds(), &wide(&[1.5, 3.0])[..]);
    assert_eq!(bm.num_bins(), 4);
    assert_eq!(bm.value_to_bin(D(1.5)), 1);
    assert_eq!(bm.value_to_bin(D(1.6)), 2);
    assert_eq!(bm.value_to_bin(D(3.0)), 2);
    assert_eq!(bm.value_to_bin(D(3.1)), 3);
    assert_eq!(bm.value_to_bin(D(-1e300)), 1);
    assert_eq!(bm.value_to_bin(D(1e300)), 3);
    assert_eq!(bm.value_to_bin(D(f64::NEG_INFINITY)), MISSING_BIN);
}

#[test]
fn crowded_columns_are_cut_into_even_bins() {
    let vals: Vec<D> = (0..8).map(|i| D(i as f64)).collect();
    // Four real bins of two values each.
    let bm = BinMapper::fit(&vals, 5, 1);
    assert_eq!(bm.upper_bounds(), &wide(&[1.5, 3.5, 5.5])[..]);
    // A larger minimum makes fewer, larger bins.
    let bm = BinMapper::fit(&vals, 5, 4);
    assert_eq!(bm.upper_bounds(), &wide(&[3.5])[..]);
}

#[test]
fn bins_with_too_few_values_join_a_neighbour() {
    // Few distinct values, but the twos are too rare for a bin of their own.
    let vals = wide(&[1.0, 1.0, 1.0, 2.0, 3.0, 3.0, 3.0]);
    let bm = BinMapper::fit(&vals, 16, 3);
    assert_eq!(bm.upper_bounds(), &wide(&[1.5])[..]);
    // Without a minimum every value has its own bin.
    for min in [0, 1] {
        let bm = BinMapper::fit(&vals, 16, min);
        assert_eq!(bm.upper_bounds(), &wide(&[1.5, 2.5])[..]);
    }
    // What is left for the last bin joins the bin before it.
    let bm = BinMapper::fit(&wide(&[1.0, 1.0, 2.0, 2.0, 3.0]), 16, 2);
    assert_eq!(bm.upper_bounds(), &wide(&[1.5])[..]);
    // Five values in bins of two: the last bin would hold one.
    let vals: Vec<D> = (0..5).map(|i| D(i as f64)).collect();
    let bm = BinMapper::fit(&vals, 4, 2);
    assert_eq!(bm.upper_bounds(), &wide(&[1.5])[..]);
    // Too few values for a second bin.
    let bm = BinMapper::fit(&vals, 16, 4);
    assert_eq!(bm.num_real_bins(), 1);
}

#[test]
fn column_without_finite_values_has_one_real_bin() {
    let bm = BinMapper::fit(&wide(&[f64::NAN, f64::INFINITY]), 16, 1);
    assert_eq!(bm.num_real_bins(), 1);
    let bm = BinMapper::fit_categorical(&wide(&[f64::NAN]), 16);
    assert!(bm.is_categorical() && bm.is_valid());
    assert_eq!(bm.num_real_bins(), 1);
    assert_eq!(bm.value_to_bin(D(5.0)), MISSING_BIN);
    assert_eq!(bm.value_to_bin(D(f64::NAN)), MISSING_BIN);
}

#[test]
fn equally_frequent_categories_are_kept_by_bit_pattern() {
    let bm = BinMapper::fit_categorical(&wide(&[3.0, 1.0, 2.0]), 3);
    assert_eq!(bm.value_to_bin(D(1.0)), 1);
    assert_eq!(bm.value_to_bin(D(2.0)), 2);
    assert_eq!(bm.value_to_bin(D(3.0)), MISSING_BIN);
    assert_eq!(bm.categories(), &[(1f64.to_bits(), 1), (2f64.to_bits(), 2)]);
}

#[test]
fn stored_mappers_are_checked() {
    let good: BinMapper<D> = BinMapper::from_parts(wide(&[1.0, 2.0]), vec![], 0);
    assert!(good.is_valid());
    assert_eq!(good.copy().upper_bounds(), good.upper_bounds());
    let unsorted: BinMapper<D> = BinMapper::from_parts(wide(&[2.0, 1.0]), vec![], 0);
    assert!(!unsorted.is_valid());
    let nan: BinMapper<D> = BinMapper::from_parts(wide(&[f64::NAN]), vec![], 0);
    assert!(!nan.is_valid());
    let miscounted: BinMapper<D> = BinMapper::from_parts(vec![], vec![(5, 1)], 2);
    assert!(!miscounted.is_valid());
    let twice: BinMapper<D> = BinMapper::from_parts(vec![], vec![(5, 1), (5, 2)], 2);
    assert!(!twice.is_valid());
    let uncoded: BinMapper<D> = BinMapper::from_parts(vec![], vec![(5, 0)], 1);
    assert!(!uncoded.is_valid());
}

// Datasets.

#[test]
fn augment_unknown_masks_one_categorical_per_synthetic_row() {
    // Column 0: categorical (3 values), column 1: numeric.
    let cols = vec![wide(&[10.0, 20.0, 30.0, 10.0]), wide(&[1.0, 2.0, 3.0, 4.0])];
    let labels = narrow(&[1.0, 0.0, 1.0, 0.0]);
    let mut ds = match build_dataset(cols, 16, 16, &[true, false], 1, &labels) {
        Ok(ds) => ds,
        Err(e) => panic!("{}", e.message()),
    };
    let base_rows = ds.n_rows();

    let mut rng = Draws::new(7);
    let base_idx = ds.augment_unknown(D(1.0), &[true, false], &mut rng);

    // Fraction 1.0: every base row spawns one synthetic row.
    assert_eq!(base_idx.len(), base_rows);
    assert_eq!(ds.n_rows(), base_rows * 2);

    for (i, &base) in base_idx.iter().enumerate() {
        let row = base_rows + i;
        assert_eq!(ds.labels()[row], ds.labels()[base]);
        assert_eq!(ds.feature_bin(0, row), MISSING_BIN);
        assert_eq!(ds.feature_bin(1, row), ds.feature_bin(1, base));
    }
}

#[test]
fn augment_unknown_noop_without_categoricals() {
    let cols = vec![wide(&[1.0, 2.0, 3.0])];
    let labels = narrow(&[1.0, 0.0, 1.0]);
    let mut ds = match build_dataset(cols, 16, 16, &[false], 1, &labels) {
        Ok(ds) => ds,
        Err(e) => panic!("{}", e.message()),
    };
    let mut rng = Draws::new(1);
    assert!(ds.augment_unknown(D(1.0), &[false], &mut rng).is_empty());
    assert_eq!(ds.n_rows(), 3);
}

#[test]
fn augmentation_draws_like_the_generator() {
    let values: Vec<f64> = (0..40).map(|i| (i % 7) as f64).collect();
    let labels = vec![0.0; 40];
    let mut ds = dataset(&[&values, &values, &values], &[true, true, true], &labels);
    let mut draws = Draws::new(11);
    let bases = ds.augment_unknown(D(0.3), &[true, false, true], &mut draws);

    let mut rng = ChaCha8Rng::seed_from_u64(11);
    let mut expected = Vec::new();
    for row in 0..40 {
        if rng.gen::<f64>() < 0.3 {
            expected.push((row, [0usize, 2][rng.gen_range(0..2usize)]));
        }
    }
    assert!(!expected.is_empty() && expected.len() < 40);
    assert_eq!(bases, expected.iter().map(|e| e.0).collect::<Vec<_>>());
    for (k, &(base, mask)) in expected.iter().enumerate() {
        for f in 0..3 {
            let want = if f == mask { MISSING_BIN } else { ds.feature_bin(f, base) };
            assert_eq!(ds.feature_bin(f, 40 + k), want);
        }
    }
    // Nothing is drawn for a fraction that is not positive.
    let before = draws;
    assert!(ds.augment_unknown(D(0.0), &[true, true, true], &mut draws).is_empty());
    assert_eq!(draws, before);
}

#[test]
fn dataset_codes_labels_and_width() {
    let ds = dataset(&[&[5.0, f64::NAN, 7.0]], &[false], &[1.0, 0.0, 1.0]);
    assert_eq!(ds.n_rows(), 3);
    assert_eq!(ds.n_features(), 1);
    assert_eq!(ds.labels(), &narrow(&[1.0, 0.0, 1.0])[..]);
    assert_eq!(ds.bin_width(), BinWidth::U8);
    assert_eq!(ds.feature_column_u8(0), &[1, 0, 2]);
    assert_eq!(ds.bin_mapper(0).num_real_bins(), 2);
    assert_eq!(ds.bin_mappers().len(), 1);
}

#[test]
fn many_bins_widen_the_storage() {
    let values: Vec<D> = (0..300).map(|i| D(i as f64)).collect();
    let labels = vec![S(0.0); 300];
    let ds = match build_dataset(vec![values], 1000, 16, &[false], 1, &labels) {
        Ok(ds) => ds,
        Err(e) => panic!("{}", e.message()),
    };
    assert_eq!(ds.bin_width(), BinWidth::U16);
    assert_eq!(ds.feature_column_u16(0)[299], 300);
    assert_eq!(ds.feature_bin(0, 256), 257);
}

#[test]
fn bin_data_width_and_features() {
    let narrow_codes = BinData::U8(vec![vec![1, 2], vec![3, 4]]);
    assert_eq!(narrow_codes.width(), BinWidth::U8);
    assert_eq!(narrow_codes.n_features(), 2);
    let wide_codes = BinData::U16(vec![vec![300]]);
    assert_eq!(wide_codes.width(), BinWidth::U16);
    assert_eq!(wide_codes.n_features(), 1);
}

#[test]
fn ragged_data_is_refused() {
    let shape = |columns: Vec<Vec<D>>, flags: &[bool], labels: &[f32]| {
        match build_dataset(columns, 16, 16, flags, 1, &narrow(labels)) {
            Ok(_) => panic!("accepted"),
            Err(e) => {
                assert!(matches!(e, Error::Shape(_)));
                e.message()
            }
        }
    };
    assert_eq!(shape(vec![], &[], &[]), "shape mismatch: no features");
    assert_eq!(
        shape(vec![wide(&[1.0, 2.0])], &[false], &[0.0]),
        "shape mismatch: labels len 1 != n_rows 2"
    );
    assert_eq!(
        shape(vec![wide(&[1.0, 2.0]), wide(&[1.0])], &[false, false], &[0.0, 1.0]),
        "shape mismatch: column 1 has len 1, expected 2"
    );
}

// Features.

#[test]
fn declares_features_in_order() {
    let fb = FeatureBuilder::new()
        .add_continuous("a", number(|r| r[0]))
        .add_continuous("b", number(|r| r[1]));
    assert_eq!(fb.len(), 2);
    assert!(!fb.is_empty());
    assert_eq!(fb.names(), vec!["a", "b"]);
}

#[test]
fn augmentable_flags_default_all_categoricals_then_restricted() {
    let fb = FeatureBuilder::new()
        .add_continuous("a", number(|r| r[0]))
        .add_categorical("b", category(|r| r[1] as i64))
        .add_categorical("c", category(|r| r[0] as i64));
    // Default: every categorical eligible, numeric never.
    assert_eq!(fb.augmentable_flags(), vec![false, true, true]);
    // Restricted: only the named categorical (unknown name ignored).
    let fb = fb.with_augmentable_features(&["b", "nonexistent"]);
    assert_eq!(fb.augmentable_flags(), vec![false, true, false]);
}

#[test]
fn extracts_columns() {
    let fb = FeatureBuilder::new()
        .add_continuous("a", number(|r| r[0]))
        .add_continuous("b", number(|r| r[1]));
    let rows = vec![vec![1.0, 2.0], vec![3.0, 4.0]];
    assert_eq!(fb.extract_columns(&rows), vec![wide(&[1.0, 3.0]), wide(&[2.0, 4.0])]);
}

#[test]
fn every_kind_of_datum_becomes_a_number() {
    let text: Extract = Box::new(|r: &Row| Datum::Text(format!("id{}", r[0])));
    let flag: Extract = Box::new(|r: &Row| Datum::Flag(r[0] > 0.0));
    let fb = FeatureBuilder::new()
        .add_boolean("flag", flag)
        .add_categorical("int", category(|r| r[0] as i64))
        .add_categorical("text", text);
    assert_eq!(fb.categorical_flags(), vec![true, true, true]);
    let columns = fb.extract_columns(&[vec![3.0], vec![-1.0]]);
    assert_eq!(columns[0], wide(&[1.0, 0.0]));
    assert_eq!(columns[1][0].0.to_bits(), hash_int(3));
    assert_eq!(columns[2][0].0.to_bits(), hash_text("id3"));
}

#[test]
fn category_hashes_come_from_the_hasher() {
    for value in [0i64, 1, -5, i64::MAX] {
        let mut hasher = gxhash::GxHasher::with_seed(42);
        value.hash(&mut hasher);
        assert_eq!(hash_int(value), hasher.finish());
        assert_ne!(hash_int(value), value as u64);
    }
    for text in ["", "a", "a longer text than one block of the hasher"] {
        let mut hasher = gxhash::GxHasher::with_seed(42);
        text.hash(&mut hasher);
        assert_eq!(hash_text(text), hasher.finish());
    }
    assert_ne!(hash_text("a"), hash_text("b"));
}

#[test]
fn bins_row_major() {
    let fb = feature_builder(2);
    let mappers = vec![
        BinMapper::fit(&wide(&[1.0, 2.0]), 16, 1),
        BinMapper::fit(&wide(&[10.0, 20.0, 30.0]), 16, 1),
    ];
    let mut out = vec![9; 5];
    let rows = vec![vec![1.0, 30.0], vec![2.0, f64::NAN]];
    fb.extract_bins_row_major(&rows, &mappers, &mut out);
    assert_eq!(out, vec![1, 3, 2, 0]);
}

#[test]
fn importance_report_is_sorted_by_gain() {
    let fb = FeatureBuilder::new()
        .add_continuous("age", number(|r| r[0]))
        .add_continuous("a_long_name", number(|r| r[1]));
    let report = fb.format_importance(&[3, 1], &wide(&[0.5, 1.5]));
    assert_eq!(
        report,
        "idx   feature       splits       gain  split%   gain%\n\
         1     a_long_name        1      1.500   25.0%   75.0%\n\
         0     age                3      0.500   75.0%   25.0%\n"
    );
    // Nothing was split on: all shares are zero, and missing entries count as zero.
    let report = fb.format_importance(&[], &wide(&[]));
    assert_eq!(
        report,
        "idx   feature       splits       gain  split%   gain%\n\
         0     age                0      0.000    0.0%    0.0%\n\
         1     a_long_name        0      0.000    0.0%    0.0%\n"
    );
    // A gain is shown in full, however large.
    let report = fb.format_importance(&[1, 0], &wide(&[1e40, 0.0]));
    let gain = format!("{:.3}", 1e40);
    assert_eq!(gain.len(), 45);
    assert_eq!(
        report.lines().nth(1),
        Some(format!("0     age                1  {gain}  100.0%  100.0%").as_str())
    );
}

// Loss, objective and metric.

#[test]
fn fast_sigmoid_matches_libm_within_tolerance() {
    for i in -300i32..=300 {
        let x = i as f32 * 0.1;
        let fast = sigmoid_fast_f32(S(x)).0 as f64;
        let exact = sigmoid(D(x as f64)).0;
        assert!((fast - exact).abs() < 1e-4);
    }
}

#[test]
fn fast_sigmoid_saturates_at_extremes() {
    assert!((sigmoid_fast_f32(S(50.0)).0 - 1.0).abs() < 1e-6);
    assert!(sigmoid_fast_f32(S(-50.0)).0.abs() < 1e-6);
}

#[test]
fn fast_sigmoid_follows_its_polynomial() {
    let reference = |x: f32| -> f32 {
        let x = x.clamp(-30.0, 30.0);
        let ax = x.abs();
        let y = -ax * std::f32::consts::LOG2_E;
        let yi = y.floor();
        let yf = y - yi;
        let p = 1.0
            + yf * (std::f32::consts::LN_2
                + yf * (0.2402265 + yf * (0.0555041 + yf * (0.0096181 + yf * 0.0013427))));
        let yi_i = (yi as i32).clamp(-126, 127);
        let pow2_yi = f32::from_bits(((yi_i + 127) as u32) << 23);
        let e = pow2_yi * p;
        let s_neg = e / (1.0 + e);
        if x >= 0.0 { 1.0 - s_neg } else { s_neg }
    };
    for i in -700i32..=700 {
        let x = i as f32 * 0.053;
        assert_eq!(sigmoid_fast_f32(S(x)).0, reference(x));
    }
}

#[test]
fn sigmoid_exact_values() {
    assert_eq!(sigmoid(D(0.0)), D(0.5));
    assert_eq!(sigmoid(D(2.0)), D(1.0 / (1.0 + (-2f64).exp())));
    assert_eq!(sigmoid(D(-2.0)), D((-2f64).exp() / (1.0 + (-2f64).exp())));
}

#[test]
fn init_score_is_the_log_odds() {
    let labels = narrow(&[1.0, 0.0, 0.0, 0.0]);
    let mean: f64 = 0.25;
    assert_eq!(init_score::<D>(&labels, None), D((mean / (1.0 - mean)).ln()));
    // One positive of weight three against three negatives of weight one.
    let weights = narrow(&[3.0, 1.0, 1.0, 1.0]);
    assert_eq!(init_score::<D>(&labels, Some(&weights)), D(0.0));
    // Pure labels stay finite.
    let eps: f64 = 1e-6;
    let top = 1.0 - eps;
    assert_eq!(init_score::<D>(&narrow(&[1.0, 1.0]), None), D((top / (1.0 - top)).ln()));
}

#[test]
fn gradients_are_probability_minus_label() {
    let raw = wide(&[0.0, 40.0]);
    let labels = narrow(&[1.0, 0.0]);
    let mut out = vec![[S(9.0), S(9.0)]; 3];
    gradients_packed(&raw, &labels, None, &mut out);
    assert_eq!(out[0], [S(-0.5), S(0.25)]);
    assert_eq!(out[1], [S(1.0), S(1e-6)]);
    assert_eq!(out[2], [S(9.0), S(9.0)]);
    let weights = narrow(&[2.0, 3.0]);
    gradients_packed(&raw, &labels, Some(&weights), &mut out);
    assert_eq!(out[0], [S(-1.0), S(0.5)]);
    assert_eq!(out[1], [S(3.0), S(3e-6)]);
}

#[test]
fn logloss_of_even_odds() {
    let raw = wide(&[0.0, 0.0]);
    let labels = narrow(&[1.0, 0.0]);
    let loss = binary_logloss(&raw, &labels);
    assert!((loss.0 - std::f64::consts::LN_2).abs() < 1e-15);
    let metric = BinaryLogloss;
    assert_eq!(Metric::<D>::name(&metric), "binary_logloss");
    assert!(Metric::<D>::lower_is_better(&metric));
    assert_eq!(metric.evaluate(&raw, &labels), loss);
    // A sure and wrong prediction is charged, not infinite.
    let worst = binary_logloss(&wide(&[-800.0]), &narrow(&[1.0]));
    assert!((worst.0 + (1e-15f64).ln()).abs() < 1e-9);
}

#[test]
fn binary_objective_in_double_precision() {
    let objective = BinaryObjective;
    let labels = narrow(&[1.0, 0.0]);
    assert_eq!(Objective::<D>::init_score(&objective, &labels), D(0.0));
    let raw = wide(&[0.0, 2.0]);
    let mut out = wide(&[7.0, 7.0, 7.0]);
    objective.convert_output(&raw, &mut out);
    assert_eq!(out, vec![D(0.5), sigmoid(D(2.0)), D(7.0)]);
    let p = sigmoid(D(2.0)).0;
    let mut packed = vec![[S(0.0), S(0.0)]; 2];
    objective.gradients_packed(&raw, &labels, &mut packed);
    assert_eq!(packed[0], [S(-0.5), S(0.25)]);
    assert_eq!(packed[1], [S(p as f32), S((p * (1.0 - p)) as f32)]);
    let mut grads = narrow(&[0.0, 0.0]);
    let mut hesss = narrow(&[0.0, 0.0]);
    objective.gradients(&raw, &labels, &mut grads, &mut hesss);
    assert_eq!((grads[1], hesss[1]), (packed[1][0], packed[1][1]));
}

#[test]
fn convert_with_applies_the_objective() {
    let mut raw = wide(&[0.0, -1.0]);
    predict::convert_with(&BinaryObjective, &mut raw);
    assert_eq!(raw, vec![D(0.5), sigmoid(D(-1.0))]);
}

// Random draws.

#[test]
fn draws_follow_the_generator() {
    let mut draws = Draws::new(123);
    let mut rng = ChaCha8Rng::seed_from_u64(123);
    for round in 0..5 {
        let mut ours: Vec<u32> = (0..100 + round).collect();
        let mut theirs = ours.clone();
        draws.shuffle(&mut ours);
        theirs.shuffle(&mut rng);
        assert_eq!(ours, theirs);
        assert_ne!(ours, (0..100 + round).collect::<Vec<u32>>());
        assert_eq!(draws.unit::<D>(), D(rng.gen::<f64>()));
        let bound = 3 + round as usize;
        assert_eq!(draws.below(bound), rng.gen_range(0..bound));
    }
    assert_eq!(draws.pos, rng.get_word_pos());
}

// Trees.

#[test]
fn bitset_membership() {
    let set = bitset(&[1, 64, 130]);
    assert_eq!(set, vec![2, 1, 4]);
    assert!(bitset_contains(&set, 64));
    assert!(!bitset_contains(&set, 63));
    assert!(!bitset_contains(&set, 4000));
}

#[test]
fn histograms_add_and_subtract() {
    let column: Vec<u8> = vec![0, 1, 2, 1];
    let pairs = vec![
        [S(1.0), S(0.5)],
        [S(2.0), S(0.25)],
        [S(4.0), S(1.0)],
        [S(8.0), S(2.0)],
    ];
    let mut all: FeatureHistogram<D> = FeatureHistogram::zeros(3);
    all.build_full(&column, &pairs);
    assert_eq!(all.bins[1].grad, D(10.0));
    assert_eq!(all.bins[1].hess, D(2.25));
    assert_eq!(all.bins[1].count, 2);
    let mut some: FeatureHistogram<D> = FeatureHistogram::zeros(3);
    some.build(&column, &[1, 2], &pairs);
    let mut rest: FeatureHistogram<D> = FeatureHistogram::zeros(3);
    FeatureHistogram::subtract_into(&all, &some, &mut rest);
    let counts: Vec<u32> = rest.bins.iter().map(|b| b.count).collect();
    assert_eq!(counts, vec![1, 1, 0]);
    assert_eq!(rest.bins[1].grad, D(8.0));
    some.clear();
    assert_eq!(some.bins[1].count, 0);
    assert_eq!(some.num_bins(), 3);
}

#[test]
fn leaf_values_and_scores_are_regularized() {
    assert_eq!(threshold_leaf(D(6.0), D(2.0), D(0.0), D(1.0)), D(-2.0));
    assert_eq!(threshold_leaf(D(6.0), D(2.0), D(3.0), D(1.0)), D(-1.0));
    assert_eq!(threshold_leaf(D(-6.0), D(2.0), D(3.0), D(1.0)), D(1.0));
    assert_eq!(threshold_leaf(D(2.0), D(2.0), D(3.0), D(1.0)).0, 0.0);
    assert_eq!(node_score(D(6.0), D(2.0), D(0.0), D(1.0)), D(12.0));
    assert_eq!(node_score(D(6.0), D(2.0), D(3.0), D(1.0)), D(3.0));
}

fn plain_config() -> Config<D> {
    Config {
        min_data_in_leaf: 1,
        min_sum_hessian_in_leaf: D(0.0),
        min_data_per_group: 1,
        cat_smooth: D(0.0),
        cat_l2: D(0.0),
        ..Config::default()
    }
}

#[test]
fn best_threshold_and_missing_direction() {
    let mapper = BinMapper::fit(&wide(&[1.0, 2.0, 3.0]), 16, 1);
    let column: Vec<u8> = vec![0, 1, 2, 3];
    let pairs = vec![
        [S(5.0), S(1.0)],
        [S(-1.0), S(1.0)],
        [S(-1.0), S(1.0)],
        [S(4.0), S(1.0)],
    ];
    let mut hist: FeatureHistogram<D> = FeatureHistogram::zeros(4);
    hist.build_full(&column, &pairs);
    let split =
        find_best_split_for_feature(0, &hist, &mapper, D(7.0), D(4.0), 4, &plain_config());
    match split {
        None => panic!("no split"),
        Some(s) => {
            assert_eq!(s.threshold_bin, 2);
            assert_eq!(s.threshold_value, D(2.5));
            assert_eq!(s.missing_dir, MissingDir::Right);
            assert_eq!((s.left_count, s.right_count), (2, 2));
            assert_eq!((s.left_sum_grad, s.right_sum_grad), (D(-2.0), D(9.0)));
            // (4 / 2 + 81 / 2 - 49 / 4) / 2
            assert_eq!(s.gain, D(15.125));
            assert!(s.cat_left_bins.is_none());
        }
    }
    // A split whose gain does not exceed the minimum is refused.
    let config = Config { min_gain_to_split: D(15.125), ..plain_config() };
    assert!(find_best_split_for_feature(0, &hist, &mapper, D(7.0), D(4.0), 4, &config).is_none());
}

#[test]
fn best_category_subset() {
    // Categories 1 and 3 pull down, 2 and 4 pull up.
    let column: Vec<u8> = vec![1, 2, 3, 4, 5];
    let pairs = vec![
        [S(-3.0), S(1.0)],
        [S(3.0), S(1.0)],
        [S(-2.0), S(1.0)],
        [S(2.0), S(1.0)],
        [S(3.5), S(1.0)],
    ];
    let mut hist: FeatureHistogram<D> = FeatureHistogram::zeros(6);
    hist.build_full(&column, &pairs);
    let split = find_best_categorical_split(7, &hist, D(3.5), D(5.0), 5, &plain_config());
    match split {
        None => panic!("no split"),
        Some(s) => {
            assert_eq!(s.feature, 7);
            assert_eq!(s.cat_left_bins, Some(vec![1, 3]));
            assert_eq!((s.left_count, s.right_count), (2, 3));
        }
    }
    // With few categories, one stands against the rest.
    let config = Config { max_cat_to_onehot: 8, ..plain_config() };
    match find_best_categorical_split(7, &hist, D(3.5), D(5.0), 5, &config) {
        None => panic!("no split"),
        Some(s) => assert_eq!(s.cat_left_bins, Some(vec![1])),
    }
    // Rare categories take no part.
    let config = Config { min_data_per_group: 2, ..plain_config() };
    assert!(find_best_categorical_split(7, &hist, D(3.5), D(5.0), 5, &config).is_none());
}

fn node(feature: u32, threshold_bin: u16, left_child: i32, right_child: i32) -> SplitNode {
    SplitNode {
        feature,
        threshold_bin,
        missing_dir: MissingDir::Left,
        is_categorical: 0,
        left_child,
        right_child,
    }
}

fn small_tree() -> Tree<D> {
    Tree {
        nodes: vec![
            node(0, 2, 1, -1),
            SplitNode { is_categorical: 1, ..node(1, 0, -2, -3) },
        ],
        node_thresholds: wide(&[2.5, 0.0]),
        node_gains: wide(&[4.0, 2.0]),
        category_sets: vec![bitset(&[2])],
        leaf_values: wide(&[10.0, 20.0, 30.0]),
    }
}

#[test]
fn every_path_walks_alike() {
    let tree = small_tree();
    let ds = dataset(
        &[&[1.0, 2.0, 3.0, 4.0, f64::NAN], &[7.0, 8.0, 7.0, 8.0, 8.0]],
        &[false, true],
        &[0.0; 5],
    );
    let columns: Vec<&[u8]> = vec![ds.feature_column_u8(0), ds.feature_column_u8(1)];
    let mut seen = Vec::new();
    for row in 0..5 {
        let bins = [ds.feature_bin(0, row), ds.feature_bin(1, row)];
        let by_row = tree.predict_on_row_bins(&bins);
        assert_eq!(by_row, tree.predict_on_columns(&columns, row));
        assert_eq!(by_row, tree.predict_on_dataset(&ds, row));
        seen.push(by_row.0);
    }
    // 8.0 is the more frequent category, so its code is 1 and 7.0 has code 2.
    assert_eq!(seen, vec![20.0, 30.0, 10.0, 10.0, 30.0]);
    assert_eq!(Tree::constant(D(1.5)).predict_on_row_bins(&[]), D(1.5));
}

#[test]
fn stored_trees_are_checked() {
    assert!(small_tree().is_valid(2));
    assert!(!small_tree().is_valid(1));
    let mut backwards = small_tree();
    backwards.nodes[1].left_child = 0;
    assert!(!backwards.is_valid(2));
    let mut leafless = small_tree();
    leafless.leaf_values.pop();
    assert!(!leafless.is_valid(2));
    let mut setless = small_tree();
    setless.category_sets.clear();
    assert!(!setless.is_valid(2));
    let mut uneven = small_tree();
    uneven.node_gains.pop();
    assert!(!uneven.is_valid(2));
    let empty: Tree<D> = Tree { leaf_values: vec![], ..Tree::constant(D(0.0)) };
    assert!(!empty.is_valid(2));
}

fn depth_of(tree: &Tree<D>, at: i32) -> usize {
    if at < 0 {
        return 0;
    }
    let n = &tree.nodes[at as usize];
    1 + depth_of(tree, n.left_child).max(depth_of(tree, n.right_child))
}

#[test]
fn grown_trees_record_the_leaf_of_every_sampled_row() {
    let n = 60;
    let a: Vec<f64> = (0..n).map(|i| ((i * 37) % 23) as f64).collect();
    let b: Vec<f64> = (0..n).map(|i| ((i * 11) % 5) as f64).collect();
    let ds = dataset(&[&a, &b], &[false, true], &vec![0.0; n]);
    let pairs: Vec<[S; 2]> =
        (0..n).map(|i| [S(((i * 53) % 17) as f32 - 8.0), S(1.0)]).collect();
    let rows: Vec<u32> = (0..n as u32).filter(|r| r % 3 != 0).collect();
    let config = Config { num_leaves: 6, ..plain_config() };
    let learner = TreeLearner::new(&config, &ds);
    let (tree, row_to_leaf) = learner.train_one_tree(&pairs, &rows, &[0, 1], false);
    assert_eq!(tree.nodes.len(), 5);
    assert_eq!(tree.leaf_values.len(), 11);
    assert!(tree.is_valid(2));
    for r in 0..n {
        if r % 3 == 0 {
            assert_eq!(row_to_leaf[r], 0);
        } else {
            let value = tree.leaf_values[row_to_leaf[r] as usize];
            assert_eq!(value, tree.predict_on_dataset(&ds, r));
        }
    }
    // The sequential root path gives the same tree as the indexed one.
    let all: Vec<u32> = (0..n as u32).collect();
    let (full, _) = learner.train_one_tree(&pairs, &all, &[0, 1], true);
    let (indexed, _) = learner.train_one_tree(&pairs, &all, &[0, 1], false);
    assert_eq!(full.leaf_values, indexed.leaf_values);
    assert_eq!(full.nodes, indexed.nodes);
}

#[test]
fn depth_is_capped() {
    let n = 64;
    let a: Vec<f64> = (0..n).map(|i| i as f64).collect();
    let ds = match build_dataset(vec![wide(&a)], 255, 16, &[false], 1, &vec![S(0.0); n]) {
        Ok(ds) => ds,
        Err(e) => panic!("{}", e.message()),
    };
    let pairs: Vec<[S; 2]> = (0..n).map(|i| [S((i * i) as f32), S(1.0)]).collect();
    let all: Vec<u32> = (0..n as u32).collect();
    let free = Config { num_leaves: 20, ..plain_config() };
    let (tree, _) = TreeLearner::new(&free, &ds).train_one_tree(&pairs, &all, &[0], true);
    assert!(depth_of(&tree, 0) > 2);
    let capped = Config { max_depth: 2, ..free };
    let (tree, _) = TreeLearner::new(&capped, &ds).train_one_tree(&pairs, &all, &[0], true);
    assert_eq!(depth_of(&tree, 0), 2);
    assert_eq!(tree.nodes.len(), 3);
}

#[test]
fn batched_histograms_match_single_ones() {
    let columns: Vec<Vec<u8>> = (0..7)
        .map(|f| (0..50).map(|r| ((r * (f + 3)) % 9) as u8).collect())
        .collect();
    let slices: Vec<&[u8]> = columns.iter().map(|c| c.as_slice()).collect();
    let pairs: Vec<[S; 2]> =
        (0..50).map(|r| [S(r as f32 * 0.37 - 4.0), S(0.1 + r as f32)]).collect();
    let rows: Vec<u32> = (0..50).filter(|r| r % 3 == 1).collect();
    let zeros = || -> Vec<FeatureHistogram<D>> {
        (0..7).map(|_| FeatureHistogram::zeros(9)).collect()
    };
    let mut some = zeros();
    build_histograms_batched(&slices, &rows, &pairs, &mut some);
    let mut all = zeros();
    build_histograms_batched_full(&slices, &pairs, &mut all);
    for f in 0..7 {
        let mut one: FeatureHistogram<D> = FeatureHistogram::zeros(9);
        one.build(&columns[f], &rows, &pairs);
        let mut full: FeatureHistogram<D> = FeatureHistogram::zeros(9);
        full.build_full(&columns[f], &pairs);
        for b in 0..9 {
            assert_eq!(some[f].bins[b].grad, one.bins[b].grad);
            assert_eq!(some[f].bins[b].hess, one.bins[b].hess);
            assert_eq!(some[f].bins[b].count, one.bins[b].count);
            assert_eq!(all[f].bins[b].grad, full.bins[b].grad);
            assert_eq!(all[f].bins[b].count, full.bins[b].count);
        }
    }
    assert_eq!(all[0].bins.iter().map(|b| b.count).sum::<u32>(), 50);
}

#[test]
fn the_leaf_with_the_highest_gain_is_split_first() {
    // The first cut is between 2 and 3; the right half then has more to gain.
    let ds = dataset(&[&[1.0, 2.0, 3.0, 4.0]], &[false], &[0.0; 4]);
    let pairs: Vec<[S; 2]> = [-20.0, -18.0, 10.0, 30.0].map(|g| [S(g), S(1.0)]).to_vec();
    let rows: Vec<u32> = (0..4).collect();
    let config = Config { num_leaves: 3, ..plain_config() };
    let (tree, _) = TreeLearner::new(&config, &ds).train_one_tree(&pairs, &rows, &[0], true);
    assert_eq!(tree.node_thresholds, wide(&[2.5, 3.5]));
    assert_eq!(tree.nodes[0].right_child, 1);
    let config = Config { num_leaves: 4, ..plain_config() };
    let (tree, _) = TreeLearner::new(&config, &ds).train_one_tree(&pairs, &rows, &[0], true);
    assert_eq!(tree.node_thresholds, wide(&[2.5, 3.5, 1.5]));
    assert_eq!(tree.node_gains[2], D(1.0));
}

#[test]
fn growth_stops_when_nothing_is_gained() {
    let ds = dataset(&[&[1.0, 2.0, 3.0, 4.0]], &[false], &[0.0; 4]);
    let pairs = vec![[S(2.0), S(1.0)]; 4];
    let rows: Vec<u32> = (0..4).collect();
    let (tree, row_to_leaf) =
        TreeLearner::new(&plain_config(), &ds).train_one_tree(&pairs, &rows, &[0], true);
    assert!(tree.nodes.is_empty());
    assert_eq!(tree.leaf_values, wide(&[-2.0]));
    assert_eq!(row_to_leaf, vec![0; 4]);
}

#[test]
fn every_leaf_keeps_enough_rows() {
    let n = 90;
    let a: Vec<f64> = (0..n).map(|i| ((i * 29) % 31) as f64).collect();
    let ds = dataset(&[&a], &[false], &vec![0.0; n]);
    let pairs: Vec<[S; 2]> = (0..n).map(|i| [S(((i * 7) % 13) as f32 - 6.0), S(1.0)]).collect();
    let rows: Vec<u32> = (0..n as u32).collect();
    let config = Config { min_data_in_leaf: 11, ..plain_config() };
    let (tree, row_to_leaf) =
        TreeLearner::new(&config, &ds).train_one_tree(&pairs, &rows, &[0], true);
    assert!(tree.nodes.len() > 1);
    let mut counts = vec![0; tree.leaf_values.len()];
    for &leaf in &row_to_leaf {
        counts[leaf as usize] += 1;
    }
    assert!(counts.iter().all(|&c| c == 0 || c >= 11));
    assert_eq!(counts.iter().filter(|&&c| c > 0).count(), tree.nodes.len() + 1);
}

#[test]
fn the_best_feature_is_chosen() {
    let ds = dataset(
        &[&[1.0, 2.0, 1.0, 2.0], &[1.0, 1.0, 2.0, 2.0]],
        &[false, false],
        &[0.0; 4],
    );
    let pairs: Vec<[S; 2]> = [-5.0, -5.0, 5.0, 5.0].map(|g| [S(g), S(1.0)]).to_vec();
    let rows: Vec<u32> = (0..4).collect();
    let config = Config { num_leaves: 2, ..plain_config() };
    let learner = TreeLearner::new(&config, &ds);
    let (tree, _) = learner.train_one_tree(&pairs, &rows, &[0, 1], true);
    assert_eq!(tree.nodes[0].feature, 1);
    assert_eq!(tree.node_gains, wide(&[50.0]));
    // Among equal gains the last sampled feature wins.
    let twin = dataset(
        &[&[1.0, 1.0, 2.0, 2.0], &[1.0, 1.0, 2.0, 2.0]],
        &[false, false],
        &[0.0; 4],
    );
    let (tree, _) =
        TreeLearner::new(&config, &twin).train_one_tree(&pairs, &rows, &[0, 1], true);
    assert_eq!(tree.nodes[0].feature, 1);
}

#[test]
fn raw_thresholds_agree_with_bin_thresholds() {
    let (x, y, _, _) = make_classification(300, 1, 2, 30);
    let mut cfg: Config<D> = plain_config();
    cfg.num_iterations = 3;
    cfg.max_bin = 20;
    let fb = feature_builder(2);
    let model = fit(&fb, &cfg, &x, &y);
    for tree in model.trees() {
        for (n, t) in tree.nodes.iter().zip(&tree.node_thresholds) {
            for row in &x {
                let v = row[n.feature as usize];
                let bin = model.bin_mappers()[n.feature as usize].value_to_bin(D(v));
                assert_eq!(v <= t.0, bin <= n.threshold_bin);
            }
        }
    }
}

#[test]
fn larger_values_never_get_smaller_bins() {
    let values: Vec<D> = (0..500).map(|i| D(((i * 7919) % 1013) as f64 * 0.25)).collect();
    let bm = BinMapper::fit(&values, 33, 3);
    let mut sorted: Vec<f64> = values.iter().map(|v| v.0).collect();
    sorted.sort_by(|a, b| a.partial_cmp(b).unwrap());
    let codes: Vec<u16> = sorted.iter().map(|&v| bm.value_to_bin(D(v))).collect();
    assert!(codes.windows(2).all(|w| w[0] <= w[1]));
    assert_eq!(codes[0], 1);
    assert_eq!(*codes.last().unwrap() as usize, bm.num_real_bins());
    assert_eq!(bm.num_real_bins(), 32);
}

// Configuration and errors.

#[test]
fn default_configuration() {
    let c: Config<D> = Config::default();
    assert!(c.validate().is_ok());
    assert_eq!((c.num_iterations, c.num_leaves, c.max_depth), (100, 31, -1));
    assert_eq!((c.learning_rate, c.min_sum_hessian_in_leaf), (D(0.1), D(1e-3)));
    assert_eq!((c.cat_smooth, c.cat_l2, c.max_cat_threshold), (D(10.0), D(10.0), 32));
    assert_eq!((c.min_data_in_leaf, c.min_data_per_group, c.min_data_in_bin), (20, 100, 3));
    assert_eq!((c.max_bin, c.max_cat_bins), (255, 255));
    assert_eq!((c.feature_fraction, c.bagging_fraction), (D(1.0), D(1.0)));
    assert_eq!((c.bagging_freq, c.early_stopping_round, c.seed), (0, 0, 0));
    assert!(!c.verbose);
}

#[test]
fn bad_configurations_are_refused() {
    let message = |c: Config<D>| match c.validate() {
        Ok(_) => panic!("accepted"),
        Err(e) => {
            assert!(matches!(e, Error::Config(_)));
            e.message()
        }
    };
    let good = Config::default();
    assert_eq!(
        message(Config { num_leaves: 1, ..good }),
        "invalid config: num_leaves must be >= 2"
    );
    assert_eq!(
        message(Config { max_bin: 1, ..good }),
        "invalid config: max_bin must be in [2, 65535]"
    );
    assert_eq!(
        message(Config { max_cat_bins: 65536, ..good }),
        "invalid config: max_cat_bins must be in [2, 65535]"
    );
    assert_eq!(
        message(Config { learning_rate: D(0.0), ..good }),
        "invalid config: learning_rate must be in (0, 1]"
    );
    assert_eq!(
        message(Config { feature_fraction: D(1.5), ..good }),
        "invalid config: feature_fraction must be in (0, 1]"
    );
    assert_eq!(
        message(Config { bagging_fraction: D(f64::NAN), ..good }),
        "invalid config: bagging_fraction must be in (0, 1]"
    );
}

#[test]
fn error_messages_name_their_kind() {
    assert_eq!(Error::Io("gone".to_string()).message(), "io error: gone");
    assert_eq!(Error::Serde("bad".to_string()).message(), "serialization error: bad");
}

// Training and prediction.

#[test]
fn trains_and_reduces_logloss_on_synthetic() {
    let n_train = 4000;
    let n_valid = 1000;
    let d = 8;
    let (train_x, train_y, valid_x, valid_y) = make_classification(n_train, n_valid, d, 42);

    let mut cfg: Config<D> = Config::default();
    cfg.num_iterations = 200;
    cfg.learning_rate = D(0.1);
    cfg.num_leaves = 31;
    cfg.min_data_in_leaf = 20;
    cfg.max_bin = 64;
    cfg.feature_fraction = D(1.0);
    cfg.bagging_fraction = D(1.0);
    cfg.lambda_l2 = D(1.0);
    cfg.early_stopping_round = 20;
    cfg.seed = 0;

    let fb = feature_builder(d);
    let model = match GbdtTrainer::new(&cfg, &fb).fit(
        &train_x,
        &train_y,
        Some((&valid_x, &valid_y)),
    ) {
        Ok(model) => model,
        Err(e) => panic!("{}", e.message()),
    };

    assert!(model.n_trees() > 0);

    let init_only_scores = vec![model.init_score(); n_valid];
    let init_loss = binary_logloss(&init_only_scores, &valid_y).0;

    let final_probs = model.predict_proba(&fb, &valid_x);
    let final_loss = proba_logloss(&final_probs, &valid_y);

    println!("init_loss={init_loss:.5} final_loss={final_loss:.5}");
    assert!(
        final_loss < init_loss * 0.9,
        "model failed to improve appreciably: {init_loss} -> {final_loss}"
    );
    assert!(final_loss < 0.6, "final loss too high: {final_loss}");
}

type MapperParts = (Vec<f64>, Vec<(u64, u16)>, u16);
type NodeParts = (u32, u16, bool, u8, i32, i32);
type TreeParts = (Vec<NodeParts>, Vec<f64>, Vec<f64>, Vec<Vec<u64>>, Vec<f64>);
type ModelParts = (f64, f64, Vec<String>, Vec<MapperParts>, Vec<TreeParts>);

/// The model that has only the first `n` trees.
fn first_trees(model: &Model<D>, n: usize) -> Model<D> {
    Model::from_parts(
        model.init_score(),
        model.learning_rate(),
        model.feature_names().to_vec(),
        model.bin_mappers().to_vec(),
        model.trees()[..n].to_vec(),
    )
    .unwrap()
}

fn plain(values: &[D]) -> Vec<f64> {
    values.iter().map(|v| v.0).collect()
}

/// Takes a model apart, bincodes the parts, and puts it together again.
fn through_bincode(model: &Model<D>) -> Model<D> {
    let mappers = model
        .bin_mappers()
        .iter()
        .map(|m| {
            let real_bins = if m.is_categorical() { m.num_real_bins() as u16 } else { 0 };
            (plain(m.upper_bounds()), m.categories().to_vec(), real_bins)
        })
        .collect();
    let node_parts = |n: &SplitNode| {
        let to_left = n.missing_dir == MissingDir::Left;
        (n.feature, n.threshold_bin, to_left, n.is_categorical, n.left_child, n.right_child)
    };
    let trees = model
        .trees()
        .iter()
        .map(|t| {
            (
                t.nodes.iter().map(node_parts).collect(),
                plain(&t.node_thresholds),
                plain(&t.node_gains),
                t.category_sets.clone(),
                plain(&t.leaf_values),
            )
        })
        .collect();
    let parts: ModelParts = (
        model.init_score().0,
        model.learning_rate().0,
        model.feature_names().to_vec(),
        mappers,
        trees,
    );
    let bytes = bincode::serde::encode_to_vec(&parts, bincode::config::standard()).unwrap();
    let (back, read): (ModelParts, usize) =
        bincode::serde::decode_from_slice(&bytes, bincode::config::standard()).unwrap();
    assert_eq!(read, bytes.len());
    let mappers = back
        .3
        .into_iter()
        .map(|(bounds, categories, n)| BinMapper::from_parts(wide(&bounds), categories, n))
        .collect();
    let trees = back
        .4
        .into_iter()
        .map(|(nodes, thresholds, gains, category_sets, leaves)| Tree {
            nodes: nodes
                .into_iter()
                .map(|n| SplitNode {
                    feature: n.0,
                    threshold_bin: n.1,
                    missing_dir: if n.2 { MissingDir::Left } else { MissingDir::Right },
                    is_categorical: n.3,
                    left_child: n.4,
                    right_child: n.5,
                })
                .collect(),
            node_thresholds: wide(&thresholds),
            node_gains: wide(&gains),
            category_sets,
            leaf_values: wide(&leaves),
        })
        .collect();
    Model::from_parts(D(back.0), D(back.1), back.2, mappers, trees).unwrap()
}

#[test]
fn saved_model_round_trip_matches_predictions() {
    let n = 500;
    let d = 4;
    let (x, y, _, _) = make_classification(n, 1, d, 7);
    let mut cfg: Config<D> = Config::default();
    cfg.num_iterations = 10;
    cfg.num_leaves = 15;
    cfg.min_data_in_leaf = 10;
    cfg.max_bin = 32;
    let fb = feature_builder(d);
    let model = fit(&fb, &cfg, &x, &y);
    let loaded = through_bincode(&model);

    let p1 = model.predict_proba(&fb, &x);
    let p2 = loaded.predict_proba(&fb, &x);
    assert_eq!(p1.len(), p2.len());
    for (a, b) in p1.iter().zip(p2.iter()) {
        assert!((a.0 - b.0).abs() < 1e-12);
    }
}

#[test]
fn binned_predict_survives_bincode_round_trip() {
    let n = 600;
    let d = 4;
    let (x, y, ex, _) = make_classification(n, n / 2, d, 31);
    let mut cfg: Config<D> = Config::default();
    cfg.num_iterations = 12;
    cfg.num_leaves = 15;
    cfg.min_data_in_leaf = 10;
    cfg.max_bin = 48;
    let fb = feature_builder(d);
    let model = fit(&fb, &cfg, &x, &y);
    let loaded = through_bincode(&model);

    let before = model.predict_proba(&fb, &ex);
    let after = loaded.predict_proba(&fb, &ex);
    assert_eq!(before.len(), after.len());
    for (a, b) in before.iter().zip(after.iter()) {
        assert!((a.0 - b.0).abs() < 1e-12);
    }
}

#[test]
fn predict_proba_is_batch_invariant() {
    let n = 400;
    let d = 3;
    let (x, y, _, _) = make_classification(n, 1, d, 9);

    let mut cfg: Config<D> = Config::default();
    cfg.num_iterations = 8;
    cfg.num_leaves = 11;
    cfg.min_data_in_leaf = 5;
    cfg.max_bin = 32;
    let fb = feature_builder(d);
    let model = fit(&fb, &cfg, &x, &y);

    let bulk = model.predict_proba(&fb, &x);
    for (i, row) in x.iter().enumerate() {
        let single = model.predict_proba(&fb, std::slice::from_ref(row));
        assert_eq!(single[0], bulk[i], "row {i} differed between single and bulk predict");
    }
}

#[test]
fn categorical_split_learns_noncontiguous_subset() {
    let mut rng = ChaCha8Rng::seed_from_u64(7);
    let bidders = [1.0, 4.0, 7.0, 9.0];
    let mut make = |n: usize| -> (Vec<Row>, Vec<S>) {
        let mut rows = Vec::with_capacity(n);
        let mut labels = vec![S(0.0); n];
        for label in labels.iter_mut() {
            let noise: f64 = rng.gen_range(-3.0..3.0);
            let cat = rng.gen_range(0..12) as f64;
            let p = if bidders.contains(&cat) { 0.85 } else { 0.1 };
            *label = S(if rng.gen::<f64>() < p { 1.0 } else { 0.0 });
            rows.push(vec![noise, cat]);
        }
        (rows, labels)
    };
    let (tx, ty) = make(6000);
    let (ex, ey) = make(3000);

    let mut cfg: Config<D> = Config::default();
    cfg.num_iterations = 60;
    cfg.learning_rate = D(0.1);
    cfg.num_leaves = 15;
    cfg.min_data_in_leaf = 20;
    cfg.max_bin = 32;
    cfg.feature_fraction = D(1.0);
    cfg.bagging_fraction = D(1.0);

    let fb = FeatureBuilder::new()
        .add_continuous("noise", number(|r| r[0]))
        .add_categorical("cat", category(|r| r[1] as i64));
    let model = fit(&fb, &cfg, &tx, &ty);

    // A categorical split must have been chosen.
    let cat_splits: usize = model.trees().iter().map(|t| t.category_sets.len()).sum();
    assert!(cat_splits > 0, "expected at least one categorical split");

    let probs = model.predict_proba(&fb, &ex);
    let ll = proba_logloss(&probs, &ey);
    assert!(ll < 0.45, "logloss {ll} too high; categorical subset not learned");
}

#[test]
fn model_reports_what_it_was_trained_with() {
    let (x, y, _, _) = make_classification(300, 1, 2, 5);
    let mut cfg: Config<D> = plain_config();
    cfg.num_iterations = 5;
    cfg.num_leaves = 4;
    cfg.learning_rate = D(0.25);
    let fb = feature_builder(2);
    let model = fit(&fb, &cfg, &x, &y);
    assert_eq!(model.init_score(), init_score::<D>(&y, None));
    assert_eq!(model.learning_rate(), D(0.25));
    assert_eq!(model.n_features(), 2);
    assert_eq!(model.feature_names(), &["f0".to_string(), "f1".to_string()][..]);
    assert_eq!(model.n_trees(), 5);
    assert_eq!(model.bin_mappers().len(), 2);
    let splits = model.feature_importance_split();
    let nodes: usize = model.trees().iter().map(|t| t.nodes.len()).sum();
    assert_eq!(splits.iter().sum::<u32>() as usize, nodes);
    let gains = model.feature_importance_gain();
    let total: f64 = model.trees().iter().flat_map(|t| t.node_gains.iter()).map(|g| g.0).sum();
    assert!((gains[0].0 + gains[1].0 - total).abs() < 1e-9);
    for t in model.trees() {
        assert!(t.nodes.len() < 4);
    }
    assert!(model.check_features(&fb));
    assert!(!model.check_features(&feature_builder(3)));
    assert!(!model.check_features(
        &FeatureBuilder::new()
            .add_continuous("f0", number(|r| r[0]))
            .add_continuous("other", number(|r| r[1]))
    ));
}

#[test]
fn importance_counts_every_node() {
    let mappers = vec![
        BinMapper::fit(&wide(&[1.0, 2.0, 3.0, 4.0]), 16, 1),
        BinMapper::fit_categorical(&wide(&[7.0, 8.0]), 16),
    ];
    let names = vec!["a".to_string(), "b".to_string()];
    let model =
        Model::from_parts(D(0.0), D(0.5), names, mappers, vec![small_tree(), small_tree()]);
    let model = match model {
        Some(m) => m,
        None => panic!("refused"),
    };
    assert_eq!(model.feature_importance_split(), vec![2, 2]);
    assert_eq!(model.feature_importance_gain(), wide(&[8.0, 4.0]));
    // Two trees at half the rate: the leaf value itself.
    assert_eq!(predict::predict_raw_scores(&model, &wide(&[4.0, 7.0]), 1, 2), wide(&[10.0]));
}

#[test]
fn model_rebuilt_from_parts_predicts_the_same() {
    let (x, y, _, _) = make_classification(200, 1, 3, 6);
    let mut cfg: Config<D> = plain_config();
    cfg.num_iterations = 6;
    let fb = feature_builder(3);
    let model = fit(&fb, &cfg, &x, &y);
    let rebuilt = Model::from_parts(
        model.init_score(),
        model.learning_rate(),
        model.feature_names().to_vec(),
        model
            .bin_mappers()
            .iter()
            .map(|m| BinMapper::from_parts(m.upper_bounds().to_vec(), m.categories().to_vec(), 0))
            .collect(),
        model
            .trees()
            .iter()
            .map(|t| Tree {
                nodes: t.nodes.clone(),
                node_thresholds: t.node_thresholds.clone(),
                node_gains: t.node_gains.clone(),
                category_sets: t.category_sets.clone(),
                leaf_values: t.leaf_values.clone(),
            })
            .collect(),
    );
    match rebuilt {
        None => panic!("refused"),
        Some(m) => assert_eq!(m.predict_proba(&fb, &x), model.predict_proba(&fb, &x)),
    }
    let mappers = vec![BinMapper::fit(&wide(&[1.0]), 16, 1)];
    assert!(Model::from_parts(D(0.0), D(0.1), vec![], mappers, vec![]).is_none());
    let mappers = vec![BinMapper::fit(&wide(&[1.0]), 16, 1)];
    let names = vec!["a".to_string()];
    assert!(Model::from_parts(D(0.0), D(0.1), names, mappers, vec![small_tree()]).is_none());
}

#[test]
fn raw_values_and_bin_codes_predict_alike() {
    let (x, y, _, _) = make_classification(250, 1, 3, 8);
    let mut cfg: Config<D> = plain_config();
    cfg.num_iterations = 7;
    let fb = feature_builder(3);
    let model = fit(&fb, &cfg, &x, &y);
    let ds = match fb.build_dataset(&x, &y, &cfg) {
        Ok(ds) => ds,
        Err(e) => panic!("{}", e.message()),
    };
    let by_rows = model.predict_proba(&fb, &x);
    assert_eq!(model.predict_proba_on_dataset(&ds), by_rows);
    let flat: Vec<D> = x.iter().flatten().map(|&v| D(v)).collect();
    assert_eq!(predict::predict_proba(&model, &flat, 250, 3), by_rows);
    let raw = predict::predict_raw_scores(&model, &flat, 250, 3);
    assert_eq!(model.predict_raw_scores_on_dataset(&ds), raw);
    assert_eq!(raw.iter().map(|&s| sigmoid(s)).collect::<Vec<_>>(), by_rows);
}

#[test]
fn early_stopping_keeps_the_trees_up_to_the_best_round() {
    let (x, y, vx, vy) = make_classification(120, 80, 3, 3);
    let mut cfg: Config<D> = plain_config();
    cfg.num_iterations = 300;
    cfg.learning_rate = D(0.5);
    cfg.num_leaves = 16;
    cfg.early_stopping_round = 5;
    let fb = feature_builder(3);
    let train = match fb.build_dataset(&x, &y, &cfg) {
        Ok(ds) => ds,
        Err(e) => panic!("{}", e.message()),
    };
    let valid = match fb.code_dataset(&vx, &vy, train.bin_mappers()) {
        Ok(ds) => ds,
        Err(e) => panic!("{}", e.message()),
    };
    let mut booster = Booster::new(&cfg, &train, Some(&valid), None);
    let mut scores = Vec::new();
    while !booster.is_done() {
        match booster.step() {
            Some(score) => scores.push(score.0),
            None => panic!("no score"),
        }
    }
    let by_steps = booster.finish(&fb);
    let mut best = f64::INFINITY;
    let mut best_iter = 0;
    for (i, &s) in scores.iter().enumerate() {
        if s + 1e-12 < best {
            best = s;
            best_iter = i;
        }
    }
    assert!(scores.len() < 300);
    assert_eq!(scores.len(), best_iter + 1 + 5);
    assert_eq!(by_steps.n_trees(), best_iter + 1);
    let at_once = match GbdtTrainer::new(&cfg, &fb).fit(&x, &y, Some((&vx, &vy))) {
        Ok(model) => model,
        Err(e) => panic!("{}", e.message()),
    };
    assert_eq!(at_once.n_trees(), by_steps.n_trees());
    assert_eq!(at_once.predict_proba(&fb, &x), by_steps.predict_proba(&fb, &x));
    // On the raw validation rows, the kept model beats every shorter one, and its
    // loss is the best score that was watched.
    let loss = |n: usize| {
        let cut = first_trees(&at_once, n);
        let raw: Vec<D> = cut.predict_proba(&fb, &vx);
        proba_logloss(&raw, &vy)
    };
    let kept = at_once.n_trees();
    for n in 1..=kept {
        assert!(loss(kept) <= loss(n) + 1e-9, "{n}");
        assert!((loss(n) - scores[n - 1]).abs() < 1e-9);
    }
    // Without early stopping every round gives a tree.
    cfg.early_stopping_round = 0;
    cfg.num_iterations = 12;
    match GbdtTrainer::new(&cfg, &fb).fit(&x, &y, Some((&vx, &vy))) {
        Ok(model) => assert_eq!(model.n_trees(), 12),
        Err(e) => panic!("{}", e.message()),
    }
}

#[test]
fn sampling_is_a_function_of_the_seed() {
    let (x, y, _, _) = make_classification(300, 1, 5, 4);
    let mut cfg: Config<D> = plain_config();
    cfg.num_iterations = 6;
    cfg.num_leaves = 8;
    cfg.bagging_fraction = D(0.5);
    cfg.bagging_freq = 2;
    cfg.feature_fraction = D(0.4);
    cfg.seed = 17;
    let fb = feature_builder(5);
    let first = fit(&fb, &cfg, &x, &y).predict_proba(&fb, &x);
    let second = fit(&fb, &cfg, &x, &y).predict_proba(&fb, &x);
    assert_eq!(first, second);
    cfg.seed = 18;
    let third = fit(&fb, &cfg, &x, &y).predict_proba(&fb, &x);
    assert_ne!(first, third);
}

#[test]
fn feature_sampling_follows_the_generator() {
    let (x, y, _, _) = make_classification(200, 1, 6, 12);
    let mut cfg: Config<D> = plain_config();
    cfg.num_iterations = 4;
    cfg.feature_fraction = D(0.3);
    cfg.seed = 99;
    let fb = feature_builder(6);
    let model = fit(&fb, &cfg, &x, &y);
    let mut rng = ChaCha8Rng::seed_from_u64(99);
    for tree in model.trees() {
        let mut all: Vec<usize> = (0..6).collect();
        all.shuffle(&mut rng);
        all.truncate(2);
        for n in &tree.nodes {
            assert!(all.contains(&(n.feature as usize)));
        }
        assert!(!tree.nodes.is_empty());
    }
}

#[test]
fn a_row_of_weight_two_counts_like_two_rows() {
    let (x, y, _, _) = make_classification(80, 1, 2, 13);
    let mut cfg: Config<D> = plain_config();
    cfg.num_iterations = 1;
    cfg.num_leaves = 2;
    let fb = feature_builder(2);
    let weights: Vec<S> = (0..80).map(|i| S(if i < 40 { 2.0 } else { 1.0 })).collect();
    let weighted = match GbdtTrainer::new(&cfg, &fb).with_weights(&weights).fit(&x, &y, None) {
        Ok(model) => model,
        Err(e) => panic!("{}", e.message()),
    };
    let mut x2 = x.clone();
    let mut y2 = y.clone();
    x2.extend_from_slice(&x[..40]);
    y2.extend_from_slice(&y[..40]);
    let doubled = fit(&fb, &cfg, &x2, &y2);
    assert!((weighted.init_score().0 - doubled.init_score().0).abs() < 1e-12);
    let plain = fit(&fb, &cfg, &x, &y);
    assert_ne!(weighted.init_score(), plain.init_score());
}

#[test]
fn training_refuses_bad_input() {
    let (x, y, _, _) = make_classification(20, 1, 2, 1);
    let fb = feature_builder(2);
    let good: Config<D> = Config::default();
    let bad = Config { num_leaves: 0, ..good };
    match GbdtTrainer::new(&bad, &fb).fit(&x, &y, None) {
        Err(Error::Config(m)) => assert_eq!(m, "num_leaves must be >= 2"),
        _ => panic!("accepted"),
    }
    let weights = narrow(&[1.0]);
    match GbdtTrainer::new(&good, &fb).with_weights(&weights).fit(&x, &y, None) {
        Err(Error::Config(m)) => assert_eq!(m, "weights len 1 != labels len 20"),
        _ => panic!("accepted"),
    }
    match GbdtTrainer::new(&good, &fb).fit(&x, &y[..3], None) {
        Err(Error::Shape(m)) => assert_eq!(m, "labels len 3 != n_rows 20"),
        _ => panic!("accepted"),
    }
    match GbdtTrainer::new(&good, &fb).fit(&x, &y, Some((&x[..4], &y[..5]))) {
        Err(Error::Shape(m)) => assert_eq!(m, "labels len 5 != n_rows 4"),
        _ => panic!("accepted"),
    }
    let none: FeatureBuilder<Extract> = FeatureBuilder::default();
    match GbdtTrainer::new(&good, &none).fit(&x, &y, None) {
        Err(Error::Shape(m)) => assert_eq!(m, "no features"),
        _ => panic!("accepted"),
    }
}

#[test]
fn bagging_without_rows_is_refused_where_something_else_is_wrong() {
    let fb = feature_builder(1);
    let rows: Vec<Row> = Vec::new();
    let one = narrow(&[1.0]);
    let mut cfg: Config<D> = plain_config();
    cfg.bagging_fraction = D(0.5);
    cfg.bagging_freq = 1;
    match GbdtTrainer::new(&cfg, &fb).fit(&rows, &one, None) {
        Err(Error::Shape(m)) => assert_eq!(m, "labels len 1 != n_rows 0"),
        _ => panic!("accepted"),
    }
    match GbdtTrainer::new(&cfg, &fb).with_weights(&one).fit(&rows, &[], None) {
        Err(Error::Config(m)) => assert_eq!(m, "weights len 1 != labels len 0"),
        _ => panic!("accepted"),
    }
    match GbdtTrainer::new(&cfg, &fb).fit(&rows, &[], Some((&rows, &one))) {
        Err(Error::Shape(m)) => assert_eq!(m, "labels len 1 != n_rows 0"),
        _ => panic!("accepted"),
    }
    let bad = Config { max_bin: 1, ..cfg };
    match GbdtTrainer::new(&bad, &fb).fit(&rows, &[], None) {
        Err(Error::Config(m)) => assert_eq!(m, "max_bin must be in [2, 65535]"),
        _ => panic!("accepted"),
    }
    // No round, no bag.
    cfg.num_iterations = 0;
    match GbdtTrainer::new(&cfg, &fb).fit(&rows, &[], None) {
        Ok(model) => assert_eq!(model.n_trees(), 0),
        Err(e) => panic!("{}", e.message()),
    }
}

#[test]
fn every_node_and_leaf_has_one_way_to_it() {
    let (x, y, _, _) = make_classification(300, 1, 4, 19);
    let mut cfg: Config<D> = plain_config();
    cfg.num_iterations = 4;
    cfg.num_leaves = 12;
    let fb = feature_builder(4);
    let model = fit(&fb, &cfg, &x, &y);
    for tree in model.trees() {
        let mut children = Vec::new();
        for (at, node) in tree.nodes.iter().enumerate() {
            for child in [node.left_child, node.right_child] {
                assert!(child < -1 || child > at as i32);
                children.push(child);
            }
        }
        children.sort();
        children.dedup();
        assert_eq!(children.len(), 2 * tree.nodes.len());
        let inner: Vec<i32> = children.into_iter().filter(|&c| c >= 0).collect();
        assert_eq!(inner, (1..tree.nodes.len() as i32).collect::<Vec<i32>>());
    }
}

#[test]
fn training_loss_falls_round_by_round() {
    let (x, y, _, _) = make_classification(200, 1, 3, 21);
    let mut cfg: Config<D> = plain_config();
    cfg.num_iterations = 5;
    let fb = feature_builder(3);
    let train = match fb.build_dataset(&x, &y, &cfg) {
        Ok(ds) => ds,
        Err(e) => panic!("{}", e.message()),
    };
    let mut booster = Booster::new(&cfg, &train, None, None);
    let mut last = booster.train_score();
    while !booster.is_done() {
        assert!(booster.step().is_none());
        let now = booster.train_score();
        assert!(now.0 < last.0);
        last = now;
    }
    // The scores kept during training are those of the finished model.
    let model = booster.finish(&fb);
    assert_eq!(binary_logloss(&model.predict_raw_scores_on_dataset(&train), &y), last);
}

#[test]
fn validation_scores_are_those_of_the_model_so_far() {
    let (x, y, vx, vy) = make_classification(150, 60, 2, 22);
    let mut cfg: Config<D> = plain_config();
    cfg.num_iterations = 4;
    let fb = feature_builder(2);
    let train = match fb.build_dataset(&x, &y, &cfg) {
        Ok(ds) => ds,
        Err(e) => panic!("{}", e.message()),
    };
    let valid = match fb.code_dataset(&vx, &vy, train.bin_mappers()) {
        Ok(ds) => ds,
        Err(e) => panic!("{}", e.message()),
    };
    let mut booster = Booster::new(&cfg, &train, Some(&valid), None);
    let mut last = None;
    while !booster.is_done() {
        last = booster.step();
    }
    let model = booster.finish(&fb);
    let raw = model.predict_raw_scores_on_dataset(&valid);
    assert_eq!(last, Some(binary_logloss(&raw, &vy)));
    // The raw values of the same rows give the same probabilities.
    assert_eq!(model.predict_proba_on_dataset(&valid), model.predict_proba(&fb, &vx));
}

#[test]
fn validation_rows_are_binned_like_the_training_rows() {
    let fb = feature_builder(1);
    let mut cfg: Config<D> = plain_config();
    cfg.min_data_in_bin = 1;
    let rows = |values: &[f64]| -> Vec<Row> { values.iter().map(|&v| vec![v]).collect() };
    let train = match fb.build_dataset(&rows(&[1.0, 2.0, 3.0, 4.0]), &narrow(&[0.0; 4]), &cfg) {
        Ok(ds) => ds,
        Err(e) => panic!("{}", e.message()),
    };
    let valid = rows(&[3.0, 4.0, f64::NAN]);
    match fb.code_dataset(&valid, &narrow(&[0.0; 3]), train.bin_mappers()) {
        Ok(ds) => {
            let codes: Vec<u16> = (0..3).map(|r| ds.feature_bin(0, r)).collect();
            assert_eq!(codes, [3, 4, MISSING_BIN]);
            assert_eq!(ds.bin_mapper(0).upper_bounds(), train.bin_mapper(0).upper_bounds());
        }
        Err(e) => panic!("{}", e.message()),
    }
    match fb.code_dataset(&valid, &narrow(&[0.0; 2]), train.bin_mappers()) {
        Err(Error::Shape(m)) => assert_eq!(m, "labels len 2 != n_rows 3"),
        _ => panic!("ragged data went through"),
    }
}

#[test]
fn validation_rows_only_decide_how_many_trees_are_kept() {
    let (x, y, vx, vy) = make_classification(150, 80, 3, 8);
    let mut cfg: Config<D> = plain_config();
    cfg.num_iterations = 60;
    cfg.learning_rate = D(0.5);
    cfg.bagging_fraction = D(0.7);
    cfg.bagging_freq = 1;
    let fb = feature_builder(3);
    let watched = |cfg: &Config<D>| match GbdtTrainer::new(cfg, &fb).fit(&x, &y, Some((&vx, &vy))) {
        Ok(model) => model,
        Err(e) => panic!("{}", e.message()),
    };
    let alone = fit(&fb, &cfg, &x, &y);
    let all = watched(&cfg);
    assert_eq!(all.n_trees(), 60);
    assert_eq!(all.predict_proba(&fb, &vx), alone.predict_proba(&fb, &vx));
    cfg.early_stopping_round = 3;
    let stopped = watched(&cfg);
    assert!(stopped.n_trees() < 60);
    let first = first_trees(&alone, stopped.n_trees());
    assert_eq!(stopped.predict_proba(&fb, &vx), first.predict_proba(&fb, &vx));
}

#[test]
fn settings_that_take_no_part_change_nothing() {
    let (x, y, _, _) = make_classification(120, 1, 3, 14);
    let mut cfg: Config<D> = plain_config();
    cfg.num_iterations = 5;
    let fb = feature_builder(3);
    let first = fit(&fb, &cfg, &x, &y).predict_proba(&fb, &x);
    cfg.bagging_fraction = D(0.3);
    cfg.seed = 99;
    cfg.verbose = true;
    assert_eq!(fit(&fb, &cfg, &x, &y).predict_proba(&fb, &x), first);
}

#[test]
fn binning_ignores_order_and_missing_values() {
    let values = wide(&[5.0, 1.0, 3.0, 1.0, 2.0, 5.0, 4.0]);
    let others = wide(&[f64::NAN, 1.0, 1.0, 2.0, f64::INFINITY, 3.0, 4.0, 5.0, 5.0]);
    for (max_bin, min) in [(16, 1), (4, 1), (16, 2)] {
        let a = BinMapper::fit(&values, max_bin, min);
        let b = BinMapper::fit(&others, max_bin, min);
        assert_eq!(a.upper_bounds(), b.upper_bounds());
    }
    assert_eq!(BinMapper::fit(&values, 16, 2).upper_bounds(), &wide(&[1.5, 3.5])[..]);
}

#[test]
fn probabilities_lie_between_zero_and_one() {
    for x in [f64::NEG_INFINITY, -800.0, -37.0, -0.0, 0.0, 1e-300, 37.0, 800.0, f64::INFINITY] {
        let p = sigmoid(D(x)).0;
        assert!((0.0..=1.0).contains(&p), "{x}");
    }
    let (x, y, _, _) = make_classification(100, 1, 2, 6);
    let mut cfg: Config<D> = plain_config();
    cfg.num_iterations = 20;
    cfg.learning_rate = D(1.0);
    let fb = feature_builder(2);
    let model = fit(&fb, &cfg, &x, &y);
    assert!(model.predict_proba(&fb, &x).iter().all(|p| (0.0..=1.0).contains(&p.0)));
    // Whatever a row holds, and even where the scores leave the finite range.
    let odd: Vec<Row> =
        [f64::NAN, f64::INFINITY, f64::MIN, f64::MAX].iter().map(|&v| vec![v, -v]).collect();
    assert!(model.predict_proba(&fb, &odd).iter().all(|p| (0.0..=1.0).contains(&p.0)));
    let huge = |v: f64| Tree::constant(D(v));
    let trees = vec![huge(f64::MAX), huge(f64::MAX), huge(f64::MIN)];
    let names = model.feature_names().to_vec();
    let mappers = model.bin_mappers().to_vec();
    let wild = Model::from_parts(D(f64::MAX), D(1.0), names, mappers, trees).unwrap();
    assert_eq!(wild.predict_proba(&fb, &x[..1]), [D(1.0)]);
    let treeless = first_trees(&model, 0);
    assert_eq!(treeless.predict_proba(&fb, &x[..1]), [sigmoid(model.init_score())]);
}

#[test]
fn a_feature_has_gain_exactly_where_it_has_a_split() {
    // Only the first two of four columns carry information.
    let (mut x, y, _, _) = make_classification(200, 1, 2, 10);
    for row in x.iter_mut() {
        row.extend([7.0, f64::NAN]);
    }
    let mut cfg: Config<D> = plain_config();
    cfg.num_iterations = 3;
    let fb = feature_builder(4);
    let model = fit(&fb, &cfg, &x, &y);
    let counts = model.feature_importance_split();
    let gains = model.feature_importance_gain();
    assert!(counts[0] > 0 && counts[2] == 0 && counts[3] == 0);
    for f in 0..4 {
        assert_eq!(counts[f] > 0, gains[f].0 > 0.0);
    }
}

#[test]
fn missing_values_find_their_side() {
    // The label is positive exactly when the value is missing or large.
    let rows: Vec<Row> = (0..200)
        .map(|i| vec![if i % 4 == 0 { f64::NAN } else { (i % 10) as f64 }])
        .collect();
    let labels: Vec<S> = rows
        .iter()
        .map(|r| S(if r[0].is_nan() || r[0] >= 7.0 { 1.0 } else { 0.0 }))
        .collect();
    let mut cfg: Config<D> = plain_config();
    cfg.num_iterations = 30;
    cfg.num_leaves = 3;
    let fb = feature_builder(1);
    let model = fit(&fb, &cfg, &rows, &labels);
    let probs = model.predict_proba(&fb, &[vec![f64::NAN], vec![1.0], vec![9.0]]);
    assert!(probs[0].0 > 0.8 && probs[1].0 < 0.2 && probs[2].0 > 0.8);
}
