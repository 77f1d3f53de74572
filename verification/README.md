# nanogbm

Gradient boosted decision trees for binary classification, written in Verus:
every decision of the learner is stated in a contract and proved.

The library never touches a floating-point number. It is generic over the
numbers it computes with (`number::Wide`, with a narrow companion type for
labels, weights and gradients). A number type supplies addition, comparison,
logarithm and so on; the contracts say which operation is applied to what, and in
which order. `fixed::Fixed` is a number type that is itself verified;
`app/numbers.rs` wraps `f64` and `f32`.

## Layout

| Path               | What it holds                                                     |
|--------------------|-------------------------------------------------------------------|
| `src/feature.rs`   | declaring feature columns over your own row type                  |
| `src/importance.rs`| the feature importance report                                     |
| `src/dataset/`     | binning raw values, building datasets, masking rows               |
| `src/tree/`        | histograms, split search, leaf-wise growth, tree walks            |
| `src/boosting/`    | the boosting rounds, sampling, early stopping, `GbdtTrainer`      |
| `src/loss.rs`      | logistic loss: init score, gradients, logloss                     |
| `src/objective/`, `src/metric/` | the loss behind traits                               |
| `src/model.rs`, `src/predict.rs` | trained models and inference                        |
| `src/draws.rs`, `src/hash.rs` | the random stream and the category hashes              |
| `src/number.rs`, `src/fixed.rs`, `src/order.rs`, `src/text.rs` | numbers, sorting, text |
| `app/`             | a command line program on CSV files, with models stored on disk   |

What training computes is written down in three places: `tree/split.rs` (the best
split of a node), `tree/growth.rs` (how a tree grows) and `boosting/rounds.rs`
(what a round of boosting does). The functions named `law_..` state what follows
for every input: that a row is recorded at the leaf the tree leads it to, that the
split that is found is the best one, that early stopping keeps the trees up to the
best round and that this is the best model on the raw validation rows, that
validation data only decide how many trees are kept, that raw values and bin codes
predict alike, and so on.

## What is taken on trust

* `draws.rs`: shuffles and random numbers of a ChaCha8 stream (`rand`,
  `rand_chacha`).
* `hash.rs`: hashes of category values (`gxhash`).
* `tree/histogram.rs`: running one closure per histogram in parallel (`rayon`).

A number type that is used with the library is trusted to be a function of its
operands and to have the few properties that `number::Wide` lists: finite numbers
compare with each other, nothing comparable lies above infinity, halfway points
keep their order, constants stand in the order of their fractions, adding what is
not negative does not make a number smaller, finite steps lead from comparable to
comparable numbers, the exponential of what is not positive lies between zero and
one, and so on. IEEE floating point has them; of `fixed::Fixed` they are proved.

## Use

```rust
let config: Config<F64> = Config { num_iterations: 50, ..Config::default() };
let features = FeatureBuilder::new()
    .add_continuous("age", Box::new(|r: &Row| Datum::Number(F64(r.age))) as Extract)
    .add_categorical("city", Box::new(|r: &Row| Datum::Text(r.city.clone())) as Extract);
let model = GbdtTrainer::new(&config, &features).fit(&rows, &labels, None)?;
let probabilities = model.predict_proba(&features, &rows);
```

Extractors are not stored with a model. Hand the same builder to training and to
prediction; `Model::check_features` tells whether the names agree.
