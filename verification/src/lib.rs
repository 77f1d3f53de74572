//! Gradient boosted decision trees for binary classification, with every
//! decision of the learner stated and proved.
//!
//! The library is generic over the numbers it computes with (see
//! [`number::Wide`]): it never looks inside a number, it only asks the number
//! type to add, divide, compare and so on, and the contracts say in which order
//! which operation is applied to what.

pub mod boosting;
pub mod config;
pub mod dataset;
pub mod draws;
pub mod error;
pub mod feature;
pub mod fixed;
pub mod hash;
pub mod importance;
pub mod logistic;
pub mod loss;
pub mod metric;
pub mod model;
pub mod number;
pub mod objective;
pub mod order;
pub mod predict;
pub mod text;
pub mod tree;

pub use boosting::GbdtTrainer;
pub use config::Config;
pub use dataset::Dataset;
pub use error::{Error, Result};
pub use feature::{Datum, FeatureBuilder};
pub use model::Model;
pub use number::{Real, Wide};
