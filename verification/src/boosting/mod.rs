pub mod course;
pub mod gbdt;
pub mod laws;
pub mod rounds;

pub use gbdt::{Booster, GbdtTrainer};
