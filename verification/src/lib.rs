//! # openchoice
//!
//! Answers one question: will this model run on this hardware, and how well?
//!
//! The engine reads a packed catalog in place, allocates nothing while ranking,
//! and computes its figures on integers that stand for IEEE numbers, so a
//! desktop and a microcontroller without a floating-point unit give the same
//! answers. What each function returns is stated in its contract and proved.

pub mod catalog;
pub mod cli;
pub mod community;
pub mod console;
pub mod detect;
pub mod fit;
pub mod float;
pub mod hardware;
pub mod line;
pub mod numeral;
pub mod pack;
pub mod packer;
pub mod page;
pub mod quant;
pub mod recommend;
pub mod report;
pub mod rounding;
pub mod score;
pub mod sort;
pub mod speed;
pub mod text;

pub use catalog::{hw_key, Catalog, CatalogError, Model, UseCase};
pub use fit::{Fit, KvSource, MemoryBreakdown, Opts, RunMode, Verdict};
pub use hardware::{lookup_gpu, Backend, BandwidthSource, Hardware};
pub use quant::{KvQuant, Quant};
pub use recommend::{evaluate_model, recommend, Filter, Recommendation, TopN};
pub use score::Scores;
pub use speed::{EstimateMethod, Speed};
