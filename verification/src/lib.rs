//! A tiny word-level language model with machine-checked contracts.

pub mod balance;
pub mod batches;
pub mod bptt;
pub mod calculus;
pub mod chance;
pub mod choice;
pub mod course;
pub mod dense;
pub mod derivative;
pub mod descent;
pub mod dual;
pub mod entropy;
pub mod equations;
pub mod gates;
pub mod generate;
pub mod gradient;
pub mod limits;
pub mod listwise;
pub mod model;
pub mod ordered;
pub mod paths;
pub mod pointwise;
pub mod ranking;
pub mod reals;
pub mod regardless;
pub mod related;
pub mod sampling;
pub mod scalar;
pub mod slopes;
pub mod strings;
pub mod tokenizer;
pub mod training;
pub mod trigonometry;
pub mod vocabulary;
pub mod weights;
pub mod window_gradient;
pub mod windowed;
