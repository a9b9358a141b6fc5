//! Readability scoring: average, over the word tokens of a text, a
//! normalized frequency weight drawn from a reference frequency dictionary.

pub mod dict;
pub mod json;
pub mod pipeline;
pub mod score;
pub mod tokenize;

pub use dict::DictError;
pub use dict::WeightTable;
pub use dict::build_weight_table;
pub use dict::load_frequency_dict;
pub use pipeline::PipelineError;
pub use pipeline::run_readability;
pub use pipeline::score_entries;
pub use score::Score;
pub use score::compute_readability;
pub use tokenize::tokenize_english_words;
