//! A compressed prefix tree over strings, with prefix completion.

pub mod completion;
pub mod insertion;
pub mod laws;
pub mod lemmas;
pub mod model;
pub mod prefix;
pub mod quote;
pub mod tree;

pub use completion::Completion;
pub use prefix::common_prefix_length;
pub use tree::AbbrevTree;
