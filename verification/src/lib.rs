pub mod triple;
pub mod seqs;
pub mod node;
pub mod model;
pub mod wellformed;
pub mod meta;
pub mod clique;
pub mod pass;
pub mod metadata;
pub mod deletion;
pub mod snapshot;
pub mod laws;
