// A Wordle assistant: letter feedback, partition of candidates by feedback,
// scoring strategies over bucket sizes, and reduction of the answer set.

pub mod feedback;
pub mod words;
pub mod reduce;
pub mod partition;
pub mod strategy;
pub mod driver;
pub mod dictionary;
pub mod rank;
