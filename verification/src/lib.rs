//! Finds duplicate episodes in a naming-convention-driven video collection.
//!
//! The library parses structured metadata out of file paths, groups records
//! that represent the same logical episode, and turns a user's selection of
//! files to keep into a deletion plan. Directory walking, prompting and the
//! actual file removal are left to the surrounding application.

pub mod grouping;
pub mod parser;
pub mod selection;
pub mod records;
pub mod resolve;
pub mod scan;
pub mod text;
