//! Small shared helpers: colours and textual number formatting.

pub mod color;
pub mod fmt;
