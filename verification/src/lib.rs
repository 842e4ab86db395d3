//! Builds the table of contents of a book from a scan of its source tree.

pub mod cli;
pub mod ignore;
pub mod laws;
pub mod model;
pub mod summary;
pub mod text;

pub use crate::ignore::Ignore;
pub use crate::model::{Member, Readmes, Scan, SummaryError};
pub use crate::summary::SummaryItem;
