//! Assembles a tree of AsciiDoc documents into one calendar document.
//!
//! Each document is scanned line by line for its revision date and its
//! images directory, skipping what stands inside comments. The scanned
//! documents are ordered newest first, optionally filtered by a date range,
//! and rendered between a header and a footer.
//!
//! The library works on text it is handed and hands text back: reading the
//! documents and writing the calendar is left to its caller.

pub mod comment;
pub mod date;
pub mod doc;
pub mod error;
pub mod order;
pub mod path;
pub mod range;
pub mod render;
pub mod text;

pub use comment::CommentState;
pub use date::{try_parse_date, try_parse_date_with_prefix, Date};
pub use doc::{get_doc, Doc, Scanner, Step};
pub use error::{error, error_with_file, error_with_file_and_line, Error};
pub use order::sort_docs;
pub use range::{filter_docs, DateRange};
pub use render::generate;
