//! A catalogue of EPUB books rendered as one self-contained HTML page.
//!
//! The crate holds the rules of the catalogue: which entries of a directory
//! tree are candidates, how what an opened container declares becomes a
//! [`Book`], how books are ordered by author, and what the HTML page looks
//! like. Walking the tree, opening the containers and writing the page are
//! the caller's part: for each entry it tells [`Candidate::new`] what it
//! found, hands what came of opening a candidate to [`Collector::record`],
//! and in the end passes the books through [`sort_by_author`] and
//! [`books_to_html`].

pub mod book;
pub mod encoding;
pub mod order;
pub mod render;
pub mod scan;
pub mod text;

pub use book::Book;
pub use order::sort_by_author;
pub use render::books_to_html;
pub use scan::{is_candidate, Candidate, Collector, Metadata, Opened, Report, ScanError};
