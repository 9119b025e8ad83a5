//! The record that the catalogue keeps of one book.

use crate::text::{decimal, decimal_text};
use vstd::prelude::*;
use vstd::string::*;

verus! {

/// One book of the catalogue: what was read from one EPUB container.
#[derive(Debug, PartialEq, Eq)]
pub struct Book {
    /// The title that the container declares.
    pub title: String,
    /// The creator that the container declares.
    pub author: String,
    /// Where the file lies, relative to the root of the scan.
    pub path: String,
    /// The bytes of the cover image; empty where the container declares none.
    pub cover: Vec<u8>,
}

/// What a [`Book`] holds, as mathematical values.
pub struct BookView {
    pub title: Seq<char>,
    pub author: Seq<char>,
    pub path: Seq<char>,
    pub cover: Seq<u8>,
}

impl View for Book {
    type V = BookView;

    open spec fn view(&self) -> BookView {
        BookView {
            title: self.title@,
            author: self.author@,
            path: self.path@,
            cover: self.cover@,
        }
    }
}

impl Clone for Book {
    fn clone(&self) -> (copy: Book)
        ensures
            copy@ == self@,
    {
        let cover = self.cover.clone();
        assert(cover@ =~= self.cover@);
        Book {
            title: self.title.clone(),
            author: self.author.clone(),
            path: self.path.clone(),
            cover,
        }
    }
}

/// The views of `books`, in their order.
pub open spec fn records(books: Seq<Book>) -> Seq<BookView> {
    books.map_values(|book: Book| book@)
}

/// What stands for a piece of metadata that a container does not declare.
pub const MISSING: &'static str = "N.A.";

/// The text of a piece of metadata: what the container declares, or
/// [`MISSING`] where it declares nothing.
pub open spec fn field_text(declared: Option<Seq<char>>) -> Seq<char> {
    match declared {
        Some(text) => text,
        None => MISSING@,
    }
}

/// Puts [`MISSING`] in the place of a piece of metadata that is not there,
/// and keeps one that is there as it is, be it empty.
pub fn metadata_or_default(declared: Option<String>) -> (text: String)
    ensures
        declared matches Some(given) ==> text@ == given@,
        declared is None ==> text@ == MISSING@,
{
    match declared {
        Some(given) => given,
        None => String::from_str(MISSING),
    }
}

/// What separates the parts of a progress line.
pub const SEPARATOR: &'static str = " - ";

/// What ends a progress line, after the size of the cover.
pub const SUMMARY_CLOSE: &'static str = " bytes of cover img";

/// The progress line of a book: author, title, path and the size of the
/// cover in bytes.
pub open spec fn summary_text(book: BookView) -> Seq<char> {
    book.author + SEPARATOR@ + book.title + SEPARATOR@ + book.path + SEPARATOR@ + decimal_text(
        book.cover.len(),
    ) + SUMMARY_CLOSE@
}

impl Book {
    /// The line that reports this book while a scan goes on.
    pub fn summary_line(&self) -> (line: String)
        ensures
            line@ == summary_text(self@),
    {
        let mut line = self.author.clone();
        line.append(SEPARATOR);
        line.append(self.title.as_str());
        line.append(SEPARATOR);
        line.append(self.path.as_str());
        line.append(SEPARATOR);
        let size = decimal(self.cover.len());
        line.append(size.as_str());
        line.append(SUMMARY_CLOSE);
        line
    }
}

} // verus!
