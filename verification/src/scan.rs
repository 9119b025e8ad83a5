//! The scan of a directory tree for EPUB files.
//!
//! Walking the tree and opening containers is the caller's part. For every
//! entry of the tree the caller says what it found, the path, its extension
//! and whether it is a regular file, and asks [`Candidate::new`]; a candidate
//! it tries to open, and hands what came of it to [`Collector::record`],
//! which keeps the books and says what to report. A book can only be recorded
//! for a candidate.

use crate::book::{
    field_text, metadata_or_default, records, summary_text, Book, BookView, MISSING,
};
use crate::render::{image_cell, lemma_empty_cover_empty_payload, IMAGE_CLOSE, IMAGE_OPEN};
use crate::text::strip_prefix;
use vstd::prelude::*;
use vstd::string::*;

verus! {

/// The extension of the files that a scan looks at.
pub const EPUB_EXTENSION: &'static str = "epub";

/// The notice for a container that declares no cover.
pub const NO_COVER: &'static str = "Cover: None";

/// What a failure report begins with, before the path.
pub const FAILURE_OPEN: &'static str = "Error opening EPUB file ";

/// What stands between the path and the error in a failure report.
pub const FAILURE_MIDDLE: &'static str = ": ";

/// What the complaint about a path outside the root begins with.
pub const OUTSIDE_OPEN: &'static str = "path does not lie under the root of the scan: ";

/// Whether an entry with the extension `extension`, which `is_file` says to
/// be a regular file or not, is worth opening: it is where it is a regular
/// file whose extension is exactly `epub`. Case matters.
pub open spec fn is_wanted(is_file: bool, extension: Option<Seq<char>>) -> bool {
    is_file && extension == Some(EPUB_EXTENSION@)
}

/// The characters of an extension, where there is one.
pub open spec fn extension_text(extension: Option<&str>) -> Option<Seq<char>> {
    match extension {
        Some(found) => Some(found@),
        None => None,
    }
}

/// Whether `extension` is the extension of an EPUB file. Case matters.
pub fn is_epub_extension(extension: Option<&str>) -> (yes: bool)
    ensures
        yes <==> extension_text(extension) == Some(EPUB_EXTENSION@),
{
    match extension {
        Some(found) => {
            let found = String::from_str(found);
            let wanted = String::from_str(EPUB_EXTENSION);
            found == wanted
        },
        None => false,
    }
}

/// Whether an entry of the tree is worth opening: a regular file whose
/// extension is exactly `epub`.
pub fn is_candidate(is_file: bool, extension: Option<&str>) -> (wanted: bool)
    ensures
        wanted == is_wanted(is_file, extension_text(extension)),
{
    is_file && is_epub_extension(extension)
}

/// An entry of the tree that is worth opening, known by its path.
#[derive(Debug, PartialEq, Eq)]
pub struct Candidate {
    path: String,
}

impl View for Candidate {
    type V = Seq<char>;

    /// The path of the entry.
    closed spec fn view(&self) -> Seq<char> {
        self.path@
    }
}

impl Candidate {
    /// Looks at the entry at `path`, of which the walk found the extension
    /// `extension` and which `is_file` says to be a regular file or not: the
    /// entry is a candidate where [`is_candidate`] says so, and no other
    /// entry is.
    pub fn new(path: &str, is_file: bool, extension: Option<&str>) -> (found: Option<Candidate>)
        ensures
            found is Some <==> is_wanted(is_file, extension_text(extension)),
            found matches Some(candidate) ==> candidate@ == path@,
    {
        if is_candidate(is_file, extension) {
            Some(Candidate { path: String::from_str(path) })
        } else {
            None
        }
    }

    /// The path of the entry.
    pub fn path(&self) -> (path: &str)
        ensures
            path@ == self@,
    {
        self.path.as_str()
    }
}

/// `path` with `root` taken off its front; `None` where `path` does not begin
/// with `root`.
pub open spec fn relative_to(path: Seq<char>, root: Seq<char>) -> Option<Seq<char>> {
    if root.is_prefix_of(path) {
        Some(path.skip(root.len() as int))
    } else {
        None
    }
}

/// A relative path is what is left of the path: behind the root, it gives the
/// path again.
pub proof fn lemma_relative_path_restores(path: Seq<char>, root: Seq<char>)
    ensures
        relative_to(path, root) matches Some(relative) ==> root + relative == path,
{
    if root.is_prefix_of(path) {
        assert(root + path.skip(root.len() as int) =~= path);
    }
}

/// What an opened container declares of its book.
#[derive(Debug, PartialEq, Eq)]
pub struct Metadata {
    /// The first `title` of the metadata.
    pub title: Option<String>,
    /// The first `creator` of the metadata.
    pub creator: Option<String>,
    /// The bytes of the cover image.
    pub cover: Option<Vec<u8>>,
}

/// What a [`Metadata`] holds, as mathematical values.
pub struct MetadataView {
    pub title: Option<Seq<char>>,
    pub creator: Option<Seq<char>>,
    pub cover: Option<Seq<u8>>,
}

impl View for Metadata {
    type V = MetadataView;

    open spec fn view(&self) -> MetadataView {
        MetadataView {
            title: match self.title {
                Some(text) => Some(text@),
                None => None,
            },
            creator: match self.creator {
                Some(text) => Some(text@),
                None => None,
            },
            cover: match self.cover {
                Some(bytes) => Some(bytes@),
                None => None,
            },
        }
    }
}

/// The book that a container at the relative path `path` gives: what it does
/// not declare is [`crate::book::MISSING`], and a cover that it does not
/// declare is empty.
pub open spec fn book_of(metadata: MetadataView, path: Seq<char>) -> BookView {
    BookView {
        title: field_text(metadata.title),
        author: field_text(metadata.creator),
        path,
        cover: match metadata.cover {
            Some(bytes) => bytes,
            None => Seq::empty(),
        },
    }
}

/// The report of a file that could not be opened.
pub open spec fn failure_text(path: Seq<char>, error: Seq<char>) -> Seq<char> {
    FAILURE_OPEN@ + path + FAILURE_MIDDLE@ + error
}

/// How the attempt to open a candidate ended.
#[derive(Debug, PartialEq, Eq)]
pub enum Opened {
    /// The file is an EPUB container, and this is what it declares.
    Container(Metadata),
    /// The file could not be read as a container; the text says why.
    Failure(String),
}

/// What the caller is to tell the user after a candidate was dealt with.
#[derive(Debug, PartialEq, Eq)]
pub enum Report {
    /// The book was added. `notice`, where there is one, goes to standard
    /// output before `summary`, which goes there too.
    Added { notice: Option<String>, summary: String },
    /// The file was left out. `message` goes to standard error.
    Skipped { message: String },
}

/// A defect that ends a scan.
#[derive(Debug, PartialEq, Eq)]
pub enum ScanError {
    /// The path of an opened container does not begin with the root.
    OutsideRoot { path: String },
}

impl ScanError {
    /// The complaint, for the user.
    pub fn message(&self) -> (text: String)
        ensures
            match *self {
                ScanError::OutsideRoot { path } => text@ == OUTSIDE_OPEN@ + path@,
            },
    {
        match self {
            ScanError::OutsideRoot { path } => {
                let mut text = String::from_str(OUTSIDE_OPEN);
                text.append(path.as_str());
                text
            },
        }
    }
}

/// The notice that goes with a container: one that declares no cover is
/// remarked upon.
pub open spec fn notice_text(metadata: MetadataView) -> Option<Seq<char>> {
    match metadata.cover {
        Some(_) => None,
        None => Some(NO_COVER@),
    }
}

/// The books of one scan, in the order in which they were found.
pub struct Collector {
    root: String,
    books: Vec<Book>,
}

impl Collector {
    /// The root of the scan, as the caller gave it.
    pub closed spec fn root(&self) -> Seq<char> {
        self.root@
    }

    /// The books recorded so far, in the order of their recording.
    pub closed spec fn collected(&self) -> Seq<BookView> {
        records(self.books@)
    }

    /// Starts a scan of the tree under `root`, with no book recorded.
    pub fn new(root: &str) -> (collector: Collector)
        ensures
            collector.root() == root@,
            collector.collected() == Seq::<BookView>::empty(),
    {
        let collector = Collector { root: String::from_str(root), books: Vec::new() };
        assert(collector.collected() =~= Seq::<BookView>::empty());
        collector
    }

    /// Takes note of what came of opening `candidate`.
    ///
    /// A container becomes a book, last in the catalogue, under the path that
    /// is left of the candidate's once the root is taken off its front. A
    /// file that could not be opened leaves the catalogue as it was, and so
    /// does a container whose path does not begin with the root, which is an
    /// error.
    pub fn record(&mut self, candidate: Candidate, opened: Opened) -> (result: Result<
        Report,
        ScanError,
    >)
        ensures
            final(self).root() == old(self).root(),
            match opened {
                Opened::Failure(error) => {
                    &&& final(self).collected() == old(self).collected()
                    &&& result matches Ok(Report::Skipped { message })
                    &&& message@ == failure_text(candidate@, error@)
                },
                Opened::Container(metadata) => match relative_to(candidate@, old(self).root()) {
                    Some(relative) => {
                        &&& final(self).collected() == old(self).collected().push(
                            book_of(metadata@, relative),
                        )
                        &&& result matches Ok(Report::Added { notice, summary })
                        &&& summary@ == summary_text(book_of(metadata@, relative))
                        &&& match notice {
                            Some(text) => notice_text(metadata@) == Some(text@),
                            None => notice_text(metadata@) is None,
                        }
                    },
                    None => {
                        &&& final(self).collected() == old(self).collected()
                        &&& result matches Err(ScanError::OutsideRoot { path })
                        &&& path@ == candidate@
                    },
                },
            },
    {
        match opened {
            Opened::Failure(error) => {
                let mut message = String::from_str(FAILURE_OPEN);
                message.append(candidate.path.as_str());
                message.append(FAILURE_MIDDLE);
                message.append(error.as_str());
                Ok(Report::Skipped { message })
            },
            Opened::Container(metadata) => match strip_prefix(
                candidate.path.as_str(),
                self.root.as_str(),
            ) {
                None => Err(ScanError::OutsideRoot { path: candidate.path }),
                Some(relative) => {
                    let Metadata { title, creator, cover } = metadata;
                    let (notice, cover) = match cover {
                        Some(bytes) => (None, bytes),
                        None => (Some(String::from_str(NO_COVER)), Vec::new()),
                    };
                    let book = Book {
                        title: metadata_or_default(title),
                        author: metadata_or_default(creator),
                        path: String::from_str(relative),
                        cover,
                    };
                    let summary = book.summary_line();
                    proof {
                        assert(book@ == book_of(metadata@, relative@));
                        assert(records(self.books@.push(book)) =~= records(self.books@).push(
                            book@,
                        ));
                    }
                    self.books.push(book);
                    Ok(Report::Added { notice, summary })
                },
            },
        }
    }

    /// The number of books recorded so far.
    pub fn len(&self) -> (count: usize)
        ensures
            count == self.collected().len(),
    {
        self.books.len()
    }

    /// Ends the scan and hands over its books.
    pub fn into_books(self) -> (books: Vec<Book>)
        ensures
            records(books@) == self.collected(),
    {
        self.books
    }
}

/// A title or a creator that the container does not declare is
/// [`MISSING`] in its book; one that it declares is kept as it is.
pub proof fn lemma_missing_metadata(metadata: MetadataView, path: Seq<char>)
    ensures
        metadata.title is None ==> book_of(metadata, path).title == MISSING@,
        metadata.creator is None ==> book_of(metadata, path).author == MISSING@,
        metadata.title matches Some(title) ==> book_of(metadata, path).title == title,
        metadata.creator matches Some(creator) ==> book_of(metadata, path).author == creator,
{
}

/// A container that declares no cover gives a book with an empty cover, whose
/// image has an empty payload.
pub proof fn lemma_missing_cover(metadata: MetadataView, path: Seq<char>)
    requires
        metadata.cover is None,
    ensures
        book_of(metadata, path).cover == Seq::<u8>::empty(),
        image_cell(book_of(metadata, path).cover) == IMAGE_OPEN@ + IMAGE_CLOSE@,
{
    lemma_empty_cover_empty_payload(book_of(metadata, path).cover);
}

} // verus!
