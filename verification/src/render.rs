//! The HTML page that lists the books of a catalogue.

use crate::book::{records, Book, BookView};
use crate::encoding::{
    base64_bytes, base64_len, base64_text, encode_standard, lemma_base64_round_trip,
};
use vstd::prelude::*;
use vstd::seq_lib::lemma_concat_associative;
use vstd::string::*;

verus! {

/// The file that the page is meant for, in the directory that was scanned.
pub const OUTPUT_FILE: &'static str = "epub-index.html";

/// What stands before the style block.
pub const DOCUMENT_OPEN: &'static str = "<html><head>";

/// The style block of the page.
pub const STYLE: &'static str = r#"
    <style>
    .container{
        width: 100%;
        font-family: RobotoSlab,sans-serif;
    }
    th {
        font-size: 1.5rem;
        line-height: 2rem;
        font-weight: 700;
        top: 0;
        position: sticky;
        background: white;
    }
    tr {
        border-top-width: 1px;
        border-top-color: #cccccc;
    }
    img {
        max-width: 24rem;
        max-height: 24rem;
    }
    table {
        width: 100%;
    }
    td {
        padding: 0.5rem;
        word-break: normal;
        overflow-wrap: normal;
        max-width: 20%;
    }
    .text-left {
        text-align: left;
    }
    </style>
    "#;

/// What stands between the style block and the table.
pub const DOCUMENT_MIDDLE: &'static str = "</head><body><div class=\"container\">";

/// The opening of the table, with its header row.
pub const TABLE_OPEN: &'static str = r#"
    <table>
    <thead><tr>
        <th>Cover</th>
        <th class="text-left">Title</th>
        <th class="text-left">Author</th>
        <th class="text-left">Path</th>
    </tr></thead>
    "#;

/// The opening of the table body.
pub const BODY_OPEN: &'static str = "<tbody>\n";

/// The opening of a row of the table body.
pub const ROW_OPEN: &'static str = "<tr class=\"border-t\">";

/// The cell of a cover, up to the base64 payload of the image.
pub const IMAGE_OPEN: &'static str = "<td><center><img src=\"data:image/png;base64,";

/// The cell of a cover, after the payload.
pub const IMAGE_CLOSE: &'static str = "\" /></center></td>";

/// The opening of a cell of text.
pub const CELL_OPEN: &'static str = "<td>";

/// The closing of a cell of text.
pub const CELL_CLOSE: &'static str = "</td>";

/// The closing of a row of the table body.
pub const ROW_CLOSE: &'static str = "</tr>\n";

/// The closing of the table.
pub const TABLE_CLOSE: &'static str = "</tbody></table>";

/// What stands after the table.
pub const DOCUMENT_CLOSE: &'static str = "</div></body></html>";

/// A cell that holds `text` as it is: nothing in it is escaped.
pub open spec fn text_cell(text: Seq<char>) -> Seq<char> {
    CELL_OPEN@ + text + CELL_CLOSE@
}

/// The cell of a cover: an image whose source is a data URI with the base64
/// text of `cover` as its payload. The URI says `image/png` whatever the
/// format of the image is.
pub open spec fn image_cell(cover: Seq<u8>) -> Seq<char> {
    IMAGE_OPEN@ + base64_text(cover) + IMAGE_CLOSE@
}

/// The row of one book: cover, title, author and path.
pub open spec fn row_text(book: BookView) -> Seq<char> {
    ROW_OPEN@ + image_cell(book.cover) + text_cell(book.title) + text_cell(book.author)
        + text_cell(book.path) + ROW_CLOSE@
}

/// The rows of `books`, one after the other in the order of `books`.
pub open spec fn rows_text(books: Seq<BookView>) -> Seq<char>
    decreases books.len(),
{
    if books.len() == 0 {
        Seq::empty()
    } else {
        rows_text(books.drop_last()) + row_text(books.last())
    }
}

/// Appends a cell that holds `text` to `html`.
fn append_text_cell(html: &mut String, text: &str)
    ensures
        final(html)@ == old(html)@ + text_cell(text@),
{
    html.append(CELL_OPEN);
    html.append(text);
    html.append(CELL_CLOSE);
    proof {
        lemma_concat_associative(old(html)@, CELL_OPEN@, text@);
        lemma_concat_associative(old(html)@, CELL_OPEN@ + text@, CELL_CLOSE@);
    }
}

/// Appends the cell of the cover `cover` to `html`.
fn append_image_cell(html: &mut String, cover: &Vec<u8>)
    requires
        base64_len(cover@.len()) <= isize::MAX,
    ensures
        final(html)@ == old(html)@ + image_cell(cover@),
{
    let payload = encode_standard(cover);
    html.append(IMAGE_OPEN);
    html.append(payload.as_str());
    html.append(IMAGE_CLOSE);
    proof {
        lemma_concat_associative(old(html)@, IMAGE_OPEN@, payload@);
        lemma_concat_associative(old(html)@, IMAGE_OPEN@ + payload@, IMAGE_CLOSE@);
    }
}

/// Appends the row of `book` to `html`.
fn append_row(html: &mut String, book: &Book)
    requires
        base64_len(book.cover@.len()) <= isize::MAX,
    ensures
        final(html)@ == old(html)@ + row_text(book@),
{
    html.append(ROW_OPEN);
    append_image_cell(html, &book.cover);
    append_text_cell(html, book.title.as_str());
    append_text_cell(html, book.author.as_str());
    append_text_cell(html, book.path.as_str());
    html.append(ROW_CLOSE);
    proof {
        let start = old(html)@;
        let row = ROW_OPEN@;
        let image = image_cell(book@.cover);
        let title = text_cell(book@.title);
        let author = text_cell(book@.author);
        let path = text_cell(book@.path);
        lemma_concat_associative(start, row, image);
        lemma_concat_associative(start, row + image, title);
        lemma_concat_associative(start, row + image + title, author);
        lemma_concat_associative(start, row + image + title + author, path);
        lemma_concat_associative(start, row + image + title + author + path, ROW_CLOSE@);
    }
}

/// The table: the header row, then the rows of `books`.
pub open spec fn table_text(books: Seq<BookView>) -> Seq<char> {
    TABLE_OPEN@ + BODY_OPEN@ + rows_text(books) + TABLE_CLOSE@
}

/// The whole page: the style block in the head, the table in the body.
pub open spec fn document_text(books: Seq<BookView>) -> Seq<char> {
    DOCUMENT_OPEN@ + STYLE@ + DOCUMENT_MIDDLE@ + table_text(books) + DOCUMENT_CLOSE@
}

/// Whether the cover of every book is short enough for its base64 text to
/// fit in memory: no text is longer than `isize::MAX` bytes.
pub open spec fn covers_fit(books: Seq<Book>) -> bool {
    forall|i: int|
        0 <= i < books.len() ==> base64_len(#[trigger] books[i].cover@.len()) <= isize::MAX
}

/// Whether `books` can be rendered: whether [`covers_fit`] holds of them.
pub fn can_render(books: &Vec<Book>) -> (yes: bool)
    ensures
        yes == covers_fit(books@),
{
    let most = usize::MAX / 8;
    assert(most == isize::MAX / 4);
    let mut seen: usize = 0;
    while seen < books.len()
        invariant
            seen <= books.len(),
            most == isize::MAX / 4,
            forall|i: int|
                0 <= i < seen ==> base64_len(#[trigger] books[i].cover@.len()) <= isize::MAX,
        decreases books.len() - seen,
    {
        let len = books[seen].cover.len();
        let groups = if len % 3 == 0 {
            len / 3
        } else {
            len / 3 + 1
        };
        assert(groups == (len + 2) / 3);
        if groups > most {
            assert(base64_len(books[seen as int].cover@.len()) > isize::MAX);
            return false;
        }
        seen += 1;
    }
    true
}

/// Renders `books` as one HTML page, in the order given: nothing is sorted
/// and nothing is escaped.
pub fn books_to_html(books: &Vec<Book>) -> (html: String)
    requires
        covers_fit(books@),
    ensures
        html@ == document_text(records(books@)),
{
    let mut html = String::new();
    html.append(DOCUMENT_OPEN);
    html.append(STYLE);
    html.append(DOCUMENT_MIDDLE);
    html.append(TABLE_OPEN);
    html.append(BODY_OPEN);
    let ghost before = html@;
    let mut done: usize = 0;
    while done < books.len()
        invariant
            done <= books.len(),
            covers_fit(books@),
            html@ == before + rows_text(records(books@).take(done as int)),
        decreases books.len() - done,
    {
        append_row(&mut html, &books[done]);
        proof {
            let shown = records(books@).take(done as int);
            let next = books[done as int]@;
            assert(records(books@).take(done + 1) =~= shown.push(next));
            lemma_rows_of_more_books(shown, next);
            lemma_concat_associative(before, rows_text(shown), row_text(next));
        }
        done += 1;
    }
    html.append(TABLE_CLOSE);
    html.append(DOCUMENT_CLOSE);
    proof {
        let shown = records(books@);
        assert(shown.take(done as int) =~= shown);
        let head = DOCUMENT_OPEN@ + STYLE@ + DOCUMENT_MIDDLE@;
        lemma_concat_associative(head, TABLE_OPEN@, BODY_OPEN@);
        lemma_concat_associative(head, TABLE_OPEN@ + BODY_OPEN@, rows_text(shown));
        lemma_concat_associative(
            head,
            TABLE_OPEN@ + BODY_OPEN@ + rows_text(shown),
            TABLE_CLOSE@,
        );
    }
    html
}

/// The payload of a cover's cell: what stands between [`IMAGE_OPEN`] and
/// [`IMAGE_CLOSE`].
pub open spec fn payload_of(cell: Seq<char>) -> Seq<char> {
    cell.subrange(IMAGE_OPEN@.len() as int, cell.len() - IMAGE_CLOSE@.len())
}

/// A catalogue without books is rendered as a table with its header row and
/// an empty body.
pub proof fn lemma_no_books_no_rows(books: Seq<BookView>)
    requires
        books.len() == 0,
    ensures
        rows_text(books) == Seq::<char>::empty(),
        table_text(books) == TABLE_OPEN@ + BODY_OPEN@ + TABLE_CLOSE@,
{
    assert(TABLE_OPEN@ + BODY_OPEN@ + rows_text(books) =~= TABLE_OPEN@ + BODY_OPEN@);
}

/// The rows of a catalogue are the rows of its books but the last, then the
/// row of the last: each book has one row, and the rows stand in the order of
/// the books.
pub proof fn lemma_rows_of_more_books(books: Seq<BookView>, book: BookView)
    ensures
        rows_text(books.push(book)) == rows_text(books) + row_text(book),
{
    assert(books.push(book).drop_last() =~= books);
}

/// An empty cover is rendered as an image with an empty payload.
pub proof fn lemma_empty_cover_empty_payload(cover: Seq<u8>)
    requires
        cover.len() == 0,
    ensures
        base64_text(cover) == Seq::<char>::empty(),
        image_cell(cover) == IMAGE_OPEN@ + IMAGE_CLOSE@,
{
    assert(IMAGE_OPEN@ + base64_text(cover) =~= IMAGE_OPEN@);
}

/// The payload of a cover's cell is the base64 text of the cover, and
/// decoding it gives the bytes of the cover back.
pub proof fn lemma_cover_round_trip(cover: Seq<u8>)
    ensures
        payload_of(image_cell(cover)) == base64_text(cover),
        base64_bytes(payload_of(image_cell(cover))) == Some(cover),
{
    lemma_base64_round_trip(cover);
    assert(payload_of(image_cell(cover)) =~= base64_text(cover));
}

} // verus!
