use base64::engine::general_purpose::STANDARD;
use base64::Engine;
use epub_index::render::{
    BODY_OPEN, DOCUMENT_CLOSE, DOCUMENT_MIDDLE, DOCUMENT_OPEN, IMAGE_CLOSE, IMAGE_OPEN, STYLE,
    TABLE_CLOSE, TABLE_OPEN,
};
use epub_index::{books_to_html, Book};

fn book(title: &str, author: &str, path: &str, cover: &[u8]) -> Book {
    Book {
        title: title.to_string(),
        author: author.to_string(),
        path: path.to_string(),
        cover: cover.to_vec(),
    }
}

/// The payloads of the images of a page, in the order of its rows.
fn payloads(html: &str) -> Vec<String> {
    let mut found = Vec::new();
    let mut rest = html;
    while let Some(at) = rest.find(IMAGE_OPEN) {
        let after = &rest[at + IMAGE_OPEN.len()..];
        let end = after.find(IMAGE_CLOSE).unwrap();
        found.push(after[..end].to_string());
        rest = &after[end..];
    }
    found
}

#[test]
fn empty_catalogue_is_the_bare_page() {
    let html = books_to_html(&Vec::new());
    assert_eq!(html, "<html><head>\n    <style>\n    .container{\n        width: 100%;\n        font-family: RobotoSlab,sans-serif;\n    }\n    th {\n        font-size: 1.5rem;\n        line-height: 2rem;\n        font-weight: 700;\n        top: 0;\n        position: sticky;\n        background: white;\n    }\n    tr {\n        border-top-width: 1px;\n        border-top-color: #cccccc;\n    }\n    img {\n        max-width: 24rem;\n        max-height: 24rem;\n    }\n    table {\n        width: 100%;\n    }\n    td {\n        padding: 0.5rem;\n        word-break: normal;\n        overflow-wrap: normal;\n        max-width: 20%;\n    }\n    .text-left {\n        text-align: left;\n    }\n    </style>\n    </head><body><div class=\"container\">\n    <table>\n    <thead><tr>\n        <th>Cover</th>\n        <th class=\"text-left\">Title</th>\n        <th class=\"text-left\">Author</th>\n        <th class=\"text-left\">Path</th>\n    </tr></thead>\n    <tbody>\n</tbody></table></div></body></html>");
}

#[test]
fn empty_catalogue_has_a_header_row_and_no_body_rows() {
    let html = books_to_html(&Vec::new());
    assert!(html.contains("<th>Cover</th>"));
    assert!(html.contains("<th class=\"text-left\">Title</th>"));
    assert!(html.contains("<th class=\"text-left\">Author</th>"));
    assert!(html.contains("<th class=\"text-left\">Path</th>"));
    assert!(html.contains("<tbody>\n</tbody></table>"));
    assert_eq!(html.matches("<tr").count(), 1);
    assert_eq!(html.matches("<td>").count(), 0);
}

#[test]
fn one_book_is_one_row() {
    let books = vec![book("Dune", "Frank Herbert", "/sf/dune.epub", &[1, 2, 3])];
    let html = books_to_html(&books);
    assert_eq!(html, "<html><head>\n    <style>\n    .container{\n        width: 100%;\n        font-family: RobotoSlab,sans-serif;\n    }\n    th {\n        font-size: 1.5rem;\n        line-height: 2rem;\n        font-weight: 700;\n        top: 0;\n        position: sticky;\n        background: white;\n    }\n    tr {\n        border-top-width: 1px;\n        border-top-color: #cccccc;\n    }\n    img {\n        max-width: 24rem;\n        max-height: 24rem;\n    }\n    table {\n        width: 100%;\n    }\n    td {\n        padding: 0.5rem;\n        word-break: normal;\n        overflow-wrap: normal;\n        max-width: 20%;\n    }\n    .text-left {\n        text-align: left;\n    }\n    </style>\n    </head><body><div class=\"container\">\n    <table>\n    <thead><tr>\n        <th>Cover</th>\n        <th class=\"text-left\">Title</th>\n        <th class=\"text-left\">Author</th>\n        <th class=\"text-left\">Path</th>\n    </tr></thead>\n    <tbody>\n<tr class=\"border-t\"><td><center><img src=\"data:image/png;base64,AQID\" /></center></td><td>Dune</td><td>Frank Herbert</td><td>/sf/dune.epub</td></tr>\n</tbody></table></div></body></html>");
}

#[test]
fn page_is_made_of_its_parts() {
    let html = books_to_html(&Vec::new());
    let mut expected = String::new();
    for part in [
        DOCUMENT_OPEN,
        STYLE,
        DOCUMENT_MIDDLE,
        TABLE_OPEN,
        BODY_OPEN,
        TABLE_CLOSE,
        DOCUMENT_CLOSE,
    ] {
        expected.push_str(part);
    }
    assert_eq!(html, expected);
    assert!(html.starts_with("<html><head>\n    <style>"));
    assert!(html.contains("</style>\n    </head><body><div class=\"container\">\n    <table>"));
    assert!(html.ends_with("</tbody></table></div></body></html>"));
}

#[test]
fn rows_follow_the_order_given() {
    let books = vec![
        book("Second", "Zed", "/z.epub", &[]),
        book("First", "Abe", "/a.epub", &[]),
        book("Third", "Moe", "/m.epub", &[]),
    ];
    let html = books_to_html(&books);
    let zed = html.find("<td>Zed</td>").unwrap();
    let abe = html.find("<td>Abe</td>").unwrap();
    let moe = html.find("<td>Moe</td>").unwrap();
    assert!(zed < abe && abe < moe);
    assert_eq!(html.matches("<tr class=\"border-t\">").count(), 3);
    assert_eq!(html.matches("</tr>\n").count(), 3);
}

#[test]
fn text_is_not_escaped() {
    let books = vec![book("<b>Tom & Jerry</b>", "\"Q\" <q@x>", "/a&b/c<d>.epub", &[])];
    let html = books_to_html(&books);
    assert!(html.contains("<td><b>Tom & Jerry</b></td>"));
    assert!(html.contains("<td>\"Q\" <q@x></td>"));
    assert!(html.contains("<td>/a&b/c<d>.epub</td>"));
    assert!(!html.contains("&amp;"));
    assert!(!html.contains("&lt;"));
}

#[test]
fn cover_is_always_labelled_png() {
    let jpeg = [0xff, 0xd8, 0xff, 0xe0];
    let html = books_to_html(&vec![book("T", "A", "/p.epub", &jpeg)]);
    assert!(html.contains("<img src=\"data:image/png;base64,/9j/4A==\" />"));
}

#[test]
fn empty_cover_has_an_empty_payload() {
    let html = books_to_html(&vec![book("T", "A", "/p.epub", &[])]);
    assert!(html.contains("<td><center><img src=\"data:image/png;base64,\" /></center></td>"));
    assert_eq!(payloads(&html), vec![String::new()]);
    assert_eq!(STANDARD.encode(b""), "");
}

#[test]
fn payload_is_padded_base64() {
    let covers: [&[u8]; 8] = [
        b"",
        b"f",
        b"fo",
        b"foo",
        b"foob",
        b"fooba",
        b"foobar",
        &[0xfb, 0xff, 0xbe],
    ];
    let expected = ["", "Zg==", "Zm8=", "Zm9v", "Zm9vYg==", "Zm9vYmE=", "Zm9vYmFy", "+/++"];
    let books: Vec<Book> = covers.iter().map(|cover| book("T", "A", "/p", cover)).collect();
    let html = books_to_html(&books);
    assert_eq!(payloads(&html), expected);
}

#[test]
fn payload_decodes_to_the_cover() {
    let every_byte: Vec<u8> = (0..=255u8).collect();
    let mut mixed: Vec<u8> = Vec::new();
    let mut state: u32 = 12345;
    for _ in 0..1000 {
        state = state.wrapping_mul(1664525).wrapping_add(1013904223);
        mixed.push((state >> 24) as u8);
    }
    let covers: Vec<Vec<u8>> = vec![
        Vec::new(),
        vec![0],
        vec![255, 254],
        vec![1, 2, 3],
        vec![0x89, b'P', b'N', b'G', 0x0d, 0x0a, 0x1a, 0x0a],
        every_byte,
        mixed.clone(),
        mixed[..998].to_vec(),
        mixed[..997].to_vec(),
    ];
    let books: Vec<Book> = covers.iter().map(|cover| book("T", "A", "/p", cover)).collect();
    let html = books_to_html(&books);
    let found = payloads(&html);
    assert_eq!(found.len(), covers.len());
    for (payload, cover) in found.iter().zip(covers.iter()) {
        assert_eq!(payload.len(), 4 * ((cover.len() + 2) / 3));
        assert_eq!(&STANDARD.decode(payload).unwrap(), cover);
    }
}

#[test]
fn rendering_twice_gives_the_same_page() {
    let books = vec![
        book("Dune", "Frank Herbert", "/sf/dune.epub", &[1, 2, 3, 4]),
        book("Emma", "Jane Austen", "/emma.epub", &[]),
    ];
    assert_eq!(books_to_html(&books), books_to_html(&books));
    assert_eq!(books_to_html(&books), books_to_html(&books.clone()));
}

#[test]
fn books_with_covers_in_memory_can_be_rendered() {
    assert!(epub_index::render::can_render(&Vec::new()));
    let books = vec![
        book("T", "A", "/p", &[]),
        book("T", "A", "/p", &[1]),
        book("T", "A", "/p", &[0; 4096]),
    ];
    assert!(epub_index::render::can_render(&books));
}

#[test]
fn page_is_meant_for_one_fixed_file() {
    assert_eq!(epub_index::render::OUTPUT_FILE, "epub-index.html");
}

#[test]
fn rows_are_the_cells_of_their_books() {
    let mut state: u32 = 7;
    let mut books = Vec::new();
    for serial in 0..25 {
        let mut cover = Vec::new();
        for _ in 0..serial {
            state = state.wrapping_mul(1664525).wrapping_add(1013904223);
            cover.push((state >> 24) as u8);
        }
        let title = format!("Title <{}>", serial);
        let author = format!("Author & {}", state % 5);
        let path = format!("/shelf {}/book.epub", serial);
        books.push(book(&title, &author, &path, &cover));
    }
    let mut rows = String::new();
    for book in &books {
        rows.push_str(&format!(
            "<tr class=\"border-t\"><td><center><img src=\"data:image/png;base64,{}\" \
             /></center></td><td>{}</td><td>{}</td><td>{}</td></tr>\n",
            STANDARD.encode(&book.cover),
            book.title,
            book.author,
            book.path
        ));
    }
    let html = books_to_html(&books);
    let expected = format!(
        "{}{}{}{}<tbody>\n{}</tbody></table>{}",
        DOCUMENT_OPEN, STYLE, DOCUMENT_MIDDLE, TABLE_OPEN, rows, DOCUMENT_CLOSE
    );
    assert_eq!(html, expected);
}
