use anywords::extract::{
    choose_reader, detect_and_decode, extract_archive_text, extract_binary_strings,
    extract_pdf_text, extract_pdf_tj, extract_plain_text, extract_text, is_tika_format,
    pdf_text_of, strip_html_tags, strip_xml_tags, ArchiveEntry, ArchiveKind, ExtractError,
    FileData, Reader,
};

const NO_PDF_TEXT: &str =
    "[PDF text extraction limited - no embedded text found. OCR may be needed for scanned PDFs]";

#[test]
fn xml_tags_are_stripped() {
    assert_eq!(strip_xml_tags("<w:t>Hello</w:t> <w:t>World</w:t>"), "Hello World");
    assert_eq!(strip_xml_tags("a > b <c"), "a  b ");
    assert_eq!(strip_xml_tags(""), "");
}

#[test]
fn html_tags_scripts_and_entities() {
    assert_eq!(
        strip_html_tags("<p>Hi &amp; bye</p><script>var x = 1;</script><br>A&lt;B&nbsp;C"),
        "\nHi & bye\n\nA<B C"
    );
    assert_eq!(strip_html_tags("<STYLE>p{}</STYLE>text<BR/>"), "text\n");
    assert_eq!(strip_html_tags("&quot;q&quot; &apos;a&apos; &gt;"), "\"q\" 'a' >");
    assert_eq!(strip_html_tags("<Script type=x>hidden</script>shown"), "shown");
}

#[test]
fn html_entities_are_decoded_once() {
    assert_eq!(strip_html_tags("&amp;lt;"), "&lt;");
    assert_eq!(strip_html_tags("&amp;amp;"), "&amp;");
    assert_eq!(strip_html_tags("a &amp;nbsp; b"), "a &nbsp; b");
    assert_eq!(strip_html_tags("&lt;b&gt;"), "<b>");
    assert_eq!(strip_html_tags("& alone &am"), "& alone &am");
}

#[test]
fn pdf_text_operators() {
    assert_eq!(extract_pdf_tj("(Hello World) Tj"), Some("Hello World".to_string()));
    assert_eq!(extract_pdf_tj("(a\\(b\\)c\\n) Tj"), Some("a(b)c\n".to_string()));
    assert_eq!(extract_pdf_tj("(outer (inner) tail) Tj"), Some("outer inner tail".to_string()));
    assert_eq!(extract_pdf_tj("[(Hel) -20 (lo)] TJ"), Some("Hello".to_string()));
    assert_eq!(extract_pdf_tj("() Tj"), None);
    assert_eq!(extract_pdf_tj("BT /F1 12 Tf"), None);
    assert_eq!(extract_pdf_tj("no operator (here)"), None);
}

#[test]
fn pdf_text_blocks() {
    let pdf = "%PDF-1.4\nBT\n(First) Tj\n  (Second) Tj  \nET\n(Outside) Tj\nBT\n[(A) 5 (B)] TJ\nET\n";
    assert_eq!(pdf_text_of(pdf), "FirstSecondAB");
    assert_eq!(pdf_text_of("%PDF\n(no block) Tj\n"), NO_PDF_TEXT);
    let c = extract_pdf_text(pdf.as_bytes(), "application/pdf");
    assert_eq!(c.text, "FirstSecondAB");
    assert_eq!(c.mime_type, "application/pdf");
    assert!(!c.used_tika);
}

#[test]
fn decoding_by_byte_order_mark() {
    assert_eq!(detect_and_decode(b"plain"), "plain");
    assert_eq!(detect_and_decode(&[0xEF, 0xBB, 0xBF, b'h', b'i']), "hi");
    assert_eq!(detect_and_decode(&[0xFF, 0xFE, b'h', 0, b'i', 0, b'!']), "hi");
    assert_eq!(detect_and_decode(&[0xFE, 0xFF, 0, b'h', 0, b'i']), "hi");
    assert_eq!(detect_and_decode(&[b'a', 0xFF, b'b']), "a\u{FFFD}b");
    assert_eq!(detect_and_decode("中文".as_bytes()), "中文");
    assert_eq!(detect_and_decode(&[]), "");
}

#[test]
fn readable_strings_of_binary_data() {
    let c = extract_binary_strings(b"\x00\x01Hello World\x00ab\x00long string!\x02tail", "application/x-bin");
    assert_eq!(c.text, "Hello World\nlong string!\ntail\n");
    assert_eq!(c.mime_type, "application/x-bin");
    assert!(!c.used_tika);
    assert_eq!(extract_binary_strings(b"abcd", "application/x-bin").text, "abcd\n");
    assert_eq!(
        extract_binary_strings(b"\x00abc", "application/x-bin").text,
        "[Binary file, type: application/x-bin]"
    );
    let none = extract_binary_strings(&[0, 1, 2, b'a', b'b', 3], "application/x-bin");
    assert_eq!(none.text, "[Binary file, type: application/x-bin]");
}

#[test]
fn plain_text_files() {
    let c = extract_plain_text("héllo".as_bytes(), "text/plain");
    assert_eq!(c.text, "héllo");
    let big = vec![b'a'; 50 * 1024 * 1024 + 1];
    assert_eq!(extract_plain_text(&big, "text/plain").text, "[File too large: 50 MB]");
    let limit = vec![b'a'; 50 * 1024 * 1024];
    assert_eq!(extract_plain_text(&limit, "text/plain").text.len(), 50 * 1024 * 1024);
}

fn entry(name: &str, content: Option<&str>) -> ArchiveEntry {
    ArchiveEntry { name: name.to_string(), content: content.map(|s| s.to_string()) }
}

#[test]
fn archive_parts() {
    let docx = vec![
        entry("[Content_Types].xml", Some("<Types/>")),
        entry("word/document.XML", Some("<w:p><w:t>Hello</w:t></w:p>")),
        entry("word/media/image1.png", Some("PNG")),
        entry("_rels/.rels", Some("<Relationships/>")),
        entry("word/broken.xml", None),
    ];
    let c = extract_archive_text(ArchiveKind::OfficeOpenXml, &docx, "application/docx");
    assert_eq!(c.text, "\nHello\n\n");
    let empty = extract_archive_text(ArchiveKind::OfficeOpenXml, &vec![entry("a.png", Some("x"))], "m");
    assert_eq!(empty.text, "[No extractable text found in OOXML document]");

    let epub = vec![
        entry("OEBPS/ch1.xhtml", Some("<p>One</p>")),
        entry("OEBPS/style.css", Some("p{}")),
        entry("OEBPS/ch2.HTM", Some("Two &amp; more")),
    ];
    let e = extract_archive_text(ArchiveKind::Epub, &epub, "application/epub+zip");
    assert_eq!(e.text, "\nOne\n\nTwo & more\n");
    assert_eq!(
        extract_archive_text(ArchiveKind::Epub, &Vec::new(), "x").text,
        "[No text content found in EPUB]"
    );
}

#[test]
fn readers_by_type() {
    assert!(is_tika_format("application/msword"));
    assert!(!is_tika_format("text/plain"));
    assert_eq!(choose_reader("application/msword", true), Reader::Tika);
    assert_eq!(choose_reader("application/rtf", false), Reader::PlainOrBinary);
    assert_eq!(choose_reader("text/markdown", true), Reader::Plain);
    assert_eq!(
        choose_reader(
            "application/vnd.openxmlformats-officedocument.wordprocessingml.document",
            false
        ),
        Reader::Archive(ArchiveKind::OfficeOpenXml)
    );
    assert_eq!(choose_reader("application/pdf", false), Reader::Pdf);
    assert_eq!(choose_reader("application/epub+zip", false), Reader::Archive(ArchiveKind::Epub));
    assert_eq!(choose_reader("image/png", true), Reader::PlainOrBinary);
}

#[test]
fn extracting_by_type() {
    match extract_text("application/msword", &FileData::Bytes(vec![1, 2]), true) {
        Err(ExtractError::NeedsTika(m)) => assert_eq!(m, "application/msword"),
        other => panic!("{:?}", other),
    }
    let doc = extract_text("application/msword", &FileData::Bytes(b"text".to_vec()), false).unwrap();
    assert_eq!(doc.text, "text");
    assert!(!doc.used_tika);
    let pdf = extract_text("application/pdf", &FileData::Bytes(b"BT\n(x) Tj\nET".to_vec()), true).unwrap();
    assert_eq!(pdf.text, "x");
    let book = extract_text(
        "application/epub+zip",
        &FileData::Entries(vec![entry("a.html", Some("<b>bold</b>"))]),
        false,
    )
    .unwrap();
    assert_eq!(book.text, "bold\n");
    assert_eq!(book.mime_type, "application/epub+zip");
}
