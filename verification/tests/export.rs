//! Handing a document over as a file.

use talimist::serve::export::{
    cannot_read, export, not_paged, query_value, raw_query_value, standalone, Format,
};

#[test]
fn a_format_is_read_from_the_query() {
    assert_eq!(query_value(Some("fmt=pdf"), "fmt").as_deref(), Some("pdf"));
    assert_eq!(query_value(Some("doc=paper&fmt=typ"), "fmt").as_deref(), Some("typ"));
    assert_eq!(query_value(Some("doc=paper"), "fmt"), None);
    assert_eq!(query_value(None, "fmt"), None);
}

#[test]
fn the_formats_are_the_three_it_says() {
    assert_eq!(Format::parse("typ"), Ok(Format::Typ));
    assert_eq!(Format::parse("html"), Ok(Format::Html));
    assert_eq!(Format::parse("pdf"), Ok(Format::Pdf));
    assert_eq!(Format::parse("anno.json"), Ok(Format::Annos));
    assert!(Format::parse("docx").is_err());
}

#[test]
fn a_standalone_page_keeps_the_document_and_drops_the_bookkeeping() {
    let rendered = "<html><head><style>p{margin:0}</style></head><body><p id=\"n7\" data-uid=\"n7\" data-typst-src=\"4:9\">Hello</p><img src=\"data:image/png;base64,AAAA\"></body></html>";
    let out = standalone(rendered);
    assert!(out.contains("<style>p{margin:0}</style>"), "{out}");
    assert!(out.contains("<p>Hello</p>"), "{out}");
    assert!(out.contains("data:image/png;base64,AAAA"), "{out}");
    assert!(!out.contains("data-uid"), "{out}");
    assert!(!out.contains("data-typst-src"), "{out}");
}

#[test]
fn a_plain_page_is_handed_over_as_it_is() {
    let page = "<p class=\"a\" id=\"intro\">data-uid=\"x\"</p>";
    assert_eq!(standalone(page), page);
}

#[test]
fn a_format_that_is_none_is_refused_by_name() {
    assert_eq!(
        Format::parse("docx").unwrap_err(),
        "cannot give you docx: fmt is typ, html, pdf or anno.json\n"
    );
    assert_eq!(Format::Annos.extension(), "annos.json");
    assert_eq!(Format::Pdf.mime(), "application/pdf");
}

#[test]
fn a_query_is_unescaped() {
    assert_eq!(query_value(Some("doc=a%20b+c"), "doc").as_deref(), Some("a b c"));
    assert_eq!(raw_query_value(Some("doc=a%20b"), "doc").as_deref(), Some("a%20b"));
    assert_eq!(query_value(Some("doc=plain-name"), "doc").as_deref(), Some("plain-name"));
    assert_eq!(query_value(Some("doc=Gr%C3%B6%C3%9Fe"), "doc").as_deref(), Some("Größe"));
}

#[test]
fn a_file_is_named_after_the_document() {
    let out = export(Format::Typ, "/docs/paper.typ", None, Ok(b"= A".to_vec())).unwrap();
    assert_eq!(out.bytes, b"= A".to_vec());
    assert_eq!(out.filename, "paper.typ");
    let page = export(Format::Html, "/docs/paper.typ", Some("<p id=\"n1\">x</p>"), Ok(vec![])).unwrap();
    assert_eq!(page.bytes, b"<p>x</p>".to_vec());
    assert_eq!(page.filename, "paper.html");
    assert!(export(Format::Html, "/docs/paper.typ", None, Ok(vec![])).is_err());
    assert_eq!(export(Format::Pdf, "/docs/paper.typ", None, Err("no\n".to_owned())).unwrap_err(), "no\n");
}

#[test]
fn what_cannot_be_given_is_said() {
    assert!(cannot_read("/docs/paper.typ", "gone").contains("/docs/paper.typ"));
    assert_eq!(not_paged(&vec![]), "the document does not compile to pages\n");
    assert_eq!(not_paged(&vec!["a".to_owned(), "b".to_owned()]), "a\nb\n");
}
