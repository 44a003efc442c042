use adoc_parser::ast::Attribute;
use adoc_parser::checkpoint_iterator::CheckpointIterator;
use adoc_parser::printer::{render_attributes, render_heading};

fn stream(text: &str) -> CheckpointIterator<char> {
    CheckpointIterator::new(text.chars().collect())
}

fn attr(key: &str, value: Option<&str>) -> Attribute {
    Attribute { key: key.to_string(), value: value.map(|v| v.to_string()) }
}

#[test]
fn render_attributes_text() {
    let v = vec![attr("foo", Some("bar")), attr("baz", None)];
    assert_eq!(render_attributes(&v), "[foo=bar,baz]");
    assert_eq!(render_attributes(&Vec::new()), "[]");
}

#[test]
fn rendered_attributes_parse_back() {
    let v = vec![attr("role", Some("main")), attr("x", Some("")), attr("id", None)];
    let text = render_attributes(&v);
    let mut s = stream(&text);
    assert_eq!(s.parse_attributes().unwrap(), v);
    assert_eq!(s.step(), None);
}

#[test]
fn render_heading_text() {
    assert_eq!(render_heading(3, &String::from("Deep")), "=== Deep\n");
}

#[test]
fn rendered_heading_parses_back() {
    let text = render_heading(2, &String::from("Section = two"));
    let mut s = stream(&text);
    let h = s.parse_section_heading().unwrap();
    assert_eq!(h.level, 2);
    assert_eq!(h.text, "Section = two");
    assert_eq!(s.step(), None);
}

#[test]
fn reparsing_a_printed_section_gives_the_same_block() {
    let mut s = stream("==   Section\n[foo=bar,baz]\nSome text\n");
    let block = s.parse_section_block().unwrap();
    let mut printed = render_heading(block.level, &block.title);
    printed.push_str(&render_attributes(&block.attributes));
    printed.push('\n');
    printed.push_str("Some text\n");
    let again = stream(&printed).parse_section_block().unwrap();
    assert_eq!(block, again);
}

#[test]
fn render_section_prints_nested_sections_last() {
    let mut s = stream("== A\n[k=v]\nline one\nline two\n=== B\ninner\n");
    let block = s.parse_section_block().unwrap();
    assert_eq!(
        adoc_parser::printer::render_section(&block),
        "== A\n[k=v]\nline one\nline two\n=== B\ninner\n"
    );
}

#[test]
fn printed_document_parses_back_to_the_same_document() {
    let text = "=  Top\nfirst\n\n===   Inner\n[a,b=c]\nsecond\n";
    let doc = stream(text).parse_document().unwrap();
    let printed = adoc_parser::printer::render_document(&doc);
    assert_eq!(printed, "= Top\nfirst\n=== Inner\n[a,b=c]\nsecond\n");
    let again = stream(&printed).parse_document().unwrap();
    assert_eq!(doc, again);
}

#[test]
fn empty_document_prints_empty() {
    let doc = stream("").parse_document().unwrap();
    assert_eq!(adoc_parser::printer::render_document(&doc), "");
}

#[test]
fn printed_document_with_header_parses_back() {
    let text = "=   The Book\nJane Q Doe <jane@example.com>; Plato\nv1.2, 2023-01-15: Initial release\n== Section\n[foo=bar,baz]\nSome text\n=== Sub\nmore\n";
    let doc = stream(text).parse_document().unwrap();
    let printed = adoc_parser::printer::render_document(&doc);
    assert_eq!(
        printed,
        "= The Book\nJane Q Doe<jane@example.com>; Plato\nv1.2, 2023-01-15: Initial release\n== Section\n[foo=bar,baz]\nSome text\n=== Sub\nmore\n"
    );
    let again = stream(&printed).parse_document().unwrap();
    assert_eq!(doc, again);
}

#[test]
fn render_header_pads_dates_and_joins_versions() {
    let mut s = stream("= T\nAda Lovelace\n10.0.7, 0987-03-04: r\n");
    let h = s.parse_document_header().unwrap();
    assert_eq!(
        adoc_parser::header_printer::render_header(&h),
        "= T\nAda Lovelace\nv10.0.7, 0987-03-04: r\n"
    );
}

#[test]
fn revision_without_authors_prints_a_placeholder_author_line() {
    let doc = stream("= T\n;\nv1\n").parse_document().unwrap();
    let printed = adoc_parser::printer::render_document(&doc);
    assert_eq!(printed, "= T\n;\nv1: \n");
    assert_eq!(stream(&printed).parse_document().unwrap(), doc);
}

#[test]
fn header_without_title_prints_back() {
    let doc = stream("=\nJane Doe\n").parse_document().unwrap();
    let printed = adoc_parser::printer::render_document(&doc);
    assert_eq!(printed, "=\nJane Doe\n");
    assert_eq!(stream(&printed).parse_document().unwrap(), doc);
}

#[test]
fn empty_lines_print_back() {
    let doc = stream("= Doc\n== A\n\nx\n\n\ny\n=== B\n\n").parse_document().unwrap();
    let printed = adoc_parser::printer::render_document(&doc);
    assert_eq!(stream(&printed).parse_document().unwrap(), doc);
}
