use adoc_parser::ast::{
    Attribute, Block, BlockContent, Date, DelimitedBlockContent, ListContent, SectionContent,
    UndelimitedBlockContent,
};
use adoc_parser::checkpoint_iterator::CheckpointIterator;

fn stream(text: &str) -> CheckpointIterator<char> {
    CheckpointIterator::new(text.chars().collect())
}

fn attr(key: &str, value: Option<&str>) -> Attribute {
    Attribute { key: key.to_string(), value: value.map(|v| v.to_string()) }
}

#[test]
fn line_stops_before_control_character() {
    let mut s = stream("abc\ndef");
    assert_eq!(s.parse_line().unwrap(), "abc");
    assert_eq!(s.current_position(), 3);
    assert_eq!(s.step(), Some('\n'));
}

#[test]
fn line_may_be_empty() {
    let mut s = stream("\n");
    assert_eq!(s.parse_line().unwrap(), "");
    assert_eq!(s.current_position(), 0);
}

#[test]
fn decimal_ignores_separators() {
    let mut s = stream("1_000x");
    assert_eq!(s.parse_decimal().unwrap(), 1000);
    assert_eq!(s.current_position(), 5);
}

#[test]
fn decimal_without_digit_fails_and_reads_nothing() {
    let mut s = stream("__x");
    assert!(s.parse_decimal().is_err());
    assert_eq!(s.current_position(), 0);
}

#[test]
fn decimal_too_large_fails() {
    let mut s = stream("99999999999999999999999");
    assert!(s.parse_decimal().is_err());
    assert_eq!(s.current_position(), 0);
}

#[test]
fn version_reads_dotted_numbers() {
    let mut s = stream("1.2.30 rest");
    assert_eq!(s.parse_version().unwrap(), vec![1, 2, 30]);
    assert_eq!(s.current_position(), 6);
}

#[test]
fn version_may_be_empty() {
    let mut s = stream("x");
    assert_eq!(s.parse_version().unwrap(), Vec::<isize>::new());
    assert_eq!(s.current_position(), 0);
}

#[test]
fn date_with_separators() {
    let mut s = stream("2023-01-15 x");
    assert_eq!(s.parse_date().unwrap(), Date { year: 2023, month: 1, day: 15 });
    assert_eq!(s.current_position(), 10);
}

#[test]
fn date_without_separators() {
    let mut s = stream("20240229");
    assert_eq!(s.parse_date().unwrap(), Date { year: 2024, month: 2, day: 29 });
}

#[test]
fn date_that_does_not_exist_fails() {
    let mut s = stream("2023-02-30");
    assert!(s.parse_date().is_err());
    assert_eq!(s.current_position(), 0);
    let mut t = stream("1900-02-29");
    assert!(t.parse_date().is_err());
    let mut u = stream("2023-13-01");
    assert!(u.parse_date().is_err());
}

#[test]
fn date_with_missing_digits_fails() {
    let mut s = stream("2023-1-15");
    assert!(s.parse_date().is_err());
    assert_eq!(s.current_position(), 0);
}

#[test]
fn url_is_read_up_to_the_first_other_character() {
    let mut s = stream("jane@example.com>");
    assert_eq!(s.parse_url().unwrap(), "jane@example.com");
    assert_eq!(s.current_position(), 16);
}

#[test]
fn empty_url_fails() {
    let mut s = stream(">");
    let e = s.parse_url().unwrap_err();
    assert_eq!(e.start, 0);
    assert_eq!(e.end, 0);
    assert_eq!(s.current_position(), 0);
}

#[test]
fn settle_url_rewinds_a_refused_token() {
    let mut s = stream("abc");
    s.push();
    s.step();
    s.step();
    let e = s.settle_url(String::from("ab"), false).unwrap_err();
    assert_eq!((e.start, e.end), (0, 2));
    assert_eq!(s.current_position(), 0);
    let mut t = stream("abc");
    t.push();
    t.step();
    assert_eq!(t.settle_url(String::from("a"), true).unwrap(), "a");
    assert_eq!(t.current_position(), 1);
    assert!(t.pop().is_err());
}

#[test]
fn heading_counts_markers() {
    let mut s = stream("  === Deep title\nnext");
    let h = s.parse_section_heading().unwrap();
    assert_eq!(h.level, 3);
    assert_eq!(h.text, "Deep title");
    assert_eq!(s.step(), Some('n'));
}

#[test]
fn heading_needs_marker_and_space() {
    let mut s = stream("Title");
    assert!(s.parse_section_heading().is_err());
    assert_eq!(s.current_position(), 0);
    let mut t = stream("=Title");
    assert!(t.parse_section_heading().is_err());
    assert_eq!(t.current_position(), 0);
}

#[test]
fn header_title_only() {
    let mut s = stream("= Title\n");
    let h = s.parse_document_header().unwrap();
    assert_eq!(h.title, Some(String::from("Title")));
    assert!(h.authors.is_empty());
    assert!(h.revision.version.is_empty());
    assert_eq!(h.revision.date, None);
    assert_eq!(h.revision.remark, "");
    assert_eq!(s.current_position(), 8);
}

#[test]
fn header_accepts_any_run_of_markers() {
    let mut s = stream("== T\n");
    let h = s.parse_document_header().unwrap();
    assert_eq!(h.title, Some(String::from("T")));
    assert_eq!(s.step(), None);
}

#[test]
fn header_needs_a_marker() {
    let mut s = stream("  Title\n");
    let e = s.parse_document_header().unwrap_err();
    assert_eq!((e.start, e.end), (0, 0));
    assert_eq!(s.current_position(), 0);
}

#[test]
fn section_after_a_header_is_a_block() {
    let mut s = stream("= Doc\n== Section\nSome text\n");
    let d = s.parse_document().unwrap();
    assert_eq!(d.header.unwrap().title, Some(String::from("Doc")));
    assert_eq!(d.content.blocks.len(), 1);
    assert_eq!(d.content.blocks[0].level, 2);
}

#[test]
fn author_with_unclosed_email_reports_the_address() {
    let mut s = stream("Jane Doe <jane@example.com;x");
    let e = s.parse_author().unwrap_err();
    assert_eq!((e.start, e.end), (10, 28));
    assert_eq!(s.current_position(), 0);
}

#[test]
fn failed_decimal_is_reported_where_it_started() {
    let mut s = stream("ab");
    s.step();
    let e = s.parse_decimal().unwrap_err();
    assert_eq!((e.start, e.end), (1, 1));
}

#[test]
fn opt_parse_commits_on_success() {
    let s = stream("12x");
    let (mut s, v) = s.opt_parse(|mut t: CheckpointIterator<char>| {
        let r = t.parse_decimal();
        (t, r)
    });
    assert_eq!(v, Some(12));
    assert_eq!(s.step(), Some('x'));
}

#[test]
fn opt_parse_rewinds_on_failure() {
    let s = stream("ab");
    let (mut s, v) = s.opt_parse(|mut t: CheckpointIterator<char>| {
        t.step();
        let r = t.parse_decimal();
        (t, r)
    });
    assert_eq!(v, None);
    assert_eq!(s.current_position(), 0);
    assert_eq!(s.step(), Some('a'));
}

#[test]
fn revision_line_with_version_date_and_remark() {
    let mut s = stream("v1.2, 2023-01-15: Initial release");
    let r = s.parse_revision_line().unwrap();
    assert_eq!(r.version, vec![1, 2]);
    assert_eq!(r.date, Some(Date { year: 2023, month: 1, day: 15 }));
    assert_eq!(r.remark, "Initial release");
}

#[test]
fn revision_line_with_invalid_date_keeps_remark() {
    let mut s = stream("2.0, 2023-02-31 later");
    let r = s.parse_revision_line().unwrap();
    assert_eq!(r.version, vec![2, 0]);
    assert_eq!(r.date, None);
    assert_eq!(r.remark, ", 2023-02-31 later");
}

#[test]
fn revision_line_with_remark_only() {
    let mut s = stream("very good\n");
    let r = s.parse_revision_line().unwrap();
    assert!(r.version.is_empty());
    assert_eq!(r.date, None);
    assert_eq!(r.remark, "very good");
    assert_eq!(s.current_position(), 10);
}

#[test]
fn author_with_middle_name_and_email() {
    let mut s = stream("Jane Q Doe <jane@example.com>");
    let a = s.parse_author().unwrap();
    assert_eq!(a.first_name, "Jane");
    assert_eq!(a.middle_name, Some(String::from("Q")));
    assert_eq!(a.last_name, Some(String::from("Doe")));
    assert_eq!(a.email, Some(String::from("jane@example.com")));
}

#[test]
fn author_with_first_name_only() {
    let mut s = stream("Plato");
    let a = s.parse_author().unwrap();
    assert_eq!(a.first_name, "Plato");
    assert_eq!(a.middle_name, None);
    assert_eq!(a.last_name, None);
    assert_eq!(a.email, None);
}

#[test]
fn author_with_two_names() {
    let mut s = stream("Jane Doe");
    let a = s.parse_author().unwrap();
    assert_eq!(a.middle_name, None);
    assert_eq!(a.last_name, Some(String::from("Doe")));
}

#[test]
fn author_with_unclosed_email_fails() {
    let mut s = stream("Jane Doe <jane@example.com");
    assert!(s.parse_author().is_err());
    assert_eq!(s.current_position(), 0);
}

#[test]
fn author_without_name_fails() {
    let mut s = stream("<a@b.c>");
    assert!(s.parse_author().is_err());
}

#[test]
fn authors_are_separated_by_semicolons() {
    let mut s = stream("Jane Doe; John Smith <john@example.org>\n");
    let v = s.parse_authors().unwrap();
    assert_eq!(v.len(), 2);
    assert_eq!(v[0].first_name, "Jane");
    assert_eq!(v[1].last_name, Some(String::from("Smith")));
    assert_eq!(v[1].email, Some(String::from("john@example.org")));
}

#[test]
fn authors_stop_at_a_bad_entry() {
    let mut s = stream("Jane Doe; John <oops");
    let v = s.parse_authors().unwrap();
    assert_eq!(v.len(), 1);
    assert_eq!(s.current_position(), 8);
}

#[test]
fn full_header() {
    let mut s = stream("= The Book\nJane Doe <jane@example.com>\nv2.1, 2020-05-06: Draft\n");
    let h = s.parse_document_header().unwrap();
    assert_eq!(h.title, Some(String::from("The Book")));
    assert_eq!(h.authors.len(), 1);
    assert_eq!(h.revision.version, vec![2, 1]);
    assert_eq!(h.revision.date, Some(Date { year: 2020, month: 5, day: 6 }));
    assert_eq!(h.revision.remark, "Draft");
    assert_eq!(s.step(), None);
}

#[test]
fn attribute_list_with_keys_and_values() {
    let mut s = stream("[foo=bar,baz]");
    let v = s.parse_attributes().unwrap();
    assert_eq!(v, vec![attr("foo", Some("bar")), attr("baz", None)]);
    assert_eq!(s.current_position(), 13);
}

#[test]
fn attribute_list_may_be_empty() {
    let mut s = stream("[]");
    assert!(s.parse_attributes().unwrap().is_empty());
}

#[test]
fn attribute_list_accepts_trailing_comma() {
    let mut s = stream("[a,]");
    assert_eq!(s.parse_attributes().unwrap(), vec![attr("a", None)]);
}

#[test]
fn attribute_list_without_closing_bracket_fails() {
    let mut s = stream("[a=b");
    assert!(s.parse_attributes().is_err());
    assert_eq!(s.current_position(), 0);
}

#[test]
fn attribute_list_without_opening_bracket_fails() {
    let mut s = stream("a=b]");
    assert!(s.parse_attributes().is_err());
    assert_eq!(s.current_position(), 0);
}

#[test]
fn attribute_with_empty_key_fails() {
    let mut s = stream("=x");
    assert!(s.parse_attribute().is_err());
    assert_eq!(s.current_position(), 0);
}

#[test]
fn section_with_text() {
    let mut s = stream("== Section\nSome text\n");
    let b = &s.parse_block().unwrap();
    assert_eq!(s.step(), None);
    assert_eq!(b.title, "Section");
    assert_eq!(b.level, 2);
    assert!(b.attributes.is_empty());
    assert_eq!(b.content, BlockContent::Section(vec![SectionContent::Text(String::from("Some text"))]));
}

#[test]
fn section_with_attributes_and_subsection() {
    let mut s = stream("= Top\n[role=main]\nintro\n== Sub\nbody\n");
    let b = s.parse_section_block().unwrap();
    assert_eq!(b.attributes, vec![attr("role", Some("main"))]);
    match &b.content {
        BlockContent::Section(items) => {
            assert_eq!(items.len(), 2);
            assert_eq!(items[0], SectionContent::Text(String::from("intro")));
            match &items[1] {
                SectionContent::Block(sub) => {
                    assert_eq!(sub.title, "Sub");
                    assert_eq!(sub.level, 2);
                },
                _ => panic!("expected a block"),
            }
        },
        _ => panic!("expected a section"),
    }
}

#[test]
fn list_block_with_nesting() {
    let mut s = stream("* one\n** one-a\n* two\n. three\n");
    let b = s.parse_block().unwrap();
    match b.content {
        BlockContent::List(items) => {
            assert_eq!(items.len(), 3);
            match &items[0] {
                ListContent::UnorderedList(u) => {
                    assert_eq!(u.text, "one");
                    assert_eq!(u.sublist.len(), 1);
                },
                _ => panic!("expected an unordered item"),
            }
            match &items[2] {
                ListContent::OrderedList(o) => assert_eq!(o.text, "three"),
                _ => panic!("expected an ordered item"),
            }
        },
        _ => panic!("expected a list"),
    }
    assert_eq!(s.step(), None);
}

#[test]
fn delimited_block_reads_to_its_fence() {
    let mut s = stream("----\ncode\n== not a heading\n----\nafter");
    let b = s.parse_delimited_block().unwrap();
    assert_eq!(
        b.content,
        BlockContent::Delimited(vec![
            DelimitedBlockContent::Text(String::from("code")),
            DelimitedBlockContent::Text(String::from("== not a heading")),
        ])
    );
    assert_eq!(s.parse_line().unwrap(), "after");
}

#[test]
fn delimited_block_without_closing_fence_fails() {
    let mut s = stream("----\ncode\n");
    assert!(s.parse_delimited_block().is_err());
    assert_eq!(s.current_position(), 0);
}

#[test]
fn undelimited_block_is_a_titled_paragraph() {
    let mut s = stream(".Note\nfirst\nsecond\n\nrest");
    let b = s.parse_undelimited_block().unwrap();
    assert_eq!(b.title, "Note");
    assert_eq!(
        b.content,
        BlockContent::Undelimited(vec![
            UndelimitedBlockContent::Text(String::from("first")),
            UndelimitedBlockContent::Text(String::from("second")),
        ])
    );
    assert_eq!(s.step(), Some('\n'));
}

#[test]
fn block_falls_back_through_the_kinds() {
    let mut s = stream(".Title\ntext\n");
    let b = s.parse_block().unwrap();
    assert_eq!(b.level, 0);
    assert_eq!(b.title, "Title");
    let mut t = stream("plain text\n");
    assert!(t.parse_block().is_err());
    assert_eq!(t.current_position(), 0);
}

#[test]
fn document_with_header_and_sections() {
    let text = "= Doc\nJane Doe\nv1.0\n== One\nalpha\n== Two\nbeta\n";
    let mut s = stream(text);
    let d = s.parse_document().unwrap();
    let h = d.header.as_ref().unwrap();
    assert_eq!(h.title, Some(String::from("Doc")));
    assert_eq!(h.revision.version, vec![1, 0]);
    assert_eq!(d.content.blocks.len(), 1);
    assert_eq!(d.content.blocks[0].title, "One");
}

#[test]
fn document_with_stray_text_fails_where_it_stops() {
    let mut s = stream("plain text\n");
    let e = s.parse_document().unwrap_err();
    assert_eq!((e.start, e.end), (0, 0));
}

#[test]
fn empty_document() {
    let mut s = stream("");
    let d = s.parse_document().unwrap();
    assert!(d.header.is_none());
    assert!(d.content.blocks.is_empty());
}

#[test]
fn reparsing_the_same_text_gives_the_same_tree() {
    let text = "= Doc\nJane Q Doe <jane@example.com>\nv1.2, 2023-01-15: Initial release\n== Section\n[foo=bar,baz]\nSome text\n=== Sub\nmore\n";
    let first = stream(text).parse_document().unwrap();
    let again = stream(text).parse_document().unwrap();
    assert_eq!(first, again);
    let blocks: Vec<&Block> = first.content.blocks.iter().collect();
    assert_eq!(blocks.len(), 1);
}

#[test]
fn author_names_are_split_on_any_blank() {
    let mut s = stream("Ann\u{A0}Lee\tx");
    let a = s.parse_author().unwrap();
    assert_eq!(a.first_name, "Ann");
    assert_eq!(a.last_name, Some(String::from("Lee")));
}

#[test]
fn header_marker_without_space_has_no_title() {
    let mut s = stream("=x\n");
    let h = s.parse_document_header().unwrap();
    assert_eq!(h.title, None);
    assert!(h.authors.is_empty());
    assert_eq!(s.step(), None);
}

#[test]
fn header_marker_then_author_line() {
    let mut s = stream("=\nJane Doe\n");
    let h = s.parse_document_header().unwrap();
    assert_eq!(h.title, None);
    assert_eq!(h.authors.len(), 1);
}

#[test]
fn url_token_takes_unicode_letters() {
    let mut s = stream("a\u{e9}>");
    let e = s.parse_url().unwrap_err();
    assert_eq!((e.start, e.end), (0, 2));
    assert_eq!(s.current_position(), 0);
}
