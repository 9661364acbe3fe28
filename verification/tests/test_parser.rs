use rcmark::CmarkOptions;
use rcmark::Error;
use rcmark::NodeType;
use rcmark::Parser;
use rcmark::parse_document;
use rcmark::render_html;

#[test]
pub fn basic_parse() {
    let markdown = "**Hi**";
    let tree = parse_document(markdown, CmarkOptions::default());

    assert!(tree.node_type() == NodeType::Document);
    let paragraph = tree.first_child().unwrap();
    assert!(paragraph.node_type() == NodeType::Paragraph);
    let strong = paragraph.first_child().unwrap();
    assert!(strong.node_type() == NodeType::Strong);
    let text = strong.first_child().unwrap();
    assert!(text.literal().unwrap() == "Hi");
}

#[test]
fn streamed_matches_one_shot() {
    let text = "My *name* is **Inigo Montoya**";
    let mut parser = Parser::new(CmarkOptions::default());
    parser.feed(text).unwrap();
    let streamed = parser.finish().unwrap();

    assert_eq!(streamed.node_type(), NodeType::Document);
    let one_shot = parse_document(text, CmarkOptions::default());
    assert!(streamed.tree_equal(&one_shot));
}

#[test]
fn feeding_in_chunks_matches_one_shot() {
    let mut parser = Parser::new(CmarkOptions::default());
    parser.feed("# He").unwrap();
    parser.feed("ading\nand a ").unwrap();
    parser.feed("*paragraph*").unwrap();
    let streamed = parser.finish().unwrap();
    let one_shot = parse_document("# Heading\nand a *paragraph*", CmarkOptions::default());
    assert!(streamed.tree_equal(&one_shot));
}

#[test]
fn use_after_finish() {
    let mut parser = Parser::new(CmarkOptions::default());
    parser.feed("words").unwrap();
    parser.finish().unwrap();
    assert_eq!(parser.feed("more"), Err(Error::UseAfterFinish));
    assert!(matches!(parser.finish(), Err(Error::UseAfterFinish)));
}

#[test]
fn blank_lines_separate_blocks() {
    let tree = parse_document("one\n\ntwo\n   \nthree", CmarkOptions::default());
    assert_eq!(tree.child_count(), 3);
    for i in 0..3 {
        assert_eq!(tree.child(i).unwrap().node_type(), NodeType::Paragraph);
    }
}

#[test]
fn heading_levels() {
    let tree = parse_document("### Three\n####### NotAHeading", CmarkOptions::default());
    assert_eq!(tree.child_count(), 2);
    let h = tree.child(0).unwrap();
    assert_eq!(h.node_type(), NodeType::Header);
    assert_eq!(h.header_level().unwrap(), 3);
    assert_eq!(h.first_child().unwrap().literal().unwrap(), "Three");
    assert_eq!(tree.child(1).unwrap().node_type(), NodeType::Paragraph);
}

#[test]
fn soft_breaks_and_code_spans() {
    let tree = parse_document("a\nb and `code`", CmarkOptions::default());
    let para = tree.first_child().unwrap();
    assert_eq!(para.child(0).unwrap().literal().unwrap(), "a");
    assert_eq!(para.child(1).unwrap().node_type(), NodeType::SoftBreak);
    assert_eq!(para.child(2).unwrap().literal().unwrap(), "b and ");
    let code = para.child(3).unwrap();
    assert_eq!(code.node_type(), NodeType::Code);
    assert_eq!(code.literal().unwrap(), "code");
}

#[test]
fn unmatched_delimiters_are_text() {
    let tree = parse_document("2 * 3 and a_variable", CmarkOptions::default());
    let para = tree.first_child().unwrap();
    assert_eq!(render_html(&tree, CmarkOptions::default()), "<p>2 * 3 and a_variable</p>\n");
    assert!(para.child_count() >= 1);
}

#[test]
fn smart_punctuation() {
    let tree = parse_document("it's -- fine --- 'q'", CmarkOptions::smart());
    let para = tree.first_child().unwrap();
    assert_eq!(para.child_count(), 1);
    assert_eq!(
        para.first_child().unwrap().literal().unwrap(),
        "it\u{2019}s \u{2013} fine \u{2014} \u{2018}q\u{2019}"
    );

    let plain = parse_document("it's -- fine", CmarkOptions::default());
    assert_eq!(plain.first_child().unwrap().first_child().unwrap().literal().unwrap(),
        "it's -- fine");
}

#[test]
fn normalize_consolidates_after_parse() {
    // Identical input parses to the same tree with and without
    // normalization here, since the engine already merges text runs; the
    // option must still leave a normalized tree behind.
    let normalized = parse_document("plain *em* text", CmarkOptions::normalize());
    let plain = parse_document("plain *em* text", CmarkOptions::default());
    assert!(normalized.tree_equal(&plain));
}

#[test]
fn sourcepos_records_line_ranges() {
    let tree = parse_document("# Hi\n\nsecond\nparagraph", CmarkOptions::sourcepos());
    assert_eq!(tree.start_line(), 1);
    assert_eq!(tree.start_column(), 1);
    assert_eq!(tree.end_line(), 4);
    assert_eq!(tree.end_column(), 9);

    let heading = tree.child(0).unwrap();
    assert_eq!(heading.start_line(), 1);
    assert_eq!(heading.end_line(), 1);
    assert_eq!(heading.end_column(), 4);

    let para = tree.child(1).unwrap();
    assert_eq!(para.start_line(), 3);
    assert_eq!(para.end_line(), 4);

    let untracked = parse_document("# Hi", CmarkOptions::default());
    assert_eq!(untracked.start_line(), 0);
    assert_eq!(untracked.child(0).unwrap().start_line(), 0);
}

#[test]
fn combined_options() {
    let opts = CmarkOptions::normalize().union(CmarkOptions::smart());
    assert_eq!(opts.bits, 4 | 8);
    let tree = parse_document("a -- b", opts);
    assert_eq!(
        tree.first_child().unwrap().first_child().unwrap().literal().unwrap(),
        "a \u{2013} b"
    );
}

#[test]
fn empty_and_trailing_newline() {
    let tree = parse_document("", CmarkOptions::default());
    assert_eq!(tree.node_type(), NodeType::Document);
    assert_eq!(tree.child_count(), 0);

    let trailing = parse_document("words\n", CmarkOptions::default());
    assert_eq!(trailing.child_count(), 1);
    assert_eq!(trailing.first_child().unwrap().first_child().unwrap().literal().unwrap(), "words");
}
