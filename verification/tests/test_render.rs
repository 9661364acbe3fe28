use rcmark::CmarkOptions;
use rcmark::NodeType;
use rcmark::parse_document;
use rcmark::render_commonmark;
use rcmark::render_html;
use rcmark::render_man;
use rcmark::render_xml;
use rcmark::Node;

#[test]
fn test_render_html() {
    let doc = parse_document("# Hi\n*This* is _CommonMark_", CmarkOptions::default());

    let rendered = render_html(&doc, CmarkOptions::default());
    assert_eq!(rendered, "<h1>Hi</h1>\n<p><em>This</em> is <em>CommonMark</em></p>\n");
}

#[test]
fn test_render_man() {
    let doc = parse_document("# Section\n**Text**", CmarkOptions::default());
    let rendered = render_man(&doc, CmarkOptions::default());
    assert_eq!(rendered, ".SH\nSection\n.PP\n\\f[B]Text\\f[]\n");
}

#[test]
fn basic_api() {
    let doc = parse_document("**This** is _CommonMark_", CmarkOptions::default());
    let html = render_html(&doc, CmarkOptions::default());
    assert!(html == "<p><strong>This</strong> is <em>CommonMark</em></p>\n");
}

#[test]
fn render_xml_document() {
    let doc = parse_document("# Hello", CmarkOptions::default());
    assert_eq!(
        render_xml(&doc, CmarkOptions::default()),
        "<?xml version=\"1.0\" encoding=\"UTF-8\"?>\n\
         <!DOCTYPE CommonMark SYSTEM \"CommonMark.dtd\">\n\
         <document>\n  \
           <header level=\"1\">\n    \
             <text>Hello</text>\n  \
           </header>\n\
         </document>\n"
    );
}

#[test]
fn render_commonmark_heading() {
    let doc = parse_document("# Hello", CmarkOptions::default());
    assert_eq!(render_commonmark(&doc, CmarkOptions::default(), 2), "# Hello\n");
}

#[test]
fn render_commonmark_two_blocks() {
    let doc = parse_document("# Title\nSome words", CmarkOptions::default());
    assert_eq!(render_commonmark(&doc, CmarkOptions::default(), 0), "# Title\n\nSome words\n");
}

#[test]
fn render_commonmark_wraps_paragraphs() {
    let doc = parse_document("aaa bbb ccc", CmarkOptions::default());
    assert_eq!(render_commonmark(&doc, CmarkOptions::default(), 7), "aaa bbb\nccc\n");
}

#[test]
fn render_html_escapes_text() {
    let mut doc = Node::new(NodeType::Document);
    let mut para = Node::new(NodeType::Paragraph);
    let mut text = Node::new(NodeType::Text);
    text.set_literal("a < b & c > \"d\"").unwrap();
    para.append_child(&vec![], text);
    doc.append_child(&vec![], para);
    assert_eq!(
        render_html(&doc, CmarkOptions::default()),
        "<p>a &lt; b &amp; c &gt; &quot;d&quot;</p>\n"
    );
}

#[test]
fn render_html_hardbreaks_option() {
    let doc = parse_document("one\ntwo", CmarkOptions::default());
    assert_eq!(render_html(&doc, CmarkOptions::default()), "<p>one\ntwo</p>\n");
    assert_eq!(render_html(&doc, CmarkOptions::hardbreaks()), "<p>one<br />\ntwo</p>\n");
}

#[test]
fn commonmark_round_trip_preserves_kinds() {
    // A tree built by hand: a paragraph and a heading under the document.
    let mut doc = Node::new(NodeType::Document);
    let mut para = Node::new(NodeType::Paragraph);
    let mut words = Node::new(NodeType::Text);
    words.set_literal("Hello world").unwrap();
    let mut strong = Node::new(NodeType::Strong);
    let mut strong_text = Node::new(NodeType::Text);
    strong_text.set_literal("loudly").unwrap();
    strong.append_child(&vec![], strong_text);
    para.append_child(&vec![], words);
    para.append_child(&vec![], strong);
    let mut heading = Node::new(NodeType::Header);
    heading.set_header_level(2).unwrap();
    let mut title = Node::new(NodeType::Text);
    title.set_literal("Title").unwrap();
    heading.append_child(&vec![], title);
    doc.append_child(&vec![], para);
    doc.append_child(&vec![], heading);

    let once = render_commonmark(&doc, CmarkOptions::default(), 0);
    let reparsed = parse_document(&once, CmarkOptions::default());
    let twice = render_commonmark(&reparsed, CmarkOptions::default(), 0);
    assert_eq!(once, twice);

    // The reparsed tree has the same kind structure as the original.
    assert_eq!(reparsed.node_type(), NodeType::Document);
    assert_eq!(reparsed.child_count(), 2);
    let p = reparsed.child(0).unwrap();
    assert_eq!(p.node_type(), NodeType::Paragraph);
    assert_eq!(p.child(0).unwrap().node_type(), NodeType::Text);
    assert_eq!(p.child(1).unwrap().node_type(), NodeType::Strong);
    assert_eq!(p.child(1).unwrap().child(0).unwrap().node_type(), NodeType::Text);
    let h = reparsed.child(1).unwrap();
    assert_eq!(h.node_type(), NodeType::Header);
    assert_eq!(h.header_level().unwrap(), 2);
    assert_eq!(h.child(0).unwrap().node_type(), NodeType::Text);
}
