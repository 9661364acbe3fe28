use rcmark::DelimType;
use rcmark::Error;
use rcmark::ListType;
use rcmark::Node;
use rcmark::NodeType;

#[test]
fn test_node_type() {
    let node = Node::new(NodeType::List);
    assert!(node.node_type() == NodeType::List);
    assert!(node.type_string() == "list");
}

#[test]
fn fresh_node_defaults() {
    let node = Node::new(NodeType::Header);
    assert_eq!(node.node_type(), NodeType::Header);
    assert_eq!(node.header_level().unwrap(), 1);
    assert_eq!(node.child_count(), 0);
    assert!(node.first_child().is_none());
    assert!(node.last_child().is_none());
    assert_eq!(node.start_line(), 0);
    assert_eq!(node.start_column(), 0);
    assert_eq!(node.end_line(), 0);
    assert_eq!(node.end_column(), 0);
}

#[test]
fn kind_gated_accessors_mismatch() {
    let para = Node::new(NodeType::Paragraph);
    assert_eq!(para.literal(), Err(Error::TypeMismatch));
    assert_eq!(para.header_level(), Err(Error::TypeMismatch));
    assert_eq!(para.list_type(), Err(Error::TypeMismatch));
    assert_eq!(para.list_delim(), Err(Error::TypeMismatch));
    assert_eq!(para.list_start(), Err(Error::TypeMismatch));
    assert_eq!(para.list_tight(), Err(Error::TypeMismatch));
    assert_eq!(para.fence_info(), Err(Error::TypeMismatch));
    assert_eq!(para.url(), Err(Error::TypeMismatch));
    assert_eq!(para.title(), Err(Error::TypeMismatch));

    let mut text = Node::new(NodeType::Text);
    assert_eq!(text.set_header_level(2), Err(Error::TypeMismatch));
    assert_eq!(text.set_literal("words"), Ok(()));
    assert_eq!(text.literal().unwrap(), "words");
}

#[test]
fn rejected_writes() {
    let mut heading = Node::new(NodeType::Header);
    assert_eq!(heading.set_header_level(0), Err(Error::WriteRejected));
    assert_eq!(heading.set_header_level(7), Err(Error::WriteRejected));
    assert_eq!(heading.set_header_level(3), Ok(()));
    assert_eq!(heading.header_level().unwrap(), 3);

    let mut list = Node::new(NodeType::List);
    assert_eq!(list.set_list_type(ListType::NoList), Err(Error::WriteRejected));
    assert_eq!(list.set_list_type(ListType::Ordered), Ok(()));
    assert_eq!(list.list_type().unwrap(), ListType::Ordered);
    assert_eq!(list.set_list_delim(DelimType::NoDelim), Err(Error::WriteRejected));
    assert_eq!(list.set_list_delim(DelimType::Paren), Ok(()));
    assert_eq!(list.list_delim().unwrap(), DelimType::Paren);
    assert_eq!(list.set_list_start(-1), Err(Error::WriteRejected));
    assert_eq!(list.set_list_start(4), Ok(()));
    assert_eq!(list.list_start().unwrap(), 4);
    assert_eq!(list.set_list_tight(true), Ok(()));
    assert_eq!(list.list_tight().unwrap(), true);
}

#[test]
fn link_fields() {
    let mut link = Node::new(NodeType::Link);
    assert_eq!(link.set_url("https://example.com"), Ok(()));
    assert_eq!(link.set_title("An example"), Ok(()));
    assert_eq!(link.url().unwrap(), "https://example.com");
    assert_eq!(link.title().unwrap(), "An example");

    let mut code = Node::new(NodeType::CodeBlock);
    assert_eq!(code.set_fence_info("rust"), Ok(()));
    assert_eq!(code.fence_info().unwrap(), "rust");
}

fn text(lit: &str) -> Node {
    let mut n = Node::new(NodeType::Text);
    n.set_literal(lit).unwrap();
    n
}

#[test]
fn navigation() {
    let mut doc = Node::new(NodeType::Document);
    let mut para = Node::new(NodeType::Paragraph);
    para.append_child(&vec![], text("a"));
    para.append_child(&vec![], text("b"));
    para.append_child(&vec![], text("c"));
    doc.append_child(&vec![], para);

    assert!(doc.has_node(&vec![0, 1]));
    assert!(!doc.has_node(&vec![0, 3]));
    assert!(!doc.has_node(&vec![1]));

    let b = doc.node_at(&vec![0, 1]).unwrap();
    assert_eq!(b.literal().unwrap(), "b");

    let next = doc.next(&vec![0, 1]).unwrap();
    assert_eq!(next.literal().unwrap(), "c");
    assert!(doc.next(&vec![0, 2]).is_none());

    let previous = doc.previous(&vec![0, 1]).unwrap();
    assert_eq!(previous.literal().unwrap(), "a");
    assert!(doc.previous(&vec![0, 0]).is_none());

    let parent = doc.parent(&vec![0, 1]).unwrap();
    assert_eq!(parent.node_type(), NodeType::Paragraph);
    assert!(doc.parent(&vec![]).is_none());

    assert_eq!(doc.first_child().unwrap().node_type(), NodeType::Paragraph);
    assert_eq!(parent.first_child().unwrap().literal().unwrap(), "a");
    assert_eq!(parent.last_child().unwrap().literal().unwrap(), "c");
    assert_eq!(parent.child_count(), 3);
}

#[test]
fn unlink_conserves_nodes() {
    let mut doc = Node::new(NodeType::Document);
    let mut para = Node::new(NodeType::Paragraph);
    let mut strong = Node::new(NodeType::Strong);
    strong.append_child(&vec![], text("x"));
    para.append_child(&vec![], strong);
    para.append_child(&vec![], text("y"));
    doc.append_child(&vec![], para);

    let before = doc.node_count();
    assert_eq!(before, 5);

    // Detaching a subtree makes it an independently owned root; every node
    // is either in the remaining tree or in the detached one, exactly once.
    let detached = doc.unlink(&vec![0, 0]);
    assert_eq!(detached.node_type(), NodeType::Strong);
    assert_eq!(detached.node_count(), 2);
    assert_eq!(doc.node_count(), 3);
    assert_eq!(doc.node_count() + detached.node_count(), before);

    // The vacated links are fixed up.
    let para_ref = doc.first_child().unwrap();
    assert_eq!(para_ref.child_count(), 1);
    assert_eq!(para_ref.first_child().unwrap().literal().unwrap(), "y");
}

#[test]
fn insert_siblings() {
    let mut doc = Node::new(NodeType::Document);
    let mut para = Node::new(NodeType::Paragraph);
    para.append_child(&vec![], text("b"));
    doc.append_child(&vec![], para);

    doc.insert_before(&vec![0, 0], text("a"));
    doc.insert_after(&vec![0, 1], text("c"));
    doc.prepend_child(&vec![0], text("start"));

    let p = doc.first_child().unwrap();
    assert_eq!(p.child_count(), 4);
    assert_eq!(p.child(0).unwrap().literal().unwrap(), "start");
    assert_eq!(p.child(1).unwrap().literal().unwrap(), "a");
    assert_eq!(p.child(2).unwrap().literal().unwrap(), "b");
    assert_eq!(p.child(3).unwrap().literal().unwrap(), "c");
    assert_eq!(doc.node_count(), 6);
}

#[test]
fn consolidate_merges_adjacent_text() {
    let mut para = Node::new(NodeType::Paragraph);
    para.append_child(&vec![], text("foo"));
    para.append_child(&vec![], text("bar"));
    let mut emph = Node::new(NodeType::Emph);
    emph.append_child(&vec![], text("in"));
    emph.append_child(&vec![], text("ner"));
    para.append_child(&vec![], emph);

    para.consolidate_text_nodes();
    assert_eq!(para.child_count(), 2);
    assert_eq!(para.child(0).unwrap().literal().unwrap(), "foobar");
    assert_eq!(para.child(1).unwrap().child_count(), 1);
    assert_eq!(para.child(1).unwrap().child(0).unwrap().literal().unwrap(), "inner");
}

#[test]
fn consolidate_is_idempotent() {
    let mut para = Node::new(NodeType::Paragraph);
    para.append_child(&vec![], text("one "));
    para.append_child(&vec![], text("two "));
    para.append_child(&vec![], Node::new(NodeType::SoftBreak));
    para.append_child(&vec![], text("three"));

    para.consolidate_text_nodes();
    let mut second = clone_tree(&para);
    second.consolidate_text_nodes();
    assert!(para.tree_equal(&second));
}

fn clone_tree(n: &Node) -> Node {
    // Rebuild a tree by walking it through the public API.
    let mut copy = Node::new(n.node_type());
    if let Ok(lit) = n.literal() {
        copy.set_literal(lit).unwrap();
    }
    if let Ok(level) = n.header_level() {
        copy.set_header_level(level).unwrap();
    }
    let mut i: usize = 0;
    while let Some(c) = n.child(i) {
        copy.append_child(&vec![], clone_tree(c));
        i += 1;
    }
    copy
}

#[test]
fn tree_equal_detects_differences() {
    let mut a = Node::new(NodeType::Paragraph);
    a.append_child(&vec![], text("same"));
    let mut b = Node::new(NodeType::Paragraph);
    b.append_child(&vec![], text("same"));
    assert!(a.tree_equal(&b));
    let mut c = Node::new(NodeType::Paragraph);
    c.append_child(&vec![], text("other"));
    assert!(!a.tree_equal(&c));
}
