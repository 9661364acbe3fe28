use rcmark::CmarkOptions;
use rcmark::EventType;
use rcmark::Node;
use rcmark::NodeIterator;
use rcmark::NodeType;
use rcmark::parse_document;

fn collect(iter: &mut NodeIterator) -> Vec<(EventType, NodeType)> {
    let mut out = Vec::new();
    while let Some((ev, node)) = iter.next() {
        out.push((ev, node.node_type()));
    }
    out
}

#[test]
fn pre_order_events() {
    let tree = parse_document("**Hi**", CmarkOptions::default());
    let mut iter = tree.iter();
    let events = collect(&mut iter);
    assert_eq!(
        events,
        vec![
            (EventType::Enter, NodeType::Document),
            (EventType::Enter, NodeType::Paragraph),
            (EventType::Enter, NodeType::Strong),
            (EventType::Enter, NodeType::Text),
            (EventType::Exit, NodeType::Strong),
            (EventType::Exit, NodeType::Paragraph),
            (EventType::Exit, NodeType::Document),
        ]
    );
    // Exhausted: further steps produce no more elements.
    assert!(iter.next().is_none());
    assert!(iter.next().is_none());
    assert_eq!(iter.event_type(), EventType::Done);
}

#[test]
fn enter_events_visit_every_node_once_in_pre_order() {
    let tree = parse_document("# One\ntwo *three*", CmarkOptions::default());
    let mut iter = tree.iter();
    let mut enters = Vec::new();
    let mut exits = Vec::new();
    while let Some((ev, node)) = iter.next() {
        if ev == EventType::Enter {
            enters.push(node.node_type());
        } else {
            exits.push(node.node_type());
        }
    }
    // Every node of the tree exactly once, in document pre-order.
    assert_eq!(
        enters,
        vec![
            NodeType::Document,
            NodeType::Header,
            NodeType::Text,
            NodeType::Paragraph,
            NodeType::Text,
            NodeType::Emph,
            NodeType::Text,
        ]
    );
    assert_eq!(enters.len(), tree.node_count());
    // Exactly the nodes with at least one child, in order of completion.
    assert_eq!(
        exits,
        vec![NodeType::Header, NodeType::Emph, NodeType::Paragraph, NodeType::Document]
    );
}

#[test]
fn iterator_state_and_root() {
    let tree = parse_document("hello", CmarkOptions::default());
    let mut iter = tree.iter();
    assert_eq!(iter.event_type(), EventType::NoEvent);
    assert_eq!(iter.node().node_type(), NodeType::Document);
    assert_eq!(iter.root().node_type(), NodeType::Document);

    let (ev, node) = iter.next().unwrap();
    assert_eq!(ev, EventType::Enter);
    assert_eq!(node.node_type(), NodeType::Document);
    assert_eq!(iter.event_type(), EventType::Enter);
    assert_eq!(iter.node().node_type(), NodeType::Document);

    let (ev, node) = iter.next().unwrap();
    assert_eq!(ev, EventType::Enter);
    assert_eq!(node.node_type(), NodeType::Paragraph);
}

#[test]
fn reset_resumes_the_walk() {
    let tree = parse_document("**Hi**", CmarkOptions::default());
    let mut iter = tree.iter();
    // Run the walk to its end.
    while iter.next().is_some() {}

    // Reposition onto entering the strong node and continue from there.
    assert!(iter.reset(&vec![0, 0], EventType::Enter));
    assert_eq!(iter.event_type(), EventType::Enter);
    assert_eq!(iter.node().node_type(), NodeType::Strong);
    let events = collect(&mut iter);
    assert_eq!(
        events,
        vec![
            (EventType::Enter, NodeType::Text),
            (EventType::Exit, NodeType::Strong),
            (EventType::Exit, NodeType::Paragraph),
            (EventType::Exit, NodeType::Document),
        ]
    );

    // Repositioning to an event that never occurs fails and changes
    // nothing: a leaf text node emits no exit event.
    assert!(!iter.reset(&vec![0, 0, 0], EventType::Exit));
}

#[test]
fn dropping_an_iterator_leaves_the_tree_alone() {
    let tree = parse_document("some *words*", CmarkOptions::default());
    let before = tree.node_count();
    {
        let mut iter = tree.iter();
        let _ = iter.next();
    }
    assert_eq!(tree.node_count(), before);
    assert_eq!(tree.first_child().unwrap().node_type(), NodeType::Paragraph);
}

#[test]
fn event_list_of_single_node() {
    let leaf = Node::new(NodeType::Hrule);
    let mut iter = leaf.iter();
    let events = collect(&mut iter);
    assert_eq!(events, vec![(EventType::Enter, NodeType::Hrule)]);
}
