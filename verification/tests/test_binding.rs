use rcmark::Binding;
use rcmark::CmarkOptions;
use rcmark::DelimType;
use rcmark::EventType;
use rcmark::ListType;
use rcmark::NodeType;
use rcmark::cmark_version;
use rcmark::raw::cmark_delim_type;
use rcmark::raw::cmark_event_type;
use rcmark::raw::cmark_list_type;
use rcmark::raw::cmark_node_type;
use rcmark::version;

#[test]
fn node_type_round_trip() {
    let kinds = vec![
        NodeType::NoNode,
        NodeType::Document,
        NodeType::BlockQuote,
        NodeType::List,
        NodeType::Item,
        NodeType::CodeBlock,
        NodeType::Html,
        NodeType::Paragraph,
        NodeType::Header,
        NodeType::Hrule,
        NodeType::Text,
        NodeType::SoftBreak,
        NodeType::LineBreak,
        NodeType::Code,
        NodeType::InlineHtml,
        NodeType::Emph,
        NodeType::Strong,
        NodeType::Link,
        NodeType::Image,
    ];
    for kind in kinds {
        assert_eq!(NodeType::from_raw(kind.raw()), kind);
    }
    assert_eq!(NodeType::Document.raw(), cmark_node_type::CMARK_NODE_DOCUMENT);
    assert_eq!(NodeType::from_raw(cmark_node_type::CMARK_NODE_STRONG), NodeType::Strong);
}

#[test]
fn list_and_delim_round_trip() {
    for lt in vec![ListType::NoList, ListType::Bullet, ListType::Ordered] {
        assert_eq!(ListType::from_raw(lt.raw()), lt);
    }
    assert_eq!(ListType::Ordered.raw(), cmark_list_type::CMARK_ORDERED_LIST);
    for dt in vec![DelimType::NoDelim, DelimType::Period, DelimType::Paren] {
        assert_eq!(DelimType::from_raw(dt.raw()), dt);
    }
    assert_eq!(DelimType::Paren.raw(), cmark_delim_type::CMARK_PAREN_DELIM);
}

#[test]
fn event_type_round_trip() {
    for ev in vec![EventType::NoEvent, EventType::Done, EventType::Enter, EventType::Exit] {
        assert_eq!(EventType::from_raw(ev.raw()), ev);
    }
    assert_eq!(EventType::Enter.raw(), cmark_event_type::CMARK_EVENT_ENTER);
}

#[test]
fn options_round_trip_and_truncation() {
    let opts = CmarkOptions::sourcepos().union(CmarkOptions::smart());
    assert_eq!(opts.raw(), 9);
    assert_eq!(CmarkOptions::from_raw(9), opts);
    // Unknown bits are discarded on decoding.
    assert_eq!(CmarkOptions::from_raw(0xFF).bits, 15);
}

#[test]
fn version_values() {
    assert_eq!(cmark_version(), 256);
    assert_eq!(version(), "0.1.0");
}
