//! A CommonMark document library built around an owned, typed node tree.
//!
//! The tree is the core abstraction: nodes carry a kind and kind-gated
//! fields, own their children, and are navigated, mutated, walked by an
//! event iterator, rendered to several output formats, and produced by an
//! incremental parser.

use vstd::prelude::*;

pub mod iter;
mod node;
pub mod parser;
pub mod raw;
pub mod render;
mod util;

pub use node::Error;
pub use node::Node;
pub use node::NodeView;
pub use iter::NodeIterator;
pub use parser::Parser;
pub use parser::ParserState;
pub use parser::parse_document;
pub use render::render_xml;
pub use render::render_html;
pub use render::render_man;
pub use render::render_commonmark;
pub use util::Binding;

verus! {

/// The types of nodes that make up a CommonMark document.
#[derive(PartialEq, Eq, Structural, Clone, Copy, Debug)]
pub enum NodeType {
    /// Error status
    NoNode,
    Document,
    BlockQuote,
    List,
    Item,
    CodeBlock,
    Html,
    Paragraph,
    Header,
    Hrule,
    Text,
    SoftBreak,
    LineBreak,
    Code,
    InlineHtml,
    Emph,
    Strong,
    Link,
    Image,
}

/// The type of CommonMark list.
#[derive(PartialEq, Eq, Structural, Clone, Copy, Debug)]
pub enum ListType {
    NoList,
    Bullet,
    Ordered,
}

/// The type of list delimiter in an ordered list.
#[derive(PartialEq, Eq, Structural, Clone, Copy, Debug)]
pub enum DelimType {
    NoDelim,
    /// Numbers are written as `1.`
    Period,
    /// Numbers are written as `1)`
    Paren,
}

/// The event types that may be produced by a node iterator.
#[derive(PartialEq, Eq, Structural, Clone, Copy, Debug)]
pub enum EventType {
    NoEvent,
    Done,
    Enter,
    Exit,
}

/// The bit of `CmarkOptions` that attaches source positions to block nodes.
pub const OPT_SOURCEPOS: u32 = 1;

/// The bit of `CmarkOptions` that renders soft breaks as hard line breaks.
pub const OPT_HARDBREAKS: u32 = 2;

/// The bit of `CmarkOptions` that consolidates adjacent text nodes.
pub const OPT_NORMALIZE: u32 = 4;

/// The bit of `CmarkOptions` that substitutes typographic punctuation.
pub const OPT_SMART: u32 = 8;

/// Options for parsing and rendering a node tree: an independent,
/// composable bit set. The default (all bits clear) is plain parsing and
/// rendering; `OPT_SOURCEPOS` attaches line and column ranges to block
/// nodes, `OPT_HARDBREAKS` renders soft breaks as hard line breaks,
/// `OPT_NORMALIZE` consolidates adjacent text nodes after parsing, and
/// `OPT_SMART` turns straight quotes into curly quotes, `--` into an en
/// dash and `---` into an em dash.
#[derive(PartialEq, Eq, Structural, Clone, Copy, Debug)]
pub struct CmarkOptions {
    pub bits: u32,
}

impl CmarkOptions {
    /// Whether source-position tracking is enabled.
    pub open spec fn sourcepos_enabled(self) -> bool {
        self.bits & OPT_SOURCEPOS != 0
    }

    /// Whether soft breaks render as hard line breaks.
    pub open spec fn hardbreaks_enabled(self) -> bool {
        self.bits & OPT_HARDBREAKS != 0
    }

    /// Whether parsing consolidates adjacent text nodes.
    pub open spec fn normalize_enabled(self) -> bool {
        self.bits & OPT_NORMALIZE != 0
    }

    /// Whether typographic substitution is enabled.
    pub open spec fn smart_enabled(self) -> bool {
        self.bits & OPT_SMART != 0
    }

    /// The option set with source-position tracking alone.
    pub fn sourcepos() -> (r: CmarkOptions)
        ensures
            r.bits == OPT_SOURCEPOS,
    {
        CmarkOptions { bits: OPT_SOURCEPOS }
    }

    /// The option set with hard line breaks alone.
    pub fn hardbreaks() -> (r: CmarkOptions)
        ensures
            r.bits == OPT_HARDBREAKS,
    {
        CmarkOptions { bits: OPT_HARDBREAKS }
    }

    /// The option set with text-node consolidation alone.
    pub fn normalize() -> (r: CmarkOptions)
        ensures
            r.bits == OPT_NORMALIZE,
    {
        CmarkOptions { bits: OPT_NORMALIZE }
    }

    /// The option set with typographic substitution alone.
    pub fn smart() -> (r: CmarkOptions)
        ensures
            r.bits == OPT_SMART,
    {
        CmarkOptions { bits: OPT_SMART }
    }

    /// Both option sets combined.
    pub fn union(self, other: CmarkOptions) -> (r: CmarkOptions)
        ensures
            r.bits == self.bits | other.bits,
    {
        CmarkOptions { bits: self.bits | other.bits }
    }
}

impl Default for CmarkOptions {
    /// The default options: every bit clear.
    fn default() -> (r: CmarkOptions)
        ensures
            r.bits == 0,
    {
        CmarkOptions { bits: 0 }
    }
}

impl Binding for NodeType {
    type Raw = raw::cmark_node_type;

    open spec fn raw_wf(&self) -> bool {
        true
    }

    open spec fn raw_spec(&self) -> raw::cmark_node_type {
        match *self {
            NodeType::NoNode => raw::cmark_node_type::CMARK_NODE_NONE,
            NodeType::Document => raw::cmark_node_type::CMARK_NODE_DOCUMENT,
            NodeType::BlockQuote => raw::cmark_node_type::CMARK_NODE_BLOCK_QUOTE,
            NodeType::List => raw::cmark_node_type::CMARK_NODE_LIST,
            NodeType::Item => raw::cmark_node_type::CMARK_NODE_ITEM,
            NodeType::CodeBlock => raw::cmark_node_type::CMARK_NODE_CODE_BLOCK,
            NodeType::Html => raw::cmark_node_type::CMARK_NODE_HTML,
            NodeType::Paragraph => raw::cmark_node_type::CMARK_NODE_PARAGRAPH,
            NodeType::Header => raw::cmark_node_type::CMARK_NODE_HEADER,
            NodeType::Hrule => raw::cmark_node_type::CMARK_NODE_HRULE,
            NodeType::Text => raw::cmark_node_type::CMARK_NODE_TEXT,
            NodeType::SoftBreak => raw::cmark_node_type::CMARK_NODE_SOFTBREAK,
            NodeType::LineBreak => raw::cmark_node_type::CMARK_NODE_LINEBREAK,
            NodeType::Code => raw::cmark_node_type::CMARK_NODE_CODE,
            NodeType::InlineHtml => raw::cmark_node_type::CMARK_NODE_INLINE_HTML,
            NodeType::Emph => raw::cmark_node_type::CMARK_NODE_EMPH,
            NodeType::Strong => raw::cmark_node_type::CMARK_NODE_STRONG,
            NodeType::Link => raw::cmark_node_type::CMARK_NODE_LINK,
            NodeType::Image => raw::cmark_node_type::CMARK_NODE_IMAGE,
        }
    }

    open spec fn from_raw_spec(r: raw::cmark_node_type) -> NodeType {
        match r {
            raw::cmark_node_type::CMARK_NODE_NONE => NodeType::NoNode,
            raw::cmark_node_type::CMARK_NODE_DOCUMENT => NodeType::Document,
            raw::cmark_node_type::CMARK_NODE_BLOCK_QUOTE => NodeType::BlockQuote,
            raw::cmark_node_type::CMARK_NODE_LIST => NodeType::List,
            raw::cmark_node_type::CMARK_NODE_ITEM => NodeType::Item,
            raw::cmark_node_type::CMARK_NODE_CODE_BLOCK => NodeType::CodeBlock,
            raw::cmark_node_type::CMARK_NODE_HTML => NodeType::Html,
            raw::cmark_node_type::CMARK_NODE_PARAGRAPH => NodeType::Paragraph,
            raw::cmark_node_type::CMARK_NODE_HEADER => NodeType::Header,
            raw::cmark_node_type::CMARK_NODE_HRULE => NodeType::Hrule,
            raw::cmark_node_type::CMARK_NODE_TEXT => NodeType::Text,
            raw::cmark_node_type::CMARK_NODE_SOFTBREAK => NodeType::SoftBreak,
            raw::cmark_node_type::CMARK_NODE_LINEBREAK => NodeType::LineBreak,
            raw::cmark_node_type::CMARK_NODE_CODE => NodeType::Code,
            raw::cmark_node_type::CMARK_NODE_INLINE_HTML => NodeType::InlineHtml,
            raw::cmark_node_type::CMARK_NODE_EMPH => NodeType::Emph,
            raw::cmark_node_type::CMARK_NODE_STRONG => NodeType::Strong,
            raw::cmark_node_type::CMARK_NODE_LINK => NodeType::Link,
            raw::cmark_node_type::CMARK_NODE_IMAGE => NodeType::Image,
        }
    }

    /// Obtain the raw `cmark_node_type` value for this `NodeType`.
    fn raw(&self) -> (r: raw::cmark_node_type) {
        match *self {
            NodeType::NoNode => raw::cmark_node_type::CMARK_NODE_NONE,
            NodeType::Document => raw::cmark_node_type::CMARK_NODE_DOCUMENT,
            NodeType::BlockQuote => raw::cmark_node_type::CMARK_NODE_BLOCK_QUOTE,
            NodeType::List => raw::cmark_node_type::CMARK_NODE_LIST,
            NodeType::Item => raw::cmark_node_type::CMARK_NODE_ITEM,
            NodeType::CodeBlock => raw::cmark_node_type::CMARK_NODE_CODE_BLOCK,
            NodeType::Html => raw::cmark_node_type::CMARK_NODE_HTML,
            NodeType::Paragraph => raw::cmark_node_type::CMARK_NODE_PARAGRAPH,
            NodeType::Header => raw::cmark_node_type::CMARK_NODE_HEADER,
            NodeType::Hrule => raw::cmark_node_type::CMARK_NODE_HRULE,
            NodeType::Text => raw::cmark_node_type::CMARK_NODE_TEXT,
            NodeType::SoftBreak => raw::cmark_node_type::CMARK_NODE_SOFTBREAK,
            NodeType::LineBreak => raw::cmark_node_type::CMARK_NODE_LINEBREAK,
            NodeType::Code => raw::cmark_node_type::CMARK_NODE_CODE,
            NodeType::InlineHtml => raw::cmark_node_type::CMARK_NODE_INLINE_HTML,
            NodeType::Emph => raw::cmark_node_type::CMARK_NODE_EMPH,
            NodeType::Strong => raw::cmark_node_type::CMARK_NODE_STRONG,
            NodeType::Link => raw::cmark_node_type::CMARK_NODE_LINK,
            NodeType::Image => raw::cmark_node_type::CMARK_NODE_IMAGE,
        }
    }

    /// Obtain the `NodeType` for a raw `cmark_node_type` value.
    fn from_raw(r: raw::cmark_node_type) -> (t: NodeType) {
        match r {
            raw::cmark_node_type::CMARK_NODE_NONE => NodeType::NoNode,
            raw::cmark_node_type::CMARK_NODE_DOCUMENT => NodeType::Document,
            raw::cmark_node_type::CMARK_NODE_BLOCK_QUOTE => NodeType::BlockQuote,
            raw::cmark_node_type::CMARK_NODE_LIST => NodeType::List,
            raw::cmark_node_type::CMARK_NODE_ITEM => NodeType::Item,
            raw::cmark_node_type::CMARK_NODE_CODE_BLOCK => NodeType::CodeBlock,
            raw::cmark_node_type::CMARK_NODE_HTML => NodeType::Html,
            raw::cmark_node_type::CMARK_NODE_PARAGRAPH => NodeType::Paragraph,
            raw::cmark_node_type::CMARK_NODE_HEADER => NodeType::Header,
            raw::cmark_node_type::CMARK_NODE_HRULE => NodeType::Hrule,
            raw::cmark_node_type::CMARK_NODE_TEXT => NodeType::Text,
            raw::cmark_node_type::CMARK_NODE_SOFTBREAK => NodeType::SoftBreak,
            raw::cmark_node_type::CMARK_NODE_LINEBREAK => NodeType::LineBreak,
            raw::cmark_node_type::CMARK_NODE_CODE => NodeType::Code,
            raw::cmark_node_type::CMARK_NODE_INLINE_HTML => NodeType::InlineHtml,
            raw::cmark_node_type::CMARK_NODE_EMPH => NodeType::Emph,
            raw::cmark_node_type::CMARK_NODE_STRONG => NodeType::Strong,
            raw::cmark_node_type::CMARK_NODE_LINK => NodeType::Link,
            raw::cmark_node_type::CMARK_NODE_IMAGE => NodeType::Image,
        }
    }

    proof fn lemma_raw_round_trip(&self) {
    }
}

impl Binding for ListType {
    type Raw = raw::cmark_list_type;

    open spec fn raw_wf(&self) -> bool {
        true
    }

    open spec fn raw_spec(&self) -> raw::cmark_list_type {
        match *self {
            ListType::NoList => raw::cmark_list_type::CMARK_NO_LIST,
            ListType::Bullet => raw::cmark_list_type::CMARK_BULLET_LIST,
            ListType::Ordered => raw::cmark_list_type::CMARK_ORDERED_LIST,
        }
    }

    open spec fn from_raw_spec(r: raw::cmark_list_type) -> ListType {
        match r {
            raw::cmark_list_type::CMARK_NO_LIST => ListType::NoList,
            raw::cmark_list_type::CMARK_BULLET_LIST => ListType::Bullet,
            raw::cmark_list_type::CMARK_ORDERED_LIST => ListType::Ordered,
        }
    }

    /// Obtain the raw `cmark_list_type` value for this `ListType`.
    fn raw(&self) -> (r: raw::cmark_list_type) {
        match *self {
            ListType::NoList => raw::cmark_list_type::CMARK_NO_LIST,
            ListType::Bullet => raw::cmark_list_type::CMARK_BULLET_LIST,
            ListType::Ordered => raw::cmark_list_type::CMARK_ORDERED_LIST,
        }
    }

    /// Obtain the `ListType` for a raw `cmark_list_type` value.
    fn from_raw(r: raw::cmark_list_type) -> (t: ListType) {
        match r {
            raw::cmark_list_type::CMARK_NO_LIST => ListType::NoList,
            raw::cmark_list_type::CMARK_BULLET_LIST => ListType::Bullet,
            raw::cmark_list_type::CMARK_ORDERED_LIST => ListType::Ordered,
        }
    }

    proof fn lemma_raw_round_trip(&self) {
    }
}

impl Binding for DelimType {
    type Raw = raw::cmark_delim_type;

    open spec fn raw_wf(&self) -> bool {
        true
    }

    open spec fn raw_spec(&self) -> raw::cmark_delim_type {
        match *self {
            DelimType::NoDelim => raw::cmark_delim_type::CMARK_NO_DELIM,
            DelimType::Period => raw::cmark_delim_type::CMARK_PERIOD_DELIM,
            DelimType::Paren => raw::cmark_delim_type::CMARK_PAREN_DELIM,
        }
    }

    open spec fn from_raw_spec(r: raw::cmark_delim_type) -> DelimType {
        match r {
            raw::cmark_delim_type::CMARK_NO_DELIM => DelimType::NoDelim,
            raw::cmark_delim_type::CMARK_PERIOD_DELIM => DelimType::Period,
            raw::cmark_delim_type::CMARK_PAREN_DELIM => DelimType::Paren,
        }
    }

    /// Obtain the raw `cmark_delim_type` value for this `DelimType`.
    fn raw(&self) -> (r: raw::cmark_delim_type) {
        match *self {
            DelimType::NoDelim => raw::cmark_delim_type::CMARK_NO_DELIM,
            DelimType::Period => raw::cmark_delim_type::CMARK_PERIOD_DELIM,
            DelimType::Paren => raw::cmark_delim_type::CMARK_PAREN_DELIM,
        }
    }

    /// Obtain the `DelimType` for a raw `cmark_delim_type` value.
    fn from_raw(r: raw::cmark_delim_type) -> (t: DelimType) {
        match r {
            raw::cmark_delim_type::CMARK_NO_DELIM => DelimType::NoDelim,
            raw::cmark_delim_type::CMARK_PERIOD_DELIM => DelimType::Period,
            raw::cmark_delim_type::CMARK_PAREN_DELIM => DelimType::Paren,
        }
    }

    proof fn lemma_raw_round_trip(&self) {
    }
}

impl Binding for EventType {
    type Raw = raw::cmark_event_type;

    open spec fn raw_wf(&self) -> bool {
        true
    }

    open spec fn raw_spec(&self) -> raw::cmark_event_type {
        match *self {
            EventType::NoEvent => raw::cmark_event_type::CMARK_EVENT_NONE,
            EventType::Done => raw::cmark_event_type::CMARK_EVENT_DONE,
            EventType::Enter => raw::cmark_event_type::CMARK_EVENT_ENTER,
            EventType::Exit => raw::cmark_event_type::CMARK_EVENT_EXIT,
        }
    }

    open spec fn from_raw_spec(r: raw::cmark_event_type) -> EventType {
        match r {
            raw::cmark_event_type::CMARK_EVENT_NONE => EventType::NoEvent,
            raw::cmark_event_type::CMARK_EVENT_DONE => EventType::Done,
            raw::cmark_event_type::CMARK_EVENT_ENTER => EventType::Enter,
            raw::cmark_event_type::CMARK_EVENT_EXIT => EventType::Exit,
        }
    }

    /// Obtain the raw `cmark_event_type` value for this `EventType`.
    fn raw(&self) -> (r: raw::cmark_event_type) {
        match *self {
            EventType::NoEvent => raw::cmark_event_type::CMARK_EVENT_NONE,
            EventType::Done => raw::cmark_event_type::CMARK_EVENT_DONE,
            EventType::Enter => raw::cmark_event_type::CMARK_EVENT_ENTER,
            EventType::Exit => raw::cmark_event_type::CMARK_EVENT_EXIT,
        }
    }

    /// Obtain the `EventType` for a raw `cmark_event_type` value.
    fn from_raw(r: raw::cmark_event_type) -> (t: EventType) {
        match r {
            raw::cmark_event_type::CMARK_EVENT_NONE => EventType::NoEvent,
            raw::cmark_event_type::CMARK_EVENT_DONE => EventType::Done,
            raw::cmark_event_type::CMARK_EVENT_ENTER => EventType::Enter,
            raw::cmark_event_type::CMARK_EVENT_EXIT => EventType::Exit,
        }
    }

    proof fn lemma_raw_round_trip(&self) {
    }
}

impl Binding for CmarkOptions {
    type Raw = u32;

    open spec fn raw_wf(&self) -> bool {
        self.bits < 16
    }

    open spec fn raw_spec(&self) -> u32 {
        self.bits
    }

    open spec fn from_raw_spec(r: u32) -> CmarkOptions {
        CmarkOptions { bits: r & 15 }
    }

    /// Obtain the raw bit value of this option set.
    fn raw(&self) -> (r: u32) {
        self.bits
    }

    /// Obtain the option set for a raw bit value, discarding unknown bits.
    fn from_raw(r: u32) -> (t: CmarkOptions) {
        CmarkOptions { bits: r & 15 }
    }

    proof fn lemma_raw_round_trip(&self) {
        let b = self.bits;
        assert(b < 16 ==> b & 15 == b) by (bit_vector);
    }
}

/// The version of this library, encoded as
/// `(major << 16) | (minor << 8) | patch`.
pub fn cmark_version() -> (r: i32)
    ensures
        r == 256,
{
    256
}

/// The version of this library as a dotted string; the same version that
/// `cmark_version` encodes numerically.
pub fn version() -> (r: &'static str)
    ensures
        r@ == "0.1.0"@,
{
    "0.1.0"
}

} // verus!
