//! The raw identifier sets that the library's enumerations encode to: the
//! classic C-style names of the CommonMark node, list, delimiter and event
//! types, kept stable for interchange with any serialized form.

#![allow(non_camel_case_types)]

use vstd::prelude::*;

verus! {

/// The raw encoding of a node type.
#[derive(PartialEq, Eq, Structural, Clone, Copy, Debug)]
pub enum cmark_node_type {
    CMARK_NODE_NONE,
    CMARK_NODE_DOCUMENT,
    CMARK_NODE_BLOCK_QUOTE,
    CMARK_NODE_LIST,
    CMARK_NODE_ITEM,
    CMARK_NODE_CODE_BLOCK,
    CMARK_NODE_HTML,
    CMARK_NODE_PARAGRAPH,
    CMARK_NODE_HEADER,
    CMARK_NODE_HRULE,
    CMARK_NODE_TEXT,
    CMARK_NODE_SOFTBREAK,
    CMARK_NODE_LINEBREAK,
    CMARK_NODE_CODE,
    CMARK_NODE_INLINE_HTML,
    CMARK_NODE_EMPH,
    CMARK_NODE_STRONG,
    CMARK_NODE_LINK,
    CMARK_NODE_IMAGE,
}

/// The raw encoding of a list type.
#[derive(PartialEq, Eq, Structural, Clone, Copy, Debug)]
pub enum cmark_list_type {
    CMARK_NO_LIST,
    CMARK_BULLET_LIST,
    CMARK_ORDERED_LIST,
}

/// The raw encoding of a list delimiter type.
#[derive(PartialEq, Eq, Structural, Clone, Copy, Debug)]
pub enum cmark_delim_type {
    CMARK_NO_DELIM,
    CMARK_PERIOD_DELIM,
    CMARK_PAREN_DELIM,
}

/// The raw encoding of a traversal event type.
#[derive(PartialEq, Eq, Structural, Clone, Copy, Debug)]
pub enum cmark_event_type {
    CMARK_EVENT_NONE,
    CMARK_EVENT_DONE,
    CMARK_EVENT_ENTER,
    CMARK_EVENT_EXIT,
}

} // verus!
