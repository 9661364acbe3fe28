//! The document tree: an owned, typed node with kind-gated fields.
//!
//! A `Node` owns its children outright, so every tree has exactly one owning
//! handle (the root value), borrowed views are ordinary `&Node` references
//! whose lifetime the compiler bounds by the owner's, dropping the owner
//! frees every descendant exactly once, and a node can only be attached to
//! a tree by moving it there — attaching revokes its independent ownership
//! and detaching (`unlink`) returns a new independently owned root. Double
//! frees, leaks and stale handles are ruled out by the type system rather
//! than checked at run time.

use vstd::prelude::*;
use vstd::std_specs::vec::spec_vec_len;
use vstd::string::StringExecFns;

use crate::DelimType;
use crate::EventType;
use crate::iter::event_seq;
use crate::iter::event_seq_children;
use crate::iter::events_view;
use crate::ListType;
use crate::NodeType;

verus! {

broadcast use
    vstd::std_specs::vec::group_vec_axioms,
    vstd::seq::axiom_seq_index_decreases,
    vstd::seq::axiom_seq_subrange_decreases,
;

/// The errors that tree and parser operations can report.
///
/// Encoding errors cannot arise in this library (all text is held in
/// `String`, which is always valid UTF-8), and ownership violations are
/// compile-time errors (a tree has exactly one owning value), so neither
/// needs a variant here.
#[derive(PartialEq, Eq, Structural, Clone, Copy, Debug)]
pub enum Error {
    /// A field accessor or mutator was invoked on a node whose kind does
    /// not support that field.
    TypeMismatch,
    /// A mutator's underlying write was rejected (for example, a header
    /// level outside 1..=6).
    WriteRejected,
    /// `feed` or `finish` was called on a parser that has already finished.
    UseAfterFinish,
}

/// The mathematical value of a node: its kind, its fields as sequences and
/// integers, and the values of its children in order.
#[verifier::ext_equal]
pub ghost struct NodeView {
    pub kind: NodeType,
    pub literal: Seq<char>,
    pub header_level: int,
    pub list_type: ListType,
    pub list_delim: DelimType,
    pub list_start: int,
    pub list_tight: bool,
    pub fence_info: Seq<char>,
    pub url: Seq<char>,
    pub title: Seq<char>,
    pub start_line: int,
    pub start_column: int,
    pub end_line: int,
    pub end_column: int,
    pub children: Seq<NodeView>,
}

impl NodeView {
    /// The number of nodes in this tree.
    pub open spec fn count(self) -> nat
        decreases self,
    {
        1 + NodeView::count_seq(self.children)
    }

    /// The total number of nodes in a sequence of trees.
    pub open spec fn count_seq(s: Seq<NodeView>) -> nat
        decreases s,
    {
        if s.len() == 0 {
            0
        } else {
            NodeView::count_seq(s.subrange(0, s.len() - 1)) + s[s.len() - 1].count()
        }
    }

    /// Well-formed: the kind-gated numeric fields hold values that their
    /// setters accept — a header level between 1 and 6 and a list start
    /// that is not negative — here and in every descendant. Constructors
    /// establish this and every operation of the library preserves it.
    pub open spec fn wf(self) -> bool
        decreases self,
    {
        &&& 1 <= self.header_level <= 6
        &&& self.list_start >= 0
        &&& NodeView::wf_seq(self.children)
    }

    /// Every tree of the sequence is well-formed.
    pub open spec fn wf_seq(s: Seq<NodeView>) -> bool
        decreases s,
    {
        s.len() == 0 || (s.last().wf() && NodeView::wf_seq(s.drop_last()))
    }

    /// Every child list of this tree is small enough to index with a
    /// machine word, as it is in every tree a `Node` represents.
    pub open spec fn bounded(self) -> bool
        decreases self,
    {
        self.children.len() <= usize::MAX && NodeView::bounded_seq(self.children)
    }

    /// Every tree of the sequence is bounded.
    pub open spec fn bounded_seq(s: Seq<NodeView>) -> bool
        decreases s,
    {
        s.len() == 0 || (s.last().bounded() && NodeView::bounded_seq(s.drop_last()))
    }
}

/// A bounded sequence is bounded at each of its positions.
pub proof fn lemma_bounded_seq_elem(s: Seq<NodeView>, i: int)
    requires
        NodeView::bounded_seq(s),
        0 <= i < s.len(),
    ensures
        s[i].bounded(),
    decreases s.len(),
{
    if i < s.len() - 1 {
        lemma_bounded_seq_elem(s.drop_last(), i);
        assert(s.drop_last()[i] == s[i]);
    }
}

/// A sequence that is bounded at each position is bounded.
proof fn lemma_bounded_seq_intro(s: Seq<NodeView>)
    requires
        forall|i: int| 0 <= i < s.len() ==> (#[trigger] s[i]).bounded(),
    ensures
        NodeView::bounded_seq(s),
    decreases s.len(),
{
    if s.len() > 0 {
        assert forall|i: int| 0 <= i < s.drop_last().len() implies (
        #[trigger] s.drop_last()[i]).bounded() by {
            assert(s.drop_last()[i] == s[i]);
        }
        lemma_bounded_seq_intro(s.drop_last());
    }
}

/// A well-formed sequence is well-formed at each of its positions.
pub proof fn lemma_wf_seq_elem(s: Seq<NodeView>, i: int)
    requires
        NodeView::wf_seq(s),
        0 <= i < s.len(),
    ensures
        s[i].wf(),
    decreases s.len(),
{
    if i < s.len() - 1 {
        lemma_wf_seq_elem(s.drop_last(), i);
        assert(s.drop_last()[i] == s[i]);
    }
}

/// A sequence that is well-formed at each position is well-formed.
pub proof fn lemma_wf_seq_intro(s: Seq<NodeView>)
    requires
        forall|i: int| 0 <= i < s.len() ==> (#[trigger] s[i]).wf(),
    ensures
        NodeView::wf_seq(s),
    decreases s.len(),
{
    if s.len() > 0 {
        assert forall|i: int| 0 <= i < s.drop_last().len() implies (
        #[trigger] s.drop_last()[i]).wf() by {
            assert(s.drop_last()[i] == s[i]);
        }
        lemma_wf_seq_intro(s.drop_last());
    }
}

/// A freshly constructed node is well-formed.
pub proof fn lemma_fresh_wf(kind: NodeType)
    ensures
        NodeView::fresh(kind).wf(),
{
    lemma_wf_seq_intro(Seq::<NodeView>::empty());
}

/// Concatenating well-formed sequences yields a well-formed sequence.
pub proof fn lemma_wf_seq_add(a: Seq<NodeView>, b: Seq<NodeView>)
    requires
        NodeView::wf_seq(a),
        NodeView::wf_seq(b),
    ensures
        NodeView::wf_seq(a + b),
{
    assert forall|i: int| 0 <= i < (a + b).len() implies (#[trigger] (a + b)[i]).wf() by {
        if i < a.len() {
            lemma_wf_seq_elem(a, i);
            assert((a + b)[i] == a[i]);
        } else {
            lemma_wf_seq_elem(b, i - a.len());
            assert((a + b)[i] == b[i - a.len()]);
        }
    }
    lemma_wf_seq_intro(a + b);
}

/// Attaching a well-formed subtree to a well-formed tree leaves it
/// well-formed.
pub proof fn lemma_wf_insert(t: NodeView, p: Seq<usize>, idx: int, sub: NodeView)
    requires
        t.wf(),
        sub.wf(),
        t.valid_path(p),
        0 <= idx <= t.subtree_at(p).children.len(),
    ensures
        t.insert_child_at(p, idx, sub).wf(),
    decreases p.len(),
{
    if p.len() == 0 {
        assert forall|i: int| 0 <= i < t.children.insert(idx, sub).len() implies (
        #[trigger] t.children.insert(idx, sub)[i]).wf() by {
            if i < idx {
                lemma_wf_seq_elem(t.children, i);
                assert(t.children.insert(idx, sub)[i] == t.children[i]);
            } else if i == idx {
                assert(t.children.insert(idx, sub)[i] == sub);
            } else {
                lemma_wf_seq_elem(t.children, i - 1);
                assert(t.children.insert(idx, sub)[i] == t.children[i - 1]);
            }
        }
        lemma_wf_seq_intro(t.children.insert(idx, sub));
    } else {
        let j = p[0] as int;
        lemma_wf_seq_elem(t.children, j);
        lemma_wf_insert(t.children[j], p.drop_first(), idx, sub);
        let c2 = t.children[j].insert_child_at(p.drop_first(), idx, sub);
        assert forall|i: int| 0 <= i < t.children.update(j, c2).len() implies (
        #[trigger] t.children.update(j, c2)[i]).wf() by {
            if i == j {
                assert(t.children.update(j, c2)[i] == c2);
            } else {
                lemma_wf_seq_elem(t.children, i);
                assert(t.children.update(j, c2)[i] == t.children[i]);
            }
        }
        lemma_wf_seq_intro(t.children.update(j, c2));
        assert(t.insert_child_at(p, idx, sub) =~= t.with_children(t.children.update(j, c2)));
    }
}

/// Detaching a subtree from a well-formed tree leaves both the remaining
/// tree and the detached subtree well-formed.
pub proof fn lemma_wf_unlink(t: NodeView, p: Seq<usize>)
    requires
        t.wf(),
        t.valid_path(p),
        p.len() > 0,
    ensures
        t.remove_at(p).wf(),
        t.subtree_at(p).wf(),
    decreases p.len(),
{
    let j = p[0] as int;
    lemma_wf_seq_elem(t.children, j);
    if p.len() == 1 {
        assert forall|i: int| 0 <= i < t.children.remove(j).len() implies (
        #[trigger] t.children.remove(j)[i]).wf() by {
            if i < j {
                lemma_wf_seq_elem(t.children, i);
                assert(t.children.remove(j)[i] == t.children[i]);
            } else {
                lemma_wf_seq_elem(t.children, i + 1);
                assert(t.children.remove(j)[i] == t.children[i + 1]);
            }
        }
        lemma_wf_seq_intro(t.children.remove(j));
        assert(t.subtree_at(p) == t.children[j].subtree_at(p.drop_first()));
        assert(t.children[j].subtree_at(p.drop_first()) == t.children[j]);
    } else {
        lemma_wf_unlink(t.children[j], p.drop_first());
        let c2 = t.children[j].remove_at(p.drop_first());
        assert forall|i: int| 0 <= i < t.children.update(j, c2).len() implies (
        #[trigger] t.children.update(j, c2)[i]).wf() by {
            if i == j {
                assert(t.children.update(j, c2)[i] == c2);
            } else {
                lemma_wf_seq_elem(t.children, i);
                assert(t.children.update(j, c2)[i] == t.children[i]);
            }
        }
        lemma_wf_seq_intro(t.children.update(j, c2));
    }
}

/// Consolidating a well-formed tree leaves it well-formed.
pub proof fn lemma_wf_consolidate(t: NodeView)
    requires
        t.wf(),
    ensures
        t.consolidate().wf(),
    decreases t,
{
    let c = NodeView::consolidate_seq(t.children);
    lemma_consolidate_seq_elems(t.children);
    assert forall|i: int| 0 <= i < c.len() implies (#[trigger] c[i]).wf() by {
        lemma_wf_seq_elem(t.children, i);
        lemma_wf_consolidate(t.children[i]);
    }
    lemma_wf_seq_intro(c);
    lemma_wf_merge_texts(c);
}

/// Merging preserves sequence well-formedness.
pub proof fn lemma_wf_merge_texts(s: Seq<NodeView>)
    requires
        NodeView::wf_seq(s),
    ensures
        NodeView::wf_seq(merge_texts(s)),
    decreases s.len(),
{
    if s.len() >= 2 && mergeable(s[0], s[1]) {
        let m = merged_text(s[0], s[1]);
        lemma_wf_seq_elem(s, 0);
        lemma_wf_seq_elem(s, 1);
        assert(m.wf()) by {
            assert(m.children == s[0].children);
        }
        let t2 = seq![m] + s.skip(2);
        assert forall|i: int| 0 <= i < t2.len() implies (#[trigger] t2[i]).wf() by {
            if i > 0 {
                lemma_wf_seq_elem(s, i + 1);
                assert(t2[i] == s[i + 1]);
            }
        }
        lemma_wf_seq_intro(t2);
        lemma_wf_merge_texts(t2);
    } else if s.len() >= 1 {
        assert forall|i: int| 0 <= i < s.skip(1).len() implies (#[trigger] s.skip(1)[i]).wf() by {
            lemma_wf_seq_elem(s, i + 1);
            assert(s.skip(1)[i] == s[i + 1]);
        }
        lemma_wf_seq_intro(s.skip(1));
        lemma_wf_merge_texts(s.skip(1));
        lemma_wf_seq_elem(s, 0);
        let r = seq![s[0]] + merge_texts(s.skip(1));
        assert forall|i: int| 0 <= i < r.len() implies (#[trigger] r[i]).wf() by {
            if i > 0 {
                lemma_wf_seq_elem(merge_texts(s.skip(1)), i - 1);
                assert(r[i] == merge_texts(s.skip(1))[i - 1]);
            }
        }
        lemma_wf_seq_intro(r);
    }
}

/// The value of every `Node` is a bounded tree.
pub proof fn lemma_node_bounded(n: Node)
    ensures
        n@.bounded(),
    decreases n,
{
    lemma_node_children(n);
    assert(spec_vec_len(&n.children) == n.children@.len());
    assert forall|i: int| 0 <= i < n@.children.len() implies (#[trigger] n@.children[i]).bounded() by {
        lemma_node_bounded(n.children@[i]);
    }
    lemma_bounded_seq_intro(n@.children);
}

/// An element of a CommonMark document: a typed tree node that owns its
/// children. Field accessors and mutators are kind-gated: invoked on a node
/// whose kind does not support the field, they fail with
/// [`Error::TypeMismatch`] rather than coercing to a default.
pub struct Node {
    kind: NodeType,
    literal: String,
    header_level: i32,
    list_type: ListType,
    list_delim: DelimType,
    list_start: i32,
    list_tight: bool,
    fence_info: String,
    url: String,
    title: String,
    start_line: i32,
    start_column: i32,
    end_line: i32,
    end_column: i32,
    children: Vec<Node>,
}

/// The value of one node, with the values of its children in order.
closed spec fn node_view(n: Node) -> NodeView
    decreases n,
{
    NodeView {
        kind: n.kind,
        literal: n.literal@,
        header_level: n.header_level as int,
        list_type: n.list_type,
        list_delim: n.list_delim,
        list_start: n.list_start as int,
        list_tight: n.list_tight,
        fence_info: n.fence_info@,
        url: n.url@,
        title: n.title@,
        start_line: n.start_line as int,
        start_column: n.start_column as int,
        end_line: n.end_line as int,
        end_column: n.end_column as int,
        children: nodes_view(n.children@),
    }
}

/// The values of a sequence of nodes, in order.
pub closed spec fn nodes_view(s: Seq<Node>) -> Seq<NodeView>
    decreases s,
{
    if s.len() == 0 {
        Seq::empty()
    } else {
        nodes_view(s.subrange(0, s.len() - 1)).push(node_view(s[s.len() - 1]))
    }
}

/// Each node of a sequence contributes its own value at its own position.
pub proof fn lemma_nodes_view(s: Seq<Node>)
    ensures
        nodes_view(s).len() == s.len(),
        forall|i: int| 0 <= i < s.len() ==> nodes_view(s)[i] == (#[trigger] s[i])@,
    decreases s,
{
    if s.len() > 0 {
        lemma_nodes_view(s.subrange(0, s.len() - 1));
        assert forall|i: int| 0 <= i < s.len() implies nodes_view(s)[i] == (#[trigger] s[i])@ by {
            if i < s.len() - 1 {
                assert(s.subrange(0, s.len() - 1)[i] == s[i]);
            }
        }
    }
}

impl View for Node {
    type V = NodeView;

    closed spec fn view(&self) -> NodeView {
        node_view(*self)
    }
}

impl Node {
    /// Create a new node of type `node_type` with type-appropriate defaults:
    /// header level 1, bullet list type, list start 1, empty text fields,
    /// and no children.
    pub fn new(node_type: NodeType) -> (r: Node)
        ensures
            r@ == NodeView::fresh(node_type),
    {
        let r = Node {
            kind: node_type,
            literal: String::new(),
            header_level: 1,
            list_type: ListType::Bullet,
            list_delim: DelimType::NoDelim,
            list_start: 1,
            list_tight: false,
            fence_info: String::new(),
            url: String::new(),
            title: String::new(),
            start_line: 0,
            start_column: 0,
            end_line: 0,
            end_column: 0,
            children: Vec::new(),
        };
        proof {
            assert(r@.children =~= Seq::<NodeView>::empty());
            assert(r@ =~= NodeView::fresh(node_type));
        }
        r
    }

    /// Get the type of this node.
    pub fn node_type(&self) -> (r: NodeType)
        ensures
            r == self@.kind,
    {
        self.kind
    }

    /// Get a string representation of the type of this node.
    pub fn type_string(&self) -> (r: &'static str)
        ensures
            r@ == type_string_spec(self@.kind),
    {
        match self.kind {
            NodeType::NoNode => "none",
            NodeType::Document => "document",
            NodeType::BlockQuote => "block_quote",
            NodeType::List => "list",
            NodeType::Item => "item",
            NodeType::CodeBlock => "code_block",
            NodeType::Html => "html",
            NodeType::Paragraph => "paragraph",
            NodeType::Header => "header",
            NodeType::Hrule => "hrule",
            NodeType::Text => "text",
            NodeType::SoftBreak => "softbreak",
            NodeType::LineBreak => "linebreak",
            NodeType::Code => "code",
            NodeType::InlineHtml => "inline_html",
            NodeType::Emph => "emph",
            NodeType::Strong => "strong",
            NodeType::Link => "link",
            NodeType::Image => "image",
        }
    }

    /// Get the string contents of this node. Fails with `TypeMismatch`
    /// unless the node's kind carries text content.
    pub fn literal(&self) -> (r: Result<&str, Error>)
        ensures
            match r {
                Ok(s) => supports_literal(self@.kind) && s@ == self@.literal,
                Err(e) => e == Error::TypeMismatch && !supports_literal(self@.kind),
            },
    {
        if matches!(
            self.kind,
            NodeType::CodeBlock | NodeType::Code | NodeType::Text | NodeType::Html
                | NodeType::InlineHtml
        ) {
            Ok(self.literal.as_str())
        } else {
            Err(Error::TypeMismatch)
        }
    }

    /// Set the string contents of this node. Fails with `TypeMismatch`
    /// unless the node's kind carries text content.
    pub fn set_literal(&mut self, value: &str) -> (r: Result<(), Error>)
        ensures
            match r {
                Ok(()) => supports_literal(old(self)@.kind) && final(self)@ == old(self)@.with_literal(
                    value@,
                ),
                Err(e) => e == Error::TypeMismatch && !supports_literal(old(self)@.kind) && final(self)@
                    == old(self)@,
            },
    {
        if matches!(
            self.kind,
            NodeType::CodeBlock | NodeType::Code | NodeType::Text | NodeType::Html
                | NodeType::InlineHtml
        ) {
            self.literal = value.to_owned();
            proof {
                assert(self@ =~= old(self)@.with_literal(value@));
            }
            Ok(())
        } else {
            Err(Error::TypeMismatch)
        }
    }

    /// Get the level of a header node (1 to 6). Fails with `TypeMismatch`
    /// on any other kind.
    pub fn header_level(&self) -> (r: Result<i32, Error>)
        ensures
            match r {
                Ok(v) => supports_header_level(self@.kind) && v as int == self@.header_level,
                Err(e) => e == Error::TypeMismatch && !supports_header_level(self@.kind),
            },
    {
        if matches!(self.kind, NodeType::Header) {
            Ok(self.header_level)
        } else {
            Err(Error::TypeMismatch)
        }
    }

    /// Set the level of a header node. Fails with `TypeMismatch` on any
    /// other kind, and with `WriteRejected` for a level outside 1..=6.
    pub fn set_header_level(&mut self, value: i32) -> (r: Result<(), Error>)
        ensures
            match r {
                Ok(()) => supports_header_level(old(self)@.kind) && 1 <= value <= 6 && final(self)@ == old(
                    self,
                )@.with_header_level(value as int),
                Err(e) => final(self)@ == old(self)@ && if e == Error::TypeMismatch {
                    !supports_header_level(old(self)@.kind)
                } else {
                    e == Error::WriteRejected && supports_header_level(old(self)@.kind) && !(1
                        <= value <= 6)
                },
            },
    {
        if !matches!(self.kind, NodeType::Header) {
            Err(Error::TypeMismatch)
        } else if value < 1 || value > 6 {
            Err(Error::WriteRejected)
        } else {
            self.header_level = value;
            proof {
                assert(self@ =~= old(self)@.with_header_level(value as int));
            }
            Ok(())
        }
    }

    /// Get the list type of a list node. Fails with `TypeMismatch` on any
    /// other kind.
    pub fn list_type(&self) -> (r: Result<ListType, Error>)
        ensures
            match r {
                Ok(v) => supports_list(self@.kind) && v == self@.list_type,
                Err(e) => e == Error::TypeMismatch && !supports_list(self@.kind),
            },
    {
        if matches!(self.kind, NodeType::List) {
            Ok(self.list_type)
        } else {
            Err(Error::TypeMismatch)
        }
    }

    /// Set the list type of a list node. Fails with `TypeMismatch` on any
    /// other kind, and with `WriteRejected` for `NoList`, which is not a
    /// type a list can be given.
    pub fn set_list_type(&mut self, value: ListType) -> (r: Result<(), Error>)
        ensures
            match r {
                Ok(()) => supports_list(old(self)@.kind) && value != ListType::NoList && final(self)@
                    == old(self)@.with_list_type(value),
                Err(e) => final(self)@ == old(self)@ && if e == Error::TypeMismatch {
                    !supports_list(old(self)@.kind)
                } else {
                    e == Error::WriteRejected && supports_list(old(self)@.kind) && value
                        == ListType::NoList
                },
            },
    {
        if !matches!(self.kind, NodeType::List) {
            Err(Error::TypeMismatch)
        } else if matches!(value, ListType::NoList) {
            Err(Error::WriteRejected)
        } else {
            self.list_type = value;
            proof {
                assert(self@ =~= old(self)@.with_list_type(value));
            }
            Ok(())
        }
    }

    /// Get the delimiter type of a list node. Fails with `TypeMismatch` on
    /// any other kind.
    pub fn list_delim(&self) -> (r: Result<DelimType, Error>)
        ensures
            match r {
                Ok(v) => supports_list(self@.kind) && v == self@.list_delim,
                Err(e) => e == Error::TypeMismatch && !supports_list(self@.kind),
            },
    {
        if matches!(self.kind, NodeType::List) {
            Ok(self.list_delim)
        } else {
            Err(Error::TypeMismatch)
        }
    }

    /// Set the delimiter type of a list node. Fails with `TypeMismatch` on
    /// any other kind, and with `WriteRejected` for `NoDelim`.
    pub fn set_list_delim(&mut self, value: DelimType) -> (r: Result<(), Error>)
        ensures
            match r {
                Ok(()) => supports_list(old(self)@.kind) && value != DelimType::NoDelim && final(self)@
                    == old(self)@.with_list_delim(value),
                Err(e) => final(self)@ == old(self)@ && if e == Error::TypeMismatch {
                    !supports_list(old(self)@.kind)
                } else {
                    e == Error::WriteRejected && supports_list(old(self)@.kind) && value
                        == DelimType::NoDelim
                },
            },
    {
        if !matches!(self.kind, NodeType::List) {
            Err(Error::TypeMismatch)
        } else if matches!(value, DelimType::NoDelim) {
            Err(Error::WriteRejected)
        } else {
            self.list_delim = value;
            proof {
                assert(self@ =~= old(self)@.with_list_delim(value));
            }
            Ok(())
        }
    }

    /// Get the start number of a list node. Fails with `TypeMismatch` on
    /// any other kind.
    pub fn list_start(&self) -> (r: Result<i32, Error>)
        ensures
            match r {
                Ok(v) => supports_list(self@.kind) && v as int == self@.list_start,
                Err(e) => e == Error::TypeMismatch && !supports_list(self@.kind),
            },
    {
        if matches!(self.kind, NodeType::List) {
            Ok(self.list_start)
        } else {
            Err(Error::TypeMismatch)
        }
    }

    /// Set the start number of a list node. Fails with `TypeMismatch` on
    /// any other kind, and with `WriteRejected` for a negative start.
    pub fn set_list_start(&mut self, value: i32) -> (r: Result<(), Error>)
        ensures
            match r {
                Ok(()) => supports_list(old(self)@.kind) && value >= 0 && final(self)@ == old(
                    self,
                )@.with_list_start(value as int),
                Err(e) => final(self)@ == old(self)@ && if e == Error::TypeMismatch {
                    !supports_list(old(self)@.kind)
                } else {
                    e == Error::WriteRejected && supports_list(old(self)@.kind) && value < 0
                },
            },
    {
        if !matches!(self.kind, NodeType::List) {
            Err(Error::TypeMismatch)
        } else if value < 0 {
            Err(Error::WriteRejected)
        } else {
            self.list_start = value;
            proof {
                assert(self@ =~= old(self)@.with_list_start(value as int));
            }
            Ok(())
        }
    }

    /// Get whether a list node is tight. Fails with `TypeMismatch` on any
    /// other kind.
    pub fn list_tight(&self) -> (r: Result<bool, Error>)
        ensures
            match r {
                Ok(v) => supports_list(self@.kind) && v == self@.list_tight,
                Err(e) => e == Error::TypeMismatch && !supports_list(self@.kind),
            },
    {
        if matches!(self.kind, NodeType::List) {
            Ok(self.list_tight)
        } else {
            Err(Error::TypeMismatch)
        }
    }

    /// Set whether a list node is tight. Fails with `TypeMismatch` on any
    /// other kind.
    pub fn set_list_tight(&mut self, value: bool) -> (r: Result<(), Error>)
        ensures
            match r {
                Ok(()) => supports_list(old(self)@.kind) && final(self)@ == old(self)@.with_list_tight(
                    value,
                ),
                Err(e) => e == Error::TypeMismatch && !supports_list(old(self)@.kind) && final(self)@
                    == old(self)@,
            },
    {
        if !matches!(self.kind, NodeType::List) {
            Err(Error::TypeMismatch)
        } else {
            self.list_tight = value;
            proof {
                assert(self@ =~= old(self)@.with_list_tight(value));
            }
            Ok(())
        }
    }

    /// Get the fence info of a code block node. Fails with `TypeMismatch`
    /// on any other kind.
    pub fn fence_info(&self) -> (r: Result<&str, Error>)
        ensures
            match r {
                Ok(s) => supports_fence_info(self@.kind) && s@ == self@.fence_info,
                Err(e) => e == Error::TypeMismatch && !supports_fence_info(self@.kind),
            },
    {
        if matches!(self.kind, NodeType::CodeBlock) {
            Ok(self.fence_info.as_str())
        } else {
            Err(Error::TypeMismatch)
        }
    }

    /// Set the fence info of a code block node. Fails with `TypeMismatch`
    /// on any other kind.
    pub fn set_fence_info(&mut self, value: &str) -> (r: Result<(), Error>)
        ensures
            match r {
                Ok(()) => supports_fence_info(old(self)@.kind) && final(self)@ == old(
                    self,
                )@.with_fence_info(value@),
                Err(e) => e == Error::TypeMismatch && !supports_fence_info(old(self)@.kind)
                    && final(self)@ == old(self)@,
            },
    {
        if matches!(self.kind, NodeType::CodeBlock) {
            self.fence_info = value.to_owned();
            proof {
                assert(self@ =~= old(self)@.with_fence_info(value@));
            }
            Ok(())
        } else {
            Err(Error::TypeMismatch)
        }
    }

    /// Get the URL of a link or image node. Fails with `TypeMismatch` on
    /// any other kind.
    pub fn url(&self) -> (r: Result<&str, Error>)
        ensures
            match r {
                Ok(s) => supports_url(self@.kind) && s@ == self@.url,
                Err(e) => e == Error::TypeMismatch && !supports_url(self@.kind),
            },
    {
        if matches!(self.kind, NodeType::Link | NodeType::Image) {
            Ok(self.url.as_str())
        } else {
            Err(Error::TypeMismatch)
        }
    }

    /// Set the URL of a link or image node. Fails with `TypeMismatch` on
    /// any other kind.
    pub fn set_url(&mut self, value: &str) -> (r: Result<(), Error>)
        ensures
            match r {
                Ok(()) => supports_url(old(self)@.kind) && final(self)@ == old(self)@.with_url(value@),
                Err(e) => e == Error::TypeMismatch && !supports_url(old(self)@.kind) && final(self)@
                    == old(self)@,
            },
    {
        if matches!(self.kind, NodeType::Link | NodeType::Image) {
            self.url = value.to_owned();
            proof {
                assert(self@ =~= old(self)@.with_url(value@));
            }
            Ok(())
        } else {
            Err(Error::TypeMismatch)
        }
    }

    /// Get the title of a link or image node. Fails with `TypeMismatch` on
    /// any other kind.
    pub fn title(&self) -> (r: Result<&str, Error>)
        ensures
            match r {
                Ok(s) => supports_url(self@.kind) && s@ == self@.title,
                Err(e) => e == Error::TypeMismatch && !supports_url(self@.kind),
            },
    {
        if matches!(self.kind, NodeType::Link | NodeType::Image) {
            Ok(self.title.as_str())
        } else {
            Err(Error::TypeMismatch)
        }
    }

    /// Set the title of a link or image node. Fails with `TypeMismatch` on
    /// any other kind.
    pub fn set_title(&mut self, value: &str) -> (r: Result<(), Error>)
        ensures
            match r {
                Ok(()) => supports_url(old(self)@.kind) && final(self)@ == old(self)@.with_title(value@),
                Err(e) => e == Error::TypeMismatch && !supports_url(old(self)@.kind) && final(self)@
                    == old(self)@,
            },
    {
        if matches!(self.kind, NodeType::Link | NodeType::Image) {
            self.title = value.to_owned();
            proof {
                assert(self@ =~= old(self)@.with_title(value@));
            }
            Ok(())
        } else {
            Err(Error::TypeMismatch)
        }
    }

    /// The line on which this node's source begins. Meaningful only when
    /// source-position tracking was enabled at parse time.
    pub fn start_line(&self) -> (r: i32)
        ensures
            r as int == self@.start_line,
    {
        self.start_line
    }

    /// The column at which this node's source begins.
    pub fn start_column(&self) -> (r: i32)
        ensures
            r as int == self@.start_column,
    {
        self.start_column
    }

    /// The line on which this node's source ends.
    pub fn end_line(&self) -> (r: i32)
        ensures
            r as int == self@.end_line,
    {
        self.end_line
    }

    /// The column at which this node's source ends.
    pub fn end_column(&self) -> (r: i32)
        ensures
            r as int == self@.end_column,
    {
        self.end_column
    }
}

/// A node's view lists the views of its exec children, in order.
proof fn lemma_node_children(n: Node)
    ensures
        n@.children.len() == n.children@.len(),
        forall|i: int|
            0 <= i < n.children@.len() ==> n@.children[i] == (#[trigger] n.children@[i])@,
{
    lemma_nodes_view(n.children@);
}

impl Node {
    /// Get the first child of this node, or `None` if this node has no
    /// children.
    pub fn first_child(&self) -> (r: Option<&Node>)
        ensures
            match r {
                Some(c) => self@.children.len() > 0 && c@ == self@.children[0],
                None => self@.children.len() == 0,
            },
    {
        proof {
            lemma_node_children(*self);
        }
        if self.children.len() > 0 {
            Some(&self.children[0])
        } else {
            None
        }
    }

    /// Get the last child of this node, or `None` if this node has no
    /// children.
    pub fn last_child(&self) -> (r: Option<&Node>)
        ensures
            match r {
                Some(c) => self@.children.len() > 0 && c@ == self@.children[self@.children.len()
                    - 1],
                None => self@.children.len() == 0,
            },
    {
        proof {
            lemma_node_children(*self);
        }
        if self.children.len() > 0 {
            Some(&self.children[self.children.len() - 1])
        } else {
            None
        }
    }

    /// Get the node that the path selects, or `None` if the path does not
    /// name a node of this tree.
    pub fn node_at<'a>(&'a self, path: &Vec<usize>) -> (r: Option<&'a Node>)
        ensures
            match r {
                Some(n) => self@.valid_path(path@) && n@ == self@.subtree_at(path@),
                None => !self@.valid_path(path@),
            },
    {
        let mut cur: &Node = self;
        let mut i: usize = 0;
        proof {
            assert(path@.subrange(0, 0) =~= Seq::<usize>::empty());
        }
        while i < path.len()
            invariant
                i <= path@.len(),
                self@.valid_path(path@.subrange(0, i as int)),
                cur@ == self@.subtree_at(path@.subrange(0, i as int)),
            decreases path@.len() - i,
        {
            let j = path[i];
            proof {
                lemma_node_children(*cur);
                lemma_path_snoc(self@, path@.subrange(0, i as int), j);
                assert(path@.subrange(0, i as int).push(j) =~= path@.subrange(0, i as int + 1));
            }
            if j >= cur.children.len() {
                proof {
                    lemma_valid_path_prefix_contra(self@, path@, i as int + 1);
                }
                return None;
            }
            cur = &cur.children[j];
            i = i + 1;
        }
        proof {
            assert(path@.subrange(0, path@.len() as int) =~= path@);
        }
        Some(cur)
    }

    /// Whether the path names a node of this tree.
    pub fn has_node(&self, path: &Vec<usize>) -> (r: bool)
        ensures
            r == self@.valid_path(path@),
    {
        self.node_at(path).is_some()
    }

    /// Get the parent of the node that the path selects: the node one level
    /// up, or `None` for the root or for a path that names no node.
    pub fn parent<'a>(&'a self, path: &Vec<usize>) -> (r: Option<&'a Node>)
        ensures
            match r {
                Some(n) => path@.len() > 0 && self@.valid_path(path@) && n@ == self@.subtree_at(
                    path@.drop_last(),
                ),
                None => path@.len() == 0 || !self@.valid_path(path@),
            },
    {
        if path.len() == 0 {
            return None;
        }
        let mut prefix: Vec<usize> = Vec::new();
        let mut i: usize = 0;
        while i < path.len() - 1
            invariant
                i <= path@.len() - 1,
                prefix@ == path@.subrange(0, i as int),
            decreases path@.len() - i,
        {
            prefix.push(path[i]);
            proof {
                assert(path@.subrange(0, i as int).push(path@[i as int]) =~= path@.subrange(
                    0,
                    i as int + 1,
                ));
            }
            i = i + 1;
        }
        proof {
            assert(prefix@ =~= path@.drop_last());
        }
        match self.node_at(&prefix) {
            Option::None => {
                proof {
                    lemma_valid_path_prefix_contra(self@, path@, path@.len() - 1);
                }
                None
            },
            Option::Some(n) => {
                proof {
                    lemma_node_children(*n);
                    lemma_path_snoc(self@, path@.drop_last(), path@[path@.len() - 1]);
                    assert(path@.drop_last().push(path@[path@.len() - 1]) =~= path@);
                }
                if path[path.len() - 1] < n.children.len() {
                    Some(n)
                } else {
                    None
                }
            },
        }
    }

    /// Get the next sibling of the node that the path selects, or `None`
    /// if it is the last child, the root, or not a node of this tree.
    pub fn next<'a>(&'a self, path: &Vec<usize>) -> (r: Option<&'a Node>)
        ensures
            match r {
                Some(n) => path@.len() > 0 && self@.valid_path(path@) && path@.last() + 1
                    < self@.subtree_at(path@.drop_last()).children.len() && n@ == self@.subtree_at(
                    path@.drop_last(),
                ).children[path@.last() + 1],
                None => path@.len() == 0 || !self@.valid_path(path@) || path@.last() + 1
                    >= self@.subtree_at(path@.drop_last()).children.len(),
            },
    {
        match self.parent(path) {
            Option::None => None,
            Option::Some(p) => {
                proof {
                    lemma_node_children(*p);
                    lemma_valid_path_prefix(self@, path@, path@.len() - 1);
                    assert(path@.subrange(0, path@.len() - 1) =~= path@.drop_last());
                    lemma_path_snoc(self@, path@.drop_last(), path@[path@.len() - 1]);
                    assert(path@.drop_last().push(path@[path@.len() - 1]) =~= path@);
                }
                let j = path[path.len() - 1];
                proof {
                    assert(self@.valid_path(path@));
                    assert(path@.last() < self@.subtree_at(path@.drop_last()).children.len());
                    assert(j < spec_vec_len(&p.children));
                }
                if j + 1 < p.children.len() {
                    Some(&p.children[j + 1])
                } else {
                    None
                }
            },
        }
    }

    /// Get the previous sibling of the node that the path selects, or
    /// `None` if it is the first child, the root, or not a node of this
    /// tree.
    pub fn previous<'a>(&'a self, path: &Vec<usize>) -> (r: Option<&'a Node>)
        ensures
            match r {
                Some(n) => path@.len() > 0 && self@.valid_path(path@) && path@.last() >= 1 && n@
                    == self@.subtree_at(path@.drop_last()).children[path@.last() - 1],
                None => path@.len() == 0 || !self@.valid_path(path@) || path@.last() == 0,
            },
    {
        match self.parent(path) {
            Option::None => None,
            Option::Some(p) => {
                proof {
                    lemma_node_children(*p);
                    lemma_valid_path_prefix(self@, path@, path@.len() - 1);
                    assert(path@.subrange(0, path@.len() - 1) =~= path@.drop_last());
                    lemma_path_snoc(self@, path@.drop_last(), path@[path@.len() - 1]);
                    assert(path@.drop_last().push(path@[path@.len() - 1]) =~= path@);
                }
                let j = path[path.len() - 1];
                if j >= 1 {
                    Some(&p.children[j - 1])
                } else {
                    None
                }
            },
        }
    }
}

/// Updating one node of a sequence updates its value at its position.
proof fn lemma_nodes_view_update(s: Seq<Node>, j: int, c: Node)
    requires
        0 <= j < s.len(),
    ensures
        nodes_view(s.update(j, c)) == nodes_view(s).update(j, node_view(c)),
{
    lemma_nodes_view(s);
    lemma_nodes_view(s.update(j, c));
    assert forall|i: int| 0 <= i < s.len() implies nodes_view(s.update(j, c))[i] == nodes_view(
        s,
    ).update(j, node_view(c))[i] by {
        assert(s.update(j, c)[i] == if i == j {
            c
        } else {
            s[i]
        });
    }
    assert(nodes_view(s.update(j, c)) =~= nodes_view(s).update(j, node_view(c)));
}

/// Inserting a node into a sequence inserts its value at that position.
pub proof fn lemma_nodes_view_insert(s: Seq<Node>, j: int, c: Node)
    requires
        0 <= j <= s.len(),
    ensures
        nodes_view(s.insert(j, c)) == nodes_view(s).insert(j, c@),
{
    lemma_nodes_view(s);
    lemma_nodes_view(s.insert(j, c));
    assert forall|i: int| 0 <= i < s.len() + 1 implies nodes_view(s.insert(j, c))[i] == nodes_view(
        s,
    ).insert(j, node_view(c))[i] by {
        assert(s.insert(j, c)[i] == if i < j {
            s[i]
        } else if i == j {
            c
        } else {
            s[i - 1]
        });
    }
    assert(nodes_view(s.insert(j, c)) =~= nodes_view(s).insert(j, node_view(c)));
}

/// Removing a node from a sequence removes its value from that position.
proof fn lemma_nodes_view_remove(s: Seq<Node>, j: int)
    requires
        0 <= j < s.len(),
    ensures
        nodes_view(s.remove(j)) == nodes_view(s).remove(j),
{
    lemma_nodes_view(s);
    lemma_nodes_view(s.remove(j));
    assert forall|i: int| 0 <= i < s.len() - 1 implies nodes_view(s.remove(j))[i] == nodes_view(
        s,
    ).remove(j)[i] by {
        assert(s.remove(j)[i] == if i < j {
            s[i]
        } else {
            s[i + 1]
        });
    }
    assert(nodes_view(s.remove(j)) =~= nodes_view(s).remove(j));
}

/// The values of concatenated sequences of nodes are the concatenated
/// values.
pub proof fn lemma_nodes_view_add(a: Seq<Node>, b: Seq<Node>)
    ensures
        nodes_view(a + b) == nodes_view(a) + nodes_view(b),
{
    lemma_nodes_view(a);
    lemma_nodes_view(b);
    lemma_nodes_view(a + b);
    assert forall|i: int| 0 <= i < a.len() + b.len() implies nodes_view(a + b)[i] == (nodes_view(a)
        + nodes_view(b))[i] by {
        if i < a.len() {
            assert((a + b)[i] == a[i]);
        } else {
            assert((a + b)[i] == b[i - a.len()]);
        }
    }
    assert(nodes_view(a + b) =~= nodes_view(a) + nodes_view(b));
}

/// Dropping nodes from the front of a sequence drops their values.
pub proof fn lemma_nodes_view_skip(s: Seq<Node>, n: int)
    requires
        0 <= n <= s.len(),
    ensures
        nodes_view(s.skip(n)) == nodes_view(s).skip(n),
{
    lemma_nodes_view(s);
    lemma_nodes_view(s.skip(n));
    assert forall|i: int| 0 <= i < s.len() - n implies nodes_view(s.skip(n))[i] == nodes_view(
        s,
    ).skip(n)[i] by {
        assert(s.skip(n)[i] == s[i + n]);
    }
    assert(nodes_view(s.skip(n)) =~= nodes_view(s).skip(n));
}

impl Node {
    /// Splice `child` in as child number `idx` of the node that the suffix
    /// of `path` from position `i` selects.
    fn insert_child_rec(&mut self, path: &Vec<usize>, i: usize, idx: usize, child: Node)
        requires
            i <= path@.len(),
            old(self)@.valid_path(path@.subrange(i as int, path@.len() as int)),
            idx <= old(self)@.subtree_at(
                path@.subrange(i as int, path@.len() as int),
            ).children.len(),
        ensures
            final(self)@ == old(self)@.insert_child_at(
                path@.subrange(i as int, path@.len() as int),
                idx as int,
                child@,
            ),
        decreases path@.len() - i,
    {
        let ghost suffix = path@.subrange(i as int, path@.len() as int);
        proof {
            lemma_node_children(*old(self));
        }
        if i == path.len() {
            proof {
                assert(suffix =~= Seq::<usize>::empty());
            }
            self.children.insert(idx, child);
            proof {
                lemma_nodes_view_insert(old(self).children@, idx as int, child);
                assert(self@ =~= old(self)@.insert_child_at(suffix, idx as int, child@));
            }
        } else {
            let j = path[i];
            proof {
                assert(suffix[0] == j);
                assert(suffix.drop_first() =~= path@.subrange(i as int + 1, path@.len() as int));
                assert(j < spec_vec_len(&old(self).children));
            }
            let mut c = self.children.remove(j);
            proof {
                lemma_nodes_view_remove(old(self).children@, j as int);
                assert(c@ == old(self)@.children[j as int]);
            }
            c.insert_child_rec(path, i + 1, idx, child);
            self.children.insert(j, c);
            proof {
                lemma_nodes_view_insert(old(self).children@.remove(j as int), j as int, c);
                assert(old(self).children@.remove(j as int).insert(j as int, c) =~= old(
                    self,
                ).children@.update(j as int, c));
                lemma_nodes_view_update(old(self).children@, j as int, c);
                assert(self@ =~= old(self)@.with_children(
                    old(self)@.children.update(j as int, c@),
                ));
                assert(self@ =~= old(self)@.insert_child_at(suffix, idx as int, child@));
            }
        }
    }

    /// Detach and return the subtree that the suffix of `path` from
    /// position `i` selects.
    fn unlink_rec(&mut self, path: &Vec<usize>, i: usize) -> (r: Node)
        requires
            i < path@.len(),
            old(self)@.valid_path(path@.subrange(i as int, path@.len() as int)),
        ensures
            r@ == old(self)@.subtree_at(path@.subrange(i as int, path@.len() as int)),
            final(self)@ == old(self)@.remove_at(path@.subrange(i as int, path@.len() as int)),
        decreases path@.len() - i,
    {
        let ghost suffix = path@.subrange(i as int, path@.len() as int);
        proof {
            lemma_node_children(*old(self));
            assert(suffix[0] == path@[i as int]);
            assert(suffix.drop_first() =~= path@.subrange(i as int + 1, path@.len() as int));
            assert(path@[i as int] < spec_vec_len(&old(self).children));
        }
        let j = path[i];
        if i == path.len() - 1 {
            let c = self.children.remove(j);
            proof {
                lemma_nodes_view_remove(old(self).children@, j as int);
                assert(c@ == old(self)@.children[j as int]);
                assert(c@.subtree_at(suffix.drop_first()) == c@);
                assert(self@ =~= old(self)@.with_children(old(self)@.children.remove(j as int)));
                assert(self@ =~= old(self)@.remove_at(suffix));
            }
            c
        } else {
            let mut c = self.children.remove(j);
            proof {
                lemma_nodes_view_remove(old(self).children@, j as int);
                assert(c@ == old(self)@.children[j as int]);
            }
            let r = c.unlink_rec(path, i + 1);
            self.children.insert(j, c);
            proof {
                lemma_nodes_view_insert(old(self).children@.remove(j as int), j as int, c);
                assert(old(self).children@.remove(j as int).insert(j as int, c) =~= old(
                    self,
                ).children@.update(j as int, c));
                lemma_nodes_view_update(old(self).children@, j as int, c);
                assert(self@ =~= old(self)@.with_children(
                    old(self)@.children.update(j as int, c@),
                ));
                assert(self@ =~= old(self)@.remove_at(suffix));
            }
            r
        }
    }

    /// Copy the path without its last step.
    fn path_prefix(path: &Vec<usize>) -> (r: Vec<usize>)
        requires
            path@.len() > 0,
        ensures
            r@ == path@.drop_last(),
    {
        let mut prefix: Vec<usize> = Vec::new();
        let mut i: usize = 0;
        proof {
            assert(path@.subrange(0, 0) =~= Seq::<usize>::empty());
        }
        while i < path.len() - 1
            invariant
                path@.len() > 0,
                i <= path@.len() - 1,
                prefix@ == path@.subrange(0, i as int),
            decreases path@.len() - i,
        {
            prefix.push(path[i]);
            proof {
                assert(path@.subrange(0, i as int).push(path@[i as int]) =~= path@.subrange(
                    0,
                    i as int + 1,
                ));
            }
            i = i + 1;
        }
        proof {
            assert(prefix@ =~= path@.drop_last());
        }
        prefix
    }

    /// Remove the node that the path selects (with its whole subtree) from
    /// this tree and return it as a new, independently owned root.
    pub fn unlink(&mut self, at: &Vec<usize>) -> (r: Node)
        requires
            old(self)@.valid_path(at@),
            at@.len() > 0,
        ensures
            r@ == old(self)@.subtree_at(at@),
            final(self)@ == old(self)@.remove_at(at@),
    {
        proof {
            assert(at@.subrange(0, at@.len() as int) =~= at@);
        }
        self.unlink_rec(at, 0)
    }

    /// Splice `sibling` in directly before the node that the path selects,
    /// absorbing its ownership into this tree.
    pub fn insert_before(&mut self, at: &Vec<usize>, sibling: Node)
        requires
            old(self)@.valid_path(at@),
            at@.len() > 0,
        ensures
            final(self)@ == old(self)@.insert_child_at(
                at@.drop_last(),
                at@.last() as int,
                sibling@,
            ),
    {
        proof {
            lemma_valid_path_prefix(old(self)@, at@, at@.len() - 1);
            assert(at@.subrange(0, at@.len() - 1) =~= at@.drop_last());
            lemma_path_snoc(old(self)@, at@.drop_last(), at@[at@.len() - 1]);
            assert(at@.drop_last().push(at@[at@.len() - 1]) =~= at@);
        }
        let prefix = Node::path_prefix(at);
        let j = at[at.len() - 1];
        proof {
            assert(prefix@.subrange(0, prefix@.len() as int) =~= prefix@);
        }
        self.insert_child_rec(&prefix, 0, j, sibling)
    }

    /// Splice `sibling` in directly after the node that the path selects,
    /// absorbing its ownership into this tree.
    pub fn insert_after(&mut self, at: &Vec<usize>, sibling: Node)
        requires
            old(self)@.valid_path(at@),
            at@.len() > 0,
        ensures
            final(self)@ == old(self)@.insert_child_at(
                at@.drop_last(),
                at@.last() + 1 as int,
                sibling@,
            ),
    {
        proof {
            lemma_valid_path_prefix(old(self)@, at@, at@.len() - 1);
            assert(at@.subrange(0, at@.len() - 1) =~= at@.drop_last());
            lemma_path_snoc(old(self)@, at@.drop_last(), at@[at@.len() - 1]);
            assert(at@.drop_last().push(at@[at@.len() - 1]) =~= at@);
        }
        let prefix = Node::path_prefix(at);
        let parent_node = match self.node_at(&prefix) {
            Option::Some(n) => n,
            Option::None => unreached(),
        };
        proof {
            lemma_node_children(*parent_node);
            assert(at@[at@.len() - 1] < spec_vec_len(&parent_node.children));
        }
        let j = at[at.len() - 1];
        proof {
            assert(prefix@.subrange(0, prefix@.len() as int) =~= prefix@);
        }
        self.insert_child_rec(&prefix, 0, j + 1, sibling)
    }

    /// Attach `child` as the first child of the node that the path selects,
    /// absorbing its ownership into this tree.
    pub fn prepend_child(&mut self, at: &Vec<usize>, child: Node)
        requires
            old(self)@.valid_path(at@),
        ensures
            final(self)@ == old(self)@.insert_child_at(at@, 0, child@),
    {
        proof {
            assert(at@.subrange(0, at@.len() as int) =~= at@);
        }
        self.insert_child_rec(at, 0, 0, child)
    }

    /// Attach `child` as the last child of the node that the path selects,
    /// absorbing its ownership into this tree.
    pub fn append_child(&mut self, at: &Vec<usize>, child: Node)
        requires
            old(self)@.valid_path(at@),
        ensures
            final(self)@ == old(self)@.insert_child_at(
                at@,
                old(self)@.subtree_at(at@).children.len() as int,
                child@,
            ),
    {
        let target = match self.node_at(at) {
            Option::Some(n) => n,
            Option::None => unreached(),
        };
        proof {
            lemma_node_children(*target);
        }
        let idx = target.children.len();
        proof {
            assert(at@.subrange(0, at@.len() as int) =~= at@);
        }
        self.insert_child_rec(at, 0, idx, child)
    }
}

/// Copy a path.
fn clone_path(p: &Vec<usize>) -> (r: Vec<usize>)
    ensures
        r@ == p@,
{
    let mut out: Vec<usize> = Vec::new();
    let mut i: usize = 0;
    while i < p.len()
        invariant
            i <= p@.len(),
            out@ == p@.subrange(0, i as int),
        decreases p@.len() - i,
    {
        out.push(p[i]);
        proof {
            assert(p@.subrange(0, i as int).push(p@[i as int]) =~= p@.subrange(0, i as int + 1));
        }
        i = i + 1;
    }
    proof {
        assert(p@.subrange(0, p@.len() as int) =~= p@);
    }
    out
}

impl Node {
    /// Get child number `i` of this node, or `None` if there is no such
    /// child.
    pub fn child(&self, i: usize) -> (r: Option<&Node>)
        ensures
            match r {
                Some(c) => i < self@.children.len() && c@ == self@.children[i as int],
                None => i >= self@.children.len(),
            },
    {
        proof {
            lemma_node_children(*self);
        }
        if i < self.children.len() {
            Some(&self.children[i])
        } else {
            None
        }
    }

    /// Create a new iterator over this node and its children.
    pub fn iter(&self) -> (r: crate::iter::NodeIterator)
        ensures
            r.wf(),
            r.root_spec() == self@,
            r.events_spec() == event_seq(self@, Seq::empty()),
            r.position() == 0,
            !r.exhausted(),
    {
        crate::iter::NodeIterator::new(self)
    }

    /// Replace the recorded source range of this node.
    pub(crate) fn set_source_pos(&mut self, sl: i32, sc: i32, el: i32, ec: i32)
        ensures
            final(self)@ == (NodeView {
                start_line: sl as int,
                start_column: sc as int,
                end_line: el as int,
                end_column: ec as int,
                ..old(self)@
            }),
    {
        self.start_line = sl;
        self.start_column = sc;
        self.end_line = el;
        self.end_column = ec;
        proof {
            assert(self@ =~= NodeView {
                start_line: sl as int,
                start_column: sc as int,
                end_line: el as int,
                end_column: ec as int,
                ..old(self)@
            });
        }
    }

    /// How many children this node has.
    pub fn child_count(&self) -> (r: usize)
        ensures
            r == self@.children.len(),
    {
        proof {
            lemma_node_children(*self);
        }
        self.children.len()
    }

    /// The full event list of a pre-order walk of this tree: each event
    /// with the path of the node it concerns.
    pub(crate) fn event_list(&self) -> (r: Vec<(EventType, Vec<usize>)>)
        ensures
            events_view(r@) == event_seq(self@, Seq::empty()),
    {
        let mut out: Vec<(EventType, Vec<usize>)> = Vec::new();
        let mut path: Vec<usize> = Vec::new();
        self.build_events(&mut path, &mut out);
        proof {
            assert(events_view(Seq::<(EventType, Vec<usize>)>::empty()) =~= Seq::<
                (EventType, Seq<usize>),
            >::empty());
            assert(events_view(out@) =~= event_seq(self@, Seq::empty()));
        }
        out
    }

    /// Walk this tree in pre-order, appending its events to `out`.
    fn build_events(&self, path: &mut Vec<usize>, out: &mut Vec<(EventType, Vec<usize>)>)
        ensures
            final(path)@ == old(path)@,
            events_view(final(out)@) == events_view(old(out)@) + event_seq(self@, old(path)@),
        decreases *self,
    {
        proof {
            lemma_node_children(*self);
        }
        let ghost p0 = path@;
        let ghost out0 = out@;
        let entry_path = clone_path(path);
        out.push((EventType::Enter, entry_path));
        proof {
            assert(events_view(out@) =~= events_view(out0) + seq![
                (EventType::Enter, p0),
            ]);
        }
        if self.children.len() == 0 {
            proof {
                assert(event_seq(self@, p0) == seq![(EventType::Enter, p0)]);
                assert(events_view(out@) =~= events_view(out0) + event_seq(self@, p0));
            }
        } else {
            let ghost ch = self@.children;
            let mut j: usize = 0;
            while j < self.children.len()
                invariant
                    j <= self.children@.len(),
                    ch == self@.children,
                    self@.children.len() == self.children@.len(),
                    forall|k: int|
                        0 <= k < self.children@.len() ==> self@.children[k] == (
                        #[trigger] self.children@[k])@,
                    path@ == p0,
                    events_view(out@) + event_seq_children(ch, p0, j as int) == events_view(out0)
                        + seq![(EventType::Enter, p0)] + event_seq_children(ch, p0, 0),
                decreases self.children@.len() - j,
            {
                let ghost out_j = out@;
                path.push(j);
                self.children[j].build_events(path, out);
                let popped = path.pop();
                proof {
                    assert(p0.push(j as usize).drop_last() =~= p0);
                    assert(events_view(out@) == events_view(out_j) + event_seq(
                        ch[j as int],
                        p0.push(j as usize),
                    ));
                    assert(events_view(out@) + event_seq_children(ch, p0, j as int + 1)
                        =~= events_view(out_j) + event_seq_children(ch, p0, j as int));
                }
                j = j + 1;
            }
            let exit_path = clone_path(path);
            out.push((EventType::Exit, exit_path));
            proof {
                assert(event_seq_children(ch, p0, self.children@.len() as int) =~= Seq::<
                    (EventType, Seq<usize>),
                >::empty());
                assert(events_view(out@) =~= events_view(out0) + seq![(EventType::Enter, p0)]
                    + event_seq_children(ch, p0, 0) + seq![(EventType::Exit, p0)]);
                assert(events_view(out@) =~= events_view(out0) + event_seq(self@, p0));
            }
        }
    }
}

/// If some prefix of a path is not valid, the path is not valid either.
proof fn lemma_valid_path_prefix_contra(t: NodeView, p: Seq<usize>, k: int)
    requires
        0 <= k <= p.len(),
        !t.valid_path(p.subrange(0, k)),
    ensures
        !t.valid_path(p),
{
    if t.valid_path(p) {
        lemma_valid_path_prefix(t, p, k);
    }
}

/// Whether two adjacent siblings are a pair of text nodes that
/// consolidation merges: both must be leaves, as text nodes are in every
/// tree the parser produces.
pub open spec fn mergeable(a: NodeView, b: NodeView) -> bool {
    a.kind == NodeType::Text && b.kind == NodeType::Text && a.children.len() == 0
        && b.children.len() == 0
}

/// Two adjacent text nodes merged into one: the text of the second is
/// appended to the first, which takes over the end of the source range.
pub open spec fn merged_text(a: NodeView, b: NodeView) -> NodeView {
    NodeView { literal: a.literal + b.literal, end_line: b.end_line, end_column: b.end_column, ..a }
}

/// A sequence of siblings with every run of adjacent leaf text nodes
/// merged into a single text node, in document order.
pub open spec fn merge_texts(s: Seq<NodeView>) -> Seq<NodeView>
    decreases s.len(),
{
    if s.len() >= 2 && mergeable(s[0], s[1]) {
        merge_texts(seq![merged_text(s[0], s[1])] + s.skip(2))
    } else if s.len() >= 1 {
        seq![s[0]] + merge_texts(s.skip(1))
    } else {
        Seq::empty()
    }
}

impl NodeView {
    /// This tree normalized: in every child list, adjacent text nodes are
    /// merged into one.
    pub open spec fn consolidate(self) -> NodeView
        decreases self,
    {
        self.with_children(merge_texts(NodeView::consolidate_seq(self.children)))
    }

    /// Each tree of a sequence, normalized.
    pub open spec fn consolidate_seq(s: Seq<NodeView>) -> Seq<NodeView>
        decreases s,
    {
        if s.len() == 0 {
            Seq::empty()
        } else {
            NodeView::consolidate_seq(s.drop_last()).push(s.last().consolidate())
        }
    }
}

impl Node {
    /// Normalize this tree by consolidating adjacent text nodes: for every
    /// run of adjacent sibling text leaves, concatenate their contents into
    /// the first node of the run and discard the others.
    pub fn consolidate_text_nodes(&mut self)
        ensures
            final(self)@ == old(self)@.consolidate(),
        decreases *old(self),
    {
        proof {
            lemma_node_children(*old(self));
        }
        let mut q: Vec<Node> = Vec::new();
        core::mem::swap(&mut self.children, &mut q);
        let ghost orig = q@;
        let mut done: Vec<Node> = Vec::new();
        proof {
            assert(orig.subrange(0, 0) =~= Seq::<Node>::empty());
        }
        while q.len() > 0
            invariant
                done@.len() + q@.len() == orig.len(),
                q@ == orig.subrange(done@.len() as int, orig.len() as int),
                nodes_view(done@) == NodeView::consolidate_seq(
                    nodes_view(orig.subrange(0, done@.len() as int)),
                ),
                orig == old(self).children@,
            decreases q@.len(),
        {
            let ghost k = done@.len() as int;
            let mut c = q.remove(0);
            proof {
                assert(c == orig[k]);
                assert(q@ =~= orig.subrange(k + 1, orig.len() as int));
            }
            c.consolidate_text_nodes();
            let ghost dpre = done@;
            done.push(c);
            proof {
                let pre = orig.subrange(0, k);
                let pre1 = orig.subrange(0, k + 1);
                assert(pre1.drop_last() =~= pre);
                assert(pre1.last() == orig[k]);
                lemma_nodes_view(pre);
                lemma_nodes_view(pre1);
                assert(nodes_view(pre1) =~= nodes_view(pre).push(node_view(orig[k])));
                assert(done@ == dpre.push(c));
                assert(done@.subrange(0, done@.len() - 1) =~= dpre);
                assert(done@[done@.len() - 1] == c);
                assert(nodes_view(done@) == nodes_view(dpre).push(c@));
                assert(nodes_view(pre1).drop_last() =~= nodes_view(pre));
                assert(nodes_view(pre1).last() == node_view(orig[k]));
                assert(nodes_view(pre1).len() > 0);
                assert(NodeView::consolidate_seq(nodes_view(pre1)) == NodeView::consolidate_seq(
                    nodes_view(pre),
                ).push(node_view(orig[k]).consolidate()));
            }
        }
        proof {
            assert(orig.subrange(0, orig.len() as int) =~= orig);
        }
        let merged = merge_adjacent(done);
        self.children = merged;
        proof {
            assert(self@ =~= old(self)@.consolidate());
        }
    }
}

/// Whether two nodes are leaf text nodes that consolidation merges.
fn mergeable_exec(a: &Node, b: &Node) -> (r: bool)
    ensures
        r == mergeable(a@, b@),
{
    proof {
        lemma_node_children(*a);
        lemma_node_children(*b);
    }
    matches!(a.kind, NodeType::Text) && matches!(b.kind, NodeType::Text) && a.children.len() == 0
        && b.children.len() == 0
}

/// Merge every run of adjacent leaf text nodes in the sequence.
pub(crate) fn merge_adjacent(v: Vec<Node>) -> (r: Vec<Node>)
    ensures
        nodes_view(r@) == merge_texts(nodes_view(v@)),
    decreases v@.len(),
{
    let mut v = v;
    let ghost orig = v@;
    proof {
        lemma_nodes_view(orig);
    }
    if v.len() >= 2 && mergeable_exec(&v[0], &v[1]) {
        let second = v.remove(1);
        let mut first = v.remove(0);
        first.literal.append(second.literal.as_str());
        first.end_line = second.end_line;
        first.end_column = second.end_column;
        proof {
            assert(first@ =~= merged_text(node_view(orig[0]), node_view(orig[1])));
            assert(v@ =~= orig.skip(2));
        }
        v.insert(0, first);
        proof {
            lemma_nodes_view_insert(orig.skip(2), 0, first);
            lemma_nodes_view_skip(orig, 2);
            assert(nodes_view(v@) =~= seq![merged_text(nodes_view(orig)[0], nodes_view(orig)[1])]
                + nodes_view(orig).skip(2));
        }
        merge_adjacent(v)
    } else if v.len() >= 1 {
        let head = v.remove(0);
        proof {
            assert(v@ =~= orig.skip(1));
        }
        let mut rest = merge_adjacent(v);
        let ghost rpre = rest@;
        rest.insert(0, head);
        proof {
            lemma_nodes_view_insert(rpre, 0, head);
            lemma_nodes_view_skip(orig, 1);
            assert(nodes_view(rest@) =~= seq![node_view(orig[0])] + merge_texts(
                nodes_view(orig).skip(1),
            ));
        }
        rest
    } else {
        proof {
            assert(nodes_view(v@) =~= Seq::<NodeView>::empty());
        }
        v
    }
}

/// Merging never leaves two mergeable text nodes adjacent, and it keeps
/// the head's kind and children.
proof fn lemma_merge_texts_shape(s: Seq<NodeView>)
    ensures
        s.len() == 0 ==> merge_texts(s).len() == 0,
        s.len() > 0 ==> merge_texts(s).len() > 0 && merge_texts(s)[0].kind == s[0].kind
            && merge_texts(s)[0].children == s[0].children,
        forall|i: int|
            0 <= i < merge_texts(s).len() - 1 ==> !mergeable(
                #[trigger] merge_texts(s)[i],
                merge_texts(s)[i + 1],
            ),
    decreases s.len(),
{
    if s.len() >= 2 && mergeable(s[0], s[1]) {
        let m = merged_text(s[0], s[1]);
        lemma_merge_texts_shape(seq![m] + s.skip(2));
        assert((seq![m] + s.skip(2))[0] == m);
    } else if s.len() >= 1 {
        lemma_merge_texts_shape(s.skip(1));
        let r = seq![s[0]] + merge_texts(s.skip(1));
        assert(merge_texts(s) == r);
        assert forall|i: int| 0 <= i < r.len() - 1 implies !mergeable(
            #[trigger] r[i],
            r[i + 1],
        ) by {
            if i == 0 {
                if s.len() >= 2 {
                    assert(r[1] == merge_texts(s.skip(1))[0]);
                    assert(s.skip(1)[0] == s[1]);
                    assert(!mergeable(s[0], s[1]));
                }
            } else {
                assert(r[i] == merge_texts(s.skip(1))[i - 1]);
                assert(r[i + 1] == merge_texts(s.skip(1))[i]);
            }
        }
    }
}

/// Merging a sequence in which no two adjacent nodes are mergeable changes
/// nothing.
proof fn lemma_merge_texts_identity(s: Seq<NodeView>)
    requires
        forall|i: int| 0 <= i < s.len() - 1 ==> !mergeable(#[trigger] s[i], s[i + 1]),
    ensures
        merge_texts(s) == s,
    decreases s.len(),
{
    if s.len() >= 1 {
        assert forall|i: int| 0 <= i < s.skip(1).len() - 1 implies !mergeable(
            #[trigger] s.skip(1)[i],
            s.skip(1)[i + 1],
        ) by {
            assert(s.skip(1)[i] == s[i + 1]);
            assert(s.skip(1)[i + 1] == s[i + 2]);
        }
        lemma_merge_texts_identity(s.skip(1));
        assert(merge_texts(s) =~= s);
    }
}

/// Every node of a merged sequence is a node of the input or a merged leaf
/// text node.
proof fn lemma_merge_texts_elems(s: Seq<NodeView>)
    ensures
        forall|i: int|
            0 <= i < merge_texts(s).len() ==> s.contains(#[trigger] merge_texts(s)[i]) || (
            merge_texts(s)[i].kind == NodeType::Text && merge_texts(s)[i].children.len() == 0),
    decreases s.len(),
{
    if s.len() >= 2 && mergeable(s[0], s[1]) {
        let m = merged_text(s[0], s[1]);
        let t = seq![m] + s.skip(2);
        lemma_merge_texts_elems(t);
        assert forall|i: int|
            0 <= i < merge_texts(s).len() implies s.contains(#[trigger] merge_texts(s)[i]) || (
        merge_texts(s)[i].kind == NodeType::Text && merge_texts(s)[i].children.len() == 0) by {
            let x = merge_texts(s)[i];
            if t.contains(x) {
                let j = choose|j: int| 0 <= j < t.len() && t[j] == x;
                if j == 0 {
                    assert(x == m);
                } else {
                    assert(t[j] == s[j + 1]);
                    assert(s.contains(x));
                }
            }
        }
    } else if s.len() >= 1 {
        lemma_merge_texts_elems(s.skip(1));
        assert forall|i: int|
            0 <= i < merge_texts(s).len() implies s.contains(#[trigger] merge_texts(s)[i]) || (
        merge_texts(s)[i].kind == NodeType::Text && merge_texts(s)[i].children.len() == 0) by {
            let x = merge_texts(s)[i];
            if i == 0 {
                assert(x == s[0]);
                assert(s.contains(x));
            } else {
                assert(x == merge_texts(s.skip(1))[i - 1]);
                if s.skip(1).contains(x) {
                    let j = choose|j: int| 0 <= j < s.skip(1).len() && s.skip(1)[j] == x;
                    assert(s.skip(1)[j] == s[j + 1]);
                    assert(s.contains(x));
                }
            }
        }
    }
}

/// The normalized trees of a sequence, element by element.
proof fn lemma_consolidate_seq_elems(s: Seq<NodeView>)
    ensures
        NodeView::consolidate_seq(s).len() == s.len(),
        forall|i: int|
            0 <= i < s.len() ==> NodeView::consolidate_seq(s)[i] == (#[trigger] s[i]).consolidate(),
    decreases s,
{
    if s.len() > 0 {
        lemma_consolidate_seq_elems(s.drop_last());
        assert forall|i: int| 0 <= i < s.len() implies NodeView::consolidate_seq(s)[i] == (
        #[trigger] s[i]).consolidate() by {
            if i < s.len() - 1 {
                assert(s.drop_last()[i] == s[i]);
            }
        }
    }
}

/// A leaf is already normalized.
proof fn lemma_consolidate_leaf(t: NodeView)
    requires
        t.children.len() == 0,
    ensures
        t.consolidate() == t,
{
    assert(t.children =~= Seq::<NodeView>::empty());
    assert(t.consolidate() =~= t);
}

/// Consolidating adjacent text nodes is idempotent: normalizing a tree a
/// second time changes nothing.
pub proof fn lemma_consolidate_idempotent(t: NodeView)
    ensures
        t.consolidate().consolidate() == t.consolidate(),
    decreases t,
{
    let c = NodeView::consolidate_seq(t.children);
    let m = merge_texts(c);
    lemma_consolidate_seq_elems(t.children);
    lemma_merge_texts_elems(c);
    lemma_consolidate_seq_elems(m);
    // every node of the merged child list is already normalized
    assert forall|i: int| 0 <= i < m.len() implies NodeView::consolidate_seq(m)[i] == m[i] by {
        let x = m[i];
        if c.contains(x) {
            let j = choose|j: int| 0 <= j < c.len() && c[j] == x;
            assert(c[j] == t.children[j].consolidate());
            lemma_consolidate_idempotent(t.children[j]);
        } else {
            lemma_consolidate_leaf(x);
        }
    }
    assert(NodeView::consolidate_seq(m) =~= m);
    lemma_merge_texts_shape(c);
    lemma_merge_texts_identity(m);
    assert(t.consolidate().consolidate() =~= t.consolidate());
}

/// The total number of nodes in a prefix is at most the total of the whole
/// sequence.
proof fn lemma_count_seq_prefix(s: Seq<NodeView>, k: int)
    requires
        0 <= k <= s.len(),
    ensures
        NodeView::count_seq(s.subrange(0, k)) <= NodeView::count_seq(s),
    decreases s.len(),
{
    if k == s.len() {
        assert(s.subrange(0, k) =~= s);
    } else if s.len() > 0 {
        lemma_count_seq_prefix(s.subrange(0, s.len() - 1), k);
        assert(s.subrange(0, s.len() - 1).subrange(0, k) =~= s.subrange(0, k));
    }
}

/// Removing one tree from a sequence removes exactly its nodes from the
/// total.
proof fn lemma_count_seq_remove(s: Seq<NodeView>, i: int)
    requires
        0 <= i < s.len(),
    ensures
        NodeView::count_seq(s.remove(i)) + s[i].count() == NodeView::count_seq(s),
    decreases s.len(),
{
    if i == s.len() - 1 {
        assert(s.remove(i) =~= s.subrange(0, s.len() - 1));
    } else {
        lemma_count_seq_remove(s.subrange(0, s.len() - 1), i);
        assert(s.remove(i).subrange(0, s.len() - 2) =~= s.subrange(0, s.len() - 1).remove(i));
        assert(s.remove(i)[s.len() - 2] == s[s.len() - 1]);
    }
}

/// Replacing one tree of a sequence changes the total by the difference of
/// the two trees.
proof fn lemma_count_seq_update(s: Seq<NodeView>, i: int, x: NodeView)
    requires
        0 <= i < s.len(),
    ensures
        NodeView::count_seq(s.update(i, x)) + s[i].count() == NodeView::count_seq(s) + x.count(),
    decreases s.len(),
{
    if i == s.len() - 1 {
        assert(s.update(i, x).subrange(0, s.len() - 1) =~= s.subrange(0, s.len() - 1));
        assert(s.update(i, x)[s.len() - 1] == x);
    } else {
        lemma_count_seq_update(s.subrange(0, s.len() - 1), i, x);
        assert(s.update(i, x).subrange(0, s.len() - 1) =~= s.subrange(0, s.len() - 1).update(i, x));
        assert(s.update(i, x)[s.len() - 1] == s[s.len() - 1]);
    }
}

/// Inserting a tree into a sequence adds exactly its nodes to the total.
proof fn lemma_count_seq_insert(s: Seq<NodeView>, i: int, x: NodeView)
    requires
        0 <= i <= s.len(),
    ensures
        NodeView::count_seq(s.insert(i, x)) == NodeView::count_seq(s) + x.count(),
    decreases s.len(),
{
    if i == s.len() {
        assert(s.insert(i, x).subrange(0, s.len() as int) =~= s);
        assert(s.insert(i, x)[s.len() as int] == x);
    } else {
        lemma_count_seq_insert(s.subrange(0, s.len() - 1), i, x);
        assert(s.insert(i, x).subrange(0, s.len() as int) =~= s.subrange(0, s.len() - 1).insert(
            i,
            x,
        ));
        assert(s.insert(i, x)[s.len() as int] == s[s.len() - 1]);
    }
}

/// A child's subtree has strictly fewer nodes than its parent's.
pub proof fn lemma_count_child(t: NodeView, i: int)
    requires
        0 <= i < t.children.len(),
    ensures
        t.children[i].count() < t.count(),
{
    lemma_count_seq_remove(t.children, i);
}

/// Detaching a subtree conserves nodes: the nodes of the remaining tree
/// and of the detached subtree together are exactly the nodes of the
/// original tree — nothing is leaked and nothing is freed twice.
pub proof fn lemma_count_unlink(t: NodeView, p: Seq<usize>)
    requires
        t.valid_path(p),
        p.len() > 0,
    ensures
        t.remove_at(p).count() + t.subtree_at(p).count() == t.count(),
    decreases p.len(),
{
    let j = p[0] as int;
    if p.len() == 1 {
        lemma_count_seq_remove(t.children, j);
        assert(t.subtree_at(p) == t.children[j].subtree_at(p.drop_first()));
        assert(p.drop_first().len() == 0);
        assert(t.children[j].subtree_at(p.drop_first()) == t.children[j]);
    } else {
        lemma_count_unlink(t.children[j], p.drop_first());
        lemma_count_seq_update(t.children, j, t.children[j].remove_at(p.drop_first()));
    }
}

/// Attaching a subtree conserves nodes: the tree gains exactly the nodes
/// of the attached subtree.
pub proof fn lemma_count_insert(t: NodeView, p: Seq<usize>, idx: int, sub: NodeView)
    requires
        t.valid_path(p),
        0 <= idx <= t.subtree_at(p).children.len(),
    ensures
        t.insert_child_at(p, idx, sub).count() == t.count() + sub.count(),
    decreases p.len(),
{
    if p.len() == 0 {
        lemma_count_seq_insert(t.children, idx, sub);
    } else {
        let j = p[0] as int;
        lemma_count_insert(t.children[j], p.drop_first(), idx, sub);
        assert(t.subtree_at(p) == t.children[j].subtree_at(p.drop_first()));
        assert(t.insert_child_at(p, idx, sub) == t.with_children(
            t.children.update(j, t.children[j].insert_child_at(p.drop_first(), idx, sub)),
        ));
        lemma_count_seq_update(
            t.children,
            j,
            t.children[j].insert_child_at(p.drop_first(), idx, sub),
        );
    }
}

impl Node {
    /// The number of nodes in this tree: itself and all its descendants.
    pub fn node_count(&self) -> (r: usize)
        requires
            self@.count() <= usize::MAX,
        ensures
            r == self@.count(),
        decreases *self,
    {
        proof {
            lemma_node_children(*self);
        }
        let mut total: usize = 1;
        let mut i: usize = 0;
        proof {
            assert(self@.children.subrange(0, 0) =~= Seq::<NodeView>::empty());
        }
        while i < self.children.len()
            invariant
                i <= self.children@.len(),
                self@.children.len() == self.children@.len(),
                forall|k: int|
                    0 <= k < self.children@.len() ==> self@.children[k] == (
                    #[trigger] self.children@[k])@,
                self@.count() <= usize::MAX,
                total == 1 + NodeView::count_seq(self@.children.subrange(0, i as int)),
            decreases self.children@.len() - i,
        {
            let ghost pre = self@.children.subrange(0, i as int);
            let ghost pre1 = self@.children.subrange(0, i as int + 1);
            proof {
                assert(pre1.subrange(0, pre1.len() - 1) =~= pre);
                assert(pre1[pre1.len() - 1] == self@.children[i as int]);
                lemma_count_seq_prefix(self@.children, i as int + 1);
            }
            let c = self.children[i].node_count();
            total = total + c;
            i = i + 1;
        }
        proof {
            assert(self@.children.subrange(0, self@.children.len() as int) =~= self@.children);
        }
        total
    }

    /// Whether two trees have exactly the same structure and fields.
    pub fn tree_equal(&self, other: &Node) -> (r: bool)
        ensures
            r == (self@ == other@),
        decreases *self,
    {
        proof {
            lemma_node_children(*self);
            lemma_node_children(*other);
        }
        if !(self.kind == other.kind && self.literal == other.literal && self.header_level
            == other.header_level && self.list_type == other.list_type && self.list_delim
            == other.list_delim && self.list_start == other.list_start && self.list_tight
            == other.list_tight && self.fence_info == other.fence_info && self.url == other.url
            && self.title == other.title && self.start_line == other.start_line
            && self.start_column == other.start_column && self.end_line == other.end_line
            && self.end_column == other.end_column && self.children.len()
            == other.children.len()) {
            return false;
        }
        let mut i: usize = 0;
        while i < self.children.len()
            invariant
                i <= self.children@.len(),
                self.children@.len() == other.children@.len(),
                self@.children.len() == self.children@.len(),
                other@.children.len() == other.children@.len(),
                forall|k: int|
                    0 <= k < self.children@.len() ==> self@.children[k] == (
                    #[trigger] self.children@[k])@,
                forall|k: int|
                    0 <= k < other.children@.len() ==> other@.children[k] == (
                    #[trigger] other.children@[k])@,
                forall|k: int| 0 <= k < i ==> self@.children[k] == other@.children[k],
            decreases self.children@.len() - i,
        {
            if !self.children[i].tree_equal(&other.children[i]) {
                return false;
            }
            i = i + 1;
        }
        proof {
            assert(self@.children =~= other@.children);
            assert(self@ =~= other@);
        }
        true
    }
}

/// The name of each node kind, as `type_string` reports it.
pub open spec fn type_string_spec(kind: NodeType) -> Seq<char> {
    match kind {
        NodeType::NoNode => "none"@,
        NodeType::Document => "document"@,
        NodeType::BlockQuote => "block_quote"@,
        NodeType::List => "list"@,
        NodeType::Item => "item"@,
        NodeType::CodeBlock => "code_block"@,
        NodeType::Html => "html"@,
        NodeType::Paragraph => "paragraph"@,
        NodeType::Header => "header"@,
        NodeType::Hrule => "hrule"@,
        NodeType::Text => "text"@,
        NodeType::SoftBreak => "softbreak"@,
        NodeType::LineBreak => "linebreak"@,
        NodeType::Code => "code"@,
        NodeType::InlineHtml => "inline_html"@,
        NodeType::Emph => "emph"@,
        NodeType::Strong => "strong"@,
        NodeType::Link => "link"@,
        NodeType::Image => "image"@,
    }
}

/// Whether nodes of this kind carry text content in `literal`.
pub open spec fn supports_literal(kind: NodeType) -> bool {
    match kind {
        NodeType::CodeBlock => true,
        NodeType::Code => true,
        NodeType::Text => true,
        NodeType::Html => true,
        NodeType::InlineHtml => true,
        _ => false,
    }
}

/// Whether nodes of this kind carry a header level.
pub open spec fn supports_header_level(kind: NodeType) -> bool {
    kind == NodeType::Header
}

/// Whether nodes of this kind carry list properties.
pub open spec fn supports_list(kind: NodeType) -> bool {
    kind == NodeType::List
}

/// Whether nodes of this kind carry fence info.
pub open spec fn supports_fence_info(kind: NodeType) -> bool {
    kind == NodeType::CodeBlock
}

/// Whether nodes of this kind carry a URL and a title.
pub open spec fn supports_url(kind: NodeType) -> bool {
    kind == NodeType::Link || kind == NodeType::Image
}

impl NodeView {
    /// The value of a freshly constructed node of the given kind.
    pub open spec fn fresh(kind: NodeType) -> NodeView {
        NodeView {
            kind: kind,
            literal: Seq::empty(),
            header_level: 1,
            list_type: ListType::Bullet,
            list_delim: DelimType::NoDelim,
            list_start: 1,
            list_tight: false,
            fence_info: Seq::empty(),
            url: Seq::empty(),
            title: Seq::empty(),
            start_line: 0,
            start_column: 0,
            end_line: 0,
            end_column: 0,
            children: Seq::empty(),
        }
    }

    /// This node with its text content replaced.
    pub open spec fn with_literal(self, l: Seq<char>) -> NodeView {
        NodeView { literal: l, ..self }
    }

    /// This node with its header level replaced.
    pub open spec fn with_header_level(self, v: int) -> NodeView {
        NodeView { header_level: v, ..self }
    }

    /// This node with its list type replaced.
    pub open spec fn with_list_type(self, v: ListType) -> NodeView {
        NodeView { list_type: v, ..self }
    }

    /// This node with its list delimiter replaced.
    pub open spec fn with_list_delim(self, v: DelimType) -> NodeView {
        NodeView { list_delim: v, ..self }
    }

    /// This node with its list start replaced.
    pub open spec fn with_list_start(self, v: int) -> NodeView {
        NodeView { list_start: v, ..self }
    }

    /// This node with its list tightness replaced.
    pub open spec fn with_list_tight(self, v: bool) -> NodeView {
        NodeView { list_tight: v, ..self }
    }

    /// This node with its fence info replaced.
    pub open spec fn with_fence_info(self, l: Seq<char>) -> NodeView {
        NodeView { fence_info: l, ..self }
    }

    /// This node with its URL replaced.
    pub open spec fn with_url(self, l: Seq<char>) -> NodeView {
        NodeView { url: l, ..self }
    }

    /// This node with its title replaced.
    pub open spec fn with_title(self, l: Seq<char>) -> NodeView {
        NodeView { title: l, ..self }
    }

    /// This node with its child list replaced.
    pub open spec fn with_children(self, c: Seq<NodeView>) -> NodeView {
        NodeView { children: c, ..self }
    }

    /// Whether `p` is a path from this node to a node of its tree: each
    /// element selects one child at the corresponding level, and the empty
    /// path selects this node itself.
    pub open spec fn valid_path(self, p: Seq<usize>) -> bool
        decreases p.len(),
    {
        p.len() == 0 || (p[0] < self.children.len() && self.children[p[0] as int].valid_path(
            p.drop_first(),
        ))
    }

    /// The subtree that the path `p` selects.
    pub open spec fn subtree_at(self, p: Seq<usize>) -> NodeView
        recommends
            self.valid_path(p),
        decreases p.len(),
    {
        if p.len() == 0 {
            self
        } else {
            self.children[p[0] as int].subtree_at(p.drop_first())
        }
    }

    /// This tree with the subtree at `p` replaced by `sub`.
    pub open spec fn replace_at(self, p: Seq<usize>, sub: NodeView) -> NodeView
        recommends
            self.valid_path(p),
        decreases p.len(),
    {
        if p.len() == 0 {
            sub
        } else {
            self.with_children(
                self.children.update(
                    p[0] as int,
                    self.children[p[0] as int].replace_at(p.drop_first(), sub),
                ),
            )
        }
    }

    /// This tree with the node at `p` (and its whole subtree) removed.
    pub open spec fn remove_at(self, p: Seq<usize>) -> NodeView
        recommends
            self.valid_path(p),
            p.len() > 0,
        decreases p.len(),
    {
        if p.len() <= 1 {
            self.with_children(self.children.remove(p[0] as int))
        } else {
            self.with_children(
                self.children.update(
                    p[0] as int,
                    self.children[p[0] as int].remove_at(p.drop_first()),
                ),
            )
        }
    }

    /// This tree with `sub` spliced in as child number `idx` of the node
    /// at `p`.
    pub open spec fn insert_child_at(self, p: Seq<usize>, idx: int, sub: NodeView) -> NodeView
        recommends
            self.valid_path(p),
            0 <= idx <= self.subtree_at(p).children.len(),
    {
        self.replace_at(p, self.subtree_at(p).with_children(self.subtree_at(p).children.insert(idx, sub)))
    }
}

/// Extending a valid path by one step: the step is valid exactly when it
/// selects an existing child, and it selects that child's subtree.
pub proof fn lemma_path_snoc(t: NodeView, p: Seq<usize>, j: usize)
    requires
        t.valid_path(p),
    ensures
        t.valid_path(p.push(j)) <==> j < t.subtree_at(p).children.len(),
        j < t.subtree_at(p).children.len() ==> t.subtree_at(p.push(j)) == t.subtree_at(
            p,
        ).children[j as int],
    decreases p.len(),
{
    if p.len() == 0 {
        assert(p.push(j).drop_first() =~= Seq::<usize>::empty());
        assert(p.push(j)[0] == j);
        if j < t.children.len() {
            assert(t.children[j as int].valid_path(Seq::<usize>::empty()));
            assert(t.children[j as int].subtree_at(Seq::<usize>::empty()) == t.children[j as int]);
            assert(t.valid_path(p.push(j)));
            assert(t.subtree_at(p.push(j)) == t.children[j as int]);
        }
    } else {
        lemma_path_snoc(t.children[p[0] as int], p.drop_first(), j);
        assert(p.push(j)[0] == p[0]);
        assert(p.push(j).drop_first() =~= p.drop_first().push(j));
        assert(t.valid_path(p.push(j)) <==> t.children[p[0] as int].valid_path(
            p.drop_first().push(j),
        ));
    }
}

/// A prefix of a valid path is a valid path.
pub proof fn lemma_valid_path_prefix(t: NodeView, p: Seq<usize>, k: int)
    requires
        t.valid_path(p),
        0 <= k <= p.len(),
    ensures
        t.valid_path(p.subrange(0, k)),
    decreases p.len(),
{
    if k > 0 && p.len() > 0 {
        lemma_valid_path_prefix(t.children[p[0] as int], p.drop_first(), k - 1);
        assert(p.subrange(0, k).drop_first() =~= p.drop_first().subrange(0, k - 1));
    } else {
        assert(p.subrange(0, k) =~= Seq::<usize>::empty());
    }
}

} // verus!
