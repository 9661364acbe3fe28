//! The render adapters: pure, read-only functions from a tree (and
//! options) to text, for HTML fragments, XML, man-page troff and
//! re-serialized CommonMark source.

use vstd::prelude::*;

use crate::CmarkOptions;
use crate::ListType;
use crate::NodeType;
use crate::node::Node;
use crate::node::NodeView;
use crate::node::type_string_spec;

verus! {

broadcast use
    vstd::std_specs::vec::group_vec_axioms,
    vstd::seq::axiom_seq_index_decreases,
    vstd::seq::axiom_seq_subrange_decreases,
;

// ---------------------------------------------------------------------
// Text helpers.
// ---------------------------------------------------------------------
/// The decimal digits of `n`.
pub open spec fn dec_of(n: nat) -> Seq<char>
    decreases n,
{
    if n < 10 {
        seq![dec_digit(n)]
    } else {
        dec_of(n / 10).push(dec_digit(n % 10))
    }
}

/// The digit character of a value below ten.
pub open spec fn dec_digit(n: nat) -> char {
    if n == 0 {
        '0'
    } else if n == 1 {
        '1'
    } else if n == 2 {
        '2'
    } else if n == 3 {
        '3'
    } else if n == 4 {
        '4'
    } else if n == 5 {
        '5'
    } else if n == 6 {
        '6'
    } else if n == 7 {
        '7'
    } else if n == 8 {
        '8'
    } else {
        '9'
    }
}

/// `n` spaces.
pub open spec fn spaces(n: nat) -> Seq<char>
    decreases n,
{
    if n == 0 {
        Seq::empty()
    } else {
        spaces((n - 1) as nat).push(' ')
    }
}

/// One character of text, escaped for HTML and XML content.
pub open spec fn escape_html_char(c: char) -> Seq<char> {
    if c == '&' {
        "&amp;"@
    } else if c == '<' {
        "&lt;"@
    } else if c == '>' {
        "&gt;"@
    } else if c == '"' {
        "&quot;"@
    } else {
        seq![c]
    }
}

/// Text escaped for HTML and XML content.
pub open spec fn escape_html(s: Seq<char>) -> Seq<char>
    decreases s.len(),
{
    if s.len() == 0 {
        Seq::empty()
    } else {
        escape_html_char(s[0]) + escape_html(s.drop_first())
    }
}

/// One character of text, escaped for man output: a backslash becomes the
/// troff escape `\e`.
pub open spec fn escape_man_char(c: char) -> Seq<char> {
    if c == '\\' {
        "\\e"@
    } else {
        seq![c]
    }
}

/// Text escaped for man output.
pub open spec fn escape_man(s: Seq<char>) -> Seq<char>
    decreases s.len(),
{
    if s.len() == 0 {
        Seq::empty()
    } else {
        escape_man_char(s[0]) + escape_man(s.drop_first())
    }
}

/// Whether a character opens a CommonMark construct and must be escaped
/// when meant literally.
pub open spec fn cm_special(c: char) -> bool {
    c == '*' || c == '_' || c == '`' || c == '#' || c == '\\'
}

/// One character of text, escaped for CommonMark output.
pub open spec fn escape_cm_char(c: char) -> Seq<char> {
    if cm_special(c) {
        seq!['\\', c]
    } else {
        seq![c]
    }
}

/// Text escaped for CommonMark output.
pub open spec fn escape_cm(s: Seq<char>) -> Seq<char>
    decreases s.len(),
{
    if s.len() == 0 {
        Seq::empty()
    } else {
        escape_cm_char(s[0]) + escape_cm(s.drop_first())
    }
}

/// `n` repetitions of `c`.
pub open spec fn repeat_char(c: char, n: nat) -> Seq<char>
    decreases n,
{
    if n == 0 {
        Seq::empty()
    } else {
        repeat_char(c, (n - 1) as nat).push(c)
    }
}

// ---------------------------------------------------------------------
// HTML.
// ---------------------------------------------------------------------
/// The header level as rendered: levels outside 1 to 6 fall back to 1.
pub open spec fn html_level(t: NodeView) -> nat {
    if 1 <= t.header_level <= 6 {
        t.header_level as nat
    } else {
        1
    }
}

/// The HTML fragment of one node.
pub open spec fn html_of(t: NodeView, opts: CmarkOptions) -> Seq<char>
    decreases t, 1int,
{
    match t.kind {
        NodeType::NoNode => Seq::empty(),
        NodeType::Document => html_children(t.children, 0, opts),
        NodeType::BlockQuote => "<blockquote>\n"@ + html_children(t.children, 0, opts)
            + "</blockquote>\n"@,
        NodeType::List => {
            let inner = html_children(t.children, 0, opts) + if t.list_type == ListType::Ordered {
                "</ol>\n"@
            } else {
                "</ul>\n"@
            };
            if t.list_type == ListType::Ordered {
                if t.list_start >= 0 && t.list_start != 1 {
                    "<ol start=\""@ + dec_of(t.list_start as nat) + "\">\n"@ + inner
                } else {
                    "<ol>\n"@ + inner
                }
            } else {
                "<ul>\n"@ + inner
            }
        },
        NodeType::Item => "<li>"@ + html_children(t.children, 0, opts) + "</li>\n"@,
        NodeType::CodeBlock => {
            let open_tag = if t.fence_info.len() > 0 {
                "<pre><code class=\"language-"@ + escape_html(t.fence_info) + "\">"@
            } else {
                "<pre><code>"@
            };
            open_tag + escape_html(t.literal) + "</code></pre>\n"@
        },
        NodeType::Html => t.literal,
        NodeType::Paragraph => "<p>"@ + html_children(t.children, 0, opts) + "</p>\n"@,
        NodeType::Header => "<h"@ + dec_of(html_level(t)) + ">"@ + html_children(t.children, 0, opts)
            + "</h"@ + dec_of(html_level(t)) + ">\n"@,
        NodeType::Hrule => "<hr />\n"@,
        NodeType::Text => escape_html(t.literal),
        NodeType::SoftBreak => if opts.hardbreaks_enabled() {
            "<br />\n"@
        } else {
            "\n"@
        },
        NodeType::LineBreak => "<br />\n"@,
        NodeType::Code => "<code>"@ + escape_html(t.literal) + "</code>"@,
        NodeType::InlineHtml => t.literal,
        NodeType::Emph => "<em>"@ + html_children(t.children, 0, opts) + "</em>"@,
        NodeType::Strong => "<strong>"@ + html_children(t.children, 0, opts) + "</strong>"@,
        NodeType::Link => "<a href=\""@ + escape_html(t.url) + "\""@ + (if t.title.len() > 0 {
            " title=\""@ + escape_html(t.title) + "\""@
        } else {
            Seq::<char>::empty()
        }) + ">"@ + html_children(t.children, 0, opts) + "</a>"@,
        NodeType::Image => "<img src=\""@ + escape_html(t.url) + "\" alt=\""@ + escape_html(
            alt_children(t.children, 0),
        ) + "\""@ + (if t.title.len() > 0 {
            " title=\""@ + escape_html(t.title) + "\""@
        } else {
            Seq::<char>::empty()
        }) + " />"@,
    }
}

/// The HTML fragments of the children from position `j` on, concatenated.
pub open spec fn html_children(s: Seq<NodeView>, j: int, opts: CmarkOptions) -> Seq<char>
    decreases s, s.len() - j, 0int,
{
    if j < 0 || j >= s.len() {
        Seq::empty()
    } else {
        html_of(s[j], opts) + html_children(s, j + 1, opts)
    }
}

/// The plain text of the children from position `j` on: the text an image
/// falls back to.
pub open spec fn alt_children(s: Seq<NodeView>, j: int) -> Seq<char>
    decreases s, s.len() - j, 0int,
{
    if j < 0 || j >= s.len() {
        Seq::empty()
    } else {
        alt_of(s[j]) + alt_children(s, j + 1)
    }
}

/// The plain text of one node: its text content, if its kind carries any,
/// and its descendants' text.
pub open spec fn alt_of(t: NodeView) -> Seq<char>
    decreases t, 1int,
{
    (if crate::node::supports_literal(t.kind) {
        t.literal
    } else {
        Seq::<char>::empty()
    }) + alt_children(t.children, 0)
}

// ---------------------------------------------------------------------
// Man.
// ---------------------------------------------------------------------
/// The man (troff) output of one node.
pub open spec fn man_of(t: NodeView, opts: CmarkOptions) -> Seq<char>
    decreases t, 1int,
{
    match t.kind {
        NodeType::NoNode => Seq::empty(),
        NodeType::Document => man_children(t.children, 0, opts),
        NodeType::BlockQuote => ".RS\n"@ + man_children(t.children, 0, opts) + ".RE\n"@,
        NodeType::List => man_children(t.children, 0, opts),
        NodeType::Item => ".IP \\[bu] 2\n"@ + man_children(t.children, 0, opts),
        NodeType::CodeBlock => ".IP\n.nf\n\\f[C]\n"@ + escape_man(t.literal) + "\\f[]\n.fi\n"@,
        NodeType::Html => Seq::empty(),
        NodeType::Paragraph => ".PP\n"@ + man_children(t.children, 0, opts) + "\n"@,
        NodeType::Header => ".SH\n"@ + man_children(t.children, 0, opts) + "\n"@,
        NodeType::Hrule => ".PP\n  *  *  *  *  *\n"@,
        NodeType::Text => escape_man(t.literal),
        NodeType::SoftBreak => if opts.hardbreaks_enabled() {
            ".br\n"@
        } else {
            "\n"@
        },
        NodeType::LineBreak => ".br\n"@,
        NodeType::Code => "\\f[C]"@ + escape_man(t.literal) + "\\f[]"@,
        NodeType::InlineHtml => Seq::empty(),
        NodeType::Emph => "\\f[I]"@ + man_children(t.children, 0, opts) + "\\f[]"@,
        NodeType::Strong => "\\f[B]"@ + man_children(t.children, 0, opts) + "\\f[]"@,
        NodeType::Link => man_children(t.children, 0, opts) + " ("@ + escape_man(t.url) + ")"@,
        NodeType::Image => man_children(t.children, 0, opts),
    }
}

/// The man output of the children from position `j` on, concatenated.
pub open spec fn man_children(s: Seq<NodeView>, j: int, opts: CmarkOptions) -> Seq<char>
    decreases s, s.len() - j, 0int,
{
    if j < 0 || j >= s.len() {
        Seq::empty()
    } else {
        man_of(s[j], opts) + man_children(s, j + 1, opts)
    }
}

// ---------------------------------------------------------------------
// XML.
// ---------------------------------------------------------------------
/// The fixed declaration and document type that every XML rendering
/// begins with.
pub open spec fn xml_preamble() -> Seq<char> {
    "<?xml version=\"1.0\" encoding=\"UTF-8\"?>\n<!DOCTYPE CommonMark SYSTEM \"CommonMark.dtd\">\n"@
}

/// The attributes of one XML element: the header level, or the list type.
pub open spec fn xml_attrs(t: NodeView) -> Seq<char> {
    if t.kind == NodeType::Header {
        " level=\""@ + dec_of(html_level(t)) + "\""@
    } else if t.kind == NodeType::List {
        if t.list_type == ListType::Ordered {
            " type=\"ordered\" start=\""@ + dec_of(
                if t.list_start >= 0 {
                    t.list_start as nat
                } else {
                    0
                },
            ) + "\""@
        } else {
            " type=\"bullet\""@
        }
    } else {
        Seq::empty()
    }
}

/// Whether nodes of this kind print their text content rather than child
/// elements.
pub open spec fn xml_literal_kind(kind: NodeType) -> bool {
    crate::node::supports_literal(kind)
}

/// The XML element of one node, indented by `depth` levels.
pub open spec fn xml_of(t: NodeView, depth: nat) -> Seq<char>
    decreases t, 1int,
{
    let name = type_string_spec(t.kind);
    let indent = spaces(2 * depth);
    if xml_literal_kind(t.kind) {
        indent + "<"@ + name + xml_attrs(t) + ">"@ + escape_html(t.literal) + "</"@ + name + ">\n"@
    } else if t.children.len() == 0 {
        indent + "<"@ + name + xml_attrs(t) + " />\n"@
    } else {
        indent + "<"@ + name + xml_attrs(t) + ">\n"@ + xml_children(t.children, 0, depth + 1)
            + indent + "</"@ + name + ">\n"@
    }
}

/// The XML elements of the children from position `j` on.
pub open spec fn xml_children(s: Seq<NodeView>, j: int, depth: nat) -> Seq<char>
    decreases s, s.len() - j, 0int,
{
    if j < 0 || j >= s.len() {
        Seq::empty()
    } else {
        xml_of(s[j], depth) + xml_children(s, j + 1, depth)
    }
}

/// The full XML document of a tree.
pub open spec fn xml_doc(t: NodeView) -> Seq<char> {
    xml_preamble() + xml_of(t, 0)
}

// ---------------------------------------------------------------------
// CommonMark.
// ---------------------------------------------------------------------
/// The CommonMark source of one inline or block node, unwrapped.
pub open spec fn cm_of(t: NodeView, opts: CmarkOptions) -> Seq<char>
    decreases t, 1int,
{
    match t.kind {
        NodeType::NoNode => Seq::empty(),
        NodeType::Document => cm_blocks(t.children, 0, opts),
        NodeType::BlockQuote => "> "@ + cm_children(t.children, 0, opts) + "\n"@,
        NodeType::List => cm_children(t.children, 0, opts),
        NodeType::Item => "- "@ + cm_children(t.children, 0, opts) + "\n"@,
        NodeType::CodeBlock => "```"@ + t.fence_info + "\n"@ + t.literal + "```\n"@,
        NodeType::Html => t.literal,
        NodeType::Paragraph => cm_children(t.children, 0, opts) + "\n"@,
        NodeType::Header => repeat_char('#', html_level(t)) + " "@ + cm_children(t.children, 0, opts)
            + "\n"@,
        NodeType::Hrule => "***\n"@,
        NodeType::Text => escape_cm(t.literal),
        NodeType::SoftBreak => if opts.hardbreaks_enabled() {
            "\\\n"@
        } else {
            "\n"@
        },
        NodeType::LineBreak => "\\\n"@,
        NodeType::Code => "`"@ + t.literal + "`"@,
        NodeType::InlineHtml => t.literal,
        NodeType::Emph => "*"@ + cm_children(t.children, 0, opts) + "*"@,
        NodeType::Strong => "**"@ + cm_children(t.children, 0, opts) + "**"@,
        NodeType::Link => "["@ + cm_children(t.children, 0, opts) + "]("@ + t.url + ")"@,
        NodeType::Image => "!["@ + cm_children(t.children, 0, opts) + "]("@ + t.url + ")"@,
    }
}

/// The CommonMark source of the children from position `j` on.
pub open spec fn cm_children(s: Seq<NodeView>, j: int, opts: CmarkOptions) -> Seq<char>
    decreases s, s.len() - j, 0int,
{
    if j < 0 || j >= s.len() {
        Seq::empty()
    } else {
        cm_of(s[j], opts) + cm_children(s, j + 1, opts)
    }
}

/// The CommonMark source of sibling blocks from position `j` on: each
/// block ends in a newline, and a blank line separates one from the next.
pub open spec fn cm_blocks(s: Seq<NodeView>, j: int, opts: CmarkOptions) -> Seq<char>
    decreases s, s.len() - j, 0int,
{
    if j < 0 || j >= s.len() {
        Seq::empty()
    } else if j == s.len() - 1 {
        cm_of(s[j], opts)
    } else {
        cm_of(s[j], opts) + "\n"@ + cm_blocks(s, j + 1, opts)
    }
}

/// The words of a text: its maximal runs free of spaces and newlines,
/// split at each space or newline.
pub open spec fn split_words(s: Seq<char>) -> Seq<Seq<char>>
    decreases s.len(),
{
    let i = first_break(s);
    if 0 <= i < s.len() {
        seq![s.take(i)] + split_words(s.skip(i + 1))
    } else {
        seq![s]
    }
}

/// The position of the first space or newline in `s`, or `s.len()`.
pub open spec fn first_break(s: Seq<char>) -> int
    decreases s.len(),
{
    if s.len() == 0 {
        0
    } else if s[0] == ' ' || s[0] == '\n' {
        0
    } else {
        1 + first_break(s.drop_first())
    }
}

/// Words joined greedily into lines of at most `w` characters where the
/// words allow it: a word is set on the current line when it fits, and on
/// a fresh line otherwise.
pub open spec fn join_words(ws: Seq<Seq<char>>, w: int, col: int) -> Seq<char>
    decreases ws.len(),
{
    if ws.len() == 0 {
        Seq::empty()
    } else if col == 0 {
        ws[0] + join_words(ws.drop_first(), w, ws[0].len() as int)
    } else if col + 1 + ws[0].len() <= w {
        seq![' '] + ws[0] + join_words(ws.drop_first(), w, col + 1 + ws[0].len())
    } else {
        seq!['\n'] + ws[0] + join_words(ws.drop_first(), w, ws[0].len() as int)
    }
}

/// A paragraph's text wrapped to the target width; a width of zero or
/// less leaves the text as it is.
pub open spec fn wrap(s: Seq<char>, w: int) -> Seq<char> {
    if w <= 0 {
        s
    } else {
        join_words(split_words(s), w, 0)
    }
}

/// The CommonMark source of a whole tree, wrapped to `width`: the
/// document's blocks, with each paragraph's text reflowed.
pub open spec fn cm_doc(t: NodeView, opts: CmarkOptions, width: int) -> Seq<char>
    decreases t, 0int,
{
    if t.kind == NodeType::Paragraph {
        wrap(cm_children(t.children, 0, opts), width) + "\n"@
    } else if t.kind == NodeType::Document {
        cm_doc_blocks(t.children, 0, opts, width)
    } else {
        cm_of(t, opts)
    }
}

/// The document's blocks, wrapped, and separated by blank lines.
pub open spec fn cm_doc_blocks(s: Seq<NodeView>, j: int, opts: CmarkOptions, width: int) -> Seq<
    char,
>
    decreases s, s.len() - j,
{
    if j < 0 || j >= s.len() {
        Seq::empty()
    } else if j == s.len() - 1 {
        cm_doc(s[j], opts, width)
    } else {
        cm_doc(s[j], opts, width) + "\n"@ + cm_doc_blocks(s, j + 1, opts, width)
    }
}

// ---------------------------------------------------------------------
// Executable rendering.
// ---------------------------------------------------------------------
/// HTML escaping distributes over concatenation.
proof fn lemma_escape_html_add(a: Seq<char>, b: Seq<char>)
    ensures
        escape_html(a + b) == escape_html(a) + escape_html(b),
    decreases a.len(),
{
    if a.len() == 0 {
        assert(a + b =~= b);
        assert(escape_html(a) + escape_html(b) =~= escape_html(b));
    } else {
        assert((a + b).len() > 0);
        assert((a + b)[0] == a[0]);
        assert((a + b).drop_first() =~= a.drop_first() + b);
        lemma_escape_html_add(a.drop_first(), b);
        assert(escape_html(a + b) =~= escape_html(a) + escape_html(b));
    }
}

/// Man escaping distributes over concatenation.
proof fn lemma_escape_man_add(a: Seq<char>, b: Seq<char>)
    ensures
        escape_man(a + b) == escape_man(a) + escape_man(b),
    decreases a.len(),
{
    if a.len() == 0 {
        assert(a + b =~= b);
        assert(escape_man(a) + escape_man(b) =~= escape_man(b));
    } else {
        assert((a + b).len() > 0);
        assert((a + b)[0] == a[0]);
        assert((a + b).drop_first() =~= a.drop_first() + b);
        lemma_escape_man_add(a.drop_first(), b);
        assert(escape_man(a + b) =~= escape_man(a) + escape_man(b));
    }
}

/// CommonMark escaping distributes over concatenation.
proof fn lemma_escape_cm_add(a: Seq<char>, b: Seq<char>)
    ensures
        escape_cm(a + b) == escape_cm(a) + escape_cm(b),
    decreases a.len(),
{
    if a.len() == 0 {
        assert(a + b =~= b);
        assert(escape_cm(a) + escape_cm(b) =~= escape_cm(b));
    } else {
        assert((a + b).len() > 0);
        assert((a + b)[0] == a[0]);
        assert((a + b).drop_first() =~= a.drop_first() + b);
        lemma_escape_cm_add(a.drop_first(), b);
        assert(escape_cm(a + b) =~= escape_cm(a) + escape_cm(b));
    }
}

/// Append `s`, HTML-escaped, to `out`.
fn push_escaped_html(s: &str, out: &mut String)
    ensures
        final(out)@ == old(out)@ + escape_html(s@),
{
    let chars = crate::util::str_to_chars(s);
    let mut i: usize = 0;
    proof {
        assert(s@.take(0) =~= Seq::<char>::empty());
        assert(old(out)@ + escape_html(s@.take(0)) =~= old(out)@);
    }
    while i < chars.len()
        invariant
            i <= chars@.len(),
            chars@ == s@,
            out@ == old(out)@ + escape_html(s@.take(i as int)),
        decreases chars@.len() - i,
    {
        let c = chars[i];
        if c == '&' {
            out.append("&amp;");
        } else if c == '<' {
            out.append("&lt;");
        } else if c == '>' {
            out.append("&gt;");
        } else if c == '"' {
            out.append("&quot;");
        } else {
            out.push(c);
        }
        proof {
            let cs = seq![s@[i as int]];
            assert(s@.take(i as int + 1) =~= s@.take(i as int) + cs);
            lemma_escape_html_add(s@.take(i as int), cs);
            assert(cs.drop_first() =~= Seq::<char>::empty());
            assert(escape_html(Seq::<char>::empty()) =~= Seq::<char>::empty());
            assert(cs[0] == s@[i as int]);
            assert(escape_html(cs) =~= escape_html_char(s@[i as int]));
            assert(out@ =~= old(out)@ + escape_html(s@.take(i as int + 1)));
        }
        i = i + 1;
    }
    proof {
        assert(s@.take(s@.len() as int) =~= s@);
    }
}

/// Append `s`, man-escaped, to `out`.
fn push_escaped_man(s: &str, out: &mut String)
    ensures
        final(out)@ == old(out)@ + escape_man(s@),
{
    let chars = crate::util::str_to_chars(s);
    let mut i: usize = 0;
    proof {
        assert(s@.take(0) =~= Seq::<char>::empty());
        assert(old(out)@ + escape_man(s@.take(0)) =~= old(out)@);
    }
    while i < chars.len()
        invariant
            i <= chars@.len(),
            chars@ == s@,
            out@ == old(out)@ + escape_man(s@.take(i as int)),
        decreases chars@.len() - i,
    {
        let c = chars[i];
        if c == '\\' {
            out.append("\\e");
        } else {
            out.push(c);
        }
        proof {
            let cs = seq![s@[i as int]];
            assert(s@.take(i as int + 1) =~= s@.take(i as int) + cs);
            lemma_escape_man_add(s@.take(i as int), cs);
            assert(cs.drop_first() =~= Seq::<char>::empty());
            assert(escape_man(Seq::<char>::empty()) =~= Seq::<char>::empty());
            assert(cs[0] == s@[i as int]);
            assert(escape_man(cs) =~= escape_man_char(s@[i as int]));
            assert(out@ =~= old(out)@ + escape_man(s@.take(i as int + 1)));
        }
        i = i + 1;
    }
    proof {
        assert(s@.take(s@.len() as int) =~= s@);
    }
}

/// Append `s`, CommonMark-escaped, to `out`.
fn push_escaped_cm(s: &str, out: &mut String)
    ensures
        final(out)@ == old(out)@ + escape_cm(s@),
{
    let chars = crate::util::str_to_chars(s);
    let mut i: usize = 0;
    proof {
        assert(s@.take(0) =~= Seq::<char>::empty());
        assert(old(out)@ + escape_cm(s@.take(0)) =~= old(out)@);
    }
    while i < chars.len()
        invariant
            i <= chars@.len(),
            chars@ == s@,
            out@ == old(out)@ + escape_cm(s@.take(i as int)),
        decreases chars@.len() - i,
    {
        let c = chars[i];
        if c == '*' || c == '_' || c == '`' || c == '#' || c == '\\' {
            out.push('\\');
            out.push(c);
        } else {
            out.push(c);
        }
        proof {
            let cs = seq![s@[i as int]];
            assert(s@.take(i as int + 1) =~= s@.take(i as int) + cs);
            lemma_escape_cm_add(s@.take(i as int), cs);
            assert(cs.drop_first() =~= Seq::<char>::empty());
            assert(escape_cm(Seq::<char>::empty()) =~= Seq::<char>::empty());
            assert(cs[0] == s@[i as int]);
            assert(escape_cm(cs) =~= escape_cm_char(s@[i as int]));
            assert(out@ =~= old(out)@ + escape_cm(s@.take(i as int + 1)));
        }
        i = i + 1;
    }
    proof {
        assert(s@.take(s@.len() as int) =~= s@);
    }
}

/// The digit character of a value below ten.
fn digit_char(n: u32) -> (c: char)
    requires
        n < 10,
    ensures
        c == dec_digit(n as nat),
{
    if n == 0 {
        '0'
    } else if n == 1 {
        '1'
    } else if n == 2 {
        '2'
    } else if n == 3 {
        '3'
    } else if n == 4 {
        '4'
    } else if n == 5 {
        '5'
    } else if n == 6 {
        '6'
    } else if n == 7 {
        '7'
    } else if n == 8 {
        '8'
    } else {
        '9'
    }
}

/// Append the decimal digits of `n` to `out`.
fn push_dec(n: u32, out: &mut String)
    ensures
        final(out)@ == old(out)@ + dec_of(n as nat),
    decreases n,
{
    if n < 10 {
        out.push(digit_char(n));
        proof {
            assert(out@ =~= old(out)@ + dec_of(n as nat));
        }
    } else {
        push_dec(n / 10, out);
        out.push(digit_char(n % 10));
        proof {
            assert((n as nat) / 10 == (n / 10) as nat);
            assert((n as nat) % 10 == (n % 10) as nat);
            assert(out@ =~= old(out)@ + dec_of(n as nat));
        }
    }
}

/// The node's text content, where its kind carries any.
fn literal_of(t: &Node) -> (r: &str)
    requires
        crate::node::supports_literal(t@.kind),
    ensures
        r@ == t@.literal,
{
    match t.literal() {
        Result::Ok(s) => s,
        Result::Err(_) => unreached(),
    }
}

/// Append the HTML of `t` to `out`.
#[verifier::rlimit(100)]
fn push_html(t: &Node, opts: CmarkOptions, out: &mut String)
    ensures
        final(out)@ == old(out)@ + html_of(t@, opts),
    decreases t@.count(), 1int,
{
    match t.node_type() {
        NodeType::NoNode => {
            proof {
                assert(out@ =~= old(out)@ + html_of(t@, opts));
            }
        },
        NodeType::Document => {
            push_html_children(t, opts, out);
        },
        NodeType::BlockQuote => {
            out.append("<blockquote>\n");
            push_html_children(t, opts, out);
            out.append("</blockquote>\n");
            proof {
                assert(out@ =~= old(out)@ + html_of(t@, opts));
            }
        },
        NodeType::List => {
            let lt = match t.list_type() {
                Result::Ok(v) => v,
                Result::Err(_) => unreached(),
            };
            let ls = match t.list_start() {
                Result::Ok(v) => v,
                Result::Err(_) => unreached(),
            };
            if matches!(lt, ListType::Ordered) {
                if ls >= 0 && ls != 1 {
                    out.append("<ol start=\"");
                    push_dec(ls as u32, out);
                    out.append("\">\n");
                } else {
                    out.append("<ol>\n");
                }
                push_html_children(t, opts, out);
                out.append("</ol>\n");
            } else {
                out.append("<ul>\n");
                push_html_children(t, opts, out);
                out.append("</ul>\n");
            }
            proof {
                assert(out@ =~= old(out)@ + html_of(t@, opts));
            }
        },
        NodeType::Item => {
            out.append("<li>");
            push_html_children(t, opts, out);
            out.append("</li>\n");
            proof {
                assert(out@ =~= old(out)@ + html_of(t@, opts));
            }
        },
        NodeType::CodeBlock => {
            let info = match t.fence_info() {
                Result::Ok(s) => s,
                Result::Err(_) => unreached(),
            };
            if info.unicode_len() > 0 {
                out.append("<pre><code class=\"language-");
                push_escaped_html(info, out);
                out.append("\">");
            } else {
                out.append("<pre><code>");
            }
            push_escaped_html(literal_of(t), out);
            out.append("</code></pre>\n");
            proof {
                assert(out@ =~= old(out)@ + html_of(t@, opts));
            }
        },
        NodeType::Html => {
            out.append(literal_of(t));
        },
        NodeType::Paragraph => {
            out.append("<p>");
            push_html_children(t, opts, out);
            out.append("</p>\n");
            proof {
                assert(out@ =~= old(out)@ + html_of(t@, opts));
            }
        },
        NodeType::Header => {
            let lv = match t.header_level() {
                Result::Ok(v) => v,
                Result::Err(_) => unreached(),
            };
            let lv = if 1 <= lv && lv <= 6 {
                lv
            } else {
                1
            };
            out.append("<h");
            push_dec(lv as u32, out);
            out.append(">");
            push_html_children(t, opts, out);
            out.append("</h");
            push_dec(lv as u32, out);
            out.append(">\n");
            proof {
                assert(lv as nat == html_level(t@));
                assert(out@ =~= old(out)@ + html_of(t@, opts));
            }
        },
        NodeType::Hrule => {
            out.append("<hr />\n");
        },
        NodeType::Text => {
            push_escaped_html(literal_of(t), out);
        },
        NodeType::SoftBreak => {
            if opts.bits & crate::OPT_HARDBREAKS != 0 {
                out.append("<br />\n");
            } else {
                out.append("\n");
            }
        },
        NodeType::LineBreak => {
            out.append("<br />\n");
        },
        NodeType::Code => {
            out.append("<code>");
            push_escaped_html(literal_of(t), out);
            out.append("</code>");
            proof {
                assert(out@ =~= old(out)@ + html_of(t@, opts));
            }
        },
        NodeType::InlineHtml => {
            out.append(literal_of(t));
        },
        NodeType::Emph => {
            out.append("<em>");
            push_html_children(t, opts, out);
            out.append("</em>");
            proof {
                assert(out@ =~= old(out)@ + html_of(t@, opts));
            }
        },
        NodeType::Strong => {
            out.append("<strong>");
            push_html_children(t, opts, out);
            out.append("</strong>");
            proof {
                assert(out@ =~= old(out)@ + html_of(t@, opts));
            }
        },
        NodeType::Link => {
            let url = match t.url() {
                Result::Ok(s) => s,
                Result::Err(_) => unreached(),
            };
            let title = match t.title() {
                Result::Ok(s) => s,
                Result::Err(_) => unreached(),
            };
            out.append("<a href=\"");
            push_escaped_html(url, out);
            out.append("\"");
            if title.unicode_len() > 0 {
                out.append(" title=\"");
                push_escaped_html(title, out);
                out.append("\"");
            }
            out.append(">");
            push_html_children(t, opts, out);
            out.append("</a>");
            proof {
                assert(out@ =~= old(out)@ + html_of(t@, opts));
            }
        },
        NodeType::Image => {
            let url = match t.url() {
                Result::Ok(s) => s,
                Result::Err(_) => unreached(),
            };
            let title = match t.title() {
                Result::Ok(s) => s,
                Result::Err(_) => unreached(),
            };
            out.append("<img src=\"");
            push_escaped_html(url, out);
            out.append("\" alt=\"");
            let mut alt = String::new();
            push_alt(t, &mut alt);
            push_escaped_html(alt.as_str(), out);
            out.append("\"");
            if title.unicode_len() > 0 {
                out.append(" title=\"");
                push_escaped_html(title, out);
                out.append("\"");
            }
            out.append(" />");
            proof {
                assert(alt@ =~= alt_children(t@.children, 0));
                assert(out@ =~= old(out)@ + html_of(t@, opts));
            }
        },
    }
}

/// Append the HTML of every child of `t` to `out`.
fn push_html_children(t: &Node, opts: CmarkOptions, out: &mut String)
    ensures
        final(out)@ == old(out)@ + html_children(t@.children, 0, opts),
    decreases t@.count(), 0int,
{
    let n = t.child_count();
    let mut j: usize = 0;
    while j < n
        invariant
            n == t@.children.len(),
            j <= n,
            out@ + html_children(t@.children, j as int, opts) == old(out)@ + html_children(
                t@.children,
                0,
                opts,
            ),
        decreases n - j,
    {
        let c = match t.child(j) {
            Option::Some(c) => c,
            Option::None => unreached(),
        };
        proof {
            crate::node::lemma_count_child(t@, j as int);
        }
        let ghost o0 = out@;
        push_html(c, opts, out);
        proof {
            assert(out@ + html_children(t@.children, j as int + 1, opts) =~= o0 + html_children(
                t@.children,
                j as int,
                opts,
            ));
        }
        j = j + 1;
    }
    proof {
        assert(out@ =~= out@ + html_children(t@.children, n as int, opts));
    }
}

/// Append the plain text of `t` and its descendants to `out`.
fn push_alt(t: &Node, out: &mut String)
    ensures
        final(out)@ == old(out)@ + alt_of(t@),
    decreases t@.count(), 1int,
{
    match t.literal() {
        Result::Ok(s) => {
            out.append(s);
        },
        Result::Err(_) => {},
    }
    push_alt_children(t, out);
    proof {
        assert(out@ =~= old(out)@ + alt_of(t@));
    }
}

/// Append the plain text of every child of `t` to `out`.
fn push_alt_children(t: &Node, out: &mut String)
    ensures
        final(out)@ == old(out)@ + alt_children(t@.children, 0),
    decreases t@.count(), 0int,
{
    let n = t.child_count();
    let mut j: usize = 0;
    while j < n
        invariant
            n == t@.children.len(),
            j <= n,
            out@ + alt_children(t@.children, j as int) == old(out)@ + alt_children(t@.children, 0),
        decreases n - j,
    {
        let c = match t.child(j) {
            Option::Some(c) => c,
            Option::None => unreached(),
        };
        proof {
            crate::node::lemma_count_child(t@, j as int);
        }
        let ghost o0 = out@;
        push_alt(c, out);
        proof {
            assert(out@ + alt_children(t@.children, j as int + 1) =~= o0 + alt_children(
                t@.children,
                j as int,
            ));
        }
        j = j + 1;
    }
    proof {
        assert(out@ =~= out@ + alt_children(t@.children, n as int));
    }
}

/// Append the man output of `t` to `out`.
#[verifier::rlimit(100)]
fn push_man(t: &Node, opts: CmarkOptions, out: &mut String)
    ensures
        final(out)@ == old(out)@ + man_of(t@, opts),
    decreases t@.count(), 1int,
{
    match t.node_type() {
        NodeType::NoNode => {
            proof {
                assert(out@ =~= old(out)@ + man_of(t@, opts));
            }
        },
        NodeType::Document => {
            push_man_children(t, opts, out);
        },
        NodeType::BlockQuote => {
            out.append(".RS\n");
            push_man_children(t, opts, out);
            out.append(".RE\n");
            proof {
                assert(out@ =~= old(out)@ + man_of(t@, opts));
            }
        },
        NodeType::List => {
            push_man_children(t, opts, out);
        },
        NodeType::Item => {
            out.append(".IP \\[bu] 2\n");
            push_man_children(t, opts, out);
            proof {
                assert(out@ =~= old(out)@ + man_of(t@, opts));
            }
        },
        NodeType::CodeBlock => {
            out.append(".IP\n.nf\n\\f[C]\n");
            push_escaped_man(literal_of(t), out);
            out.append("\\f[]\n.fi\n");
            proof {
                assert(out@ =~= old(out)@ + man_of(t@, opts));
            }
        },
        NodeType::Html => {
            proof {
                assert(out@ =~= old(out)@ + man_of(t@, opts));
            }
        },
        NodeType::Paragraph => {
            out.append(".PP\n");
            push_man_children(t, opts, out);
            out.append("\n");
            proof {
                assert(out@ =~= old(out)@ + man_of(t@, opts));
            }
        },
        NodeType::Header => {
            out.append(".SH\n");
            push_man_children(t, opts, out);
            out.append("\n");
            proof {
                assert(out@ =~= old(out)@ + man_of(t@, opts));
            }
        },
        NodeType::Hrule => {
            out.append(".PP\n  *  *  *  *  *\n");
        },
        NodeType::Text => {
            push_escaped_man(literal_of(t), out);
        },
        NodeType::SoftBreak => {
            if opts.bits & crate::OPT_HARDBREAKS != 0 {
                out.append(".br\n");
            } else {
                out.append("\n");
            }
        },
        NodeType::LineBreak => {
            out.append(".br\n");
        },
        NodeType::Code => {
            out.append("\\f[C]");
            push_escaped_man(literal_of(t), out);
            out.append("\\f[]");
            proof {
                assert(out@ =~= old(out)@ + man_of(t@, opts));
            }
        },
        NodeType::InlineHtml => {
            proof {
                assert(out@ =~= old(out)@ + man_of(t@, opts));
            }
        },
        NodeType::Emph => {
            out.append("\\f[I]");
            push_man_children(t, opts, out);
            out.append("\\f[]");
            proof {
                assert(out@ =~= old(out)@ + man_of(t@, opts));
            }
        },
        NodeType::Strong => {
            out.append("\\f[B]");
            push_man_children(t, opts, out);
            out.append("\\f[]");
            proof {
                assert(out@ =~= old(out)@ + man_of(t@, opts));
            }
        },
        NodeType::Link => {
            let url = match t.url() {
                Result::Ok(s) => s,
                Result::Err(_) => unreached(),
            };
            push_man_children(t, opts, out);
            out.append(" (");
            push_escaped_man(url, out);
            out.append(")");
            proof {
                assert(out@ =~= old(out)@ + man_of(t@, opts));
            }
        },
        NodeType::Image => {
            push_man_children(t, opts, out);
        },
    }
}

/// Append the man output of every child of `t` to `out`.
fn push_man_children(t: &Node, opts: CmarkOptions, out: &mut String)
    ensures
        final(out)@ == old(out)@ + man_children(t@.children, 0, opts),
    decreases t@.count(), 0int,
{
    let n = t.child_count();
    let mut j: usize = 0;
    while j < n
        invariant
            n == t@.children.len(),
            j <= n,
            out@ + man_children(t@.children, j as int, opts) == old(out)@ + man_children(
                t@.children,
                0,
                opts,
            ),
        decreases n - j,
    {
        let c = match t.child(j) {
            Option::Some(c) => c,
            Option::None => unreached(),
        };
        proof {
            crate::node::lemma_count_child(t@, j as int);
        }
        let ghost o0 = out@;
        push_man(c, opts, out);
        proof {
            assert(out@ + man_children(t@.children, j as int + 1, opts) =~= o0 + man_children(
                t@.children,
                j as int,
                opts,
            ));
        }
        j = j + 1;
    }
    proof {
        assert(out@ =~= out@ + man_children(t@.children, n as int, opts));
    }
}

/// Append `n` levels of two-space indentation to `out`.
fn push_indent(n: usize, out: &mut String)
    ensures
        final(out)@ == old(out)@ + spaces(2 * n as nat),
{
    let mut i: usize = 0;
    proof {
        assert(out@ + spaces(0) =~= out@);
    }
    while i < n
        invariant
            i <= n,
            out@ == old(out)@ + spaces(2 * i as nat),
        decreases n - i,
    {
        out.append("  ");
        proof {
            assert(spaces(2 * (i + 1) as nat) =~= spaces(2 * i as nat) + "  "@) by {
                reveal_strlit("  ");
                assert(spaces((2 * i + 1) as nat) =~= spaces((2 * i) as nat).push(' '));
                assert(spaces((2 * i + 2) as nat) =~= spaces((2 * i + 1) as nat).push(' '));
            }
            assert(out@ =~= old(out)@ + spaces(2 * (i + 1) as nat));
        }
        i = i + 1;
    }
}

/// Append the XML attributes of `t` to `out`.
fn push_xml_attrs(t: &Node, out: &mut String)
    ensures
        final(out)@ == old(out)@ + xml_attrs(t@),
{
    match t.node_type() {
        NodeType::Header => {
            let lv = match t.header_level() {
                Result::Ok(v) => v,
                Result::Err(_) => unreached(),
            };
            let lv = if 1 <= lv && lv <= 6 {
                lv
            } else {
                1
            };
            out.append(" level=\"");
            push_dec(lv as u32, out);
            out.append("\"");
            proof {
                assert(lv as nat == html_level(t@));
                assert(out@ =~= old(out)@ + xml_attrs(t@));
            }
        },
        NodeType::List => {
            let lt = match t.list_type() {
                Result::Ok(v) => v,
                Result::Err(_) => unreached(),
            };
            if matches!(lt, ListType::Ordered) {
                let ls = match t.list_start() {
                    Result::Ok(v) => v,
                    Result::Err(_) => unreached(),
                };
                let ls = if ls >= 0 {
                    ls
                } else {
                    0
                };
                out.append(" type=\"ordered\" start=\"");
                push_dec(ls as u32, out);
                out.append("\"");
                proof {
                    assert(out@ =~= old(out)@ + xml_attrs(t@));
                }
            } else {
                out.append(" type=\"bullet\"");
                proof {
                    assert(out@ =~= old(out)@ + xml_attrs(t@));
                }
            }
        },
        _ => {
            proof {
                assert(out@ =~= old(out)@ + xml_attrs(t@));
            }
        },
    }
}

/// Append the XML element of `t`, indented `depth` levels, to `out`.
fn push_xml(t: &Node, depth: usize, out: &mut String)
    requires
        depth as int + t@.count() <= usize::MAX as int + 1,
    ensures
        final(out)@ == old(out)@ + xml_of(t@, depth as nat),
    decreases t@.count(), 1int,
{
    push_indent(depth, out);
    out.append("<");
    out.append(t.type_string());
    push_xml_attrs(t, out);
    let is_literal_kind = matches!(
        t.node_type(),
        NodeType::CodeBlock | NodeType::Code | NodeType::Text | NodeType::Html
            | NodeType::InlineHtml
    );
    if is_literal_kind {
        out.append(">");
        push_escaped_html(literal_of(t), out);
        out.append("</");
        out.append(t.type_string());
        out.append(">\n");
        proof {
            assert(out@ =~= old(out)@ + xml_of(t@, depth as nat));
        }
    } else if t.child_count() == 0 {
        out.append(" />\n");
        proof {
            assert(out@ =~= old(out)@ + xml_of(t@, depth as nat));
        }
    } else {
        out.append(">\n");
        proof {
            crate::node::lemma_count_child(t@, 0);
        }
        push_xml_children(t, depth + 1, out);
        push_indent(depth, out);
        out.append("</");
        out.append(t.type_string());
        out.append(">\n");
        proof {
            assert(out@ =~= old(out)@ + xml_of(t@, depth as nat));
        }
    }
}

/// Append the XML elements of every child of `t` to `out`.
fn push_xml_children(t: &Node, depth: usize, out: &mut String)
    requires
        depth as int + t@.count() <= usize::MAX as int + 2,
    ensures
        final(out)@ == old(out)@ + xml_children(t@.children, 0, depth as nat),
    decreases t@.count(), 0int,
{
    let n = t.child_count();
    let mut j: usize = 0;
    while j < n
        invariant
            n == t@.children.len(),
            j <= n,
            depth as int + t@.count() <= usize::MAX as int + 2,
            out@ + xml_children(t@.children, j as int, depth as nat) == old(out)@ + xml_children(
                t@.children,
                0,
                depth as nat,
            ),
        decreases n - j,
    {
        let c = match t.child(j) {
            Option::Some(c) => c,
            Option::None => unreached(),
        };
        proof {
            crate::node::lemma_count_child(t@, j as int);
        }
        let ghost o0 = out@;
        push_xml(c, depth, out);
        proof {
            assert(out@ + xml_children(t@.children, j as int + 1, depth as nat) =~= o0
                + xml_children(t@.children, j as int, depth as nat));
        }
        j = j + 1;
    }
    proof {
        assert(out@ =~= out@ + xml_children(t@.children, n as int, depth as nat));
    }
}

/// Append the CommonMark source of `t`, unwrapped, to `out`.
#[verifier::rlimit(100)]
fn push_cm(t: &Node, opts: CmarkOptions, out: &mut String)
    ensures
        final(out)@ == old(out)@ + cm_of(t@, opts),
    decreases t@.count(), 1int,
{
    match t.node_type() {
        NodeType::NoNode => {
            proof {
                assert(out@ =~= old(out)@ + cm_of(t@, opts));
            }
        },
        NodeType::Document => {
            push_cm_blocks(t, opts, out);
        },
        NodeType::BlockQuote => {
            out.append("> ");
            push_cm_children(t, opts, out);
            out.append("\n");
            proof {
                assert(out@ =~= old(out)@ + cm_of(t@, opts));
            }
        },
        NodeType::List => {
            push_cm_children(t, opts, out);
        },
        NodeType::Item => {
            out.append("- ");
            push_cm_children(t, opts, out);
            out.append("\n");
            proof {
                assert(out@ =~= old(out)@ + cm_of(t@, opts));
            }
        },
        NodeType::CodeBlock => {
            let info = match t.fence_info() {
                Result::Ok(s) => s,
                Result::Err(_) => unreached(),
            };
            out.append("```");
            out.append(info);
            out.append("\n");
            out.append(literal_of(t));
            out.append("```\n");
            proof {
                assert(out@ =~= old(out)@ + cm_of(t@, opts));
            }
        },
        NodeType::Html => {
            out.append(literal_of(t));
        },
        NodeType::Paragraph => {
            push_cm_children(t, opts, out);
            out.append("\n");
            proof {
                assert(out@ =~= old(out)@ + cm_of(t@, opts));
            }
        },
        NodeType::Header => {
            let lv = match t.header_level() {
                Result::Ok(v) => v,
                Result::Err(_) => unreached(),
            };
            let lv: usize = if 1 <= lv && lv <= 6 {
                lv as usize
            } else {
                1
            };
            let mut i: usize = 0;
            proof {
                assert(out@ + repeat_char('#', 0) =~= out@);
            }
            while i < lv
                invariant
                    i <= lv,
                    out@ == old(out)@ + repeat_char('#', i as nat),
                decreases lv - i,
            {
                out.push('#');
                proof {
                    assert(out@ =~= old(out)@ + repeat_char('#', (i + 1) as nat));
                }
                i = i + 1;
            }
            out.append(" ");
            push_cm_children(t, opts, out);
            out.append("\n");
            proof {
                assert(lv as nat == html_level(t@));
                assert(out@ =~= old(out)@ + cm_of(t@, opts));
            }
        },
        NodeType::Hrule => {
            out.append("***\n");
        },
        NodeType::Text => {
            push_escaped_cm(literal_of(t), out);
        },
        NodeType::SoftBreak => {
            if opts.bits & crate::OPT_HARDBREAKS != 0 {
                out.append("\\\n");
            } else {
                out.append("\n");
            }
        },
        NodeType::LineBreak => {
            out.append("\\\n");
        },
        NodeType::Code => {
            out.append("`");
            out.append(literal_of(t));
            out.append("`");
            proof {
                assert(out@ =~= old(out)@ + cm_of(t@, opts));
            }
        },
        NodeType::InlineHtml => {
            out.append(literal_of(t));
        },
        NodeType::Emph => {
            out.append("*");
            push_cm_children(t, opts, out);
            out.append("*");
            proof {
                assert(out@ =~= old(out)@ + cm_of(t@, opts));
            }
        },
        NodeType::Strong => {
            out.append("**");
            push_cm_children(t, opts, out);
            out.append("**");
            proof {
                assert(out@ =~= old(out)@ + cm_of(t@, opts));
            }
        },
        NodeType::Link => {
            out.append("[");
            push_cm_children(t, opts, out);
            out.append("](");
            let url = match t.url() {
                Result::Ok(s) => s,
                Result::Err(_) => unreached(),
            };
            out.append(url);
            out.append(")");
            proof {
                assert(out@ =~= old(out)@ + cm_of(t@, opts));
            }
        },
        NodeType::Image => {
            out.append("![");
            push_cm_children(t, opts, out);
            out.append("](");
            let url = match t.url() {
                Result::Ok(s) => s,
                Result::Err(_) => unreached(),
            };
            out.append(url);
            out.append(")");
            proof {
                assert(out@ =~= old(out)@ + cm_of(t@, opts));
            }
        },
    }
}

/// Append the CommonMark source of every child of `t` to `out`.
fn push_cm_children(t: &Node, opts: CmarkOptions, out: &mut String)
    ensures
        final(out)@ == old(out)@ + cm_children(t@.children, 0, opts),
    decreases t@.count(), 0int,
{
    let n = t.child_count();
    let mut j: usize = 0;
    while j < n
        invariant
            n == t@.children.len(),
            j <= n,
            out@ + cm_children(t@.children, j as int, opts) == old(out)@ + cm_children(
                t@.children,
                0,
                opts,
            ),
        decreases n - j,
    {
        let c = match t.child(j) {
            Option::Some(c) => c,
            Option::None => unreached(),
        };
        proof {
            crate::node::lemma_count_child(t@, j as int);
        }
        let ghost o0 = out@;
        push_cm(c, opts, out);
        proof {
            assert(out@ + cm_children(t@.children, j as int + 1, opts) =~= o0 + cm_children(
                t@.children,
                j as int,
                opts,
            ));
        }
        j = j + 1;
    }
    proof {
        assert(out@ =~= out@ + cm_children(t@.children, n as int, opts));
    }
}

/// Append a document's blocks, unwrapped and separated by blank lines, to
/// `out`.
fn push_cm_blocks(t: &Node, opts: CmarkOptions, out: &mut String)
    ensures
        final(out)@ == old(out)@ + cm_blocks(t@.children, 0, opts),
    decreases t@.count(), 0int,
{
    let n = t.child_count();
    let mut j: usize = 0;
    while j < n
        invariant
            n == t@.children.len(),
            j <= n,
            out@ + cm_blocks(t@.children, j as int, opts) == old(out)@ + cm_blocks(
                t@.children,
                0,
                opts,
            ),
        decreases n - j,
    {
        let c = match t.child(j) {
            Option::Some(c) => c,
            Option::None => unreached(),
        };
        proof {
            crate::node::lemma_count_child(t@, j as int);
        }
        let ghost o0 = out@;
        push_cm(c, opts, out);
        if j + 1 < n {
            out.append("\n");
        }
        proof {
            assert(out@ + cm_blocks(t@.children, j as int + 1, opts) =~= o0 + cm_blocks(
                t@.children,
                j as int,
                opts,
            ));
        }
        j = j + 1;
    }
    proof {
        assert(out@ =~= out@ + cm_blocks(t@.children, n as int, opts));
    }
}

/// `first_break` finds the position whose prefix is free of spaces and
/// newlines and which holds one unless it is the end.
proof fn lemma_first_break_unique(s: Seq<char>, i: int)
    requires
        0 <= i <= s.len(),
        i < s.len() ==> s[i] == ' ' || s[i] == '\n',
        forall|j: int| 0 <= j < i ==> s[j] != ' ' && s[j] != '\n',
    ensures
        first_break(s) == i,
    decreases s.len(),
{
    if s.len() > 0 && i > 0 {
        assert forall|j: int| 0 <= j < i - 1 implies s.drop_first()[j] != ' ' && s.drop_first()[j]
            != '\n' by {
            assert(s.drop_first()[j] == s[j + 1]);
        }
        assert(i - 1 < s.drop_first().len() ==> s.drop_first()[i - 1] == s[i]);
        lemma_first_break_unique(s.drop_first(), i - 1);
    }
}

/// Find the first space or newline in `v`, or the length of `v`.
fn exec_first_break(v: &Vec<char>) -> (r: usize)
    ensures
        r as int == first_break(v@),
{
    let mut i: usize = 0;
    while i < v.len()
        invariant
            i <= v@.len(),
            forall|j: int| 0 <= j < i ==> v@[j] != ' ' && v@[j] != '\n',
        decreases v@.len() - i,
    {
        if v[i] == ' ' || v[i] == '\n' {
            proof {
                lemma_first_break_unique(v@, i as int);
            }
            return i;
        }
        i = i + 1;
    }
    proof {
        lemma_first_break_unique(v@, v@.len() as int);
    }
    i
}

/// Split a text into its words at each space or newline.
fn exec_split_words(v: Vec<char>) -> (r: Vec<Vec<char>>)
    ensures
        crate::parser::lines_view(r@) == split_words(v@),
    decreases v@.len(),
{
    let i = exec_first_break(&v);
    if i < v.len() {
        let head = crate::util::vec_take(&v, i);
        let tail = crate::util::vec_skip(&v, i + 1);
        let mut rest = exec_split_words(tail);
        rest.insert(0, head);
        proof {
            assert(crate::parser::lines_view(rest@) =~= seq![v@.take(i as int)] + split_words(
                v@.skip(i as int + 1),
            ));
        }
        rest
    } else {
        let mut out: Vec<Vec<char>> = Vec::new();
        out.push(v);
        proof {
            assert(crate::parser::lines_view(out@) =~= seq![out@[0]@]);
        }
        out
    }
}

/// Append the words from position `j` on, joined greedily into lines of at
/// most `w` characters, to `out`.
fn exec_join_words(ws: &Vec<Vec<char>>, j: usize, w: usize, col: usize, out: &mut String)
    requires
        j <= ws@.len(),
    ensures
        final(out)@ == old(out)@ + join_words(
            crate::parser::lines_view(ws@).skip(j as int),
            w as int,
            col as int,
        ),
    decreases ws@.len() - j,
{
    let ghost suffix = crate::parser::lines_view(ws@).skip(j as int);
    if j == ws.len() {
        proof {
            assert(suffix =~= Seq::<Seq<char>>::empty());
            assert(out@ =~= out@ + join_words(suffix, w as int, col as int));
        }
    } else {
        let word = &ws[j];
        proof {
            assert(suffix[0] == word@);
            assert(suffix.drop_first() =~= crate::parser::lines_view(ws@).skip(j as int + 1));
        }
        let wl = word.len();
        if col == 0 {
            let ws_str = crate::util::chars_to_string(word);
            out.append(ws_str.as_str());
            exec_join_words(ws, j + 1, w, wl, out);
            proof {
                assert(out@ =~= old(out)@ + join_words(suffix, w as int, col as int));
            }
        } else if col < w && w - col > wl {
            out.append(" ");
            let ws_str = crate::util::chars_to_string(word);
            out.append(ws_str.as_str());
            proof {
                assert(col + 1 + wl <= w);
            }
            exec_join_words(ws, j + 1, w, col + 1 + wl, out);
            proof {
                reveal_strlit(" ");
                assert(" "@ =~= seq![' ']);
                assert(out@ =~= old(out)@ + join_words(suffix, w as int, col as int));
            }
        } else {
            proof {
                assert(!(col as int + 1 + word@.len() <= w as int));
            }
            out.append("\n");
            let ws_str = crate::util::chars_to_string(word);
            out.append(ws_str.as_str());
            exec_join_words(ws, j + 1, w, wl, out);
            proof {
                reveal_strlit("\n");
                assert("\n"@ =~= seq!['\n']);
                assert(out@ =~= old(out)@ + join_words(suffix, w as int, col as int));
            }
        }
    }
}

/// A paragraph's text wrapped to the target width.
fn exec_wrap(s: String, width: i32) -> (r: String)
    ensures
        r@ == wrap(s@, width as int),
{
    if width <= 0 {
        s
    } else {
        let chars = crate::util::str_to_chars(s.as_str());
        let words = exec_split_words(chars);
        let mut out = String::new();
        proof {
            assert(crate::parser::lines_view(words@).skip(0) =~= crate::parser::lines_view(
                words@,
            ));
        }
        exec_join_words(&words, 0, width as usize, 0, &mut out);
        proof {
            assert(out@ =~= wrap(s@, width as int));
        }
        out
    }
}

/// Append the CommonMark source of `t`, with paragraphs wrapped to
/// `width`, to `out`.
fn push_cm_doc(t: &Node, opts: CmarkOptions, width: i32, out: &mut String)
    ensures
        final(out)@ == old(out)@ + cm_doc(t@, opts, width as int),
    decreases t@.count(), 1int,
{
    match t.node_type() {
        NodeType::Paragraph => {
            let mut buf = String::new();
            push_cm_children(t, opts, &mut buf);
            let wrapped = exec_wrap(buf, width);
            out.append(wrapped.as_str());
            out.append("\n");
            proof {
                assert(out@ =~= old(out)@ + cm_doc(t@, opts, width as int));
            }
        },
        NodeType::Document => {
            let n = t.child_count();
            let mut j: usize = 0;
            while j < n
                invariant
                    n == t@.children.len(),
                    j <= n,
                    out@ + cm_doc_blocks(t@.children, j as int, opts, width as int) == old(out)@
                        + cm_doc_blocks(t@.children, 0, opts, width as int),
                decreases n - j,
            {
                let c = match t.child(j) {
                    Option::Some(c) => c,
                    Option::None => unreached(),
                };
                proof {
                    crate::node::lemma_count_child(t@, j as int);
                }
                let ghost o0 = out@;
                push_cm_doc(c, opts, width, out);
                if j + 1 < n {
                    out.append("\n");
                }
                proof {
                    assert(out@ + cm_doc_blocks(t@.children, j as int + 1, opts, width as int)
                        =~= o0 + cm_doc_blocks(t@.children, j as int, opts, width as int));
                }
                j = j + 1;
            }
            proof {
                assert(out@ =~= out@ + cm_doc_blocks(t@.children, n as int, opts, width as int));
                assert(out@ =~= old(out)@ + cm_doc(t@, opts, width as int));
            }
        },
        _ => {
            push_cm(t, opts, out);
            proof {
                assert(out@ =~= old(out)@ + cm_doc(t@, opts, width as int));
            }
        },
    }
}

/// Render a tree as an XML document with the fixed CommonMark preamble.
/// The tree is read, never changed.
pub fn render_xml(root: &Node, options: CmarkOptions) -> (r: String)
    requires
        root@.count() <= usize::MAX as int + 1,
    ensures
        r@ == xml_doc(root@),
{
    let mut out = String::new();
    out.append("<?xml version=\"1.0\" encoding=\"UTF-8\"?>\n<!DOCTYPE CommonMark SYSTEM \"CommonMark.dtd\">\n");
    push_xml(root, 0, &mut out);
    proof {
        assert(out@ =~= xml_doc(root@));
    }
    out
}

/// Render a tree back to CommonMark source, with paragraphs wrapped to
/// `width` columns (no wrapping when `width` is zero or negative). The
/// tree is read, never changed.
pub fn render_commonmark(root: &Node, options: CmarkOptions, width: i32) -> (r: String)
    ensures
        r@ == cm_doc(root@, options, width as int),
{
    let mut out = String::new();
    push_cm_doc(root, options, width, &mut out);
    proof {
        assert(out@ =~= cm_doc(root@, options, width as int));
    }
    out
}

/// Render a tree as an HTML fragment. The tree is read, never changed.
pub fn render_html(root: &Node, options: CmarkOptions) -> (r: String)
    ensures
        r@ == html_of(root@, options),
{
    let mut out = String::new();
    push_html(root, options, &mut out);
    proof {
        assert(out@ =~= html_of(root@, options));
    }
    out
}

/// Render a tree as man-page troff source. The tree is read, never
/// changed.
pub fn render_man(root: &Node, options: CmarkOptions) -> (r: String)
    ensures
        r@ == man_of(root@, options),
{
    let mut out = String::new();
    push_man(root, options, &mut out);
    proof {
        assert(out@ =~= man_of(root@, options));
    }
    out
}

} // verus!
