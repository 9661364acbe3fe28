//! The incremental parser: a state machine that accumulates source text
//! and, on `finish`, turns it into a document tree.
//!
//! The grammar engine recognizes a deterministic core of CommonMark:
//! blank-line-separated blocks, where a block is an ATX heading (one to six
//! `#` followed by a space) or a paragraph; and inside a paragraph the
//! inline constructs `**strong**`, `__strong__`, `*emphasis*`,
//! `_emphasis_`, `` `code` `` and soft line breaks. A delimiter without a
//! matching closer is ordinary text. With `OPT_SMART`, `---` becomes an em
//! dash, `--` an en dash, and straight quotes become curly quotes (opening
//! after a space or at the start of the text, closing elsewhere). With
//! `OPT_SOURCEPOS`, block nodes record the one-based line range they were
//! read from. With `OPT_NORMALIZE`, adjacent text nodes are consolidated
//! after parsing.

use vstd::prelude::*;

use crate::CmarkOptions;
use crate::NodeType;
use crate::node::Error;
use crate::node::Node;
use crate::node::NodeView;
use crate::node::merge_texts;
use crate::render::cm_doc;
use crate::render::cm_doc_blocks;
use crate::render::cm_children;
use crate::render::cm_of;

verus! {

broadcast use
    vstd::std_specs::vec::group_vec_axioms,
    vstd::seq::axiom_seq_index_decreases,
    vstd::seq::axiom_seq_subrange_decreases,
;

// ---------------------------------------------------------------------
// The source text model: lines and their shapes.
// ---------------------------------------------------------------------
/// The position of the first occurrence of `c` in `s`, or `s.len()` if
/// there is none.
pub open spec fn find_char(s: Seq<char>, c: char) -> int
    decreases s.len(),
{
    if s.len() == 0 {
        0
    } else if s[0] == c {
        0
    } else {
        1 + find_char(s.drop_first(), c)
    }
}

/// The position of the first occurrence of `c` twice in a row in `s`, or
/// `s.len()` if there is none.
pub open spec fn find_pair(s: Seq<char>, c: char) -> int
    decreases s.len(),
{
    if s.len() < 2 {
        s.len() as int
    } else if s[0] == c && s[1] == c {
        0
    } else {
        1 + find_pair(s.drop_first(), c)
    }
}

/// The source split into lines at each newline character.
pub open spec fn split_lines(s: Seq<char>) -> Seq<Seq<char>>
    decreases s.len(),
{
    let i = find_char(s, '\n');
    if 0 <= i < s.len() {
        seq![s.take(i)] + split_lines(s.skip(i + 1))
    } else {
        seq![s]
    }
}

/// Whether a line holds only spaces and tabs.
pub open spec fn is_blank(l: Seq<char>) -> bool {
    forall|i: int| 0 <= i < l.len() ==> l[i] == ' ' || l[i] == '\t'
}

/// How many `#` characters the line begins with.
pub open spec fn leading_hashes(l: Seq<char>) -> int
    decreases l.len(),
{
    if l.len() == 0 || l[0] != '#' {
        0
    } else {
        1 + leading_hashes(l.drop_first())
    }
}

/// The heading level of a line: the number of leading `#` when there are
/// one to six of them followed by a space or the end of the line, and 0
/// when the line is no heading.
pub open spec fn heading_level(l: Seq<char>) -> int {
    let h = leading_hashes(l);
    if 1 <= h <= 6 && (h == l.len() || l[h] == ' ') {
        h
    } else {
        0
    }
}

/// How many spaces the line begins with.
pub open spec fn leading_spaces(l: Seq<char>) -> int
    decreases l.len(),
{
    if l.len() == 0 || l[0] != ' ' {
        0
    } else {
        1 + leading_spaces(l.drop_first())
    }
}

/// How many spaces the line ends with.
pub open spec fn trailing_spaces(l: Seq<char>) -> int
    decreases l.len(),
{
    if l.len() == 0 || l.last() != ' ' {
        0
    } else {
        1 + trailing_spaces(l.drop_last())
    }
}

/// The line with leading and trailing spaces removed.
pub open spec fn trimmed(l: Seq<char>) -> Seq<char> {
    let a = leading_spaces(l);
    let b = trailing_spaces(l);
    if a >= l.len() {
        Seq::empty()
    } else if 0 <= a && 0 <= b && a + b <= l.len() {
        l.subrange(a, l.len() - b)
    } else {
        l
    }
}

// ---------------------------------------------------------------------
// The inline grammar.
// ---------------------------------------------------------------------
/// A leaf text node holding `lit`.
pub open spec fn text_node(lit: Seq<char>) -> NodeView {
    NodeView::fresh(NodeType::Text).with_literal(lit)
}

/// Whether a quote at this position opens: at the start of the inline
/// text or after whitespace.
pub open spec fn quote_opens(prev: char) -> bool {
    prev == ' ' || prev == '\t' || prev == '\n'
}

/// The characters that one step of plain-text scanning consumes, and the
/// text it produces: one character, except that with `OPT_SMART` the
/// dash runs `---` and `--` and straight quotes become typographic
/// punctuation.
pub open spec fn smart_step(s: Seq<char>, opts: CmarkOptions, prev: char) -> (int, Seq<char>)
    recommends
        s.len() > 0,
{
    if opts.smart_enabled() && s.len() >= 3 && s[0] == '-' && s[1] == '-' && s[2] == '-' {
        (3, seq!['\u{2014}'])
    } else if opts.smart_enabled() && s.len() >= 2 && s[0] == '-' && s[1] == '-' {
        (2, seq!['\u{2013}'])
    } else if opts.smart_enabled() && s[0] == '\'' {
        (1, seq![if quote_opens(prev) { '\u{2018}' } else { '\u{2019}' }])
    } else if opts.smart_enabled() && s[0] == '"' {
        (1, seq![if quote_opens(prev) { '\u{201C}' } else { '\u{201D}' }])
    } else {
        (1, seq![s[0]])
    }
}

/// The inline nodes of `s`, before adjacent text nodes are merged. `prev`
/// is the character just before `s` (a newline at the very start).
/// Delimited constructs are matched at the first closing delimiter; a
/// delimiter with no closer is text, one character at a time.
pub open spec fn raw_inlines(s: Seq<char>, opts: CmarkOptions, prev: char) -> Seq<NodeView>
    decreases s.len(), 0int,
{
    if s.len() == 0 {
        Seq::empty()
    } else if s[0] == '\n' {
        seq![NodeView::fresh(NodeType::SoftBreak)] + raw_inlines(s.skip(1), opts, '\n')
    } else if (s[0] == '*' || s[0] == '_') && s.len() >= 2 && s[1] == s[0] && {
        let i = find_pair(s.skip(2), s[0]);
        0 <= i && i + 2 <= s.skip(2).len()
    } {
        let i = find_pair(s.skip(2), s[0]);
        seq![
            NodeView::fresh(NodeType::Strong).with_children(inlines(s.skip(2).take(i), opts, s[0])),
        ] + raw_inlines(s.skip(i + 4), opts, s[0])
    } else if (s[0] == '*' || s[0] == '_') && !(s.len() >= 2 && s[1] == s[0]) && {
        let i = find_char(s.skip(1), s[0]);
        0 <= i < s.skip(1).len()
    } {
        let i = find_char(s.skip(1), s[0]);
        seq![
            NodeView::fresh(NodeType::Emph).with_children(inlines(s.skip(1).take(i), opts, s[0])),
        ] + raw_inlines(s.skip(i + 2), opts, s[0])
    } else if s[0] == '`' && {
        let i = find_char(s.skip(1), '`');
        0 <= i < s.skip(1).len()
    } {
        let i = find_char(s.skip(1), '`');
        seq![NodeView::fresh(NodeType::Code).with_literal(s.skip(1).take(i))] + raw_inlines(
            s.skip(i + 2),
            opts,
            '`',
        )
    } else {
        let step = smart_step(s, opts, prev);
        if 0 < step.0 <= s.len() {
            seq![text_node(step.1)] + raw_inlines(s.skip(step.0), opts, s[step.0 - 1])
        } else {
            seq![text_node(step.1)] + raw_inlines(s.skip(1), opts, s[0])
        }
    }
}

/// The inline nodes of `s`: the raw inline nodes with every run of
/// adjacent text nodes merged into one.
pub open spec fn inlines(s: Seq<char>, opts: CmarkOptions, prev: char) -> Seq<NodeView>
    decreases s.len(), 1int,
{
    merge_texts(raw_inlines(s, opts, prev))
}

// ---------------------------------------------------------------------
// The block grammar.
// ---------------------------------------------------------------------
/// A paragraph in the making: its zero-based first and last source lines,
/// the length of its last source line, and its inline text so far (its
/// trimmed lines joined by newlines).
pub ghost struct ParaAcc {
    pub start: int,
    pub end: int,
    pub end_col: int,
    pub text: Seq<char>,
}

/// A line or column number clamped to what the position fields can hold.
pub open spec fn clamp_pos(x: int) -> int {
    if x > i32::MAX {
        i32::MAX as int
    } else {
        x
    }
}

/// The source range of a block node, recorded only when `OPT_SOURCEPOS`
/// is set: one-based lines, columns from 1 to the line length.
pub open spec fn block_pos(
    t: NodeView,
    start: int,
    end: int,
    end_col: int,
    opts: CmarkOptions,
) -> NodeView {
    if opts.sourcepos_enabled() {
        NodeView {
            start_line: clamp_pos(start + 1),
            start_column: 1,
            end_line: clamp_pos(end + 1),
            end_column: clamp_pos(end_col),
            ..t
        }
    } else {
        t
    }
}

/// The paragraph node an accumulator flushes to.
pub open spec fn para_node(a: ParaAcc, opts: CmarkOptions) -> NodeView {
    block_pos(
        NodeView::fresh(NodeType::Paragraph).with_children(inlines(a.text, opts, '\n')),
        a.start,
        a.end,
        a.end_col,
        opts,
    )
}

/// The heading node of a heading line read at zero-based line `n`.
pub open spec fn header_node(l: Seq<char>, n: int, opts: CmarkOptions) -> NodeView {
    let h = heading_level(l);
    let content = if 0 <= h <= l.len() {
        trimmed(l.skip(h))
    } else {
        Seq::empty()
    };
    block_pos(
        NodeView {
            header_level: h,
            ..NodeView::fresh(NodeType::Header).with_children(inlines(content, opts, '\n'))
        },
        n,
        n,
        l.len() as int,
        opts,
    )
}

/// The blocks a pending paragraph flushes to: one paragraph node, or none
/// if no paragraph is pending.
pub open spec fn flush(acc: Option<ParaAcc>, opts: CmarkOptions) -> Seq<NodeView> {
    match acc {
        Option::None => Seq::empty(),
        Option::Some(a) => seq![para_node(a, opts)],
    }
}

/// A pending paragraph extended by one more source line.
pub open spec fn extend_acc(acc: Option<ParaAcc>, l: Seq<char>, n: int) -> ParaAcc {
    match acc {
        Option::None => ParaAcc { start: n, end: n, end_col: l.len() as int, text: trimmed(l) },
        Option::Some(a) => ParaAcc {
            start: a.start,
            end: n,
            end_col: l.len() as int,
            text: a.text + seq!['\n'] + trimmed(l),
        },
    }
}

/// The block nodes of the remaining lines, where `n` is the zero-based
/// number of the first of them and `acc` a pending paragraph: a blank
/// line ends the pending paragraph, a heading line becomes a heading
/// node, and any other line continues or opens a paragraph.
pub open spec fn blocks_acc(
    lines: Seq<Seq<char>>,
    n: int,
    acc: Option<ParaAcc>,
    opts: CmarkOptions,
) -> Seq<NodeView>
    decreases lines.len(),
{
    if lines.len() == 0 {
        flush(acc, opts)
    } else {
        let l = lines[0];
        let rest = lines.drop_first();
        if is_blank(l) {
            flush(acc, opts) + blocks_acc(rest, n + 1, Option::None, opts)
        } else if heading_level(l) > 0 {
            flush(acc, opts) + seq![header_node(l, n, opts)] + blocks_acc(
                rest,
                n + 1,
                Option::None,
                opts,
            )
        } else {
            blocks_acc(rest, n + 1, Option::Some(extend_acc(acc, l, n)), opts)
        }
    }
}

/// The document tree of a complete source text: a document node holding
/// the blocks of its lines, consolidated when `OPT_NORMALIZE` is set.
pub open spec fn doc_of(src: Seq<char>, opts: CmarkOptions) -> NodeView {
    let lines = split_lines(src);
    let blocks = blocks_acc(lines, 0, Option::None, opts);
    let d = block_pos(
        NodeView::fresh(NodeType::Document).with_children(blocks),
        0,
        lines.len() - 1,
        lines.last().len() as int,
        opts,
    );
    if opts.normalize_enabled() {
        d.consolidate()
    } else {
        d
    }
}

// ---------------------------------------------------------------------
// Scanning: executable twins of the source-text model.
// ---------------------------------------------------------------------
/// `find_char` finds the position whose prefix is free of `c` and which
/// holds `c` unless it is the end.
proof fn lemma_find_char_unique(s: Seq<char>, c: char, i: int)
    requires
        0 <= i <= s.len(),
        i < s.len() ==> s[i] == c,
        forall|j: int| 0 <= j < i ==> s[j] != c,
    ensures
        find_char(s, c) == i,
    decreases s.len(),
{
    if s.len() > 0 && i > 0 {
        assert(s[0] != c);
        assert forall|j: int| 0 <= j < i - 1 implies s.drop_first()[j] != c by {
            assert(s.drop_first()[j] == s[j + 1]);
        }
        assert(i - 1 < s.drop_first().len() ==> s.drop_first()[i - 1] == s[i]);
        lemma_find_char_unique(s.drop_first(), c, i - 1);
    }
}

/// Find the first occurrence of `c` in `v`, or the length of `v`.
fn exec_find_char(v: &Vec<char>, c: char) -> (r: usize)
    ensures
        r as int == find_char(v@, c),
{
    let mut i: usize = 0;
    while i < v.len()
        invariant
            i <= v@.len(),
            forall|j: int| 0 <= j < i ==> v@[j] != c,
        decreases v@.len() - i,
    {
        if v[i] == c {
            proof {
                lemma_find_char_unique(v@, c, i as int);
            }
            return i;
        }
        i = i + 1;
    }
    proof {
        lemma_find_char_unique(v@, c, v@.len() as int);
    }
    i
}

/// `find_pair` finds the position whose prefix is free of doubled `c` and
/// which holds a doubled `c` unless it is the end.
proof fn lemma_find_pair_unique(s: Seq<char>, c: char, i: int)
    requires
        0 <= i <= s.len(),
        i + 2 <= s.len() ==> s[i] == c && s[i + 1] == c,
        i + 2 > s.len() ==> i == s.len(),
        forall|j: int| 0 <= j < i && j + 2 <= s.len() ==> !((#[trigger] s[j]) == c && s[j + 1] == c),
    ensures
        find_pair(s, c) == i,
    decreases s.len(),
{
    if s.len() >= 2 {
        if s[0] == c && s[1] == c {
            if i != 0 {
                assert(!(s[0] == c && s[1] == c));
            }
        } else {
            assert(i >= 1);
            assert forall|j: int|
                0 <= j < i - 1 && j + 2 <= s.drop_first().len() implies !((#[trigger] s.drop_first()[j]) == c
                && s.drop_first()[j + 1] == c) by {
                assert(s.drop_first()[j] == s[j + 1]);
                assert(s.drop_first()[j + 1] == s[j + 2]);
            }
            assert(i - 1 + 2 <= s.drop_first().len() ==> s.drop_first()[i - 1] == s[i]
                && s.drop_first()[i] == s[i + 1]);
            lemma_find_pair_unique(s.drop_first(), c, i - 1);
        }
    }
}

/// Find the first doubled `c` in `v`, or the length of `v`.
fn exec_find_pair(v: &Vec<char>, c: char) -> (r: usize)
    ensures
        r as int == find_pair(v@, c),
{
    if v.len() < 2 {
        proof {
            lemma_find_pair_unique(v@, c, v@.len() as int);
        }
        return v.len();
    }
    let mut i: usize = 0;
    while i < v.len() - 1
        invariant
            v@.len() >= 2,
            i <= v@.len() - 1,
            forall|j: int| 0 <= j < i && j + 2 <= v@.len() ==> !((#[trigger] v@[j]) == c && v@[j + 1] == c),
        decreases v@.len() - i,
    {
        if v[i] == c && v[i + 1] == c {
            proof {
                lemma_find_pair_unique(v@, c, i as int);
            }
            return i;
        }
        i = i + 1;
    }
    proof {
        lemma_find_pair_unique(v@, c, v@.len() as int);
    }
    v.len()
}

/// `leading_hashes` counts the longest all-`#` prefix.
proof fn lemma_leading_hashes_unique(s: Seq<char>, i: int)
    requires
        0 <= i <= s.len(),
        i < s.len() ==> s[i] != '#',
        forall|j: int| 0 <= j < i ==> s[j] == '#',
    ensures
        leading_hashes(s) == i,
    decreases s.len(),
{
    if s.len() > 0 && i > 0 {
        assert forall|j: int| 0 <= j < i - 1 implies s.drop_first()[j] == '#' by {
            assert(s.drop_first()[j] == s[j + 1]);
        }
        assert(i - 1 < s.drop_first().len() ==> s.drop_first()[i - 1] == s[i]);
        lemma_leading_hashes_unique(s.drop_first(), i - 1);
    }
}

/// Count the `#` characters at the start of `v`.
fn exec_leading_hashes(v: &Vec<char>) -> (r: usize)
    ensures
        r as int == leading_hashes(v@),
        r <= v@.len(),
{
    let mut i: usize = 0;
    while i < v.len()
        invariant
            i <= v@.len(),
            forall|j: int| 0 <= j < i ==> v@[j] == '#',
        decreases v@.len() - i,
    {
        if v[i] != '#' {
            proof {
                lemma_leading_hashes_unique(v@, i as int);
            }
            return i;
        }
        i = i + 1;
    }
    proof {
        lemma_leading_hashes_unique(v@, v@.len() as int);
    }
    i
}

/// `leading_spaces` counts the longest all-space prefix.
proof fn lemma_leading_spaces_unique(s: Seq<char>, i: int)
    requires
        0 <= i <= s.len(),
        i < s.len() ==> s[i] != ' ',
        forall|j: int| 0 <= j < i ==> s[j] == ' ',
    ensures
        leading_spaces(s) == i,
    decreases s.len(),
{
    if s.len() > 0 && i > 0 {
        assert forall|j: int| 0 <= j < i - 1 implies s.drop_first()[j] == ' ' by {
            assert(s.drop_first()[j] == s[j + 1]);
        }
        assert(i - 1 < s.drop_first().len() ==> s.drop_first()[i - 1] == s[i]);
        lemma_leading_spaces_unique(s.drop_first(), i - 1);
    }
}

/// Count the spaces at the start of `v`.
fn exec_leading_spaces(v: &Vec<char>) -> (r: usize)
    ensures
        r as int == leading_spaces(v@),
        r <= v@.len(),
{
    let mut i: usize = 0;
    while i < v.len()
        invariant
            i <= v@.len(),
            forall|j: int| 0 <= j < i ==> v@[j] == ' ',
        decreases v@.len() - i,
    {
        if v[i] != ' ' {
            proof {
                lemma_leading_spaces_unique(v@, i as int);
            }
            return i;
        }
        i = i + 1;
    }
    proof {
        lemma_leading_spaces_unique(v@, v@.len() as int);
    }
    i
}

/// `trailing_spaces` counts the longest all-space suffix.
proof fn lemma_trailing_spaces_unique(s: Seq<char>, k: int)
    requires
        0 <= k <= s.len(),
        k < s.len() ==> s[s.len() - k - 1] != ' ',
        forall|j: int| s.len() - k <= j < s.len() ==> s[j] == ' ',
    ensures
        trailing_spaces(s) == k,
    decreases s.len(),
{
    if s.len() > 0 && k > 0 {
        assert(s.last() == ' ');
        assert forall|j: int|
            s.drop_last().len() - (k - 1) <= j < s.drop_last().len() implies s.drop_last()[j]
            == ' ' by {
            assert(s.drop_last()[j] == s[j]);
        }
        assert(k - 1 < s.drop_last().len() ==> s.drop_last()[s.drop_last().len() - (k - 1) - 1]
            == s[s.len() - k - 1]);
        lemma_trailing_spaces_unique(s.drop_last(), k - 1);
    }
}

/// Count the spaces at the end of `v`.
fn exec_trailing_spaces(v: &Vec<char>) -> (r: usize)
    ensures
        r as int == trailing_spaces(v@),
        r <= v@.len(),
{
    let mut k: usize = 0;
    while k < v.len()
        invariant
            k <= v@.len(),
            forall|j: int| v@.len() - k <= j < v@.len() ==> v@[j] == ' ',
        decreases v@.len() - k,
    {
        if v[v.len() - k - 1] != ' ' {
            proof {
                lemma_trailing_spaces_unique(v@, k as int);
            }
            return k;
        }
        k = k + 1;
    }
    proof {
        lemma_trailing_spaces_unique(v@, v@.len() as int);
    }
    k
}

/// Whether `v` holds only spaces and tabs.
fn exec_is_blank(v: &Vec<char>) -> (r: bool)
    ensures
        r == is_blank(v@),
{
    let mut i: usize = 0;
    while i < v.len()
        invariant
            i <= v@.len(),
            forall|j: int| 0 <= j < i ==> v@[j] == ' ' || v@[j] == '\t',
        decreases v@.len() - i,
    {
        if v[i] != ' ' && v[i] != '\t' {
            return false;
        }
        i = i + 1;
    }
    true
}

/// The heading level of a line.
fn exec_heading_level(v: &Vec<char>) -> (r: usize)
    ensures
        r as int == heading_level(v@),
        r <= v@.len(),
{
    let h = exec_leading_hashes(v);
    if 1 <= h && h <= 6 && (h == v.len() || v[h] == ' ') {
        h
    } else {
        0
    }
}

/// The line with leading and trailing spaces removed.
fn exec_trimmed(v: &Vec<char>) -> (r: Vec<char>)
    ensures
        r@ == trimmed(v@),
{
    let a = exec_leading_spaces(v);
    let b = exec_trailing_spaces(v);
    if a >= v.len() {
        proof {
            assert(trimmed(v@) =~= Seq::<char>::empty());
        }
        Vec::new()
    } else {
        proof {
            lemma_space_counts_fit(v@);
        }
        let tail = crate::util::vec_skip(v, a);
        let r = crate::util::vec_take(&tail, v.len() - b - a);
        proof {
            assert(v@.skip(a as int).take(v@.len() - b - a) =~= v@.subrange(
                a as int,
                v@.len() - b,
            ));
        }
        r
    }
}

/// When a line has a character that is not a space, its leading and
/// trailing space counts do not overlap.
proof fn lemma_space_counts_fit(s: Seq<char>)
    requires
        leading_spaces(s) < s.len(),
    ensures
        leading_spaces(s) + trailing_spaces(s) <= s.len(),
    decreases s.len(),
{
    lemma_leading_spaces_props(s);
    lemma_trailing_spaces_props(s);
    let a = leading_spaces(s);
    let b = trailing_spaces(s);
    if a + b > s.len() {
        assert(s[a] != ' ');
        assert(s.len() - b <= a < s.len());
        assert(s[a] == ' ');
    }
}

/// The leading space count is in range, marks only spaces, and stops at a
/// character that is no space.
proof fn lemma_leading_spaces_props(s: Seq<char>)
    ensures
        0 <= leading_spaces(s) <= s.len(),
        leading_spaces(s) < s.len() ==> s[leading_spaces(s)] != ' ',
        forall|j: int| 0 <= j < leading_spaces(s) ==> s[j] == ' ',
    decreases s.len(),
{
    if s.len() > 0 && s[0] == ' ' {
        lemma_leading_spaces_props(s.drop_first());
        assert forall|j: int| 0 <= j < leading_spaces(s) implies s[j] == ' ' by {
            if j > 0 {
                assert(s.drop_first()[j - 1] == s[j]);
            }
        }
        assert(leading_spaces(s) < s.len() ==> s.drop_first()[leading_spaces(s) - 1]
            == s[leading_spaces(s)]);
    }
}

/// The trailing space count is in range, marks only spaces, and stops at
/// a character that is no space.
proof fn lemma_trailing_spaces_props(s: Seq<char>)
    ensures
        0 <= trailing_spaces(s) <= s.len(),
        trailing_spaces(s) < s.len() ==> s[s.len() - trailing_spaces(s) - 1] != ' ',
        forall|j: int| s.len() - trailing_spaces(s) <= j < s.len() ==> s[j] == ' ',
    decreases s.len(),
{
    if s.len() > 0 && s.last() == ' ' {
        lemma_trailing_spaces_props(s.drop_last());
        assert forall|j: int| s.len() - trailing_spaces(s) <= j < s.len() implies s[j] == ' ' by {
            if j < s.len() - 1 {
                assert(s.drop_last()[j] == s[j]);
            }
        }
        assert(trailing_spaces(s) < s.len() ==> s.drop_last()[s.drop_last().len() - (
        trailing_spaces(s) - 1) - 1] == s[s.len() - trailing_spaces(s) - 1]);
    }
}

/// The lines of a stored line list.
pub open spec fn lines_view(s: Seq<Vec<char>>) -> Seq<Seq<char>> {
    Seq::new(s.len(), |i: int| s[i]@)
}

/// Split the source into lines at each newline.
fn exec_split_lines(v: Vec<char>) -> (r: Vec<Vec<char>>)
    ensures
        lines_view(r@) == split_lines(v@),
    decreases v@.len(),
{
    let i = exec_find_char(&v, '\n');
    if i < v.len() {
        let head = crate::util::vec_take(&v, i);
        let tail = crate::util::vec_skip(&v, i + 1);
        let mut rest = exec_split_lines(tail);
        rest.insert(0, head);
        proof {
            assert(lines_view(rest@) =~= seq![v@.take(i as int)] + split_lines(
                v@.skip(i as int + 1),
            ));
        }
        rest
    } else {
        let mut out: Vec<Vec<char>> = Vec::new();
        out.push(v);
        proof {
            assert(lines_view(out@) =~= seq![out@[0]@]);
        }
        out
    }
}

// ---------------------------------------------------------------------
// Building nodes.
// ---------------------------------------------------------------------
/// Attach every node of `kids`, in order, as further children of `parent`.
fn push_children(parent: &mut Node, kids: Vec<Node>)
    ensures
        final(parent)@ == old(parent)@.with_children(
            old(parent)@.children + crate::node::nodes_view(kids@),
        ),
{
    let mut kids = kids;
    let ghost all = kids@;
    let empty_path: Vec<usize> = Vec::new();
    let ghost base = parent@.children;
    proof {
        crate::node::lemma_nodes_view(all);
        assert(all.take(0) =~= Seq::<Node>::empty());
        crate::node::lemma_nodes_view(Seq::<Node>::empty());
        assert(crate::node::nodes_view(Seq::<Node>::empty()) =~= Seq::<NodeView>::empty());
        assert(base + crate::node::nodes_view(all.take(0)) =~= base);
        assert(parent@.with_children(base) =~= parent@);
    }
    while kids.len() > 0
        invariant
            kids@.len() <= all.len(),
            kids@ == all.skip(all.len() - kids@.len()),
            empty_path@.len() == 0,
            parent@ == old(parent)@.with_children(
                base + crate::node::nodes_view(all.take(all.len() - kids@.len())),
            ),
            base == old(parent)@.children,
        decreases kids@.len(),
    {
        let ghost j = all.len() - kids@.len();
        let c = kids.remove(0);
        proof {
            assert(c == all[j]);
            assert(kids@ =~= all.skip(j + 1));
            assert(parent@.valid_path(empty_path@));
        }
        let ghost before = parent@;
        parent.append_child(&empty_path, c);
        proof {
            crate::node::lemma_nodes_view(all);
            assert(before.subtree_at(empty_path@) == before);
            assert(before.children.insert(before.children.len() as int, c@) =~= before.children.push(c@));
            assert(parent@ =~= before.with_children(before.children.push(c@)));
            assert(all.take(j + 1) =~= all.take(j).push(all[j]));
            crate::node::lemma_nodes_view(all.take(j));
            crate::node::lemma_nodes_view(all.take(j + 1));
            assert forall|i: int|
                0 <= i < j + 1 implies crate::node::nodes_view(all.take(j + 1))[i]
                == crate::node::nodes_view(all.take(j)).push(c@)[i] by {
                assert(all.take(j + 1)[i] == all[i]);
                if i < j {
                    assert(all.take(j)[i] == all[i]);
                }
            }
            assert(crate::node::nodes_view(all.take(j + 1)) =~= crate::node::nodes_view(
                all.take(j),
            ).push(c@));
            assert(base + crate::node::nodes_view(all.take(j + 1)) =~= (base
                + crate::node::nodes_view(all.take(j))).push(c@));
            assert(parent@ =~= old(parent)@.with_children(
                base + crate::node::nodes_view(all.take(j + 1)),
            ));
        }
    }
    proof {
        assert(all.take(all.len() as int) =~= all);
    }
}

/// A leaf text node holding the given characters.
fn mk_text(lit: &Vec<char>) -> (r: Node)
    ensures
        r@ == text_node(lit@),
{
    let mut n = Node::new(NodeType::Text);
    let s = crate::util::chars_to_string(lit);
    match n.set_literal(s.as_str()) {
        Result::Ok(u) => u,
        Result::Err(_) => unreached(),
    };
    n
}

/// Record the block's source range on the node when `OPT_SOURCEPOS` is
/// set.
fn apply_block_pos(n: &mut Node, start: usize, end: usize, end_col: usize, opts: CmarkOptions)
    ensures
        final(n)@ == block_pos(old(n)@, start as int, end as int, end_col as int, opts),
{
    if opts.bits & crate::OPT_SOURCEPOS != 0 {
        let max = i32::MAX as usize;
        let sl: i32 = if start >= max {
            i32::MAX
        } else {
            (start + 1) as i32
        };
        let el: i32 = if end >= max {
            i32::MAX
        } else {
            (end + 1) as i32
        };
        let ec: i32 = if end_col > max {
            i32::MAX
        } else {
            end_col as i32
        };
        n.set_source_pos(sl, 1, el, ec);
        proof {
            assert(n@ =~= block_pos(old(n)@, start as int, end as int, end_col as int, opts));
        }
    } else {
        proof {
            assert(n@ =~= block_pos(old(n)@, start as int, end as int, end_col as int, opts));
        }
    }
}

// ---------------------------------------------------------------------
// The inline parser.
// ---------------------------------------------------------------------
/// One step of plain-text scanning: how many characters it consumes and
/// the text it produces.
fn exec_smart_step(v: &Vec<char>, opts: CmarkOptions, prev: char) -> (r: (usize, Vec<char>))
    requires
        v@.len() > 0,
    ensures
        (r.0 as int, r.1@) == smart_step(v@, opts, prev),
        0 < r.0 <= v@.len(),
{
    let smart = opts.bits & crate::OPT_SMART != 0;
    if smart && v.len() >= 3 && v[0] == '-' && v[1] == '-' && v[2] == '-' {
        let mut out: Vec<char> = Vec::new();
        out.push('\u{2014}');
        proof {
            assert(out@ =~= seq!['\u{2014}']);
        }
        (3, out)
    } else if smart && v.len() >= 2 && v[0] == '-' && v[1] == '-' {
        let mut out: Vec<char> = Vec::new();
        out.push('\u{2013}');
        proof {
            assert(out@ =~= seq!['\u{2013}']);
        }
        (2, out)
    } else if smart && v[0] == '\'' {
        let mut out: Vec<char> = Vec::new();
        let opens = prev == ' ' || prev == '\t' || prev == '\n';
        out.push(if opens { '\u{2018}' } else { '\u{2019}' });
        proof {
            assert(out@ =~= seq![if quote_opens(prev) { '\u{2018}' } else { '\u{2019}' }]);
        }
        (1, out)
    } else if smart && v[0] == '"' {
        let mut out: Vec<char> = Vec::new();
        let opens = prev == ' ' || prev == '\t' || prev == '\n';
        out.push(if opens { '\u{201C}' } else { '\u{201D}' });
        proof {
            assert(out@ =~= seq![if quote_opens(prev) { '\u{201C}' } else { '\u{201D}' }]);
        }
        (1, out)
    } else {
        let mut out: Vec<char> = Vec::new();
        out.push(v[0]);
        proof {
            assert(out@ =~= seq![v@[0]]);
        }
        (1, out)
    }
}

/// The inline nodes of `v`, before adjacent text nodes are merged.
#[verifier::rlimit(100)]
fn exec_raw_inlines(v: Vec<char>, opts: CmarkOptions, prev: char) -> (r: Vec<Node>)
    ensures
        crate::node::nodes_view(r@) == raw_inlines(v@, opts, prev),
    decreases v@.len(), 0int,
{
    if v.len() == 0 {
        let out: Vec<Node> = Vec::new();
        proof {
            crate::node::lemma_nodes_view(out@);
            assert(crate::node::nodes_view(out@) =~= Seq::<NodeView>::empty());
        }
        return out;
    }
    let c = v[0];
    if c == '\n' {
        let tail = crate::util::vec_skip(&v, 1);
        let mut rest = exec_raw_inlines(tail, opts, '\n');
        let ghost rpre = rest@;
        rest.insert(0, Node::new(NodeType::SoftBreak));
        proof {
            crate::node::lemma_nodes_view_insert(rpre, 0, rest@[0]);
            assert(crate::node::nodes_view(rest@) =~= seq![NodeView::fresh(NodeType::SoftBreak)]
                + raw_inlines(v@.skip(1), opts, '\n'));
        }
        return rest;
    }
    if (c == '*' || c == '_') && v.len() >= 2 && v[1] == c {
        let tail2 = crate::util::vec_skip(&v, 2);
        let i = exec_find_pair(&tail2, c);
        if tail2.len() >= 2 && i <= tail2.len() - 2 {
            let content = crate::util::vec_take(&tail2, i);
            let inner = exec_inlines(content, opts, c);
            let mut node = Node::new(NodeType::Strong);
            push_children(&mut node, inner);
            proof {
                assert(node@ =~= NodeView::fresh(NodeType::Strong).with_children(
                    inlines(v@.skip(2).take(i as int), opts, v@[0]),
                ));
            }
            let after = crate::util::vec_skip(&v, i + 4);
            let mut rest = exec_raw_inlines(after, opts, c);
            let ghost rpre = rest@;
            rest.insert(0, node);
            proof {
                crate::node::lemma_nodes_view_insert(rpre, 0, rest@[0]);
                assert(crate::node::nodes_view(rest@) =~= seq![
                    NodeView::fresh(NodeType::Strong).with_children(
                        inlines(v@.skip(2).take(find_pair(v@.skip(2), v@[0])), opts, v@[0]),
                    ),
                ] + raw_inlines(v@.skip(find_pair(v@.skip(2), v@[0]) + 4), opts, v@[0]));
            }
            return rest;
        }
    }
    if (c == '*' || c == '_') && !(v.len() >= 2 && v[1] == c) {
        let tail1 = crate::util::vec_skip(&v, 1);
        let i = exec_find_char(&tail1, c);
        if i < tail1.len() {
            let content = crate::util::vec_take(&tail1, i);
            let inner = exec_inlines(content, opts, c);
            let mut node = Node::new(NodeType::Emph);
            push_children(&mut node, inner);
            proof {
                assert(node@ =~= NodeView::fresh(NodeType::Emph).with_children(
                    inlines(v@.skip(1).take(i as int), opts, v@[0]),
                ));
            }
            let after = crate::util::vec_skip(&v, i + 2);
            let mut rest = exec_raw_inlines(after, opts, c);
            let ghost rpre = rest@;
            rest.insert(0, node);
            proof {
                crate::node::lemma_nodes_view_insert(rpre, 0, rest@[0]);
                assert(crate::node::nodes_view(rest@) =~= seq![
                    NodeView::fresh(NodeType::Emph).with_children(
                        inlines(v@.skip(1).take(find_char(v@.skip(1), v@[0])), opts, v@[0]),
                    ),
                ] + raw_inlines(v@.skip(find_char(v@.skip(1), v@[0]) + 2), opts, v@[0]));
            }
            return rest;
        }
    }
    if c == '`' {
        let tail1 = crate::util::vec_skip(&v, 1);
        let i = exec_find_char(&tail1, '`');
        if i < tail1.len() {
            let content = crate::util::vec_take(&tail1, i);
            let mut node = Node::new(NodeType::Code);
            let s = crate::util::chars_to_string(&content);
            match node.set_literal(s.as_str()) {
                Result::Ok(u) => u,
                Result::Err(_) => unreached(),
            };
            proof {
                assert(node@ =~= NodeView::fresh(NodeType::Code).with_literal(
                    v@.skip(1).take(i as int),
                ));
            }
            let after = crate::util::vec_skip(&v, i + 2);
            let mut rest = exec_raw_inlines(after, opts, '`');
            let ghost rpre = rest@;
            rest.insert(0, node);
            proof {
                crate::node::lemma_nodes_view_insert(rpre, 0, rest@[0]);
                assert(crate::node::nodes_view(rest@) =~= seq![
                    NodeView::fresh(NodeType::Code).with_literal(
                        v@.skip(1).take(find_char(v@.skip(1), '`')),
                    ),
                ] + raw_inlines(v@.skip(find_char(v@.skip(1), '`') + 2), opts, '`'));
            }
            return rest;
        }
    }
    let step = exec_smart_step(&v, opts, prev);
    let node = mk_text(&step.1);
    let after = crate::util::vec_skip(&v, step.0);
    let mut rest = exec_raw_inlines(after, opts, v[step.0 - 1]);
    let ghost rpre = rest@;
    rest.insert(0, node);
    proof {
        crate::node::lemma_nodes_view_insert(rpre, 0, rest@[0]);
        let sstep = smart_step(v@, opts, prev);
        assert(crate::node::nodes_view(rest@) =~= seq![text_node(sstep.1)] + raw_inlines(
            v@.skip(sstep.0),
            opts,
            v@[sstep.0 - 1],
        ));
    }
    rest
}

/// The inline nodes of `v`, with adjacent text nodes merged.
fn exec_inlines(v: Vec<char>, opts: CmarkOptions, prev: char) -> (r: Vec<Node>)
    ensures
        crate::node::nodes_view(r@) == inlines(v@, opts, prev),
    decreases v@.len(), 1int,
{
    let raw = exec_raw_inlines(v, opts, prev);
    crate::node::merge_adjacent(raw)
}

// ---------------------------------------------------------------------
// The block parser.
// ---------------------------------------------------------------------
/// A paragraph in the making.
struct ParaState {
    start: usize,
    end: usize,
    end_col: usize,
    text: Vec<char>,
}

/// The value of a pending paragraph.
spec fn acc_view(a: Option<ParaState>) -> Option<ParaAcc> {
    match a {
        Option::None => Option::None,
        Option::Some(p) => Option::Some(
            ParaAcc {
                start: p.start as int,
                end: p.end as int,
                end_col: p.end_col as int,
                text: p.text@,
            },
        ),
    }
}

/// The blocks a pending paragraph flushes to.
fn exec_flush(acc: Option<ParaState>, opts: CmarkOptions) -> (r: Vec<Node>)
    ensures
        crate::node::nodes_view(r@) == flush(acc_view(acc), opts),
{
    match acc {
        Option::None => {
            let out: Vec<Node> = Vec::new();
            proof {
                crate::node::lemma_nodes_view(out@);
                assert(crate::node::nodes_view(out@) =~= Seq::<NodeView>::empty());
            }
            out
        },
        Option::Some(a) => {
            let kids = exec_inlines(a.text, opts, '\n');
            let mut node = Node::new(NodeType::Paragraph);
            push_children(&mut node, kids);
            apply_block_pos(&mut node, a.start, a.end, a.end_col, opts);
            let mut out: Vec<Node> = Vec::new();
            out.push(node);
            proof {
                crate::node::lemma_nodes_view(out@);
                assert(crate::node::nodes_view(out@) =~= seq![out@[0]@]);
            }
            out
        },
    }
}

/// The block nodes of the lines from position `k` on, with `acc` the
/// pending paragraph.
fn exec_blocks(lines: &Vec<Vec<char>>, k: usize, acc: Option<ParaState>, opts: CmarkOptions) -> (r:
    Vec<Node>)
    requires
        k <= lines@.len(),
    ensures
        crate::node::nodes_view(r@) == blocks_acc(
            lines_view(lines@).skip(k as int),
            k as int,
            acc_view(acc),
            opts,
        ),
    decreases lines@.len() - k,
{
    let ghost suffix = lines_view(lines@).skip(k as int);
    if k == lines.len() {
        proof {
            assert(suffix =~= Seq::<Seq<char>>::empty());
        }
        exec_flush(acc, opts)
    } else {
        let l = &lines[k];
        proof {
            assert(suffix[0] == l@);
            assert(suffix.drop_first() =~= lines_view(lines@).skip(k as int + 1));
        }
        if exec_is_blank(l) {
            let mut out = exec_flush(acc, opts);
            let mut rest = exec_blocks(lines, k + 1, Option::None, opts);
            let ghost opre = out@;
            let ghost rpre = rest@;
            out.append(&mut rest);
            proof {
                crate::node::lemma_nodes_view_add(opre, rpre);
            }
            out
        } else {
            let h = exec_heading_level(l);
            if h > 0 {
                let after_hashes = crate::util::vec_skip(l, h);
                let content = exec_trimmed(&after_hashes);
                let kids = exec_inlines(content, opts, '\n');
                let mut node = Node::new(NodeType::Header);
                match node.set_header_level(h as i32) {
                    Result::Ok(u) => u,
                    Result::Err(_) => unreached(),
                };
                push_children(&mut node, kids);
                apply_block_pos(&mut node, k, k, l.len(), opts);
                proof {
                    assert(node@ =~= header_node(l@, k as int, opts));
                }
                let mut out = exec_flush(acc, opts);
                let ghost opre = out@;
                out.push(node);
                let mut rest = exec_blocks(lines, k + 1, Option::None, opts);
                let ghost mid = out@;
                let ghost rpre = rest@;
                out.append(&mut rest);
                proof {
                    crate::node::lemma_nodes_view(opre);
                    crate::node::lemma_nodes_view(mid);
                    assert forall|i: int|
                        0 <= i < mid.len() implies crate::node::nodes_view(mid)[i] == (
                    crate::node::nodes_view(opre) + seq![header_node(l@, k as int, opts)])[i] by {
                        if i < opre.len() {
                            assert(mid[i] == opre[i]);
                        } else {
                            assert(mid[i] == mid[mid.len() - 1]);
                        }
                    }
                    assert(crate::node::nodes_view(mid) =~= crate::node::nodes_view(opre) + seq![
                        header_node(l@, k as int, opts),
                    ]);
                    crate::node::lemma_nodes_view_add(mid, rpre);
                }
                out
            } else {
                let t = exec_trimmed(l);
                let new_acc = match acc {
                    Option::None => ParaState { start: k, end: k, end_col: l.len(), text: t },
                    Option::Some(a) => {
                        let mut text = a.text;
                        text.push('\n');
                        let mut i: usize = 0;
                        let ghost base = text@;
                        while i < t.len()
                            invariant
                                i <= t@.len(),
                                text@ == base + t@.subrange(0, i as int),
                            decreases t@.len() - i,
                        {
                            text.push(t[i]);
                            proof {
                                assert(base + t@.subrange(0, i as int + 1) =~= (base + t@.subrange(
                                    0,
                                    i as int,
                                )).push(t@[i as int]));
                            }
                            i = i + 1;
                        }
                        proof {
                            assert(t@.subrange(0, t@.len() as int) =~= t@);
                        }
                        ParaState { start: a.start, end: k, end_col: l.len(), text }
                    },
                };
                proof {
                    assert(match acc_view(acc) {
                        Option::None => new_acc.text@ =~= trimmed(l@),
                        Option::Some(a0) => new_acc.text@ =~= a0.text + seq!['\n'] + trimmed(l@),
                    });
                    assert(acc_view(Option::Some(new_acc)) == Option::Some(
                        extend_acc(acc_view(acc), l@, k as int),
                    ));
                }
                exec_blocks(lines, k + 1, Option::Some(new_acc), opts)
            }
        }
    }
}

/// Parse a complete document in one call: the same tree that a fresh
/// parser fed the whole text yields.
pub fn parse_document(doc: &str, options: CmarkOptions) -> (r: Node)
    ensures
        r@ == doc_of(doc@, options),
{
    let chars = crate::util::str_to_chars(doc);
    let ghost src = chars@;
    let lines = exec_split_lines(chars);
    proof {
        assert(lines_view(lines@).skip(0) =~= lines_view(lines@));
        if find_char(src, '\n') < src.len() {
            assert(split_lines(src).len() >= 1);
        } else {
            assert(split_lines(src).len() >= 1);
        }
    }
    let blocks = exec_blocks(&lines, 0, Option::None, options);
    let mut d = Node::new(NodeType::Document);
    push_children(&mut d, blocks);
    let last_len = lines[lines.len() - 1].len();
    proof {
        assert(lines_view(lines@)[lines@.len() - 1] == lines@[lines@.len() - 1]@);
        assert(split_lines(src).last() == lines@[lines@.len() - 1]@);
    }
    apply_block_pos(&mut d, 0, lines.len() - 1, last_len, options);
    proof {
        assert(d@ =~= block_pos(
            NodeView::fresh(NodeType::Document).with_children(
                blocks_acc(split_lines(src), 0, Option::None, options),
            ),
            0,
            split_lines(src).len() - 1,
            split_lines(src).last().len() as int,
            options,
        ));
    }
    if options.bits & crate::OPT_NORMALIZE != 0 {
        d.consolidate_text_nodes();
    }
    d
}

// ---------------------------------------------------------------------
// The incremental parser.
// ---------------------------------------------------------------------
/// The states an incremental parser moves through, in order: `feed`
/// leaves `Fresh` for `Feeding`, and `finish` ends in `Finished`.
#[derive(PartialEq, Eq, Structural, Clone, Copy, Debug)]
pub enum ParserState {
    Fresh,
    Feeding,
    Finished,
}

/// An incremental parser: source text is fed to it in chunks, and
/// `finish` parses the accumulated text into a document tree. Feeding or
/// finishing a parser that has already finished fails with
/// `UseAfterFinish`.
pub struct Parser {
    options: CmarkOptions,
    buffer: String,
    state: ParserState,
}

impl Parser {
    /// The options this parser was created with.
    pub closed spec fn options_spec(self) -> CmarkOptions {
        self.options
    }

    /// The source text accumulated so far.
    pub closed spec fn buffer_spec(self) -> Seq<char> {
        self.buffer@
    }

    /// The state this parser is in.
    pub closed spec fn state_spec(self) -> ParserState {
        self.state
    }

    /// Create a new parser with the given options.
    pub fn new(options: CmarkOptions) -> (r: Parser)
        ensures
            r.options_spec() == options,
            r.buffer_spec() == Seq::<char>::empty(),
            r.state_spec() == ParserState::Fresh,
    {
        Parser { options, buffer: String::new(), state: ParserState::Fresh }
    }

    /// Feed a chunk of source text into the parser. Fails with
    /// `UseAfterFinish` once the parser has finished.
    pub fn feed(&mut self, data: &str) -> (r: Result<(), Error>)
        ensures
            match r {
                Ok(()) => {
                    &&& old(self).state_spec() != ParserState::Finished
                    &&& final(self).state_spec() == ParserState::Feeding
                    &&& final(self).buffer_spec() == old(self).buffer_spec() + data@
                    &&& final(self).options_spec() == old(self).options_spec()
                },
                Err(e) => {
                    &&& e == Error::UseAfterFinish
                    &&& old(self).state_spec() == ParserState::Finished
                    &&& *final(self) == *old(self)
                },
            },
    {
        if matches!(self.state, ParserState::Finished) {
            Err(Error::UseAfterFinish)
        } else {
            self.buffer.append(data);
            self.state = ParserState::Feeding;
            Ok(())
        }
    }

    /// Finish parsing: flush the accumulated text through the grammar
    /// engine and return the document tree. Fails with `UseAfterFinish`
    /// once the parser has finished.
    pub fn finish(&mut self) -> (r: Result<Node, Error>)
        ensures
            match r {
                Ok(n) => {
                    &&& old(self).state_spec() != ParserState::Finished
                    &&& final(self).state_spec() == ParserState::Finished
                    &&& n@ == doc_of(old(self).buffer_spec(), old(self).options_spec())
                    &&& final(self).buffer_spec() == old(self).buffer_spec()
                    &&& final(self).options_spec() == old(self).options_spec()
                },
                Err(e) => {
                    &&& e == Error::UseAfterFinish
                    &&& old(self).state_spec() == ParserState::Finished
                    &&& *final(self) == *old(self)
                },
            },
    {
        if matches!(self.state, ParserState::Finished) {
            Err(Error::UseAfterFinish)
        } else {
            self.state = ParserState::Finished;
            Ok(parse_document(self.buffer.as_str(), self.options))
        }
    }
}

/// The one-shot entry point and the streamed one parse the same text: a
/// fresh parser's buffer is empty, so feeding it the whole document and
/// finishing parses exactly what `parse_document` parses.
pub proof fn lemma_one_shot_equals_streamed(text: Seq<char>, opts: CmarkOptions)
    ensures
        doc_of(Seq::<char>::empty() + text, opts) == doc_of(text, opts),
{
    assert(Seq::<char>::empty() + text =~= text);
}

// ---------------------------------------------------------------------
// The round-trip law: re-serialized CommonMark parses back to the tree
// it came from, for trees of plain-text paragraphs and headings.
// ---------------------------------------------------------------------
/// Whether a character takes part in block or inline syntax, or in
/// escaping: text built only of other characters re-reads literally.
pub open spec fn plain_excluded(c: char) -> bool {
    c == '*' || c == '_' || c == '`' || c == '#' || c == '\\' || c == '\n' || c == '\t'
}

/// Plain text: nonempty, no syntax characters, and no space at either
/// end, so that trimming and inline scanning hand it back unchanged.
pub open spec fn plain_text(s: Seq<char>) -> bool {
    s.len() > 0 && s[0] != ' ' && s[s.len() - 1] != ' ' && (forall|i: int|
        0 <= i < s.len() ==> !plain_excluded(#[trigger] s[i]))
}

/// A paragraph holding one plain text node, as the parser builds it.
pub open spec fn para_shape(lit: Seq<char>) -> NodeView {
    NodeView::fresh(NodeType::Paragraph).with_children(seq![text_node(lit)])
}

/// A heading of level `h` holding one plain text node, as the parser
/// builds it.
pub open spec fn header_shape(h: int, lit: Seq<char>) -> NodeView {
    NodeView {
        header_level: h,
        ..NodeView::fresh(NodeType::Header).with_children(seq![text_node(lit)])
    }
}

/// A block the round trip covers: a plain-text paragraph or heading.
pub open spec fn simple_block(b: NodeView) -> bool {
    (exists|lit: Seq<char>| b == #[trigger] para_shape(lit) && plain_text(lit)) || (exists|
        h: int,
        lit: Seq<char>,
    | b == #[trigger] header_shape(h, lit) && 1 <= h <= 6 && plain_text(lit))
}

/// A document the round trip covers: a document node whose blocks are all
/// plain-text paragraphs or headings.
pub open spec fn simple_doc(t: NodeView) -> bool {
    t == NodeView::fresh(NodeType::Document).with_children(t.children) && (forall|i: int|
        0 <= i < t.children.len() ==> simple_block(#[trigger] t.children[i]))
}

/// Escaping leaves plain text unchanged.
proof fn lemma_escape_cm_plain(s: Seq<char>)
    requires
        forall|i: int| 0 <= i < s.len() ==> !plain_excluded(#[trigger] s[i]),
    ensures
        crate::render::escape_cm(s) == s,
    decreases s.len(),
{
    if s.len() > 0 {
        assert(!plain_excluded(s[0]));
        assert(crate::render::escape_cm_char(s[0]) == seq![s[0]]);
        assert forall|i: int| 0 <= i < s.drop_first().len() implies !plain_excluded(
            #[trigger] s.drop_first()[i],
        ) by {
            assert(s.drop_first()[i] == s[i + 1]);
        }
        lemma_escape_cm_plain(s.drop_first());
        assert(crate::render::escape_cm(s) =~= s);
    }
}

/// With `OPT_SMART` clear, no bit of the option set is visible to the
/// inline scanner or the block builder.
proof fn lemma_default_bits(opts: CmarkOptions)
    requires
        opts.bits == 0,
    ensures
        !opts.smart_enabled(),
        !opts.sourcepos_enabled(),
        !opts.normalize_enabled(),
{
    let b = opts.bits;
    assert(b == 0 ==> b & crate::OPT_SMART == 0 && b & crate::OPT_SOURCEPOS == 0 && b
        & crate::OPT_NORMALIZE == 0) by (bit_vector);
}

/// Merging a pending text node onto the raw inline nodes of plain text
/// accumulates one single text node.
proof fn lemma_merge_onto_plain(a: Seq<char>, s: Seq<char>, opts: CmarkOptions, prev: char)
    requires
        opts.bits == 0,
        forall|i: int| 0 <= i < s.len() ==> !plain_excluded(#[trigger] s[i]),
        forall|i: int| 0 <= i < s.len() ==> s[i] != '\n',
    ensures
        merge_texts(seq![text_node(a)] + raw_inlines(s, opts, prev)) == seq![text_node(a + s)],
    decreases s.len(),
{
    lemma_default_bits(opts);
    if s.len() == 0 {
        assert(raw_inlines(s, opts, prev) =~= Seq::<NodeView>::empty());
        assert(seq![text_node(a)] + Seq::<NodeView>::empty() =~= seq![text_node(a)]);
        assert(seq![text_node(a)].skip(1) =~= Seq::<NodeView>::empty());
        assert(merge_texts(Seq::<NodeView>::empty()) =~= Seq::<NodeView>::empty());
        assert(merge_texts(seq![text_node(a)]) =~= seq![text_node(a)]);
        assert(a + s =~= a);
    } else {
        let c = s[0];
        assert(!plain_excluded(c));
        assert(smart_step(s, opts, prev) == (1int, seq![c]));
        assert(raw_inlines(s, opts, prev) == seq![text_node(seq![c])] + raw_inlines(
            s.skip(1),
            opts,
            c,
        ));
        let whole = seq![text_node(a)] + raw_inlines(s, opts, prev);
        assert(whole[0] == text_node(a));
        assert(whole[1] == text_node(seq![c]));
        assert(crate::node::mergeable(text_node(a), text_node(seq![c])));
        assert(crate::node::merged_text(text_node(a), text_node(seq![c])) =~= text_node(
            a.push(c),
        ));
        assert forall|i: int| 0 <= i < s.skip(1).len() implies !plain_excluded(
            #[trigger] s.skip(1)[i],
        ) && s.skip(1)[i] != '\n' by {
            assert(s.skip(1)[i] == s[i + 1]);
        }
        lemma_merge_onto_plain(a.push(c), s.skip(1), opts, c);
        assert(whole.skip(2) =~= raw_inlines(s.skip(1), opts, c));
        assert(seq![crate::node::merged_text(whole[0], whole[1])] + whole.skip(2) =~= seq![
            text_node(a.push(c)),
        ] + raw_inlines(s.skip(1), opts, c));
        assert(a.push(c) + s.skip(1) =~= a + s);
    }
}

/// The inline nodes of plain text: one single text node.
proof fn lemma_inlines_plain(s: Seq<char>, opts: CmarkOptions, prev: char)
    requires
        opts.bits == 0,
        plain_text(s),
    ensures
        inlines(s, opts, prev) == seq![text_node(s)],
{
    lemma_default_bits(opts);
    let c = s[0];
    assert(!plain_excluded(c));
    assert(smart_step(s, opts, prev) == (1int, seq![c]));
    assert(raw_inlines(s, opts, prev) == seq![text_node(seq![c])] + raw_inlines(
        s.skip(1),
        opts,
        c,
    ));
    assert forall|i: int| 0 <= i < s.skip(1).len() implies !plain_excluded(
        #[trigger] s.skip(1)[i],
    ) && s.skip(1)[i] != '\n' by {
        assert(s.skip(1)[i] == s[i + 1]);
    }
    lemma_merge_onto_plain(seq![c], s.skip(1), opts, c);
    assert(seq![c] + s.skip(1) =~= s);
}

/// Trimming leaves text without spaces at its ends unchanged.
proof fn lemma_trimmed_plain(s: Seq<char>)
    requires
        s.len() > 0,
        s[0] != ' ',
        s[s.len() - 1] != ' ',
    ensures
        trimmed(s) == s,
{
    lemma_leading_spaces_unique(s, 0);
    lemma_trailing_spaces_unique(s, 0);
    assert(s.subrange(0, s.len() as int) =~= s);
}

/// A repeated character, position by position.
proof fn lemma_repeat_char(c: char, n: nat)
    ensures
        crate::render::repeat_char(c, n).len() == n,
        forall|i: int| 0 <= i < n ==> crate::render::repeat_char(c, n)[i] == c,
    decreases n,
{
    if n > 0 {
        lemma_repeat_char(c, (n - 1) as nat);
    }
}

/// Splitting at the first line: a newline-free line followed by a newline
/// and the rest splits into that line and the lines of the rest.
proof fn lemma_split_first_line(l: Seq<char>, rest: Seq<char>)
    requires
        forall|i: int| 0 <= i < l.len() ==> (#[trigger] l[i]) != '\n',
    ensures
        split_lines(l + seq!['\n'] + rest) == seq![l] + split_lines(rest),
{
    let full = l + seq!['\n'] + rest;
    assert forall|i: int| 0 <= i < l.len() implies (#[trigger] full[i]) != '\n' by {
        assert(full[i] == l[i]);
    }
    assert(full[l.len() as int] == '\n');
    lemma_find_char_unique(full, '\n', l.len() as int);
    assert(full.take(l.len() as int) =~= l);
    assert(full.skip(l.len() as int + 1) =~= rest);
}

/// The single source line a simple block renders to.
pub open spec fn block_line(b: NodeView) -> Seq<char> {
    if b.kind == NodeType::Header {
        crate::render::repeat_char('#', crate::render::html_level(b)) + seq![' ']
            + b.children[0].literal
    } else {
        b.children[0].literal
    }
}

/// A simple block renders to its source line followed by a newline.
proof fn lemma_simple_block_renders(b: NodeView, opts: CmarkOptions)
    requires
        opts.bits == 0,
        simple_block(b),
    ensures
        cm_doc(b, opts, 0) == block_line(b) + seq!['\n'],
{
    reveal_strlit("\n");
    reveal_strlit(" ");
    assert("\n"@ =~= seq!['\n']);
    assert(" "@ =~= seq![' ']);
    if exists|lit: Seq<char>| b == #[trigger] para_shape(lit) && plain_text(lit) {
        let lit = choose|lit: Seq<char>| b == #[trigger] para_shape(lit) && plain_text(lit);
        assert(b.children[0] == text_node(lit));
        assert(cm_children(b.children, 1, opts) =~= Seq::<char>::empty());
        lemma_escape_cm_plain(lit);
        assert(cm_of(b.children[0], opts) == crate::render::escape_cm(lit));
        assert(cm_children(b.children, 0, opts) =~= lit);
        assert(cm_doc(b, opts, 0) =~= lit + seq!['\n']);
    } else {
        let (h, lit) = choose|h: int, lit: Seq<char>|
            b == #[trigger] header_shape(h, lit) && 1 <= h <= 6 && plain_text(lit);
        assert(crate::render::html_level(b) == h);
        assert(b.children[0] == text_node(lit));
        assert(cm_children(b.children, 1, opts) =~= Seq::<char>::empty());
        lemma_escape_cm_plain(lit);
        assert(cm_of(b.children[0], opts) == crate::render::escape_cm(lit));
        assert(cm_children(b.children, 0, opts) =~= lit);
        assert(cm_doc(b, opts, 0) =~= crate::render::repeat_char('#', h as nat) + seq![' '] + lit
            + seq!['\n']);
        assert(block_line(b) =~= crate::render::repeat_char('#', h as nat) + seq![' '] + lit);
    }
}

/// What the block builder reads off a simple block's source line: it is
/// not blank, holds no newline, and parses back to exactly that block.
proof fn lemma_simple_block_line_parses(b: NodeView, opts: CmarkOptions, n: int)
    requires
        opts.bits == 0,
        simple_block(b),
    ensures
        forall|i: int| 0 <= i < block_line(b).len() ==> (#[trigger] block_line(b)[i]) != '\n',
        !is_blank(block_line(b)),
        b.kind == NodeType::Header || b.kind == NodeType::Paragraph,
        b.kind == NodeType::Paragraph ==> heading_level(block_line(b)) == 0 && para_node(
            extend_acc(Option::None, block_line(b), n),
            opts,
        ) == b,
        b.kind == NodeType::Header ==> heading_level(block_line(b)) > 0 && header_node(
            block_line(b),
            n,
            opts,
        ) == b,
{
    lemma_default_bits(opts);
    if exists|lit: Seq<char>| b == #[trigger] para_shape(lit) && plain_text(lit) {
        let lit = choose|lit: Seq<char>| b == #[trigger] para_shape(lit) && plain_text(lit);
        let l = block_line(b);
        assert(l == lit);
        assert(!is_blank(l)) by {
            assert(l[0] != ' ' && l[0] != '\t');
        }
        lemma_leading_hashes_unique(l, 0);
        lemma_trimmed_plain(lit);
        lemma_inlines_plain(lit, opts, '\n');
        assert(extend_acc(Option::None, l, n).text == lit);
        assert(para_node(extend_acc(Option::None, l, n), opts) =~= b);
    } else {
        let (h, lit) = choose|h: int, lit: Seq<char>|
            b == #[trigger] header_shape(h, lit) && 1 <= h <= 6 && plain_text(lit);
        let l = block_line(b);
        let hashes = crate::render::repeat_char('#', h as nat);
        lemma_repeat_char('#', h as nat);
        assert(crate::render::html_level(b) == h);
        assert(l =~= hashes + seq![' '] + lit);
        assert forall|i: int| 0 <= i < l.len() implies (#[trigger] l[i]) != '\n' by {
            if i < h {
                assert(l[i] == hashes[i]);
            } else if i == h {
                assert(l[i] == ' ');
            } else {
                assert(l[i] == lit[i - h - 1]);
            }
        }
        assert(!is_blank(l)) by {
            assert(l[0] == '#');
        }
        assert forall|i: int| 0 <= i < h implies (#[trigger] l[i]) == '#' by {
            assert(l[i] == hashes[i]);
        }
        assert(l[h] == ' ');
        lemma_leading_hashes_unique(l, h);
        assert(heading_level(l) == h);
        let after = l.skip(h);
        assert(after =~= seq![' '] + lit);
        assert(after[0] == ' ');
        assert(after[1] == lit[0]);
        lemma_leading_spaces_unique(after, 1);
        assert(after[after.len() - 1] == lit[lit.len() - 1]);
        lemma_trailing_spaces_unique(after, 0);
        assert(trimmed(after) =~= lit) by {
            assert(after.subrange(1, after.len() as int) =~= lit);
        }
        lemma_inlines_plain(lit, opts, '\n');
        assert(header_node(l, n, opts) =~= b);
    }
}

/// Parsing the rendered blocks from `j` on yields exactly those blocks,
/// whatever line number the builder has reached.
proof fn lemma_parse_rendered_blocks(s: Seq<NodeView>, j: int, n: int, opts: CmarkOptions)
    requires
        opts.bits == 0,
        0 <= j < s.len(),
        forall|i: int| 0 <= i < s.len() ==> simple_block(#[trigger] s[i]),
    ensures
        blocks_acc(split_lines(cm_doc_blocks(s, j, opts, 0)), n, Option::None, opts) == s.skip(j),
    decreases s.len() - j,
{
    reveal_strlit("\n");
    assert("\n"@ =~= seq!['\n']);
    reveal_with_fuel(blocks_acc, 4);
    let b = s[j];
    let l = block_line(b);
    lemma_simple_block_renders(b, opts);
    lemma_simple_block_line_parses(b, opts, n);
    if j == s.len() - 1 {
        assert(cm_doc_blocks(s, j, opts, 0) == l + seq!['\n']);
        lemma_split_first_line(l, Seq::<char>::empty());
        assert(split_lines(Seq::<char>::empty()) =~= seq![Seq::<char>::empty()]);
        let lines = split_lines(cm_doc_blocks(s, j, opts, 0));
        assert(lines =~= seq![l, Seq::<char>::empty()]);
        assert(lines.drop_first() =~= seq![Seq::<char>::empty()]);
        assert(lines.drop_first().drop_first() =~= Seq::<Seq<char>>::empty());
        assert(is_blank(Seq::<char>::empty()));
        if b.kind == NodeType::Paragraph {
            assert(blocks_acc(lines, n, Option::None, opts) =~= seq![b]);
        } else {
            assert(blocks_acc(lines, n, Option::None, opts) =~= seq![b]);
        }
        assert(s.skip(j) =~= seq![b]);
    } else {
        let rest = cm_doc_blocks(s, j + 1, opts, 0);
        assert(cm_doc_blocks(s, j, opts, 0) == cm_doc(s[j], opts, 0) + seq!['\n'] + rest);
        assert(cm_doc(s[j], opts, 0) + seq!['\n'] + rest =~= l + seq!['\n'] + (seq!['\n']
            + rest));
        lemma_split_first_line(l, seq!['\n'] + rest);
        assert(Seq::<char>::empty() + seq!['\n'] + rest =~= seq!['\n'] + rest);
        lemma_split_first_line(Seq::<char>::empty(), rest);
        let lines = split_lines(cm_doc_blocks(s, j, opts, 0));
        assert(lines =~= seq![l, Seq::<char>::empty()] + split_lines(rest));
        assert(lines.drop_first() =~= seq![Seq::<char>::empty()] + split_lines(rest));
        assert(lines.drop_first().drop_first() =~= split_lines(rest));
        assert(is_blank(Seq::<char>::empty()));
        lemma_parse_rendered_blocks(s, j + 1, n + 2, opts);
        assert(s.skip(j) =~= seq![b] + s.skip(j + 1));
        if b.kind == NodeType::Paragraph {
            assert(blocks_acc(lines, n, Option::None, opts) =~= seq![b] + s.skip(j + 1));
        } else {
            assert(blocks_acc(lines, n, Option::None, opts) =~= seq![b] + s.skip(j + 1));
        }
    }
}

/// Every inline node the scanner produces is well-formed.
proof fn lemma_raw_inlines_wf(s: Seq<char>, opts: CmarkOptions, prev: char)
    ensures
        NodeView::wf_seq(raw_inlines(s, opts, prev)),
    decreases s.len(), 0int,
{
    crate::node::lemma_wf_seq_intro(Seq::<NodeView>::empty());
    if s.len() == 0 {
    } else if s[0] == '\n' {
        lemma_raw_inlines_wf(s.skip(1), opts, '\n');
        assert(NodeView::fresh(NodeType::SoftBreak).wf());
        crate::node::lemma_wf_seq_intro(seq![NodeView::fresh(NodeType::SoftBreak)]);
        crate::node::lemma_wf_seq_add(
            seq![NodeView::fresh(NodeType::SoftBreak)],
            raw_inlines(s.skip(1), opts, '\n'),
        );
    } else if (s[0] == '*' || s[0] == '_') && s.len() >= 2 && s[1] == s[0] && {
        let i = find_pair(s.skip(2), s[0]);
        0 <= i && i + 2 <= s.skip(2).len()
    } {
        let i = find_pair(s.skip(2), s[0]);
        lemma_inlines_wf(s.skip(2).take(i), opts, s[0]);
        lemma_raw_inlines_wf(s.skip(i + 4), opts, s[0]);
        let node = NodeView::fresh(NodeType::Strong).with_children(
            inlines(s.skip(2).take(i), opts, s[0]),
        );
        assert(node.wf());
        crate::node::lemma_wf_seq_intro(seq![node]);
        crate::node::lemma_wf_seq_add(seq![node], raw_inlines(s.skip(i + 4), opts, s[0]));
    } else if (s[0] == '*' || s[0] == '_') && !(s.len() >= 2 && s[1] == s[0]) && {
        let i = find_char(s.skip(1), s[0]);
        0 <= i < s.skip(1).len()
    } {
        let i = find_char(s.skip(1), s[0]);
        lemma_inlines_wf(s.skip(1).take(i), opts, s[0]);
        lemma_raw_inlines_wf(s.skip(i + 2), opts, s[0]);
        let node = NodeView::fresh(NodeType::Emph).with_children(
            inlines(s.skip(1).take(i), opts, s[0]),
        );
        assert(node.wf());
        crate::node::lemma_wf_seq_intro(seq![node]);
        crate::node::lemma_wf_seq_add(seq![node], raw_inlines(s.skip(i + 2), opts, s[0]));
    } else if s[0] == '`' && {
        let i = find_char(s.skip(1), '`');
        0 <= i < s.skip(1).len()
    } {
        let i = find_char(s.skip(1), '`');
        lemma_raw_inlines_wf(s.skip(i + 2), opts, '`');
        let node = NodeView::fresh(NodeType::Code).with_literal(s.skip(1).take(i));
        assert(node.wf());
        crate::node::lemma_wf_seq_intro(seq![node]);
        crate::node::lemma_wf_seq_add(seq![node], raw_inlines(s.skip(i + 2), opts, '`'));
    } else {
        let step = smart_step(s, opts, prev);
        assert(text_node(step.1).wf());
        crate::node::lemma_wf_seq_intro(seq![text_node(step.1)]);
        if 0 < step.0 <= s.len() {
            lemma_raw_inlines_wf(s.skip(step.0), opts, s[step.0 - 1]);
            crate::node::lemma_wf_seq_add(
                seq![text_node(step.1)],
                raw_inlines(s.skip(step.0), opts, s[step.0 - 1]),
            );
        } else {
            lemma_raw_inlines_wf(s.skip(1), opts, s[0]);
            crate::node::lemma_wf_seq_add(
                seq![text_node(step.1)],
                raw_inlines(s.skip(1), opts, s[0]),
            );
        }
    }
}

/// Every inline node of a text is well-formed.
proof fn lemma_inlines_wf(s: Seq<char>, opts: CmarkOptions, prev: char)
    ensures
        NodeView::wf_seq(inlines(s, opts, prev)),
    decreases s.len(), 1int,
{
    lemma_raw_inlines_wf(s, opts, prev);
    crate::node::lemma_wf_merge_texts(raw_inlines(s, opts, prev));
}

/// Every block the builder produces is well-formed.
proof fn lemma_blocks_acc_wf(
    lines: Seq<Seq<char>>,
    n: int,
    acc: Option<ParaAcc>,
    opts: CmarkOptions,
)
    ensures
        NodeView::wf_seq(blocks_acc(lines, n, acc, opts)),
    decreases lines.len(),
{
    crate::node::lemma_wf_seq_intro(Seq::<NodeView>::empty());
    lemma_flush_wf(acc, opts);
    if lines.len() > 0 {
        let l = lines[0];
        let rest = lines.drop_first();
        if is_blank(l) {
            lemma_blocks_acc_wf(rest, n + 1, Option::None, opts);
            crate::node::lemma_wf_seq_add(
                flush(acc, opts),
                blocks_acc(rest, n + 1, Option::None, opts),
            );
        } else if heading_level(l) > 0 {
            lemma_blocks_acc_wf(rest, n + 1, Option::None, opts);
            lemma_inlines_wf(trimmed(l.skip(heading_level(l))), opts, '\n');
            assert(header_node(l, n, opts).wf());
            crate::node::lemma_wf_seq_intro(seq![header_node(l, n, opts)]);
            crate::node::lemma_wf_seq_add(flush(acc, opts), seq![header_node(l, n, opts)]);
            crate::node::lemma_wf_seq_add(
                flush(acc, opts) + seq![header_node(l, n, opts)],
                blocks_acc(rest, n + 1, Option::None, opts),
            );
        } else {
            lemma_blocks_acc_wf(rest, n + 1, Option::Some(extend_acc(acc, l, n)), opts);
        }
    }
}

/// A flushed paragraph is well-formed.
proof fn lemma_flush_wf(acc: Option<ParaAcc>, opts: CmarkOptions)
    ensures
        NodeView::wf_seq(flush(acc, opts)),
{
    crate::node::lemma_wf_seq_intro(Seq::<NodeView>::empty());
    match acc {
        Option::None => {},
        Option::Some(a) => {
            lemma_inlines_wf(a.text, opts, '\n');
            assert(para_node(a, opts).wf());
            assert(flush(acc, opts) =~= seq![para_node(a, opts)]);
            crate::node::lemma_wf_seq_intro(seq![para_node(a, opts)]);
        },
    }
}

/// Every tree the parser produces is well-formed: its header levels lie
/// between 1 and 6 and its list starts are not negative, throughout.
pub proof fn lemma_doc_of_wf(src: Seq<char>, opts: CmarkOptions)
    ensures
        doc_of(src, opts).wf(),
{
    let lines = split_lines(src);
    let blocks = blocks_acc(lines, 0, Option::None, opts);
    lemma_blocks_acc_wf(lines, 0, Option::None, opts);
    let d = block_pos(
        NodeView::fresh(NodeType::Document).with_children(blocks),
        0,
        lines.len() - 1,
        lines.last().len() as int,
        opts,
    );
    assert(d.wf());
    if opts.normalize_enabled() {
        crate::node::lemma_wf_consolidate(d);
    }
}

/// The round-trip law: re-serializing a tree of plain-text paragraphs and
/// headings to CommonMark and parsing it back, with default options,
/// reproduces the tree exactly — same kinds, same structure, same text.
pub proof fn lemma_commonmark_round_trip(t: NodeView, opts: CmarkOptions)
    requires
        opts.bits == 0,
        simple_doc(t),
    ensures
        doc_of(cm_doc(t, opts, 0), opts) == t,
{
    lemma_default_bits(opts);
    reveal_with_fuel(blocks_acc, 3);
    let src = cm_doc(t, opts, 0);
    if t.children.len() == 0 {
        assert(src =~= Seq::<char>::empty());
        assert(split_lines(src) =~= seq![Seq::<char>::empty()]);
        assert(is_blank(Seq::<char>::empty()));
        assert(blocks_acc(split_lines(src), 0, Option::None, opts) =~= Seq::<NodeView>::empty());
        assert(t.children =~= Seq::<NodeView>::empty());
        assert(doc_of(src, opts) =~= t);
    } else {
        assert(src == cm_doc_blocks(t.children, 0, opts, 0));
        lemma_parse_rendered_blocks(t.children, 0, 0, opts);
        assert(t.children.skip(0) =~= t.children);
        assert(doc_of(src, opts) =~= t);
    }
}

} // verus!
