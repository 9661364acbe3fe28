//! The traversal iterator: an event-emitting pre-order walk over a tree.
//!
//! Each step yields an event and the node it concerns. A node with children
//! emits `Enter` when first visited and `Exit` after all its descendants
//! have been visited; a node without children emits only `Enter`. After the
//! root's last event the iterator is exhausted. The iterator borrows the
//! tree it walks: it cannot outlive it, and dropping it never mutates or
//! frees a node.

use vstd::prelude::*;

use crate::EventType;
use crate::node::Node;
use crate::node::NodeView;
use crate::node::lemma_bounded_seq_elem;
use crate::node::lemma_node_bounded;

verus! {

broadcast use
    vstd::std_specs::vec::group_vec_axioms,
    vstd::seq::axiom_seq_index_decreases,
    vstd::seq::axiom_seq_subrange_decreases,
;

/// The events of a pre-order walk of the tree `t` that stands at path `p`:
/// `Enter` for `t`, the events of its children in sibling order, and, if it
/// has children, `Exit` for `t`.
pub open spec fn event_seq(t: NodeView, p: Seq<usize>) -> Seq<(EventType, Seq<usize>)>
    decreases t, 0int,
{
    if t.children.len() == 0 {
        seq![(EventType::Enter, p)]
    } else {
        seq![(EventType::Enter, p)] + event_seq_children(t.children, p, 0) + seq![
            (EventType::Exit, p),
        ]
    }
}

/// The events of the children of a node at path `p`, from child `j` on.
pub open spec fn event_seq_children(s: Seq<NodeView>, p: Seq<usize>, j: int) -> Seq<
    (EventType, Seq<usize>),
>
    decreases s, s.len() - j,
{
    if j < 0 || j >= s.len() {
        Seq::empty()
    } else {
        event_seq(s[j], p.push(j as usize)) + event_seq_children(s, p, j + 1)
    }
}

/// The mathematical value of a stored event list: each entry's event and
/// the selected node's path.
pub open spec fn events_view(s: Seq<(EventType, Vec<usize>)>) -> Seq<(EventType, Seq<usize>)> {
    Seq::new(s.len(), |i: int| (s[i].0, s[i].1@))
}

/// An event-emitting pre-order iterator over a borrowed tree.
pub struct NodeIterator<'a> {
    root: &'a Node,
    events: Vec<(EventType, Vec<usize>)>,
    pos: usize,
    done: bool,
}

impl<'a> NodeIterator<'a> {
    /// The tree being walked.
    pub closed spec fn root_spec(self) -> NodeView {
        self.root@
    }

    /// The full event sequence of the walk.
    pub closed spec fn events_spec(self) -> Seq<(EventType, Seq<usize>)> {
        events_view(self.events@)
    }

    /// How many events the walk has already emitted.
    pub closed spec fn position(self) -> int {
        self.pos as int
    }

    /// Whether a step has been attempted past the last event.
    pub closed spec fn exhausted(self) -> bool {
        self.done
    }

    /// The iterator is well-formed: its stored events are the event
    /// sequence of its tree and its position lies within them.
    pub closed spec fn wf(self) -> bool {
        &&& events_view(self.events@) == event_seq(self.root@, Seq::empty())
        &&& self.pos <= self.events@.len()
        &&& self.done ==> self.pos == self.events@.len()
    }

    /// Create a new iterator positioned before the root of `root`.
    pub fn new(root: &'a Node) -> (r: NodeIterator<'a>)
        ensures
            r.wf(),
            r.root_spec() == root@,
            r.events_spec() == event_seq(root@, Seq::empty()),
            r.position() == 0,
            !r.exhausted(),
    {
        let events = root.event_list();
        NodeIterator { root, events, pos: 0, done: false }
    }

    /// The root of the tree being walked.
    pub fn root(&self) -> (r: &'a Node)
        ensures
            r@ == self.root_spec(),
    {
        self.root
    }

    /// Advance the walk one step: emit the next event and the node it
    /// concerns, or `None` if the walk has already emitted every event.
    pub fn next(&mut self) -> (r: Option<(EventType, &'a Node)>)
        requires
            old(self).wf(),
        ensures
            final(self).wf(),
            final(self).root_spec() == old(self).root_spec(),
            final(self).events_spec() == old(self).events_spec(),
            match r {
                Some(en) => {
                    &&& old(self).position() < old(self).events_spec().len()
                    &&& final(self).position() == old(self).position() + 1
                    &&& !final(self).exhausted()
                    &&& en.0 == old(self).events_spec()[old(self).position()].0
                    &&& en.1@ == old(self).root_spec().subtree_at(
                        old(self).events_spec()[old(self).position()].1,
                    )
                },
                None => {
                    &&& old(self).position() == old(self).events_spec().len()
                    &&& final(self).position() == old(self).position()
                    &&& final(self).exhausted()
                },
            },
    {
        if self.pos < self.events.len() {
            let ev = self.events[self.pos].0;
            proof {
                lemma_node_bounded(*self.root);
                lemma_event_seq_paths_valid(self.root@, Seq::empty());
                assert(events_view(self.events@)[self.pos as int] == (
                    self.events@[self.pos as int].0,
                    self.events@[self.pos as int].1@,
                ));
                let q = event_seq(self.root@, Seq::empty())[self.pos as int].1;
                assert(q == self.events@[self.pos as int].1@);
                assert(q.skip(0) =~= q);
                assert(self.root@.valid_path(q));
            }
            let n = match self.root.node_at(&self.events[self.pos].1) {
                Option::Some(n) => n,
                Option::None => unreached(),
            };
            self.pos = self.pos + 1;
            Some((ev, n))
        } else {
            self.done = true;
            None
        }
    }

    /// The node the walk currently stands on: the node of the last emitted
    /// event, or the root before the first step.
    pub fn node(&self) -> (r: &'a Node)
        requires
            self.wf(),
        ensures
            self.position() == 0 ==> r@ == self.root_spec(),
            self.position() > 0 ==> r@ == self.root_spec().subtree_at(
                self.events_spec()[self.position() - 1].1,
            ),
    {
        if self.pos == 0 {
            self.root
        } else {
            proof {
                lemma_node_bounded(*self.root);
                lemma_event_seq_paths_valid(self.root@, Seq::empty());
                assert(events_view(self.events@)[self.pos - 1] == (
                    self.events@[self.pos - 1].0,
                    self.events@[self.pos - 1].1@,
                ));
                let q = event_seq(self.root@, Seq::empty())[self.pos - 1].1;
                assert(q == self.events@[self.pos - 1].1@);
                assert(q.skip(0) =~= q);
                assert(self.root@.valid_path(q));
            }
            match self.root.node_at(&self.events[self.pos - 1].1) {
                Option::Some(n) => n,
                Option::None => unreached(),
            }
        }
    }

    /// The type of the last emitted event: `NoEvent` before the first
    /// step, `Done` once the walk has been stepped past its last event.
    pub fn event_type(&self) -> (r: EventType)
        requires
            self.wf(),
        ensures
            self.exhausted() ==> r == EventType::Done,
            !self.exhausted() && self.position() == 0 ==> r == EventType::NoEvent,
            !self.exhausted() && self.position() > 0 ==> r == self.events_spec()[self.position()
                - 1].0,
    {
        if self.done {
            EventType::Done
        } else if self.pos == 0 {
            EventType::NoEvent
        } else {
            proof {
                assert(events_view(self.events@)[self.pos - 1] == (
                    self.events@[self.pos - 1].0,
                    self.events@[self.pos - 1].1@,
                ));
            }
            self.events[self.pos - 1].0
        }
    }

    /// Reposition the walk so that its last emitted event is `event_type`
    /// at the node selected by `path`: the next step continues from there.
    /// Returns whether that event occurs in the walk at all; on `false`
    /// the iterator is unchanged.
    pub fn reset(&mut self, path: &Vec<usize>, event_type: EventType) -> (r: bool)
        requires
            old(self).wf(),
        ensures
            final(self).wf(),
            final(self).root_spec() == old(self).root_spec(),
            final(self).events_spec() == old(self).events_spec(),
            r == old(self).events_spec().contains((event_type, path@)),
            r ==> final(self).position() > 0 && final(self).events_spec()[final(self).position()
                - 1] == (event_type, path@) && !final(self).exhausted(),
            !r ==> *final(self) == *old(self),
    {
        let n = self.events.len();
        let mut k: usize = 0;
        while k < n
            invariant
                old(self).wf(),
                *self == *old(self),
                n == self.events@.len(),
                k <= n,
                forall|i: int| 0 <= i < k ==> events_view(self.events@)[i] != (event_type, path@),
            decreases n - k,
        {
            proof {
                assert(events_view(self.events@)[k as int] == (
                    self.events@[k as int].0,
                    self.events@[k as int].1@,
                ));
            }
            if self.events[k].0 == event_type && eq_path(&self.events[k].1, path) {
                self.pos = k + 1;
                self.done = false;
                proof {
                    assert(events_view(self.events@)[k as int] == (event_type, path@));
                }
                return true;
            }
            k = k + 1;
        }
        proof {
            if self.events_spec().contains((event_type, path@)) {
                let i = choose|i: int|
                    0 <= i < self.events_spec().len() && self.events_spec()[i] == (
                    event_type,
                    path@,
                );
                assert(events_view(self.events@)[i] != (event_type, path@));
            }
        }
        false
    }
}

/// Whether two paths are the same.
fn eq_path(a: &Vec<usize>, b: &Vec<usize>) -> (r: bool)
    ensures
        r == (a@ == b@),
{
    if a.len() != b.len() {
        return false;
    }
    let mut i: usize = 0;
    while i < a.len()
        invariant
            i <= a@.len(),
            a@.len() == b@.len(),
            forall|k: int| 0 <= k < i ==> a@[k] == b@[k],
        decreases a@.len() - i,
    {
        if a[i] != b[i] {
            return false;
        }
        i = i + 1;
    }
    proof {
        assert(a@ =~= b@);
    }
    true
}

/// Every path in the event sequence of the tree at `p` is `p` followed by
/// a valid path of the tree.
pub proof fn lemma_event_seq_paths_valid(t: NodeView, p: Seq<usize>)
    requires
        t.bounded(),
    ensures
        forall|i: int|
            0 <= i < event_seq(t, p).len() ==> is_extension(#[trigger] event_seq(t, p)[i].1, p)
                && t.valid_path(event_seq(t, p)[i].1.skip(p.len() as int)),
    decreases t, 0int,
{
    assert(p.subrange(0, p.len() as int) =~= p);
    assert(p.skip(p.len() as int) =~= Seq::<usize>::empty());
    if t.children.len() == 0 {
        assert(event_seq(t, p)[0].1 == p);
    } else {
        lemma_event_seq_children_paths_valid(t.children, p, 0, t);
        assert forall|i: int|
            0 <= i < event_seq(t, p).len() implies is_extension(
            #[trigger] event_seq(t, p)[i].1,
            p,
        ) && t.valid_path(event_seq(t, p)[i].1.skip(p.len() as int)) by {
            let mid = event_seq_children(t.children, p, 0);
            if i == 0 || i == 1 + mid.len() {
                assert(event_seq(t, p)[i].1 == p);
            } else {
                assert(event_seq(t, p)[i] == mid[i - 1]);
            }
        }
    }
}

/// Every path among the events of children `j..` of a node at `p` extends
/// `p` by a valid path of that node's tree.
proof fn lemma_event_seq_children_paths_valid(s: Seq<NodeView>, p: Seq<usize>, j: int, t: NodeView)
    requires
        t.children == s,
        t.bounded(),
    ensures
        forall|i: int|
            0 <= i < event_seq_children(s, p, j).len() ==> is_extension(
                #[trigger] event_seq_children(s, p, j)[i].1,
                p,
            ) && t.valid_path(event_seq_children(s, p, j)[i].1.skip(p.len() as int)),
    decreases s, s.len() - j,
{
    if 0 <= j < s.len() {
        lemma_bounded_seq_elem(s, j);
        lemma_event_seq_paths_valid(s[j], p.push(j as usize));
        lemma_event_seq_children_paths_valid(s, p, j + 1, t);
        assert forall|i: int|
            0 <= i < event_seq_children(s, p, j).len() implies is_extension(
            #[trigger] event_seq_children(s, p, j)[i].1,
            p,
        ) && t.valid_path(event_seq_children(s, p, j)[i].1.skip(p.len() as int)) by {
            let head = event_seq(s[j], p.push(j as usize));
            let tail = event_seq_children(s, p, j + 1);
            if i < head.len() {
                assert(event_seq_children(s, p, j)[i] == head[i]);
                let q = head[i].1;
                let pj = p.push(j as usize);
                assert(is_extension(q, pj));
                assert(s[j].valid_path(q.skip(pj.len() as int)));
                assert(q.subrange(0, pj.len() as int) == pj);
                assert(q.subrange(0, p.len() as int) =~= q.subrange(0, pj.len() as int).subrange(
                    0,
                    p.len() as int,
                ));
                assert(pj.subrange(0, p.len() as int) =~= p);
                assert(is_extension(q, p));
                assert(q[p.len() as int] == q.subrange(0, pj.len() as int)[p.len() as int]);
                assert(q[p.len() as int] == j as usize);
                let rest = q.skip(p.len() as int);
                assert(rest.len() > 0);
                assert(rest[0] == q[p.len() as int]);
                assert(rest.drop_first() =~= q.skip(pj.len() as int));
                assert(rest[0] < t.children.len());
                assert(t.children[rest[0] as int] == s[j]);
                assert(t.children[rest[0] as int].valid_path(rest.drop_first()));
                assert(t.valid_path(rest));
            } else {
                assert(event_seq_children(s, p, j)[i] == tail[i - head.len()]);
            }
        }
    }
}

/// Whether `q` begins with `p`.
pub open spec fn is_extension(q: Seq<usize>, p: Seq<usize>) -> bool {
    q.len() >= p.len() && q.subrange(0, p.len() as int) == p
}

// ---------------------------------------------------------------------
// The traversal law: what the event sequence enumerates.
// ---------------------------------------------------------------------
/// The paths of all nodes of the tree at `p`, in document pre-order: the
/// node itself, then the nodes of each child subtree in sibling order.
pub open spec fn preorder(t: NodeView, p: Seq<usize>) -> Seq<Seq<usize>>
    decreases t, 0int,
{
    seq![p] + preorder_children(t.children, p, 0)
}

/// The pre-order paths of the children from `j` on.
pub open spec fn preorder_children(s: Seq<NodeView>, p: Seq<usize>, j: int) -> Seq<Seq<usize>>
    decreases s, s.len() - j,
{
    if j < 0 || j >= s.len() {
        Seq::empty()
    } else {
        preorder(s[j], p.push(j as usize)) + preorder_children(s, p, j + 1)
    }
}

/// The paths of the nodes of the tree at `p` that have at least one
/// child, in order of completion: each child subtree's, then, if the node
/// has children, the node itself.
pub open spec fn exit_order(t: NodeView, p: Seq<usize>) -> Seq<Seq<usize>>
    decreases t, 0int,
{
    if t.children.len() == 0 {
        Seq::empty()
    } else {
        exit_order_children(t.children, p, 0) + seq![p]
    }
}

/// The completion-order exit paths of the children from `j` on.
pub open spec fn exit_order_children(s: Seq<NodeView>, p: Seq<usize>, j: int) -> Seq<Seq<usize>>
    decreases s, s.len() - j,
{
    if j < 0 || j >= s.len() {
        Seq::empty()
    } else {
        exit_order(s[j], p.push(j as usize)) + exit_order_children(s, p, j + 1)
    }
}

/// The paths of the `Enter` events of an event sequence, in order.
pub open spec fn enter_paths(es: Seq<(EventType, Seq<usize>)>) -> Seq<Seq<usize>>
    decreases es.len(),
{
    if es.len() == 0 {
        Seq::empty()
    } else if es[0].0 == EventType::Enter {
        seq![es[0].1] + enter_paths(es.drop_first())
    } else {
        enter_paths(es.drop_first())
    }
}

/// The paths of the `Exit` events of an event sequence, in order.
pub open spec fn exit_paths(es: Seq<(EventType, Seq<usize>)>) -> Seq<Seq<usize>>
    decreases es.len(),
{
    if es.len() == 0 {
        Seq::empty()
    } else if es[0].0 == EventType::Exit {
        seq![es[0].1] + exit_paths(es.drop_first())
    } else {
        exit_paths(es.drop_first())
    }
}

/// The `Enter` subsequence of concatenated events is the concatenation of
/// the `Enter` subsequences.
proof fn lemma_enter_paths_add(a: Seq<(EventType, Seq<usize>)>, b: Seq<(EventType, Seq<usize>)>)
    ensures
        enter_paths(a + b) == enter_paths(a) + enter_paths(b),
    decreases a.len(),
{
    if a.len() == 0 {
        assert(a + b =~= b);
        assert(enter_paths(a) + enter_paths(b) =~= enter_paths(b));
    } else {
        assert((a + b)[0] == a[0]);
        assert((a + b).drop_first() =~= a.drop_first() + b);
        lemma_enter_paths_add(a.drop_first(), b);
        assert(enter_paths(a + b) =~= enter_paths(a) + enter_paths(b));
    }
}

/// The `Exit` subsequence of concatenated events is the concatenation of
/// the `Exit` subsequences.
proof fn lemma_exit_paths_add(a: Seq<(EventType, Seq<usize>)>, b: Seq<(EventType, Seq<usize>)>)
    ensures
        exit_paths(a + b) == exit_paths(a) + exit_paths(b),
    decreases a.len(),
{
    if a.len() == 0 {
        assert(a + b =~= b);
        assert(exit_paths(a) + exit_paths(b) =~= exit_paths(b));
    } else {
        assert((a + b)[0] == a[0]);
        assert((a + b).drop_first() =~= a.drop_first() + b);
        lemma_exit_paths_add(a.drop_first(), b);
        assert(exit_paths(a + b) =~= exit_paths(a) + exit_paths(b));
    }
}

/// The subsequence of `Enter` events of a walk enumerates the nodes of the
/// tree in document pre-order.
pub proof fn lemma_enter_events_are_preorder(t: NodeView, p: Seq<usize>)
    ensures
        enter_paths(event_seq(t, p)) == preorder(t, p),
    decreases t, 0int,
{
    let enter = seq![(EventType::Enter, p)];
    assert(enter_paths(enter) =~= seq![p]) by {
        assert(enter.drop_first() =~= Seq::<(EventType, Seq<usize>)>::empty());
        assert(enter_paths(Seq::<(EventType, Seq<usize>)>::empty()) =~= Seq::<Seq<usize>>::empty());
    }
    if t.children.len() == 0 {
        assert(preorder_children(t.children, p, 0) =~= Seq::<Seq<usize>>::empty());
        assert(enter_paths(event_seq(t, p)) =~= preorder(t, p));
    } else {
        let exit = seq![(EventType::Exit, p)];
        lemma_enter_events_are_preorder_children(t.children, p, 0);
        lemma_enter_paths_add(enter + event_seq_children(t.children, p, 0), exit);
        lemma_enter_paths_add(enter, event_seq_children(t.children, p, 0));
        assert(enter_paths(exit) =~= Seq::<Seq<usize>>::empty()) by {
            assert(exit.drop_first() =~= Seq::<(EventType, Seq<usize>)>::empty());
            assert(enter_paths(Seq::<(EventType, Seq<usize>)>::empty()) =~= Seq::<
                Seq<usize>,
            >::empty());
        }
        assert(enter_paths(event_seq(t, p)) =~= preorder(t, p));
    }
}

/// The `Enter` subsequence of the children's events, from child `j` on.
proof fn lemma_enter_events_are_preorder_children(s: Seq<NodeView>, p: Seq<usize>, j: int)
    ensures
        enter_paths(event_seq_children(s, p, j)) == preorder_children(s, p, j),
    decreases s, s.len() - j,
{
    if 0 <= j < s.len() {
        lemma_enter_events_are_preorder(s[j], p.push(j as usize));
        lemma_enter_events_are_preorder_children(s, p, j + 1);
        lemma_enter_paths_add(event_seq(s[j], p.push(j as usize)), event_seq_children(s, p, j + 1));
    }
}

/// The subsequence of `Exit` events of a walk enumerates exactly the nodes
/// with at least one child, in order of completion.
pub proof fn lemma_exit_events_are_exit_order(t: NodeView, p: Seq<usize>)
    ensures
        exit_paths(event_seq(t, p)) == exit_order(t, p),
    decreases t, 0int,
{
    let enter = seq![(EventType::Enter, p)];
    assert(exit_paths(enter) =~= Seq::<Seq<usize>>::empty()) by {
        assert(enter.drop_first() =~= Seq::<(EventType, Seq<usize>)>::empty());
        assert(exit_paths(Seq::<(EventType, Seq<usize>)>::empty()) =~= Seq::<Seq<usize>>::empty());
    }
    if t.children.len() == 0 {
        assert(exit_paths(event_seq(t, p)) =~= exit_order(t, p));
    } else {
        let exit = seq![(EventType::Exit, p)];
        lemma_exit_events_are_exit_order_children(t.children, p, 0);
        lemma_exit_paths_add(enter + event_seq_children(t.children, p, 0), exit);
        lemma_exit_paths_add(enter, event_seq_children(t.children, p, 0));
        assert(exit_paths(exit) =~= seq![p]) by {
            assert(exit.drop_first() =~= Seq::<(EventType, Seq<usize>)>::empty());
            assert(exit_paths(Seq::<(EventType, Seq<usize>)>::empty()) =~= Seq::<
                Seq<usize>,
            >::empty());
        }
        assert(exit_paths(event_seq(t, p)) =~= exit_order(t, p));
    }
}

/// The `Exit` subsequence of the children's events, from child `j` on.
proof fn lemma_exit_events_are_exit_order_children(s: Seq<NodeView>, p: Seq<usize>, j: int)
    ensures
        exit_paths(event_seq_children(s, p, j)) == exit_order_children(s, p, j),
    decreases s, s.len() - j,
{
    if 0 <= j < s.len() {
        lemma_exit_events_are_exit_order(s[j], p.push(j as usize));
        lemma_exit_events_are_exit_order_children(s, p, j + 1);
        lemma_exit_paths_add(event_seq(s[j], p.push(j as usize)), event_seq_children(s, p, j + 1));
    }
}

/// The pre-order paths of the tree at `p` are exactly the extensions of
/// `p` by a valid path of the tree: every node is visited.
pub proof fn lemma_preorder_complete(t: NodeView, p: Seq<usize>, x: Seq<usize>)
    requires
        t.bounded(),
    ensures
        preorder(t, p).contains(x) <==> (is_extension(x, p) && t.valid_path(
            x.skip(p.len() as int),
        )),
    decreases t, 0int,
{
    let po = preorder(t, p);
    let cs = preorder_children(t.children, p, 0);
    assert(p.subrange(0, p.len() as int) =~= p);
    assert(p.skip(p.len() as int) =~= Seq::<usize>::empty());
    lemma_preorder_children_complete(t.children, p, 0, t, x);
    if po.contains(x) {
        let i = choose|i: int| 0 <= i < po.len() && po[i] == x;
        if i == 0 {
            assert(x == p);
        } else {
            assert(cs[i - 1] == x);
            assert(cs.contains(x));
            let jj = choose|jj: int|
                0 <= jj < t.children.len() && is_extension(x, p.push(jj as usize))
                    && t.children[jj].valid_path(x.skip(p.len() as int + 1));
            lemma_extension_step(t, p, x, jj);
        }
    }
    if is_extension(x, p) && t.valid_path(x.skip(p.len() as int)) {
        if x.len() == p.len() {
            assert(x =~= p);
            assert(po[0] == x);
            assert(po.contains(x));
        } else {
            let rest = x.skip(p.len() as int);
            assert(rest.len() > 0);
            let jj = rest[0] as int;
            assert(rest[0] < t.children.len());
            assert(x[p.len() as int] == rest[0]);
            assert(x.subrange(0, p.len() as int + 1) =~= p.push(rest[0]));
            assert(is_extension(x, p.push(jj as usize)));
            assert(rest.drop_first() =~= x.skip(p.len() as int + 1));
            assert(t.children[jj].valid_path(x.skip(p.len() as int + 1)));
            assert(cs.contains(x));
            let i = choose|i: int| 0 <= i < cs.len() && cs[i] == x;
            assert(po[i + 1] == x);
            assert(po.contains(x));
        }
    }
}

/// From a child's view back to the parent's: a path that extends
/// `p.push(jj)` into a valid path of child `jj` extends `p` into a valid
/// path of the parent.
proof fn lemma_extension_step(t: NodeView, p: Seq<usize>, x: Seq<usize>, jj: int)
    requires
        0 <= jj < t.children.len(),
        t.children.len() <= usize::MAX,
        is_extension(x, p.push(jj as usize)),
        t.children[jj].valid_path(x.skip(p.len() as int + 1)),
    ensures
        is_extension(x, p),
        t.valid_path(x.skip(p.len() as int)),
{
    let pj = p.push(jj as usize);
    assert(x.subrange(0, pj.len() as int) == pj);
    assert(x.subrange(0, p.len() as int) =~= x.subrange(0, pj.len() as int).subrange(
        0,
        p.len() as int,
    ));
    assert(pj.subrange(0, p.len() as int) =~= p);
    assert(x[p.len() as int] == x.subrange(0, pj.len() as int)[p.len() as int]);
    assert(x[p.len() as int] == jj as usize);
    let rest = x.skip(p.len() as int);
    assert(rest.len() > 0);
    assert(rest[0] == x[p.len() as int]);
    assert(rest.drop_first() =~= x.skip(p.len() as int + 1));
    assert(t.children[rest[0] as int] == t.children[jj]);
    assert(t.valid_path(rest));
}

/// Membership among the pre-order paths of children `j..`: exactly the
/// extensions of `p` by one in-range child index and a valid path of that
/// child.
proof fn lemma_preorder_children_complete(
    s: Seq<NodeView>,
    p: Seq<usize>,
    j: int,
    t: NodeView,
    x: Seq<usize>,
)
    requires
        0 <= j,
        t.children == s,
        t.bounded(),
    ensures
        preorder_children(s, p, j).contains(x) <==> exists|jj: int|
            j <= jj < s.len() && is_extension(x, p.push(jj as usize)) && s[jj].valid_path(
                x.skip(p.len() as int + 1),
            ),
    decreases s, s.len() - j,
{
    if 0 <= j < s.len() {
        let head = preorder(s[j], p.push(j as usize));
        let tail = preorder_children(s, p, j + 1);
        lemma_bounded_seq_elem(s, j);
        lemma_preorder_complete(s[j], p.push(j as usize), x);
        lemma_preorder_children_complete(s, p, j + 1, t, x);
        if preorder_children(s, p, j).contains(x) {
            let i = choose|i: int|
                0 <= i < preorder_children(s, p, j).len() && preorder_children(s, p, j)[i] == x;
            if i < head.len() {
                assert(head[i] == x);
                assert(head.contains(x));
                assert(is_extension(x, p.push(j as usize)) && s[j].valid_path(
                    x.skip(p.len() as int + 1),
                ));
            } else {
                assert(tail[i - head.len()] == x);
                assert(tail.contains(x));
            }
        }
        if exists|jj: int|
            j <= jj < s.len() && is_extension(x, p.push(jj as usize)) && s[jj].valid_path(
                x.skip(p.len() as int + 1),
            ) {
            let jj = choose|jj: int|
                j <= jj < s.len() && is_extension(x, p.push(jj as usize)) && s[jj].valid_path(
                    x.skip(p.len() as int + 1),
                );
            if jj == j {
                assert(head.contains(x));
                let i = choose|i: int| 0 <= i < head.len() && head[i] == x;
                assert(preorder_children(s, p, j)[i] == x);
                assert(preorder_children(s, p, j).contains(x));
            } else {
                assert(tail.contains(x));
                let i = choose|i: int| 0 <= i < tail.len() && tail[i] == x;
                assert(preorder_children(s, p, j)[head.len() + i] == x);
                assert(preorder_children(s, p, j).contains(x));
            }
        }
    }
}

/// Every pre-order path of the tree at `p` extends `p`.
proof fn lemma_preorder_elems_extend(t: NodeView, p: Seq<usize>, i: int)
    requires
        t.bounded(),
        0 <= i < preorder(t, p).len(),
    ensures
        is_extension(preorder(t, p)[i], p),
        i > 0 ==> preorder(t, p)[i].len() > p.len(),
    decreases t, 0int,
{
    let po = preorder(t, p);
    assert(p.subrange(0, p.len() as int) =~= p);
    if i > 0 {
        let cs = preorder_children(t.children, p, 0);
        assert(cs[i - 1] == po[i]);
        assert(cs.contains(po[i]));
        lemma_preorder_children_complete(t.children, p, 0, t, po[i]);
        let jj = choose|jj: int|
            0 <= jj < t.children.len() && is_extension(po[i], p.push(jj as usize))
                && t.children[jj].valid_path(po[i].skip(p.len() as int + 1));
        lemma_extension_step(t, p, po[i], jj);
        assert(po[i].len() >= p.push(jj as usize).len());
    }
}

/// No node repeats among the pre-order paths of the tree at `p`: every
/// node is visited exactly once.
pub proof fn lemma_preorder_no_dup(t: NodeView, p: Seq<usize>)
    requires
        t.bounded(),
    ensures
        forall|i: int, k: int|
            0 <= i < k < preorder(t, p).len() ==> #[trigger] preorder(t, p)[i]
                != #[trigger] preorder(t, p)[k],
    decreases t, 0int,
{
    let po = preorder(t, p);
    let cs = preorder_children(t.children, p, 0);
    lemma_preorder_children_no_dup(t.children, p, 0, t);
    assert forall|i: int, k: int|
        0 <= i < k < po.len() implies #[trigger] po[i] != #[trigger] po[k] by {
        if i == 0 {
            lemma_preorder_elems_extend(t, p, k);
            assert(po[k].len() > p.len());
        } else {
            assert(po[i] == cs[i - 1]);
            assert(po[k] == cs[k - 1]);
        }
    }
}

/// Which child a pre-order path of children `j..` descends into: the step
/// it takes just after `p`.
proof fn lemma_preorder_children_elem_child(
    s: Seq<NodeView>,
    p: Seq<usize>,
    j: int,
    t: NodeView,
    i: int,
)
    requires
        t.children == s,
        t.bounded(),
        0 <= i < preorder_children(s, p, j).len(),
    ensures
        preorder_children(s, p, j)[i].len() > p.len(),
        j <= preorder_children(s, p, j)[i][p.len() as int] < s.len(),
    decreases s, s.len() - j,
{
    let x = preorder_children(s, p, j)[i];
    assert(preorder_children(s, p, j).contains(x));
    lemma_preorder_children_complete(s, p, j, t, x);
    let jj = choose|jj: int|
        j <= jj < s.len() && is_extension(x, p.push(jj as usize)) && s[jj].valid_path(
            x.skip(p.len() as int + 1),
        );
    let pj = p.push(jj as usize);
    assert(x.subrange(0, pj.len() as int) == pj);
    assert(x[p.len() as int] == x.subrange(0, pj.len() as int)[p.len() as int]);
    assert(x[p.len() as int] == jj as usize);
}

/// No node repeats among the pre-order paths of children `j..`.
proof fn lemma_preorder_children_no_dup(s: Seq<NodeView>, p: Seq<usize>, j: int, t: NodeView)
    requires
        t.children == s,
        t.bounded(),
    ensures
        forall|i: int, k: int|
            0 <= i < k < preorder_children(s, p, j).len() ==> #[trigger] preorder_children(
                s,
                p,
                j,
            )[i] != #[trigger] preorder_children(s, p, j)[k],
    decreases s, s.len() - j,
{
    if 0 <= j < s.len() {
        let head = preorder(s[j], p.push(j as usize));
        let tail = preorder_children(s, p, j + 1);
        let cs = preorder_children(s, p, j);
        lemma_bounded_seq_elem(s, j);
        lemma_preorder_no_dup(s[j], p.push(j as usize));
        lemma_preorder_children_no_dup(s, p, j + 1, t);
        assert forall|i: int, k: int|
            0 <= i < k < cs.len() implies #[trigger] cs[i] != #[trigger] cs[k] by {
            if k < head.len() {
                assert(cs[i] == head[i]);
                assert(cs[k] == head[k]);
            } else if i >= head.len() {
                assert(cs[i] == tail[i - head.len()]);
                assert(cs[k] == tail[k - head.len()]);
            } else {
                // one path descends into child `j`, the other into a later
                // child: they differ at the step just after `p`.
                assert(cs[i] == head[i]);
                assert(cs[k] == tail[k - head.len()]);
                lemma_preorder_elems_extend(s[j], p.push(j as usize), i);
                let pj = p.push(j as usize);
                let x = head[i];
                assert(x.subrange(0, pj.len() as int) == pj);
                assert(x[p.len() as int] == x.subrange(0, pj.len() as int)[p.len() as int]);
                assert(x[p.len() as int] == j as usize);
                lemma_preorder_children_elem_child(s, p, j + 1, t, k - head.len());
                assert(cs[k][p.len() as int] != j as usize);
            }
        }
    }
}

/// The exit-order paths of the tree at `p` are exactly the extensions of
/// `p` by a valid path to a node with at least one child.
pub proof fn lemma_exit_order_complete(t: NodeView, p: Seq<usize>, x: Seq<usize>)
    requires
        t.bounded(),
    ensures
        exit_order(t, p).contains(x) <==> (is_extension(x, p) && t.valid_path(
            x.skip(p.len() as int),
        ) && t.subtree_at(x.skip(p.len() as int)).children.len() > 0),
    decreases t, 0int,
{
    let eo = exit_order(t, p);
    let cs = exit_order_children(t.children, p, 0);
    assert(p.subrange(0, p.len() as int) =~= p);
    assert(p.skip(p.len() as int) =~= Seq::<usize>::empty());
    lemma_exit_order_children_complete(t.children, p, 0, t, x);
    if t.children.len() == 0 {
        if eo.contains(x) {
            let i = choose|i: int| 0 <= i < eo.len() && eo[i] == x;
        }
        if is_extension(x, p) && t.valid_path(x.skip(p.len() as int)) {
            if x.len() == p.len() {
                assert(x =~= p);
                assert(t.subtree_at(x.skip(p.len() as int)) == t);
            } else {
                let rest = x.skip(p.len() as int);
                assert(rest.len() > 0);
                assert(rest[0] < t.children.len());
            }
        }
    } else {
        if eo.contains(x) {
            let i = choose|i: int| 0 <= i < eo.len() && eo[i] == x;
            if i == cs.len() {
                assert(x == p);
                assert(t.subtree_at(x.skip(p.len() as int)) == t);
            } else {
                assert(cs[i] == x);
                assert(cs.contains(x));
                let jj = choose|jj: int|
                    0 <= jj < t.children.len() && is_extension(x, p.push(jj as usize))
                        && t.children[jj].valid_path(x.skip(p.len() as int + 1))
                        && t.children[jj].subtree_at(x.skip(p.len() as int + 1)).children.len()
                        > 0;
                lemma_extension_step(t, p, x, jj);
                let rest = x.skip(p.len() as int);
                let pj = p.push(jj as usize);
                assert(x.subrange(0, pj.len() as int) == pj);
                assert(x[p.len() as int] == x.subrange(0, pj.len() as int)[p.len() as int]);
                assert(x[p.len() as int] == jj as usize);
                assert(rest[0] == x[p.len() as int]);
                assert(t.children[rest[0] as int] == t.children[jj]);
                assert(rest.drop_first() =~= x.skip(p.len() as int + 1));
                assert(t.subtree_at(rest) == t.children[rest[0] as int].subtree_at(
                    rest.drop_first(),
                ));
                assert(t.subtree_at(rest).children.len() > 0);
            }
        }
        if is_extension(x, p) && t.valid_path(x.skip(p.len() as int)) && t.subtree_at(
            x.skip(p.len() as int),
        ).children.len() > 0 {
            if x.len() == p.len() {
                assert(x =~= p);
                assert(eo[cs.len() as int] == x);
                assert(eo.contains(x));
            } else {
                let rest = x.skip(p.len() as int);
                assert(rest.len() > 0);
                let jj = rest[0] as int;
                assert(rest[0] < t.children.len());
                assert(x[p.len() as int] == rest[0]);
                assert(x.subrange(0, p.len() as int + 1) =~= p.push(rest[0]));
                assert(is_extension(x, p.push(jj as usize)));
                assert(rest.drop_first() =~= x.skip(p.len() as int + 1));
                assert(t.children[jj].valid_path(x.skip(p.len() as int + 1)));
                assert(t.subtree_at(rest) == t.children[jj].subtree_at(
                    x.skip(p.len() as int + 1),
                ));
                assert(cs.contains(x));
                let i = choose|i: int| 0 <= i < cs.len() && cs[i] == x;
                assert(eo[i] == x);
                assert(eo.contains(x));
            }
        }
    }
}

/// Membership among the exit-order paths of children `j..`.
proof fn lemma_exit_order_children_complete(
    s: Seq<NodeView>,
    p: Seq<usize>,
    j: int,
    t: NodeView,
    x: Seq<usize>,
)
    requires
        0 <= j,
        t.children == s,
        t.bounded(),
    ensures
        exit_order_children(s, p, j).contains(x) <==> exists|jj: int|
            j <= jj < s.len() && is_extension(x, p.push(jj as usize)) && s[jj].valid_path(
                x.skip(p.len() as int + 1),
            ) && s[jj].subtree_at(x.skip(p.len() as int + 1)).children.len() > 0,
    decreases s, s.len() - j,
{
    if 0 <= j < s.len() {
        let head = exit_order(s[j], p.push(j as usize));
        let tail = exit_order_children(s, p, j + 1);
        lemma_bounded_seq_elem(s, j);
        lemma_exit_order_complete(s[j], p.push(j as usize), x);
        lemma_exit_order_children_complete(s, p, j + 1, t, x);
        if exit_order_children(s, p, j).contains(x) {
            let i = choose|i: int|
                0 <= i < exit_order_children(s, p, j).len() && exit_order_children(s, p, j)[i]
                    == x;
            if i < head.len() {
                assert(head[i] == x);
                assert(head.contains(x));
            } else {
                assert(tail[i - head.len()] == x);
                assert(tail.contains(x));
            }
        }
        if exists|jj: int|
            j <= jj < s.len() && is_extension(x, p.push(jj as usize)) && s[jj].valid_path(
                x.skip(p.len() as int + 1),
            ) && s[jj].subtree_at(x.skip(p.len() as int + 1)).children.len() > 0 {
            let jj = choose|jj: int|
                j <= jj < s.len() && is_extension(x, p.push(jj as usize)) && s[jj].valid_path(
                    x.skip(p.len() as int + 1),
                ) && s[jj].subtree_at(x.skip(p.len() as int + 1)).children.len() > 0;
            if jj == j {
                assert(head.contains(x));
                let i = choose|i: int| 0 <= i < head.len() && head[i] == x;
                assert(exit_order_children(s, p, j)[i] == x);
                assert(exit_order_children(s, p, j).contains(x));
            } else {
                assert(tail.contains(x));
                let i = choose|i: int| 0 <= i < tail.len() && tail[i] == x;
                assert(exit_order_children(s, p, j)[head.len() + i] == x);
                assert(exit_order_children(s, p, j).contains(x));
            }
        }
    }
}

/// The traversal law over a whole tree: the `Enter` events visit every
/// node of the tree exactly once, in document pre-order, and the `Exit`
/// events visit exactly the nodes with at least one child, in order of
/// completion.
pub proof fn lemma_traversal_enumerates_tree(t: NodeView)
    requires
        t.bounded(),
    ensures
        enter_paths(event_seq(t, Seq::empty())) == preorder(t, Seq::empty()),
        forall|q: Seq<usize>|
            preorder(t, Seq::empty()).contains(q) <==> #[trigger] t.valid_path(q),
        forall|i: int, k: int|
            0 <= i < k < preorder(t, Seq::empty()).len() ==> #[trigger] preorder(
                t,
                Seq::empty(),
            )[i] != #[trigger] preorder(t, Seq::empty())[k],
        exit_paths(event_seq(t, Seq::empty())) == exit_order(t, Seq::empty()),
        forall|q: Seq<usize>|
            exit_order(t, Seq::empty()).contains(q) <==> #[trigger] t.valid_path(q)
                && t.subtree_at(q).children.len() > 0,
{
    lemma_enter_events_are_preorder(t, Seq::empty());
    lemma_exit_events_are_exit_order(t, Seq::empty());
    lemma_preorder_no_dup(t, Seq::empty());
    assert forall|q: Seq<usize>|
        preorder(t, Seq::empty()).contains(q) <==> #[trigger] t.valid_path(q) by {
        lemma_preorder_complete(t, Seq::empty(), q);
        assert(q.subrange(0, 0) =~= Seq::<usize>::empty());
        assert(q.skip(0) =~= q);
    }
    assert forall|q: Seq<usize>|
        exit_order(t, Seq::empty()).contains(q) <==> #[trigger] t.valid_path(q) && t.subtree_at(
            q,
        ).children.len() > 0 by {
        lemma_exit_order_complete(t, Seq::empty(), q);
        assert(q.subrange(0, 0) =~= Seq::<usize>::empty());
        assert(q.skip(0) =~= q);
    }
}

} // verus!
