use std::collections::HashSet;
use vstd::prelude::*;

verus! {

broadcast use vstd::std_specs::hash::group_hash_axioms;

/// A node of the live tree, known by its id; `is_text` tells a text node apart.
#[derive(Clone, Copy, PartialEq, Eq, Structural, Debug)]
pub struct Node {
    pub id: u64,
    pub is_text: bool,
}

/// Where insertions go within the parent: nowhere in particular (the parent holds
/// only this region), at the end, or before a given sibling.
#[derive(Clone, Copy, PartialEq, Eq, Structural, Debug)]
pub enum Marker {
    NoChildren,
    LastChild,
    BeforeChild(Node),
}

impl Marker {
    pub open spec fn anchor(self) -> Option<Node> {
        match self {
            Marker::BeforeChild(n) => Some(n),
            _ => None,
        }
    }

    pub fn as_some_node(&self) -> (r: Option<Node>)
        ensures
            r == self.anchor(),
    {
        match self {
            Marker::BeforeChild(n) => Some(*n),
            _ => None,
        }
    }
}

/// What occupies a region of the tree.
#[derive(Clone, Debug, PartialEq, Eq)]
pub enum Child {
    Null,
    /// The text content of a parent that holds only this region.
    Text(String),
    /// A text node that shows this text; only a patch makes this state.
    TextNode(Node, String),
    Node(Node),
    Nodes(Vec<Node>),
}

/// The value of a `Child`, with text as characters and node lists as sequences.
pub enum ChildView {
    Null,
    Text(Seq<char>),
    TextNode(Node, Seq<char>),
    Node(Node),
    Nodes(Seq<Node>),
}

impl View for Child {
    type V = ChildView;

    open spec fn view(&self) -> ChildView {
        match self {
            Child::Null => ChildView::Null,
            Child::Text(s) => ChildView::Text(s@),
            Child::TextNode(n, s) => ChildView::TextNode(*n, s@),
            Child::Node(n) => ChildView::Node(*n),
            Child::Nodes(v) => ChildView::Nodes(v@),
        }
    }
}

/// One mutation of the live tree, applied to the parent of the region.
#[derive(Clone, Debug, PartialEq, Eq)]
pub enum DomOp {
    /// Detaches a child of the parent.
    RemoveChild(Node),
    /// Detaches a node from wherever it stands.
    Remove(Node),
    /// Replaces all of the parent's children by one run of text.
    SetTextContent(String),
    /// Sets the data of an existing text node.
    SetData(Node, String),
    /// Creates a detached text node that later operations know by this id.
    CreateText(Node, String),
    /// Inserts (or moves) a node before the anchor; with no anchor, at the end.
    InsertBefore(Node, Option<Node>),
    /// Inserts (or moves) a node at the end of the parent.
    AppendChild(Node),
    /// Puts the second node in the place of the first.
    ReplaceWith(Node, Node),
    /// Puts the first node in the place of the second, a child of the parent.
    ReplaceChild(Node, Node),
}

/// The value of a `DomOp`, with text as characters.
pub enum OpView {
    RemoveChild(Node),
    Remove(Node),
    SetTextContent(Seq<char>),
    SetData(Node, Seq<char>),
    CreateText(Node, Seq<char>),
    InsertBefore(Node, Option<Node>),
    AppendChild(Node),
    ReplaceWith(Node, Node),
    ReplaceChild(Node, Node),
}

impl View for DomOp {
    type V = OpView;

    open spec fn view(&self) -> OpView {
        match self {
            DomOp::RemoveChild(n) => OpView::RemoveChild(*n),
            DomOp::Remove(n) => OpView::Remove(*n),
            DomOp::SetTextContent(s) => OpView::SetTextContent(s@),
            DomOp::SetData(n, s) => OpView::SetData(*n, s@),
            DomOp::CreateText(n, s) => OpView::CreateText(*n, s@),
            DomOp::InsertBefore(n, a) => OpView::InsertBefore(*n, *a),
            DomOp::AppendChild(n) => OpView::AppendChild(*n),
            DomOp::ReplaceWith(a, b) => OpView::ReplaceWith(*a, *b),
            DomOp::ReplaceChild(a, b) => OpView::ReplaceChild(*a, *b),
        }
    }
}

/// The values of a list of mutations.
pub open spec fn op_views(ops: Seq<DomOp>) -> Seq<OpView> {
    ops.map_values(|o: DomOp| o@)
}

/// The ids of a list of nodes.
pub open spec fn ids(s: Seq<Node>) -> Seq<u64> {
    s.map_values(|n: Node| n.id)
}

/// `s` without any occurrence of `x`.
pub open spec fn without(s: Seq<u64>, x: u64) -> Seq<u64>
    decreases s.len(),
{
    if s.len() == 0 {
        s
    } else {
        let rest = without(s.drop_last(), x);
        if s.last() == x {
            rest
        } else {
            rest.push(s.last())
        }
    }
}

/// The ids of a region after one removal, or one insertion at the region's end.
pub open spec fn region_step(r: Seq<u64>, op: OpView) -> Seq<u64> {
    match op {
        OpView::Remove(n) => without(r, n.id),
        OpView::RemoveChild(n) => without(r, n.id),
        OpView::InsertBefore(n, _) => without(r, n.id).push(n.id),
        _ => r,
    }
}

/// The ids of a region after a run of removals and insertions at its end.
pub open spec fn region_apply(r: Seq<u64>, ops: Seq<OpView>) -> Seq<u64>
    decreases ops.len(),
{
    if ops.len() == 0 {
        r
    } else {
        region_step(region_apply(r, ops.drop_last()), ops.last())
    }
}

proof fn lemma_without_contains(s: Seq<u64>, x: u64)
    ensures
        forall|y: u64| #[trigger] without(s, x).contains(y) <==> s.contains(y) && y != x,
    decreases s.len(),
{
    if s.len() > 0 {
        let rest = without(s.drop_last(), x);
        lemma_without_contains(s.drop_last(), x);
        assert forall|y: u64| #[trigger] without(s, x).contains(y) <==> s.contains(y) && y != x by {
            if s.contains(y) && y != x {
                let k = choose|k: int| 0 <= k < s.len() && s[k] == y;
                if k < s.len() - 1 {
                    assert(s.drop_last()[k] == y);
                    assert(rest.contains(y));
                    if s.last() != x {
                        let k2 = choose|k2: int| 0 <= k2 < rest.len() && rest[k2] == y;
                        assert(rest.push(s.last())[k2] == y);
                    }
                } else {
                    assert(rest.push(s.last())[rest.len() as int] == y);
                }
            }
            if without(s, x).contains(y) {
                let w = without(s, x);
                let k = choose|k: int| 0 <= k < w.len() && w[k] == y;
                if s.last() == x {
                    assert(rest.contains(y));
                } else if k < rest.len() {
                    assert(rest[k] == y);
                    assert(rest.contains(y));
                } else {
                    assert(y == s.last());
                    assert(s[s.len() - 1] == y);
                }
                if rest.contains(y) {
                    let k2 = choose|k2: int| 0 <= k2 < s.drop_last().len() && s.drop_last()[k2] == y;
                    assert(s[k2] == y);
                }
            }
        }
    }
}

proof fn lemma_without_absent(s: Seq<u64>, x: u64)
    requires
        !s.contains(x),
    ensures
        without(s, x) == s,
    decreases s.len(),
{
    if s.len() > 0 {
        assert(!s.drop_last().contains(x)) by {
            if s.drop_last().contains(x) {
                let k = choose|k: int| 0 <= k < s.drop_last().len() && s.drop_last()[k] == x;
                assert(s[k] == x);
            }
        }
        lemma_without_absent(s.drop_last(), x);
        assert(s.drop_last().push(s.last()) =~= s);
    }
}

proof fn lemma_without_concat(a: Seq<u64>, b: Seq<u64>, x: u64)
    ensures
        without(a + b, x) == without(a, x) + without(b, x),
    decreases b.len(),
{
    if b.len() == 0 {
        assert(a + b =~= a);
        assert(without(a, x) + without(b, x) =~= without(a, x));
    } else {
        assert((a + b).drop_last() =~= a + b.drop_last());
        lemma_without_concat(a, b.drop_last(), x);
        if b.last() != x {
            assert(without(a, x) + without(b.drop_last(), x).push(b.last()) =~= (without(a, x)
                + without(b.drop_last(), x)).push(b.last()));
        }
    }
}

/// The end of the run, from position `i` on, where `a` and `b` hold the same nodes.
pub open spec fn shared_prefix(a: Seq<Node>, b: Seq<Node>, i: int) -> int
    decreases a.len() - i,
{
    if 0 <= i < a.len() && i < b.len() && a[i] == b[i] {
        shared_prefix(a, b, i + 1)
    } else {
        i
    }
}

/// `ops` moves a region from `current` to `new`: it first removes, each once, the
/// nodes of `current` that `new` lacks, then inserts, in order and before `after`,
/// every node of `new` past the run at the front that both lists share, which stays
/// where it is. When neither list repeats a node, the region then holds `new` exactly.
pub open spec fn is_reconciliation(
    current: Seq<Node>,
    new: Seq<Node>,
    after: Option<Node>,
    ops: Seq<OpView>,
) -> bool {
    let p = shared_prefix(current, new, 0);
    let base = ops.len() - (new.len() - p);
    &&& 0 <= p <= new.len()
    &&& ops.len() >= new.len() - p
    &&& forall|t: int|
        0 <= t < base ==> match #[trigger] ops[t] {
            OpView::Remove(n) => !ids(new).contains(n.id) && ids(current).contains(n.id),
            _ => false,
        }
    &&& forall|t: int|
        base <= t < ops.len() ==> #[trigger] ops[t] == OpView::InsertBefore(new[p + t - base], after)
    &&& ids(new).no_duplicates() && ids(current).no_duplicates() ==> region_apply(ids(current), ops)
        == ids(new)
}

proof fn lemma_apply_push(r: Seq<u64>, ops: Seq<DomOp>, op: DomOp)
    ensures
        op_views(ops.push(op)) == op_views(ops).push(op@),
        region_apply(r, op_views(ops.push(op))) == region_step(region_apply(r, op_views(ops)), op@),
{
    assert(op_views(ops.push(op)) =~= op_views(ops).push(op@));
    assert(op_views(ops.push(op)).drop_last() =~= op_views(ops));
}

/// Moves the region from the nodes `current` to the nodes `new_nodes`.
///
/// Nodes of `current` that `new_nodes` lacks are removed. The run at the front that
/// both lists share stays in place; each later new node, in order, is inserted (or
/// moved) before `after`, the node that follows the region. A node present in both
/// lists is moved, never recreated.
pub fn reconcile_arrays(current: &Vec<Node>, new_nodes: &Vec<Node>, after: Option<Node>) -> (ops: Vec<DomOp>)
    ensures
        is_reconciliation(current@, new_nodes@, after, op_views(ops@)),
{
    let ghost cur = ids(current@);
    let ghost new = ids(new_nodes@);
    let mut wanted: HashSet<u64> = HashSet::new();
    let mut k: usize = 0;
    while k < new_nodes.len()
        invariant
            k <= new_nodes@.len(),
            new == ids(new_nodes@),
            forall|y: u64| wanted@.contains(y) <==> new.take(k as int).contains(y),
        decreases new_nodes@.len() - k,
    {
        let ghost before = new.take(k as int);
        let id = new_nodes[k].id;
        wanted.insert(id);
        assert(new.take(k + 1) =~= before.push(id));
        assert forall|y: u64| wanted@.contains(y) <==> before.push(id).contains(y) by {
            if before.contains(y) {
                let t = choose|t: int| 0 <= t < before.len() && before[t] == y;
                assert(before.push(id)[t] == y);
            }
            if y == id {
                assert(before.push(id)[before.len() as int] == y);
            }
            if before.push(id).contains(y) && y != id {
                let t = choose|t: int| 0 <= t < before.len() + 1 && before.push(id)[t] == y;
                assert(before[t] == y);
            }
        }
        k += 1;
    }
    assert(new.take(new_nodes@.len() as int) =~= new);

    let mut p: usize = 0;
    while p < current.len() && p < new_nodes.len() && current[p] == new_nodes[p]
        invariant
            p <= current@.len(),
            p <= new_nodes@.len(),
            shared_prefix(current@, new_nodes@, 0) == shared_prefix(current@, new_nodes@, p as int),
            forall|t: int| 0 <= t < p ==> current@[t] == new_nodes@[t],
        decreases current@.len() - p,
    {
        p += 1;
    }
    assert(shared_prefix(current@, new_nodes@, p as int) == p);
    assert(cur.take(p as int) =~= new.take(p as int));

    let mut ops: Vec<DomOp> = Vec::new();
    let ghost mut r: Seq<u64> = cur;
    let ghost mut rest: Seq<u64> = cur.subrange(p as int, cur.len() as int);
    assert(cur.subrange(0, cur.len() as int) =~= cur);
    assert(cur =~= cur.take(p as int) + rest);
    let mut i: usize = 0;
    while i < current.len()
        invariant
            i <= current@.len(),
            cur == ids(current@),
            new == ids(new_nodes@),
            forall|y: u64| wanted@.contains(y) <==> new.contains(y),
            r == region_apply(cur, op_views(ops@)),
            forall|t: int|
                0 <= t < ops@.len() ==> match #[trigger] op_views(ops@)[t] {
                    OpView::Remove(n) => !new.contains(n.id) && cur.contains(n.id),
                    _ => false,
                },
            forall|y: u64| #[trigger] r.contains(y) ==> new.contains(y) || cur.subrange(i as int, cur.len() as int).contains(y),
            p <= new.len(),
            p <= cur.len(),
            cur.take(p as int) == new.take(p as int),
            r == cur.take(p as int) + rest,
            forall|y: u64| #[trigger] rest.contains(y) ==> cur.subrange(p as int, cur.len() as int).contains(y),
        decreases current@.len() - i,
    {
        let node = current[i];
        let ghost r0 = r;
        assert(cur[i as int] == node.id);
        if !wanted.contains(&node.id) {
            proof {
                lemma_apply_push(cur, ops@, DomOp::Remove(node));
                lemma_without_contains(r0, node.id);
                assert(cur.contains(node.id));
            }
            ops.push(DomOp::Remove(node));
            proof {
                let rest0 = rest;
                assert(!cur.take(p as int).contains(node.id)) by {
                    if cur.take(p as int).contains(node.id) {
                        let t = choose|t: int| 0 <= t < p && cur.take(p as int)[t] == node.id;
                        assert(new.take(p as int)[t] == node.id);
                        assert(new[t] == node.id);
                        assert(new.contains(node.id));
                    }
                }
                lemma_without_concat(cur.take(p as int), rest0, node.id);
                lemma_without_absent(cur.take(p as int), node.id);
                lemma_without_contains(rest0, node.id);
                r = without(r0, node.id);
                rest = without(rest0, node.id);
            }
        }
        assert forall|y: u64| #[trigger] r.contains(y) implies new.contains(y) || cur.subrange(
            i + 1,
            cur.len() as int,
        ).contains(y) by {
            if !new.contains(y) {
                assert(r0.contains(y));
                let t = choose|t: int| 0 <= t < cur.len() - i && cur.subrange(i as int, cur.len() as int)[t] == y;
                if t > 0 {
                    assert(cur.subrange(i + 1, cur.len() as int)[t - 1] == y);
                }
            }
        }
        i += 1;
    }
    assert(cur.subrange(current@.len() as int, cur.len() as int) =~= Seq::<u64>::empty());

    let ghost both_distinct = new.no_duplicates() && cur.no_duplicates();
    proof {
        if both_distinct {
            assert forall|y: u64| #[trigger] rest.contains(y) implies new.subrange(p as int, new.len() as int).contains(y) by {
                assert(r.contains(y)) by {
                    let t = choose|t: int| 0 <= t < rest.len() && rest[t] == y;
                    assert(r[p + t] == y);
                }
                let w = choose|w: int| 0 <= w < new.len() && new[w] == y;
                let q = choose|q: int| 0 <= q < cur.len() - p && cur.subrange(p as int, cur.len() as int)[q] == y;
                if w < p {
                    assert(cur.take(p as int)[w] == new.take(p as int)[w]);
                    assert(cur[w] == y);
                    assert(cur[p + q] == y);
                }
                assert(new.subrange(p as int, new.len() as int)[w - p] == y);
            }
        }
    }
    assert(new.subrange(p as int, p as int) =~= Seq::<u64>::empty());
    assert(r =~= new.take(p as int) + rest + new.subrange(p as int, p as int));

    let base = ops.len();
    let ghost mut s: Seq<u64> = rest;
    let mut k: usize = p;
    while k < new_nodes.len()
        invariant
            p <= k <= new_nodes@.len(),
            new == ids(new_nodes@),
            ops@.len() == base + (k - p),
            r == region_apply(cur, op_views(ops@)),
            forall|t: int|
                0 <= t < base ==> match #[trigger] op_views(ops@)[t] {
                    OpView::Remove(n) => !new.contains(n.id) && cur.contains(n.id),
                    _ => false,
                },
            forall|t: int|
                base <= t < ops@.len() ==> #[trigger] op_views(ops@)[t] == OpView::InsertBefore(new_nodes@[p + t - base], after),
            both_distinct ==> new.no_duplicates(),
            both_distinct ==> {
                &&& r == new.take(p as int) + s + new.subrange(p as int, k as int)
                &&& forall|y: u64| #[trigger] s.contains(y) ==> new.subrange(k as int, new.len() as int).contains(y)
            },
        decreases new_nodes@.len() - k,
    {
        let node = new_nodes[k];
        let ghost r0 = r;
        let ghost s0 = s;
        proof {
            lemma_apply_push(cur, ops@, DomOp::InsertBefore(node, after));
        }
        ops.push(DomOp::InsertBefore(node, after));
        proof {
            r = without(r0, node.id).push(node.id);
            s = without(s0, node.id);
            if both_distinct {
                let front = new.take(p as int);
                let mid = new.subrange(p as int, k as int);
                assert(new[k as int] == node.id);
                assert(!front.contains(node.id)) by {
                    if front.contains(node.id) {
                        let t = choose|t: int| 0 <= t < p && front[t] == node.id;
                        assert(new[t] == new[k as int]);
                    }
                }
                assert(!mid.contains(node.id)) by {
                    if mid.contains(node.id) {
                        let t = choose|t: int| 0 <= t < k - p && mid[t] == node.id;
                        assert(new[p + t] == new[k as int]);
                    }
                }
                lemma_without_concat(front + s0, mid, node.id);
                lemma_without_concat(front, s0, node.id);
                lemma_without_absent(front, node.id);
                lemma_without_absent(mid, node.id);
                assert(new.subrange(p as int, k + 1) =~= mid.push(node.id));
                assert(r =~= front + s + new.subrange(p as int, k + 1));
                lemma_without_contains(s0, node.id);
                assert forall|y: u64| #[trigger] s.contains(y) implies new.subrange(k + 1, new.len() as int).contains(y) by {
                    let t = choose|t: int| 0 <= t < new.len() - k && new.subrange(k as int, new.len() as int)[t] == y;
                    assert(t != 0);
                    assert(new.subrange(k + 1, new.len() as int)[t - 1] == y);
                }
            }
        }
        k += 1;
    }
    proof {
        if both_distinct {
            if s.len() > 0 {
                assert(s.contains(s[0]));
            }
            assert(new.take(p as int) + new.subrange(p as int, new.len() as int) =~= new);
            assert(r =~= new);
        }
    }
    ops
}

/// What the patcher reads of the live tree before it decides.
#[derive(Clone, Copy, Debug)]
pub struct TreeFacts {
    /// The marker's node is part of the document.
    pub marker_connected: bool,
    /// The parent's first child.
    pub first_child: Option<Node>,
    /// The first node of the current node list is still a child of the parent.
    pub first_attached: bool,
    /// The node that follows the last node of the current node list.
    pub after_current: Option<Node>,
    /// An id that no node has yet, for the text node that a patch may create.
    pub fresh_id: u64,
}

/// The mutations that bring a region up to date, and what the region holds afterwards.
pub struct Patch {
    pub ops: Vec<DomOp>,
    pub state: Child,
}

/// The text node that a patch creates under a fresh id.
pub open spec fn text_node(id: u64) -> Node {
    Node { id, is_text: true }
}

/// A region state that fits its marker: a bare run of text is only the content of a
/// parent of its own.
pub open spec fn fits(state: ChildView, marker: Marker) -> bool {
    state is Text ==> marker == Marker::NoChildren
}

/// A value that rendering code hands in, as opposed to a state that only a patch makes.
pub open spec fn is_value(v: ChildView) -> bool {
    !(v is TextNode)
}

/// An empty node list and an absent value are the same empty region.
pub open spec fn normal(v: ChildView) -> ChildView {
    if v is Nodes && v->Nodes_0.len() == 0 {
        ChildView::Null
    } else {
        v
    }
}

/// The region in state `state` already shows the value `new`.
pub open spec fn shows(state: ChildView, new: ChildView) -> bool {
    normal(state) == normal(new) || (state is TextNode && new is Text && state->TextNode_1
        == new->Text_0)
}

/// Where a node goes when it joins the region: before a connected marker node, else
/// at the end of the parent.
pub open spec fn place(n: Node, marker: Marker, facts: TreeFacts) -> OpView {
    match marker {
        Marker::BeforeChild(m) => if facts.marker_connected {
            OpView::InsertBefore(n, Some(m))
        } else {
            OpView::AppendChild(n)
        },
        _ => OpView::AppendChild(n),
    }
}

/// Placing each node of `v`, in order.
pub open spec fn places(v: Seq<Node>, marker: Marker, facts: TreeFacts) -> Seq<OpView> {
    v.map_values(|n: Node| place(n, marker, facts))
}

/// Detaching each node of `v`, in order.
pub open spec fn removes(v: Seq<Node>) -> Seq<OpView> {
    v.map_values(|n: Node| OpView::Remove(n))
}

/// What empties the region: its own nodes are detached; a parent that holds only the
/// region loses all its content at once.
pub open spec fn clear_ops(current: ChildView, marker: Marker) -> Seq<OpView> {
    match current {
        ChildView::Null => seq![],
        ChildView::Text(_) => seq![OpView::SetTextContent(seq![])],
        ChildView::TextNode(n, _) => seq![OpView::RemoveChild(n)],
        ChildView::Node(n) => seq![OpView::RemoveChild(n)],
        ChildView::Nodes(v) => if v.len() == 0 {
            seq![]
        } else if marker == Marker::NoChildren {
            seq![OpView::SetTextContent(seq![])]
        } else {
            removes(v)
        },
    }
}

/// Writing the text `d` into the region. A text node that the region already shows
/// changes in place; otherwise a text node is created and takes the region's place.
/// A parent that holds only the region holds the text as its content.
pub open spec fn text_patch(d: Seq<char>, current: ChildView, marker: Marker, facts: TreeFacts) -> (
    Seq<OpView>,
    ChildView,
) {
    let t = text_node(facts.fresh_id);
    let fresh = (
        seq![OpView::CreateText(t, d)] + clear_ops(current, marker) + seq![place(t, marker, facts)],
        ChildView::TextNode(t, d),
    );
    if marker == Marker::NoChildren {
        let ops = if current is Text && facts.first_child is Some && facts.first_child->Some_0.is_text {
            seq![OpView::SetData(facts.first_child->Some_0, d)]
        } else {
            seq![OpView::SetTextContent(d)]
        };
        (ops, ChildView::Text(d))
    } else {
        match current {
            ChildView::TextNode(n, _) => (seq![OpView::SetData(n, d)], ChildView::TextNode(n, d)),
            ChildView::Node(n) => if n.is_text {
                (seq![OpView::SetData(n, d)], ChildView::TextNode(n, d))
            } else {
                (seq![OpView::CreateText(t, d), OpView::ReplaceChild(t, n)], ChildView::TextNode(t, d))
            },
            ChildView::Nodes(v) => if v.len() > 0 && v[0].is_text {
                (
                    seq![OpView::SetData(v[0], d)] + removes(v.subrange(1, v.len() as int)),
                    ChildView::TextNode(v[0], d),
                )
            } else {
                fresh
            },
            _ => fresh,
        }
    }
}

/// Putting the single node `node` in the region.
pub open spec fn node_ops(node: Node, current: ChildView, marker: Marker, facts: TreeFacts) -> Seq<
    OpView,
> {
    match current {
        ChildView::Null => seq![place(node, marker, facts)],
        ChildView::Text(_) => match facts.first_child {
            Some(c) => seq![OpView::ReplaceChild(node, c)],
            None => seq![OpView::AppendChild(node)],
        },
        ChildView::TextNode(old, _) => seq![OpView::ReplaceWith(old, node)],
        ChildView::Node(old) => seq![OpView::ReplaceWith(old, node)],
        ChildView::Nodes(_) => clear_ops(current, marker) + seq![place(node, marker, facts)],
    }
}

/// `ops` and `state` are what patching the region from `current` to `new` gives.
pub open spec fn is_patch(
    new: ChildView,
    current: ChildView,
    marker: Marker,
    facts: TreeFacts,
    ops: Seq<OpView>,
    state: ChildView,
) -> bool {
    let v = normal(new);
    if shows(current, new) {
        ops == Seq::<OpView>::empty() && state == current
    } else {
        match v {
            ChildView::Null => ops == clear_ops(current, marker) && state == ChildView::Null,
            ChildView::Text(d) => (ops, state) == text_patch(d, current, marker, facts),
            ChildView::Node(node) => state == v && ops == node_ops(node, current, marker, facts),
            ChildView::Nodes(list) => state == v && if current is Nodes && current->Nodes_0.len() > 0 {
                is_reconciliation(current->Nodes_0, list, facts.after_current, ops)
            } else {
                ops == clear_ops(current, marker) + places(list, marker, facts)
            },
            ChildView::TextNode(_, _) => ops == Seq::<OpView>::empty() && state == current,
        }
    }
}

proof fn lemma_push_view(ops: Seq<DomOp>, op: DomOp)
    ensures
        op_views(ops.push(op)) == op_views(ops).push(op@),
{
    assert(op_views(ops.push(op)) =~= op_views(ops).push(op@));
}

fn append_ops(ops: &mut Vec<DomOp>, more: Vec<DomOp>)
    ensures
        op_views(final(ops)@) == op_views(old(ops)@) + op_views(more@),
{
    let ghost a = ops@;
    let ghost b = more@;
    let mut more = more;
    ops.append(&mut more);
    assert(op_views(ops@) =~= op_views(a) + op_views(b));
}

fn place_op(n: Node, marker: &Marker, facts: &TreeFacts) -> (r: DomOp)
    ensures
        r@ == place(n, *marker, *facts),
{
    match marker {
        Marker::BeforeChild(m) => if facts.marker_connected {
            DomOp::InsertBefore(n, Some(*m))
        } else {
            DomOp::AppendChild(n)
        },
        _ => DomOp::AppendChild(n),
    }
}

fn placement_ops(v: &Vec<Node>, marker: &Marker, facts: &TreeFacts) -> (r: Vec<DomOp>)
    ensures
        op_views(r@) == places(v@, *marker, *facts),
{
    let mut r: Vec<DomOp> = Vec::new();
    let mut k: usize = 0;
    while k < v.len()
        invariant
            k <= v@.len(),
            op_views(r@) == places(v@.take(k as int), *marker, *facts),
        decreases v@.len() - k,
    {
        let op = place_op(v[k], marker, facts);
        proof {
            lemma_push_view(r@, op);
        }
        r.push(op);
        k += 1;
        assert(places(v@.take(k as int), *marker, *facts) =~= places(v@.take(k - 1), *marker, *facts).push(
            op@,
        ));
    }
    assert(v@.take(v@.len() as int) =~= v@);
    r
}

fn removal_ops(v: &Vec<Node>, from: usize) -> (r: Vec<DomOp>)
    requires
        from <= v@.len(),
    ensures
        op_views(r@) == removes(v@.subrange(from as int, v@.len() as int)),
{
    let mut r: Vec<DomOp> = Vec::new();
    let mut k: usize = from;
    while k < v.len()
        invariant
            from <= k <= v@.len(),
            op_views(r@) == removes(v@.subrange(from as int, k as int)),
        decreases v@.len() - k,
    {
        let op = DomOp::Remove(v[k]);
        proof {
            lemma_push_view(r@, op);
        }
        r.push(op);
        k += 1;
        assert(removes(v@.subrange(from as int, k as int)) =~= removes(
            v@.subrange(from as int, k - 1),
        ).push(op@));
    }
    r
}

fn clear_region(current: &Child, marker: &Marker) -> (r: Vec<DomOp>)
    ensures
        op_views(r@) == clear_ops(current@, *marker),
{
    let r = match current {
        Child::Null => Vec::new(),
        Child::Text(_) => vec![DomOp::SetTextContent(String::new())],
        Child::TextNode(n, _) => vec![DomOp::RemoveChild(*n)],
        Child::Node(n) => vec![DomOp::RemoveChild(*n)],
        Child::Nodes(v) => if v.len() == 0 {
            Vec::new()
        } else if let Marker::NoChildren = marker {
            vec![DomOp::SetTextContent(String::new())]
        } else {
            let r = removal_ops(v, 0);
            assert(v@.subrange(0, v@.len() as int) =~= v@);
            r
        },
    };
    assert(op_views(r@) =~= clear_ops(current@, *marker));
    r
}

/// Empties the region and, when `replacement` is given, puts that node in its place.
pub fn clean_children(current: &Child, marker: &Marker, replacement: Option<Node>, facts: &TreeFacts) -> (r: Patch)
    ensures
        replacement is None ==> op_views(r.ops@) == clear_ops(current@, *marker) && r.state@
            == ChildView::Null,
        replacement matches Some(n) ==> op_views(r.ops@) == clear_ops(current@, *marker) + seq![
            place(n, *marker, *facts),
        ] && r.state@ == ChildView::Node(n),
{
    let mut ops = clear_region(current, marker);
    match replacement {
        Some(n) => {
            let op = place_op(n, marker, facts);
            proof {
                lemma_push_view(ops@, op);
            }
            ops.push(op);
            Patch { ops, state: Child::Node(n) }
        },
        None => Patch { ops, state: Child::Null },
    }
}

/// Whether two region values are equal.
pub fn same_child(a: &Child, b: &Child) -> (r: bool)
    ensures
        r == (a@ == b@),
{
    match (a, b) {
        (Child::Null, Child::Null) => true,
        (Child::Text(x), Child::Text(y)) => {
            let r = *x == *y;
            assert(r == (x@ == y@));
            r
        },
        (Child::TextNode(m, x), Child::TextNode(n, y)) => *m == *n && *x == *y,
        (Child::Node(x), Child::Node(y)) => *x == *y,
        (Child::Nodes(x), Child::Nodes(y)) => {
            if x.len() != y.len() {
                return false;
            }
            let mut k: usize = 0;
            while k < x.len()
                invariant
                    a@ == ChildView::Nodes(x@),
                    b@ == ChildView::Nodes(y@),
                    k <= x@.len(),
                    x@.len() == y@.len(),
                    forall|w: int| 0 <= w < k ==> x@[w] == y@[w],
                decreases x@.len() - k,
            {
                if !(x[k] == y[k]) {
                    assert(x@[k as int] != y@[k as int]);
                    return false;
                }
                k += 1;
            }
            assert(x@ =~= y@);
            true
        },
        _ => false,
    }
}

fn is_empty_region(c: &Child) -> (r: bool)
    ensures
        r == (normal(c@) == ChildView::Null),
{
    match c {
        Child::Null => true,
        Child::Nodes(v) => v.len() == 0,
        _ => false,
    }
}

/// Whether the region in state `state` already shows the value `new`.
pub fn shows_value(state: &Child, new: &Child) -> (r: bool)
    ensures
        r == shows(state@, new@),
{
    if is_empty_region(state) || is_empty_region(new) {
        return is_empty_region(state) && is_empty_region(new);
    }
    if same_child(state, new) {
        return true;
    }
    match (state, new) {
        (Child::TextNode(_, s), Child::Text(d)) => *s == *d,
        _ => false,
    }
}

/// Writes the text `data` into the region; see `text_patch`.
pub fn insert_str(data: &String, marker: &Marker, current: Child, facts: &TreeFacts) -> (r: Patch)
    ensures
        (op_views(r.ops@), r.state@) == text_patch(data@, current@, *marker, *facts),
{
    let t = Node { id: facts.fresh_id, is_text: true };
    if let Marker::NoChildren = marker {
        let in_place = match (&current, facts.first_child) {
            (Child::Text(_), Some(c)) => c.is_text,
            _ => false,
        };
        let op = if in_place {
            match facts.first_child {
                Some(c) => DomOp::SetData(c, data.clone()),
                None => DomOp::SetTextContent(data.clone()),
            }
        } else {
            DomOp::SetTextContent(data.clone())
        };
        let ops = vec![op];
        assert(op_views(ops@) =~= seq![op@]);
        return Patch { ops, state: Child::Text(data.clone()) };
    }
    let reuse: Option<Node> = match &current {
        Child::TextNode(n, _) => Some(*n),
        Child::Node(n) => if n.is_text {
            Some(*n)
        } else {
            None
        },
        Child::Nodes(v) => if v.len() > 0 && v[0].is_text {
            Some(v[0])
        } else {
            None
        },
        _ => None,
    };
    match reuse {
        Some(n) => {
            let mut ops = vec![DomOp::SetData(n, data.clone())];
            assert(op_views(ops@) =~= seq![OpView::SetData(n, data@)]);
            if let Child::Nodes(v) = &current {
                let rest = removal_ops(v, 1);
                append_ops(&mut ops, rest);
            } else {
            }
            Patch { ops, state: Child::TextNode(n, data.clone()) }
        },
        None => {
            if let Child::Node(n) = &current {
                let ops = vec![DomOp::CreateText(t, data.clone()), DomOp::ReplaceChild(t, *n)];
                assert(op_views(ops@) =~= seq![OpView::CreateText(t, data@), OpView::ReplaceChild(t, *n)]);
                return Patch { ops, state: Child::TextNode(t, data.clone()) };
            }
            let mut ops = vec![DomOp::CreateText(t, data.clone())];
            assert(op_views(ops@) =~= seq![OpView::CreateText(t, data@)]);
            let cleared = clear_region(&current, marker);
            append_ops(&mut ops, cleared);
            let op = place_op(t, marker, facts);
            proof {
                lemma_push_view(ops@, op);
            }
            ops.push(op);
            Patch { ops, state: Child::TextNode(t, data.clone()) }
        },
    }
}

fn copy_nodes(v: &Vec<Node>) -> (r: Vec<Node>)
    ensures
        r@ == v@,
{
    let mut r: Vec<Node> = Vec::with_capacity(v.len());
    let mut k: usize = 0;
    while k < v.len()
        invariant
            k <= v@.len(),
            r@ == v@.take(k as int),
        decreases v@.len() - k,
    {
        r.push(v[k]);
        k += 1;
        assert(r@ =~= v@.take(k as int));
    }
    assert(v@.take(v@.len() as int) =~= v@);
    r
}

/// Brings a region of a parent from `current` to `new_value`, and returns the
/// mutations with what the region holds afterwards.
///
/// A region that already shows the value is left alone. An empty node list is an
/// absent value. Text changes an existing text node in place where the region shows
/// one. A node list that replaces a node list goes through `reconcile_arrays`, which
/// moves the nodes the two lists share instead of recreating them.
pub fn insert_expression(new_value: &Child, current: Child, before: &Marker, facts: &TreeFacts) -> (r: Patch)
    requires
        is_value(new_value@),
        fits(current@, *before),
    ensures
        is_patch(new_value@, current@, *before, *facts, op_views(r.ops@), r.state@),
        fits(r.state@, *before),
{
    if shows_value(&current, new_value) {
        let ops: Vec<DomOp> = Vec::new();
        assert(op_views(ops@) =~= Seq::<OpView>::empty());
        return Patch { ops, state: current };
    }
    if is_empty_region(new_value) {
        return clean_children(&current, before, None, facts);
    }
    match new_value {
        Child::Null => clean_children(&current, before, None, facts),
        Child::Text(data) => insert_str(data, before, current, facts),
        Child::TextNode(_, _) => Patch { ops: Vec::new(), state: current },
        Child::Node(node) => {
            let node = *node;
            match current {
                Child::Nodes(_) => clean_children(&current, before, Some(node), facts),
                Child::Null => {
                    let op = place_op(node, before, facts);
                    let ops = vec![op];
                    assert(op_views(ops@) =~= seq![op@]);
                    Patch { ops, state: Child::Node(node) }
                },
                Child::Text(_) => {
                    let op = match facts.first_child {
                        Some(c) => DomOp::ReplaceChild(node, c),
                        None => DomOp::AppendChild(node),
                    };
                    let ops = vec![op];
                    assert(op_views(ops@) =~= seq![op@]);
                    Patch { ops, state: Child::Node(node) }
                },
                Child::TextNode(old_node, _) => {
                    let ops = vec![DomOp::ReplaceWith(old_node, node)];
                    assert(op_views(ops@) =~= seq![OpView::ReplaceWith(old_node, node)]);
                    Patch { ops, state: Child::Node(node) }
                },
                Child::Node(old_node) => {
                    let ops = vec![DomOp::ReplaceWith(old_node, node)];
                    assert(op_views(ops@) =~= seq![OpView::ReplaceWith(old_node, node)]);
                    Patch { ops, state: Child::Node(node) }
                },
            }
        },
        Child::Nodes(new_nodes) => {
            let current_nonempty = match &current {
                Child::Nodes(c) => c.len() > 0,
                _ => false,
            };
            if current_nonempty {
                let ops = match &current {
                    Child::Nodes(c) => reconcile_arrays(c, new_nodes, facts.after_current),
                    _ => Vec::new(),
                };
                return Patch { ops, state: Child::Nodes(copy_nodes(new_nodes)) };
            }
            let mut ops = clear_region(&current, before);
            let placed = placement_ops(new_nodes, before, facts);
            append_ops(&mut ops, placed);
            Patch { ops, state: Child::Nodes(copy_nodes(new_nodes)) }
        },
    }
}

/// Patching a region a second time with the value it was just patched to mutates
/// nothing and leaves the state as it was, for every value.
pub proof fn lemma_patch_twice_is_silent(
    new: ChildView,
    current: ChildView,
    marker: Marker,
    facts1: TreeFacts,
    ops1: Seq<OpView>,
    state1: ChildView,
    facts2: TreeFacts,
    ops2: Seq<OpView>,
    state2: ChildView,
)
    requires
        is_value(new),
        is_patch(new, current, marker, facts1, ops1, state1),
        is_patch(new, state1, marker, facts2, ops2, state2),
    ensures
        shows(state1, new),
        ops2.len() == 0,
        state2 == state1,
{
}

/// An empty node list patches a region exactly as an absent value does.
pub proof fn lemma_empty_list_is_absent(
    current: ChildView,
    marker: Marker,
    facts: TreeFacts,
    ops1: Seq<OpView>,
    state1: ChildView,
    ops2: Seq<OpView>,
    state2: ChildView,
)
    requires
        is_patch(ChildView::Nodes(seq![]), current, marker, facts, ops1, state1),
        is_patch(ChildView::Null, current, marker, facts, ops2, state2),
    ensures
        ops1 == ops2,
        state1 == state2,
{
    assert(normal(ChildView::Nodes(seq![])) == ChildView::Null);
}

/// Text written over a region that already shows a text node `n` changes the data of
/// `n` and does nothing else: no node is removed or created.
pub proof fn lemma_text_changes_in_place(
    data: Seq<char>,
    current: ChildView,
    marker: Marker,
    facts: TreeFacts,
    n: Node,
    ops: Seq<OpView>,
    state: ChildView,
)
    requires
        n.is_text,
        marker != Marker::NoChildren && (current == ChildView::Node(n) || current is TextNode
            && current->TextNode_0 == n) || marker == Marker::NoChildren && current is Text
            && facts.first_child == Some(n),
        !shows(current, ChildView::Text(data)),
        is_patch(ChildView::Text(data), current, marker, facts, ops, state),
    ensures
        ops == seq![OpView::SetData(n, data)],
{
}

/// A node list patched over a non-empty node list leaves the region holding the ids
/// of the new list, in its order, when neither list holds a node twice.
pub proof fn lemma_node_list_order(
    v: Seq<Node>,
    c: Seq<Node>,
    marker: Marker,
    facts: TreeFacts,
    ops: Seq<OpView>,
    state: ChildView,
)
    requires
        v.len() > 0,
        c.len() > 0,
        ids(v).no_duplicates(),
        ids(c).no_duplicates(),
        is_patch(ChildView::Nodes(v), ChildView::Nodes(c), marker, facts, ops, state),
    ensures
        region_apply(ids(c), ops) == ids(v),
        state == ChildView::Nodes(v),
{
    if v == c {
        assert(ops.len() == 0);
    }
}

/// The ids of the nodes that a region state shows.
pub open spec fn shown_ids(state: ChildView) -> Seq<u64> {
    match state {
        ChildView::TextNode(n, _) => seq![n.id],
        ChildView::Node(n) => seq![n.id],
        ChildView::Nodes(v) => ids(v),
        _ => seq![],
    }
}

proof fn lemma_removes_leave(r: Seq<u64>, v: Seq<Node>)
    ensures
        forall|y: u64| #[trigger] region_apply(r, removes(v)).contains(y) ==> r.contains(y) && !ids(
            v,
        ).contains(y),
    decreases v.len(),
{
    if v.len() > 0 {
        let w = v.drop_last();
        lemma_removes_leave(r, w);
        assert(removes(v).drop_last() =~= removes(w));
        let before = region_apply(r, removes(w));
        lemma_without_contains(before, v.last().id);
        assert forall|y: u64| #[trigger] region_apply(r, removes(v)).contains(y) implies r.contains(y)
            && !ids(v).contains(y) by {
            if ids(v).contains(y) {
                let k = choose|k: int| 0 <= k < v.len() && ids(v)[k] == y;
                if k < w.len() {
                    assert(ids(w)[k] == y);
                }
            }
        }
    }
}

/// Clearing a region under a marker detaches every node that the region showed:
/// replayed on the ids of those nodes, the clearing leaves none.
pub proof fn lemma_clear_empties_region(current: ChildView, marker: Marker)
    requires
        marker != Marker::NoChildren,
        fits(current, marker),
    ensures
        region_apply(shown_ids(current), clear_ops(current, marker)).len() == 0,
{
    let r = shown_ids(current);
    let ops = clear_ops(current, marker);
    match current {
        ChildView::Nodes(v) => {
            if v.len() > 0 {
                lemma_removes_leave(r, v);
                let left = region_apply(r, ops);
                if left.len() > 0 {
                    assert(left.contains(left[0]));
                }
            }
        },
        ChildView::Node(n) => {
            assert(ops.drop_last() =~= Seq::<OpView>::empty());
            assert(region_apply(r, ops.drop_last()) == r);
            lemma_without_contains(r, n.id);
            let left = region_apply(r, ops);
            assert(left == without(r, n.id));
            if left.len() > 0 {
                assert(left.contains(left[0]));
                let k = choose|k: int| 0 <= k < r.len() && r[k] == left[0];
                assert(r[k] == n.id);
            }
        },
        ChildView::TextNode(n, _) => {
            assert(ops.drop_last() =~= Seq::<OpView>::empty());
            assert(region_apply(r, ops.drop_last()) == r);
            lemma_without_contains(r, n.id);
            let left = region_apply(r, ops);
            assert(left == without(r, n.id));
            if left.len() > 0 {
                assert(left.contains(left[0]));
                let k = choose|k: int| 0 <= k < r.len() && r[k] == left[0];
                assert(r[k] == n.id);
            }
        },
        _ => {},
    }
}

} // verus!
