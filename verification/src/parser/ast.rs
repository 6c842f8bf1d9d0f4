//! The AST container: an ordered sequence of instruction nodes, each of which
//! may own a nested sub-tree (the body of a loop), together with the
//! mathematical model of such trees and the structural facts the builder and
//! the analyzers rely on.

use vstd::prelude::*;

verus! {

/// The instruction kinds of the eight-operator language. `Nop` exists only so
/// that matching on a character can be total; it must never appear in a tree
/// built from a filtered stream.
#[derive(Clone, Copy, Debug, PartialEq, Eq, Structural)]
pub enum NodeType {
    PtrInc,
    PtrDec,
    CellInc,
    CellDec,
    PutChar,
    ReadChar,
    WhileBegin,
    WhileEnd,
    Nop,
}

/// One instruction node: a tag and, for a loop-begin node, exclusive
/// ownership of the nested body.
#[derive(Debug)]
pub struct AstNode {
    pub ty: NodeType,
    pub body: Option<Box<Ast>>,
}

/// An ordered sequence of instruction nodes. Order is append order and is
/// semantically meaningful. The sequence is backed by a dynamic array so that
/// `push`, `set_last_body` and indexed reads cost O(1) (amortized), not
/// O(length).
#[derive(Debug)]
pub struct Ast {
    nodes: Vec<AstNode>,
}

/// The mathematical model of one node: its tag, and the model of its body if
/// it has one.
pub ghost struct NodeView {
    pub ty: NodeType,
    pub body: Option<Seq<NodeView>>,
}

/// The model of a node, bodies modelled recursively.
pub open spec fn node_view(n: AstNode) -> NodeView
    decreases n,
{
    NodeView {
        ty: n.ty,
        body: match n.body {
            Option::Some(b) => Option::Some(ast_view(*b)),
            Option::None => Option::None,
        },
    }
}

/// The model of a node sequence, element by element.
pub open spec fn nodes_view(v: Seq<AstNode>) -> Seq<NodeView>
    decreases v,
{
    if v.len() == 0 {
        Seq::empty()
    } else {
        nodes_view(v.drop_last()).push(node_view(v.last()))
    }
}

/// The model of a whole tree: the models of its nodes, in order. The backing
/// array stays private; every operation states its effect on this model.
pub closed spec fn ast_view(a: Ast) -> Seq<NodeView>
    decreases a,
{
    nodes_view(a.nodes@)
}

impl View for Ast {
    type V = Seq<NodeView>;

    open spec fn view(&self) -> Seq<NodeView> {
        ast_view(*self)
    }
}

impl View for AstNode {
    type V = NodeView;

    open spec fn view(&self) -> NodeView {
        node_view(*self)
    }
}

/// The model of an optional boxed body.
pub open spec fn body_view(b: Option<Box<Ast>>) -> Option<Seq<NodeView>> {
    match b {
        Option::Some(a) => Option::Some(ast_view(*a)),
        Option::None => Option::None,
    }
}

/// A borrowing cursor over a tree: yields each node's tag and body by
/// reference, in insertion order, without consuming the tree.
pub struct Iter<'a> {
    ast: &'a Ast,
    pos: usize,
}

/// A consuming cursor over a tree: repeatedly removes the first node,
/// exhausting and emptying the tree as it proceeds.
pub struct IntoIter(Ast);

/// The character a tag is written as; the placeholder tag, which no valid
/// tree contains, is written as a character outside the alphabet.
pub open spec fn tag_char(t: NodeType) -> char {
    match t {
        NodeType::PtrInc => '>',
        NodeType::PtrDec => '<',
        NodeType::CellInc => '+',
        NodeType::CellDec => '-',
        NodeType::PutChar => '.',
        NodeType::ReadChar => ',',
        NodeType::WhileBegin => '[',
        NodeType::WhileEnd => ']',
        NodeType::Nop => '?',
    }
}

/// The depth-first, in-order serialization of one node: its own character,
/// followed by the serialization of its body at the point of occurrence.
pub open spec fn node_source(n: NodeView) -> Seq<char>
    decreases n,
{
    match n.body {
        Option::Some(b) => seq![tag_char(n.ty)] + source_of(b),
        Option::None => seq![tag_char(n.ty)],
    }
}

/// The depth-first, in-order serialization of a node sequence: flattening
/// nested bodies back into bracket form where they occur.
pub open spec fn source_of(s: Seq<NodeView>) -> Seq<char>
    decreases s,
{
    if s.len() == 0 {
        Seq::empty()
    } else {
        source_of(s.drop_last()) + node_source(s.last())
    }
}

/// The number of nodes a single node accounts for: itself plus every node of
/// its nested body.
pub open spec fn node_count_one(n: NodeView) -> nat
    decreases n,
{
    1 + (match n.body {
        Option::Some(b) => node_count(b),
        Option::None => 0nat,
    })
}

/// The total number of nodes in a sequence, nested bodies included.
pub open spec fn node_count(s: Seq<NodeView>) -> nat
    decreases s,
{
    if s.len() == 0 {
        0
    } else {
        node_count(s.drop_last()) + node_count_one(s.last())
    }
}

/// How many nodes with tag `t` a single node accounts for, its nested body
/// included.
pub open spec fn tag_count_one(n: NodeView, t: NodeType) -> nat
    decreases n,
{
    (if n.ty == t {
        1nat
    } else {
        0nat
    }) + (match n.body {
        Option::Some(b) => tag_count(b, t),
        Option::None => 0nat,
    })
}

/// The total number of nodes with tag `t` in a sequence, nested bodies
/// included.
pub open spec fn tag_count(s: Seq<NodeView>, t: NodeType) -> nat
    decreases s,
{
    if s.len() == 0 {
        0
    } else {
        tag_count(s.drop_last(), t) + tag_count_one(s.last(), t)
    }
}

/// Well-formedness of the node at position `i` of `s`: no placeholder tag; a
/// body exactly when the node is a loop-begin; a loop-begin is followed at
/// its own level by its matching loop-end and owns a well-formed body; a
/// loop-end is preceded by the loop-begin it closes.
pub open spec fn wf_at(s: Seq<NodeView>, i: int) -> bool
    decreases s, 0int,
{
    0 <= i < s.len() && {
        &&& s[i].ty != NodeType::Nop
        &&& (s[i].ty == NodeType::WhileBegin <==> s[i].body is Some)
        &&& (s[i].ty == NodeType::WhileBegin ==> i + 1 < s.len() && s[i + 1].ty
            == NodeType::WhileEnd && wf_nodes(s[i].body->0))
        &&& (s[i].ty == NodeType::WhileEnd ==> 0 < i && s[i - 1].ty == NodeType::WhileBegin)
    }
}

/// Well-formedness of a finished node sequence: every node, and every node
/// of every nested body, satisfies `wf_at`.
pub open spec fn wf_nodes(s: Seq<NodeView>) -> bool
    decreases s, 1int,
{
    forall|i: int| #![trigger s[i]] 0 <= i < s.len() ==> wf_at(s, i)
}

/// Appending a plain node (no bracket, no body) keeps a sequence
/// well-formed.
pub(crate) proof fn lemma_wf_push_plain(s: Seq<NodeView>, n: NodeView)
    requires
        wf_nodes(s),
        n.ty != NodeType::WhileBegin,
        n.ty != NodeType::WhileEnd,
        n.ty != NodeType::Nop,
        n.body is None,
    ensures
        wf_nodes(s.push(n)),
{
    let s2 = s.push(n);
    assert forall|i: int| 0 <= i < s2.len() implies wf_at(s2, i) by {
        if i < s.len() {
            assert(wf_at(s, i));
            assert(s2[i] == s[i]);
            if s[i].ty == NodeType::WhileBegin {
                assert(s2[i + 1] == s[i + 1]);
            }
            if s[i].ty == NodeType::WhileEnd {
                assert(s2[i - 1] == s[i - 1]);
            }
        } else {
            assert(s2[i] == n);
        }
    }
}

/// Appending a finished loop — a loop-begin owning the well-formed body `b`,
/// immediately followed by its loop-end — keeps a sequence well-formed.
pub(crate) proof fn lemma_wf_append_loop(s: Seq<NodeView>, b: Seq<NodeView>)
    requires
        wf_nodes(s),
        wf_nodes(b),
    ensures
        wf_nodes(
            s.push(NodeView { ty: NodeType::WhileBegin, body: Some(b) }).push(
                NodeView { ty: NodeType::WhileEnd, body: None },
            ),
        ),
{
    let wb = NodeView { ty: NodeType::WhileBegin, body: Some(b) };
    let we = NodeView { ty: NodeType::WhileEnd, body: None };
    let s2 = s.push(wb).push(we);
    assert forall|i: int| 0 <= i < s2.len() implies wf_at(s2, i) by {
        if i < s.len() {
            assert(wf_at(s, i));
            assert(s2[i] == s[i]);
            if s[i].ty == NodeType::WhileBegin {
                assert(s2[i + 1] == s[i + 1]);
            }
            if s[i].ty == NodeType::WhileEnd {
                assert(s2[i - 1] == s[i - 1]);
            }
        } else if i == s.len() {
            assert(s2[i] == wb);
            assert(s2[i + 1] == we);
        } else {
            assert(s2[i] == we);
            assert(s2[i - 1] == wb);
        }
    }
}

/// Every node of a tree, nested bodies included, stands for exactly one
/// character of the serialized stream: the total node count across the root
/// sequence and all nested bodies equals the length of the stream the tree
/// re-serializes to.
pub proof fn lemma_node_count_matches_source(s: Seq<NodeView>)
    ensures
        node_count(s) == source_of(s).len(),
    decreases s,
{
    if s.len() > 0 {
        lemma_node_count_matches_source(s.drop_last());
        let last = s.last();
        match last.body {
            Option::Some(b) => {
                lemma_node_count_matches_source(b);
                assert(node_source(last).len() == node_count_one(last));
            },
            Option::None => {
                assert(node_source(last).len() == node_count_one(last));
            },
        }
        assert(node_count(s) == node_count(s.drop_last()) + node_count_one(last));
        assert(source_of(s) == source_of(s.drop_last()) + node_source(last));
    }
}

/// Destructive consumption presents a container in the same order as
/// borrowing iteration. If `s` is a tree's model, then after `i` removals of
/// the first node the model is `s.skip(i)`, and the next removal yields
/// exactly `s[i]` — the node a borrowing cursor presents at position `i`.
/// After `s.len()` removals nothing is left, so by the removal contract every
/// further attempt returns an absent result.
pub proof fn lemma_consume_matches_iteration(s: Seq<NodeView>, i: int)
    requires
        0 <= i < s.len(),
    ensures
        s.skip(i)[0] == s[i],
        s.skip(i).drop_first() == s.skip(i + 1),
        s.skip(s.len() as int).len() == 0,
{
    assert(s.skip(i).drop_first() =~= s.skip(i + 1));
}

/// Serialization distributes over appending one node.
pub(crate) proof fn lemma_source_of_push(s: Seq<NodeView>, n: NodeView)
    ensures
        source_of(s.push(n)) == source_of(s) + node_source(n),
{
    assert(s.push(n).drop_last() =~= s);
    assert(s.push(n).last() == n);
}

/// One step of a prefix walk: extending the prefix by the node at `i` adds
/// exactly that node's own contribution to serialization and counts.
proof fn lemma_prefix_step(s: Seq<NodeView>, i: int)
    requires
        0 <= i < s.len(),
    ensures
        source_of(s.take(i + 1)) == source_of(s.take(i)) + node_source(s[i]),
        node_count(s.take(i + 1)) == node_count(s.take(i)) + node_count_one(s[i]),
        forall|t: NodeType| #![all_triggers]
            tag_count(s.take(i + 1), t) == tag_count(s.take(i), t) + tag_count_one(s[i], t),
{
    assert(s.take(i + 1).drop_last() =~= s.take(i));
    assert(s.take(i + 1).last() == s[i]);
}

proof fn lemma_node_count_take_le(s: Seq<NodeView>, i: int)
    requires
        0 <= i <= s.len(),
    ensures
        node_count(s.take(i)) <= node_count(s),
    decreases s.len() - i,
{
    if i == s.len() {
        assert(s.take(i) =~= s);
    } else {
        lemma_prefix_step(s, i);
        lemma_node_count_take_le(s, i + 1);
    }
}

proof fn lemma_tag_count_take_le(s: Seq<NodeView>, t: NodeType, i: int)
    requires
        0 <= i <= s.len(),
    ensures
        tag_count(s.take(i), t) <= tag_count(s, t),
    decreases s.len() - i,
{
    if i == s.len() {
        assert(s.take(i) =~= s);
    } else {
        lemma_prefix_step(s, i);
        lemma_tag_count_take_le(s, t, i + 1);
    }
}

proof fn lemma_tag_le_node_count(s: Seq<NodeView>, t: NodeType)
    ensures
        tag_count(s, t) <= node_count(s),
    decreases s,
{
    if s.len() > 0 {
        lemma_tag_le_node_count(s.drop_last(), t);
        let last = s.last();
        match last.body {
            Option::Some(b) => {
                lemma_tag_le_node_count(b, t);
                assert(tag_count_one(last, t) <= node_count_one(last));
            },
            Option::None => {
                assert(tag_count_one(last, t) <= node_count_one(last));
            },
        }
        assert(tag_count(s, t) == tag_count(s.drop_last(), t) + tag_count_one(last, t));
        assert(node_count(s) == node_count(s.drop_last()) + node_count_one(last));
    }
}

proof fn lemma_nodes_view_len(v: Seq<AstNode>)
    ensures
        nodes_view(v).len() == v.len(),
    decreases v.len(),
{
    if v.len() > 0 {
        lemma_nodes_view_len(v.drop_last());
    }
}

proof fn lemma_nodes_view_index(v: Seq<AstNode>, i: int)
    requires
        0 <= i < v.len(),
    ensures
        nodes_view(v).len() == v.len(),
        nodes_view(v)[i] == node_view(v[i]),
    decreases v.len(),
{
    lemma_nodes_view_len(v);
    if i < v.len() - 1 {
        lemma_nodes_view_index(v.drop_last(), i);
    } else {
        lemma_nodes_view_len(v.drop_last());
    }
}

proof fn lemma_nodes_view_update(v: Seq<AstNode>, i: int, n: AstNode)
    requires
        0 <= i < v.len(),
    ensures
        nodes_view(v.update(i, n)) == nodes_view(v).update(i, node_view(n)),
{
    lemma_nodes_view_len(v);
    lemma_nodes_view_len(v.update(i, n));
    assert forall|j: int| 0 <= j < v.len() implies nodes_view(v.update(i, n))[j] == nodes_view(
        v,
    ).update(i, node_view(n))[j] by {
        lemma_nodes_view_index(v.update(i, n), j);
        lemma_nodes_view_index(v, j);
    }
    assert(nodes_view(v.update(i, n)) =~= nodes_view(v).update(i, node_view(n)));
}

proof fn lemma_nodes_view_remove_first(v: Seq<AstNode>)
    requires
        v.len() > 0,
    ensures
        nodes_view(v.remove(0)) == nodes_view(v).drop_first(),
{
    lemma_nodes_view_len(v);
    lemma_nodes_view_len(v.remove(0));
    assert forall|j: int| 0 <= j < v.len() - 1 implies nodes_view(v.remove(0))[j] == nodes_view(
        v,
    ).drop_first()[j] by {
        lemma_nodes_view_index(v.remove(0), j);
        lemma_nodes_view_index(v, j + 1);
    }
    assert(nodes_view(v.remove(0)) =~= nodes_view(v).drop_first());
}

impl Ast {
    /// Creates an empty tree.
    pub fn new() -> (a: Ast)
        ensures
            a@ == Seq::<NodeView>::empty(),
    {
        Ast { nodes: Vec::new() }
    }

    /// Appends a node holding `ty` and the optional, fully formed `body` to
    /// the end of the sequence. Always succeeds and preserves order.
    pub fn push(&mut self, ty: NodeType, body: Option<Box<Ast>>)
        ensures
            final(self)@ == old(self)@.push(NodeView { ty, body: body_view(body) }),
    {
        let ghost old_nodes = self.nodes@;
        let node = AstNode { ty, body };
        self.nodes.push(node);
        proof {
            assert(self.nodes@.drop_last() =~= old_nodes);
            assert(self@ =~= old(self)@.push(node_view(node)));
        }
    }

    /// Returns the tag and the body (if any) of the node at `index`, or
    /// absent results if `index` is out of range. Read-only.
    pub fn nth(&self, index: usize) -> (r: (Option<&NodeType>, Option<&Box<Ast>>))
        ensures
            index < self@.len() ==> {
                &&& r.0 matches Some(t) && *t == self@[index as int].ty
                &&& (r.1 is Some <==> self@[index as int].body is Some)
                &&& (r.1 matches Some(b) ==> ast_view(**b) == self@[index as int].body->0)
            },
            index >= self@.len() ==> r.0 is None && r.1 is None,
    {
        proof {
            lemma_nodes_view_len(self.nodes@);
        }
        if index < self.nodes.len() {
            proof {
                lemma_nodes_view_index(self.nodes@, index as int);
            }
            let node = &self.nodes[index];
            match &node.body {
                Option::Some(b) => (Option::Some(&node.ty), Option::Some(b)),
                Option::None => (Option::Some(&node.ty), Option::None),
            }
        } else {
            (Option::None, Option::None)
        }
    }

    /// Replaces the body of the node at `index` with `body`; keeps the tag.
    /// Has no effect if `index` is out of range.
    pub fn set_nth_body(&mut self, index: usize, body: Box<Ast>)
        ensures
            index < old(self)@.len() ==> final(self)@ == old(self)@.update(
                index as int,
                NodeView { ty: old(self)@[index as int].ty, body: Some(ast_view(*body)) },
            ),
            index >= old(self)@.len() ==> final(self)@ == old(self)@,
    {
        proof {
            lemma_nodes_view_len(self.nodes@);
        }
        if index < self.nodes.len() {
            let ghost old_nodes = self.nodes@;
            let node = &mut self.nodes[index];
            node.body = Option::Some(body);
            proof {
                lemma_nodes_view_index(old_nodes, index as int);
                lemma_nodes_view_update(old_nodes, index as int, self.nodes@[index as int]);
            }
        }
    }

    /// Replaces the body of the last (most recently appended) node with
    /// `body`; keeps the tag. Has no effect on an empty sequence.
    pub fn set_last_body(&mut self, body: Box<Ast>)
        ensures
            old(self)@.len() == 0 ==> final(self)@ == old(self)@,
            old(self)@.len() > 0 ==> final(self)@ == old(self)@.update(
                old(self)@.len() - 1,
                NodeView { ty: old(self)@.last().ty, body: Some(ast_view(*body)) },
            ),
    {
        proof {
            lemma_nodes_view_len(self.nodes@);
        }
        let n: usize = self.nodes.len();
        if n > 0 {
            self.set_nth_body(n - 1, body);
        }
    }

    /// Removes and returns the first node, transferring ownership of its
    /// body to the caller, or returns an absent result if the tree is empty.
    pub fn pop(&mut self) -> (r: Option<AstNode>)
        ensures
            old(self)@.len() == 0 ==> r is None && final(self)@ == old(self)@,
            old(self)@.len() > 0 ==> {
                &&& r matches Some(node) && node@ == old(self)@[0]
                &&& final(self)@ == old(self)@.drop_first()
            },
    {
        proof {
            lemma_nodes_view_len(self.nodes@);
        }
        if self.nodes.len() > 0 {
            proof {
                lemma_nodes_view_index(self.nodes@, 0);
                lemma_nodes_view_remove_first(self.nodes@);
            }
            let node = self.nodes.remove(0);
            Option::Some(node)
        } else {
            Option::None
        }
    }

    /// Walks the whole tree, every nested body included, and returns how
    /// often the tags `a` and `b` each occur.
    fn tag_totals(&self, a: NodeType, b: NodeType) -> (r: (usize, usize))
        requires
            node_count(self@) <= usize::MAX,
        ensures
            r.0 == tag_count(self@, a),
            r.1 == tag_count(self@, b),
        decreases *self,
    {
        proof {
            lemma_nodes_view_len(self.nodes@);
        }
        let mut count_a: usize = 0;
        let mut count_b: usize = 0;
        let n: usize = self.nodes.len();
        let mut i: usize = 0;
        while i < n
            invariant
                n == self@.len(),
                n == self.nodes@.len(),
                i <= n,
                node_count(self@) <= usize::MAX,
                count_a == tag_count(self@.take(i as int), a),
                count_b == tag_count(self@.take(i as int), b),
            decreases n - i,
        {
            proof {
                lemma_nodes_view_index(self.nodes@, i as int);
                lemma_prefix_step(self@, i as int);
                lemma_tag_count_take_le(self@, a, i as int + 1);
                lemma_tag_count_take_le(self@, b, i as int + 1);
                lemma_tag_le_node_count(self@, a);
                lemma_tag_le_node_count(self@, b);
                lemma_node_count_take_le(self@, i as int + 1);
            }
            let node = &self.nodes[i];
            if node.ty == a {
                count_a = count_a + 1;
            }
            if node.ty == b {
                count_b = count_b + 1;
            }
            match &node.body {
                Option::Some(nested) => {
                    let (nested_a, nested_b) = nested.tag_totals(a, b);
                    count_a = count_a + nested_a;
                    count_b = count_b + nested_b;
                },
                Option::None => {},
            }
            i = i + 1;
        }
        proof {
            assert(self@.take(n as int) =~= self@);
        }
        (count_a, count_b)
    }

    /// Visits every node of the tree and every nested body and returns the
    /// pair (total loop-begin count, total loop-end count). On a well-formed
    /// finished tree the two totals are equal; the walk only reads the tree.
    pub fn count_while_loops(&mut self) -> (r: (usize, usize))
        requires
            node_count(old(self)@) <= usize::MAX,
        ensures
            final(self)@ == old(self)@,
            r.0 == tag_count(old(self)@, NodeType::WhileBegin),
            r.1 == tag_count(old(self)@, NodeType::WhileEnd),
    {
        self.tag_totals(NodeType::WhileBegin, NodeType::WhileEnd)
    }

    /// Returns the larger of the total pointer-increment count and the total
    /// pointer-decrement count across the entire tree. This sums occurrences
    /// rather than simulating net pointer displacement, so it can greatly
    /// over-approximate the true maximum excursion; that is its documented
    /// contract, not a defect to correct.
    pub fn max_ptr_size(&mut self) -> (r: usize)
        requires
            node_count(old(self)@) <= usize::MAX,
        ensures
            final(self)@ == old(self)@,
            r == (if tag_count(old(self)@, NodeType::PtrInc) >= tag_count(
                old(self)@,
                NodeType::PtrDec,
            ) {
                tag_count(old(self)@, NodeType::PtrInc)
            } else {
                tag_count(old(self)@, NodeType::PtrDec)
            }),
    {
        let (pinc_s, pdec_s) = self.tag_totals(NodeType::PtrInc, NodeType::PtrDec);
        if pinc_s >= pdec_s {
            pinc_s
        } else {
            pdec_s
        }
    }

    /// Hands the tree to a consuming cursor.
    pub fn into_iter(self) -> (it: IntoIter)
        ensures
            it.remaining() == self@,
    {
        IntoIter(self)
    }

    /// Produces a borrowing cursor positioned at the first node.
    pub fn iter(&self) -> (it: Iter<'_>)
        ensures
            it.elems() == self@,
            it.position() == 0,
    {
        Iter { ast: self, pos: 0 }
    }
}

impl<'a> Iter<'a> {
    /// The nodes the cursor walks over.
    pub closed spec fn elems(&self) -> Seq<NodeView> {
        (*self.ast)@
    }

    /// How many nodes the cursor has yielded so far.
    pub closed spec fn position(&self) -> int {
        self.pos as int
    }

    /// Yields the tag and body of the next node by reference, in insertion
    /// order, or an absent result once every node has been presented.
    pub fn next(&mut self) -> (r: Option<(&'a NodeType, &'a Option<Box<Ast>>)>)
        ensures
            final(self).elems() == old(self).elems(),
            old(self).position() < old(self).elems().len() ==> {
                &&& final(self).position() == old(self).position() + 1
                &&& r matches Some(p) && *p.0 == old(self).elems()[old(self).position()].ty
                    && body_view(*p.1) == old(self).elems()[old(self).position()].body
            },
            old(self).position() >= old(self).elems().len() ==> r is None && final(self).position()
                == old(self).position(),
    {
        proof {
            lemma_nodes_view_len(self.ast.nodes@);
        }
        if self.pos < self.ast.nodes.len() {
            proof {
                lemma_nodes_view_index(self.ast.nodes@, self.pos as int);
            }
            let node = &self.ast.nodes[self.pos];
            self.pos = self.pos + 1;
            Option::Some((&node.ty, &node.body))
        } else {
            Option::None
        }
    }
}

impl IntoIter {
    /// The nodes the cursor has not yet handed out.
    pub closed spec fn remaining(&self) -> Seq<NodeView> {
        self.0@
    }

    /// Removes and returns the next owned node, in insertion order, or an
    /// absent result once the underlying tree is empty.
    pub fn next(&mut self) -> (r: Option<AstNode>)
        ensures
            old(self).remaining().len() == 0 ==> r is None && final(self).remaining() == old(
                self,
            ).remaining(),
            old(self).remaining().len() > 0 ==> {
                &&& r matches Some(node) && node@ == old(self).remaining()[0]
                &&& final(self).remaining() == old(self).remaining().drop_first()
            },
    {
        self.0.pop()
    }
}

} // verus!
