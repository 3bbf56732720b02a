//! The semantic tree: an arena of AST nodes with per-node metadata.
//!
//! Nodes live in an arena vector and refer to each other by index; children
//! are always allocated before their parent, so every reference points
//! strictly downwards.  Each node owns one metadata entry in a parallel
//! vector, and a lookup table maps the identity of the syntax node a node
//! was built from back to the node.

use vstd::prelude::*;

verus! {

/// A node's textual payload: literal content or a reference.
#[derive(Debug)]
pub enum Content {
    Content(String),
    Ref(String),
}

pub type NodeId = usize;

/// One semantic node: the whole document, an ordinary node with optional
/// binding and content, or a block with a mandatory header.
#[derive(Debug)]
pub enum Node {
    Document { children: Vec<NodeId> },
    Node { binding: Option<String>, content: Option<Content>, children: Vec<NodeId> },
    Block { binding: Option<String>, header: NodeId, children: Vec<NodeId> },
}

/// Stable bookkeeping carried by every semantic node: when it was created,
/// when its content last changed, and which syntax node it was built from
/// (valid only within one snapshot).
#[derive(Debug, Clone, Copy)]
pub struct NodeMetadata {
    pub created_at: u64,
    pub updated_at: u64,
    pub ts_node_id: Option<usize>,
}

/// One snapshot's semantic tree: the arena, the metadata entry of each
/// arena slot, and the syntax-identity lookup table.
#[derive(Debug)]
pub struct Context {
    pub now: u64,
    pub arena: Vec<Node>,
    pub metadata: Vec<NodeMetadata>,
    pub lookup_by_ts_node_id: Vec<(usize, NodeId)>,
}

/// The child indices (and a block's header) of a node, as one sequence.
pub open spec fn refs_of(n: Node) -> Seq<usize> {
    match n {
        Node::Document { children } => children@,
        Node::Node { children, .. } => children@,
        Node::Block { header, children, .. } => seq![header] + children@,
    }
}

/// Every reference in the arena points strictly downwards: children are
/// allocated before their parent.
#[verifier::opaque]
pub open spec fn arena_ok(arena: Seq<Node>) -> bool {
    forall|i: int, j: int|
        0 <= i < arena.len() && 0 <= j < refs_of(arena[i]).len() ==> (#[trigger] refs_of(
            arena[i],
        )[j] as int) < i
}

/// The most recent lookup entry for `ts`, if any: a later entry for the
/// same identity supersedes an earlier one, as re-inserting a key into a
/// map would.
pub open spec fn lookup_spec(entries: Seq<(usize, usize)>, ts: usize) -> Option<usize>
    decreases entries.len(),
{
    if entries.len() == 0 {
        None
    } else if entries.last().0 == ts {
        Some(entries.last().1)
    } else {
        lookup_spec(entries.drop_last(), ts)
    }
}

impl Context {
    /// Every node has exactly one metadata entry, references point
    /// downwards, and lookup entries are valid and keyed uniquely.
    pub open spec fn wf(self) -> bool {
        &&& self.metadata@.len() == self.arena@.len()
        &&& arena_ok(self.arena@)
        &&& forall|x: int|
            0 <= x < self.lookup_by_ts_node_id@.len() ==> (#[trigger] self.lookup_by_ts_node_id@[
                x
            ]).1 < self.arena@.len()
    }

    pub open spec fn n_nodes(self) -> int {
        self.arena@.len() as int
    }

    /// Everything `arena_ok` states of node `i`, unfolded.
    pub proof fn lemma_refs_down(self, i: int)
        requires
            self.wf(),
            0 <= i < self.arena@.len(),
        ensures
            forall|j: int|
                0 <= j < refs_of(self.arena@[i]).len() ==> (#[trigger] refs_of(self.arena@[i])[
                    j
                ] as int) < i,
    {
        reveal(arena_ok);
    }
}

impl Node {
    pub fn children(&self) -> (r: &Vec<NodeId>)
        ensures
            r@ == match *self {
                Node::Document { children } => children@,
                Node::Node { children, .. } => children@,
                Node::Block { children, .. } => children@,
            },
    {
        match self {
            Node::Document { children } => children,
            Node::Node { children, .. } => children,
            Node::Block { children, .. } => children,
        }
    }

    pub fn kind(&self) -> (r: &str)
        ensures
            r@ == match *self {
                Node::Document { .. } => "document"@,
                Node::Node { .. } => "node"@,
                Node::Block { .. } => "block"@,
            },
    {
        match self {
            Node::Document { .. } => "document",
            Node::Node { .. } => "node",
            Node::Block { .. } => "block",
        }
    }
}

/// Pre-order of the subtree rooted at `i`: the node, then each child's
/// subtree in order.  A block's header is not among its children and is not
/// visited, as in the traversal this mirrors.
pub open spec fn preorder(arena: Seq<Node>, i: int) -> Seq<usize>
    decreases i, 1int, 0int,
{
    if 0 <= i < arena.len() {
        seq![i as usize] + preorder_list(arena, children_of(arena[i]), 0, i)
    } else {
        Seq::empty()
    }
}

pub open spec fn children_of(n: Node) -> Seq<usize> {
    match n {
        Node::Document { children } => children@,
        Node::Node { children, .. } => children@,
        Node::Block { children, .. } => children@,
    }
}

/// Pre-orders of the children `cs[j..]`, all below the bound `b`,
/// concatenated.
pub open spec fn preorder_list(arena: Seq<Node>, cs: Seq<usize>, j: int, b: int) -> Seq<usize>
    decreases b, 0int, cs.len() - j,
{
    if j < 0 || j >= cs.len() {
        Seq::empty()
    } else if (cs[j] as int) < b {
        preorder(arena, cs[j] as int) + preorder_list(arena, cs, j + 1, b)
    } else {
        Seq::empty()
    }
}

/// A read-only pre-order walk over a semantic subtree, computed up front.
pub struct NodeCursorImmutable {
    pub root_id: NodeId,
    pub order: Vec<NodeId>,
    pub pos: usize,
}

impl NodeCursorImmutable {
    pub fn new(context: &Context, root_id: NodeId) -> (r: NodeCursorImmutable)
        requires
            context.wf(),
            root_id < context.arena@.len(),
        ensures
            r.order@ == preorder(context.arena@, root_id as int),
            r.pos == 0,
            r.root_id == root_id,
    {
        let mut order: Vec<NodeId> = Vec::new();
        collect_preorder(context, root_id, &mut order);
        proof {
            assert(order@ =~= Seq::<usize>::empty() + preorder(context.arena@, root_id as int));
        }
        NodeCursorImmutable { root_id, order, pos: 0 }
    }

    /// The next node of the walk, in pre-order.
    pub fn next(&mut self) -> (r: Option<NodeId>)
        ensures
            old(self).pos < old(self).order@.len() ==> {
                &&& r == Some(old(self).order@[old(self).pos as int])
                &&& final(self).pos == old(self).pos + 1
            },
            old(self).pos >= old(self).order@.len() ==> {
                &&& r is None
                &&& final(self).pos == old(self).pos
            },
            final(self).order == old(self).order,
            final(self).root_id == old(self).root_id,
    {
        if self.pos < self.order.len() {
            let id = self.order[self.pos];
            self.pos = self.pos + 1;
            Some(id)
        } else {
            None
        }
    }
}

/// Appends the pre-order of the subtree at `i` to `out`.
fn collect_preorder(context: &Context, i: NodeId, out: &mut Vec<NodeId>)
    requires
        context.wf(),
        i < context.arena@.len(),
    ensures
        final(out)@ == old(out)@ + preorder(context.arena@, i as int),
    decreases i, 1int, 0int,
{
    proof {
        context.lemma_refs_down(i as int);
        let n = context.arena@[i as int];
        assert forall|x: int| 0 <= x < children_of(n).len() implies (#[trigger] children_of(n)[
            x
        ] as int) < i by {
            match n {
                Node::Block { .. } => {
                    assert(refs_of(n)[x + 1] == children_of(n)[x]);
                },
                _ => {
                    assert(refs_of(n)[x] == children_of(n)[x]);
                },
            }
        }
    }
    out.push(i);
    let cs = context.arena[i].children();
    let n = cs.len();
    let ghost cseq = children_of(context.arena@[i as int]);
    let mut j: usize = 0;
    while j < n
        invariant
            j <= n,
            n == cseq.len(),
            cseq == children_of(context.arena@[i as int]),
            context.wf(),
            i < context.arena@.len(),
            cs@ == cseq,
            forall|x: int| 0 <= x < cseq.len() ==> (#[trigger] cseq[x] as int) < i,
            out@ == old(out)@ + seq![i as usize] + preorder_upto(
                context.arena@,
                cseq,
                j as int,
                i as int,
            ),
        decreases n - j,
    {
        let c = cs[j];
        collect_preorder_child(context, c, out);
        proof {
            lemma_preorder_upto_step(context.arena@, cseq, j as int, i as int);
        }
        j = j + 1;
    }
    proof {
        lemma_preorder_upto_full(context.arena@, cseq, n as int, i as int);
        assert(out@ =~= old(out)@ + preorder(context.arena@, i as int));
    }
}

/// Recursion helper with the same body, giving the nested call a smaller
/// measure.
fn collect_preorder_child(context: &Context, i: NodeId, out: &mut Vec<NodeId>)
    requires
        context.wf(),
        i < context.arena@.len(),
    ensures
        final(out)@ == old(out)@ + preorder(context.arena@, i as int),
    decreases i, 2int, 0int,
{
    collect_preorder(context, i, out);
}

/// The concatenated pre-orders of the first `j` children.
pub open spec fn preorder_upto(arena: Seq<Node>, cs: Seq<usize>, j: int, b: int) -> Seq<usize>
    decreases j,
{
    if j <= 0 {
        Seq::empty()
    } else {
        preorder_upto(arena, cs, j - 1, b) + (if 0 <= j - 1 < cs.len() && (cs[j - 1] as int) < b {
            preorder(arena, cs[j - 1] as int)
        } else {
            Seq::empty()
        })
    }
}

proof fn lemma_preorder_upto_step(arena: Seq<Node>, cs: Seq<usize>, j: int, b: int)
    requires
        0 <= j < cs.len(),
        (cs[j] as int) < b,
    ensures
        preorder_upto(arena, cs, j + 1, b) == preorder_upto(arena, cs, j, b) + preorder(
            arena,
            cs[j] as int,
        ),
{
}

/// Once every child is below the bound, the running concatenation equals
/// the child-list pre-order.
proof fn lemma_preorder_upto_full(arena: Seq<Node>, cs: Seq<usize>, j: int, b: int)
    requires
        0 <= j <= cs.len(),
        forall|x: int| 0 <= x < cs.len() ==> (#[trigger] cs[x] as int) < b,
    ensures
        preorder_upto(arena, cs, j, b) == preorder_list_prefix(arena, cs, j, b),
        j == cs.len() ==> preorder_upto(arena, cs, j, b) == preorder_list(arena, cs, 0, b),
    decreases j,
{
    lemma_preorder_list_prefix(arena, cs, j, b);
    if j > 0 {
        lemma_preorder_upto_full(arena, cs, j - 1, b);
        lemma_preorder_list_prefix(arena, cs, j - 1, b);
    }
}

/// The pre-orders of the first `j` children, defined from the front as
/// `preorder_list` walks them.
pub open spec fn preorder_list_prefix(arena: Seq<Node>, cs: Seq<usize>, j: int, b: int) -> Seq<
    usize,
>
    decreases j,
{
    if j <= 0 {
        Seq::empty()
    } else {
        preorder_list_prefix(arena, cs, j - 1, b) + (if 0 <= j - 1 < cs.len() && (cs[j
            - 1] as int) < b {
            preorder(arena, cs[j - 1] as int)
        } else {
            Seq::empty()
        })
    }
}

/// `preorder_list` from position `x` equals the suffix concatenation, so the
/// front-defined prefix plus the suffix is the whole.
proof fn lemma_preorder_list_prefix(arena: Seq<Node>, cs: Seq<usize>, j: int, b: int)
    requires
        0 <= j <= cs.len(),
        forall|x: int| 0 <= x < cs.len() ==> (#[trigger] cs[x] as int) < b,
    ensures
        preorder_list(arena, cs, 0, b) == preorder_list_prefix(arena, cs, j, b) + preorder_list(
            arena,
            cs,
            j,
            b,
        ),
    decreases j,
{
    if j == 0 {
        assert(preorder_list_prefix(arena, cs, 0, b) + preorder_list(arena, cs, 0, b)
            =~= preorder_list(arena, cs, 0, b));
    } else {
        lemma_preorder_list_prefix(arena, cs, j - 1, b);
        assert(preorder_list(arena, cs, j - 1, b) == preorder(arena, cs[j - 1] as int)
            + preorder_list(arena, cs, j, b));
        assert(preorder_list_prefix(arena, cs, j, b) + preorder_list(arena, cs, j, b)
            =~= preorder_list_prefix(arena, cs, j - 1, b) + (preorder(arena, cs[j - 1] as int)
            + preorder_list(arena, cs, j, b)));
    }
}

} // verus!
