//! The semantic tree builder.
//!
//! Builds the arena-owned semantic tree bottom-up from a syntax tree: a
//! `document` syntax node yields a `Document`, a `node` yields a `Node` with
//! optional binding and content, and a `block` yields a `Block` only when
//! its header builds; anything else produces no node.  Every node built gets
//! fresh metadata stamped with the build time and the identity of the syntax
//! node it came from.

use vstd::prelude::*;

use crate::node::{arena_ok, lookup_spec, refs_of, Content, Context, Node, NodeId, NodeMetadata};
use crate::syntax::{FieldLabel, SyntaxKind, SyntaxTree};

verus! {

/// Whether building the semantic node for syntax node `i` succeeds: always
/// for a document or a node, for a block exactly when its header field is
/// present and itself builds, and never for any other kind.
pub open spec fn loadable(tree: SyntaxTree, i: int) -> bool
    decreases tree.n_nodes() - i,
{
    if !tree.is_node(i) {
        false
    } else {
        let k = tree.node(i).kind;
        if k == SyntaxKind::Document || k == SyntaxKind::Node {
            true
        } else if k == SyntaxKind::Block {
            match tree.field_child_spec(i, FieldLabel::FieldHeader) {
                Some(c) => i < c && tree.is_node(c as int) && loadable(tree, c as int),
                None => false,
            }
        } else {
            false
        }
    }
}

/// The binding text a node's build reads: the identifier child of the
/// binding field child.
pub open spec fn binding_spec(tree: SyntaxTree, t: int) -> Option<String> {
    match tree.field_child_spec(t, FieldLabel::FieldBinding) {
        Some(b) => match tree.field_child_spec(b as int, FieldLabel::FieldIdentifier) {
            Some(idn) => Some(tree.node(idn as int).text),
            None => None,
        },
        None => None,
    }
}

/// The content a node's build reads: the content field child as literal
/// content or a reference, by its kind.
pub open spec fn content_spec(tree: SyntaxTree, t: int) -> Option<Content> {
    match tree.field_child_spec(t, FieldLabel::FieldContent) {
        Some(c) => if tree.node(c as int).kind == SyntaxKind::Content {
            Some(Content::Content(tree.node(c as int).text))
        } else if tree.node(c as int).kind == SyntaxKind::Ref {
            Some(Content::Ref(tree.node(c as int).text))
        } else {
            None
        },
        None => None,
    }
}

/// The syntax indices of the children of `holder` at ranks below `j` whose
/// build succeeds, in rank order; a document takes only its children-field
/// children, a child-list wrapper takes every rank.
pub open spec fn loadable_kids(tree: SyntaxTree, holder: int, j: int, doc_filter: bool) -> Seq<
    usize,
>
    decreases tree.n_nodes() - holder, j,
{
    if j <= 0 || j > tree.node(holder).children@.len() {
        Seq::empty()
    } else {
        let c = tree.node(holder).children@[j - 1] as int;
        loadable_kids(tree, holder, j - 1, doc_filter) + (if (holder < c < tree.n_nodes()) && (
        !doc_filter || tree.node(c).field == FieldLabel::FieldChildren) && loadable(tree, c) {
            seq![tree.node(holder).children@[j - 1]]
        } else {
            Seq::empty()
        })
    }
}

/// The wrapper-driven child list of a node or block build: the loadable
/// children of the children-field wrapper, or nothing without one.
pub open spec fn wrapper_kids(tree: SyntaxTree, t: int) -> Seq<usize> {
    match tree.field_child_spec(t, FieldLabel::FieldChildren) {
        Some(w) => loadable_kids(tree, w as int, tree.node(w as int).children@.len() as int, false),
        None => Seq::empty(),
    }
}

/// The freshly built children point back at the syntax children they were
/// built from, in order.
pub open spec fn children_map_ok(ctx: Context, ids: Seq<usize>, kids: Seq<usize>) -> bool {
    &&& ids.len() == kids.len()
    &&& forall|x: int|
        0 <= x < ids.len() ==> (#[trigger] ids[x] as int) < ctx.metadata@.len()
            && ctx.metadata@[ids[x] as int].ts_node_id == Some(kids[x])
}

/// What the build makes of syntax node `t`, by kind: a document or node
/// with its loadable children built in rank order, the binding and content
/// read off the field children, and a block additionally anchored to its
/// built header.
pub open spec fn built_node_ok(ctx: Context, n: Node, tree: SyntaxTree, t: int) -> bool {
    match tree.node(t).kind {
        SyntaxKind::Document => match n {
            Node::Document { children } => children_map_ok(
                ctx,
                children@,
                loadable_kids(tree, t, tree.node(t).children@.len() as int, true),
            ),
            _ => false,
        },
        SyntaxKind::Node => match n {
            Node::Node { binding, content, children } => binding == binding_spec(tree, t)
                && content == content_spec(tree, t) && children_map_ok(
                ctx,
                children@,
                wrapper_kids(tree, t),
            ),
            _ => false,
        },
        SyntaxKind::Block => match n {
            Node::Block { binding, header, children } => binding == binding_spec(tree, t) && (
            header as int) < ctx.metadata@.len() && ctx.metadata@[header as int].ts_node_id
                == Some(tree.field_child_spec(t, FieldLabel::FieldHeader)->0)
                && children_map_ok(ctx, children@, wrapper_kids(tree, t)),
            _ => false,
        },
        _ => false,
    }
}

/// A later state of the builder keeps everything an earlier state had.
pub open spec fn extends(post: Context, pre: Context) -> bool {
    &&& post.now == pre.now
    &&& post.arena@.len() >= pre.arena@.len()
    &&& post.arena@.subrange(0, pre.arena@.len() as int) == pre.arena@
    &&& post.metadata@.len() >= pre.metadata@.len()
    &&& post.metadata@.subrange(0, pre.metadata@.len() as int) == pre.metadata@
    &&& post.lookup_by_ts_node_id@.len() >= pre.lookup_by_ts_node_id@.len()
    &&& post.lookup_by_ts_node_id@.subrange(0, pre.lookup_by_ts_node_id@.len() as int)
        == pre.lookup_by_ts_node_id@
}

/// Every metadata entry from `from` on is freshly stamped: created and
/// updated at build time, tagged with some syntax identity.
pub open spec fn fresh_from(ctx: Context, from: int) -> bool {
    forall|k: int|
        from <= k < ctx.metadata@.len() ==> {
            let m = #[trigger] ctx.metadata@[k];
            &&& m.created_at == ctx.now
            &&& m.updated_at == ctx.now
            &&& m.ts_node_id is Some
        }
}

/// `extends` holds of a state and itself.
pub proof fn lemma_extends_refl(a: Context)
    ensures
        extends(a, a),
{
    assert(a.arena@.subrange(0, a.arena@.len() as int) =~= a.arena@);
    assert(a.metadata@.subrange(0, a.metadata@.len() as int) =~= a.metadata@);
    assert(a.lookup_by_ts_node_id@.subrange(0, a.lookup_by_ts_node_id@.len() as int)
        =~= a.lookup_by_ts_node_id@);
}

/// `extends` chains across two builder steps.
pub proof fn lemma_extends_trans(a: Context, b: Context, c: Context)
    requires
        extends(b, a),
        extends(c, b),
    ensures
        extends(c, a),
{
    assert(c.arena@.subrange(0, a.arena@.len() as int) =~= a.arena@) by {
        assert forall|x: int| 0 <= x < a.arena@.len() implies c.arena@[x] == a.arena@[x] by {
            assert(c.arena@.subrange(0, b.arena@.len() as int)[x] == c.arena@[x]);
            assert(b.arena@.subrange(0, a.arena@.len() as int)[x] == b.arena@[x]);
        }
    }
    assert(c.metadata@.subrange(0, a.metadata@.len() as int) =~= a.metadata@) by {
        assert forall|x: int| 0 <= x < a.metadata@.len() implies c.metadata@[x] == a.metadata@[x] by {
            assert(c.metadata@.subrange(0, b.metadata@.len() as int)[x] == c.metadata@[x]);
            assert(b.metadata@.subrange(0, a.metadata@.len() as int)[x] == b.metadata@[x]);
        }
    }
    assert(c.lookup_by_ts_node_id@.subrange(0, a.lookup_by_ts_node_id@.len() as int)
        =~= a.lookup_by_ts_node_id@) by {
        assert forall|x: int| 0 <= x < a.lookup_by_ts_node_id@.len() implies c.lookup_by_ts_node_id@[
            x
        ] == a.lookup_by_ts_node_id@[x] by {
            assert(c.lookup_by_ts_node_id@.subrange(0, b.lookup_by_ts_node_id@.len() as int)[x]
                == c.lookup_by_ts_node_id@[x]);
            assert(b.lookup_by_ts_node_id@.subrange(0, a.lookup_by_ts_node_id@.len() as int)[x]
                == b.lookup_by_ts_node_id@[x]);
        }
    }
}

/// Freshness of later entries survives further extension.
pub proof fn lemma_fresh_trans(a: Context, b: Context, c: Context, from: int)
    requires
        extends(b, a),
        extends(c, b),
        fresh_from(b, from),
        fresh_from(c, b.metadata@.len() as int),
        0 <= from,
    ensures
        fresh_from(c, from),
{
    assert forall|k: int| from <= k < c.metadata@.len() implies {
        let m = #[trigger] c.metadata@[k];
        &&& m.created_at == c.now
        &&& m.updated_at == c.now
        &&& m.ts_node_id is Some
    } by {
        if k < b.metadata@.len() {
            assert(c.metadata@.subrange(0, b.metadata@.len() as int)[k] == c.metadata@[k]);
        }
    }
}

impl Context {
    /// A fresh, empty snapshot stamped with the given build time.
    pub fn new(now: u64) -> (r: Context)
        ensures
            r.wf(),
            r.now == now,
            r.arena@.len() == 0,
            r.metadata@.len() == 0,
            r.lookup_by_ts_node_id@.len() == 0,
    {
        let r = Context { now, arena: Vec::new(), metadata: Vec::new(), lookup_by_ts_node_id: Vec::new() };
        proof {
            reveal(arena_ok);
        }
        r
    }

    pub fn get_node_metadata(&self, id: NodeId) -> (r: Option<&NodeMetadata>)
        ensures
            r is Some <==> id < self.metadata@.len(),
            r is Some ==> *r->0 == self.metadata@[id as int],
    {
        if id < self.metadata.len() {
            Some(&self.metadata[id])
        } else {
            None
        }
    }

    pub fn get_ts_node_id(&self, id: NodeId) -> (r: Option<usize>)
        ensures
            r == (if id < self.metadata@.len() {
                self.metadata@[id as int].ts_node_id
            } else {
                None::<usize>
            }),
    {
        match self.get_node_metadata(id) {
            Some(m) => m.ts_node_id,
            None => None,
        }
    }

    /// The semantic node built from the syntax node with identity
    /// `ts_node_id`, if one was built; the most recent when rebuilt.
    pub fn lookup(&self, ts_node_id: usize) -> (r: Option<NodeId>)
        ensures
            r == lookup_spec(self.lookup_by_ts_node_id@, ts_node_id),
    {
        let ghost entries = self.lookup_by_ts_node_id@;
        proof {
            assert(entries.subrange(0, entries.len() as int) =~= entries);
        }
        let mut x = self.lookup_by_ts_node_id.len();
        while x > 0
            invariant
                x <= entries.len(),
                entries == self.lookup_by_ts_node_id@,
                lookup_spec(entries, ts_node_id) == lookup_spec(
                    entries.subrange(0, x as int),
                    ts_node_id,
                ),
            decreases x,
        {
            let e = self.lookup_by_ts_node_id[x - 1];
            proof {
                assert(entries.subrange(0, x as int).last() == e);
                assert(entries.subrange(0, x as int).drop_last() =~= entries.subrange(
                    0,
                    x as int - 1,
                ));
            }
            if e.0 == ts_node_id {
                return Some(e.1);
            }
            x = x - 1;
        }
        proof {
            assert(entries.subrange(0, 0) =~= Seq::<(usize, usize)>::empty());
        }
        None
    }

    /// Allocates a semantic node, stamps fresh metadata for it and records
    /// which syntax node it came from.
    pub fn make_node(&mut self, node: Node, ts_node: usize) -> (id: NodeId)
        requires
            old(self).wf(),
            forall|j: int|
                0 <= j < refs_of(node).len() ==> (#[trigger] refs_of(node)[j] as int) < old(
                    self,
                ).arena@.len(),
        ensures
            final(self).wf(),
            id == old(self).arena@.len(),
            final(self).now == old(self).now,
            final(self).arena@ == old(self).arena@.push(node),
            final(self).metadata@ == old(self).metadata@.push(
                NodeMetadata {
                    created_at: old(self).now,
                    updated_at: old(self).now,
                    ts_node_id: Some(ts_node),
                },
            ),
            final(self).lookup_by_ts_node_id@ == old(self).lookup_by_ts_node_id@.push(
                (ts_node, id),
            ),
            extends(*final(self), *old(self)),
            fresh_from(*final(self), old(self).metadata@.len() as int),
    {
        let id = self.arena.len();
        self.arena.push(node);
        self.metadata.push(
            NodeMetadata { created_at: self.now, updated_at: self.now, ts_node_id: Some(ts_node) },
        );
        self.lookup_by_ts_node_id.push((ts_node, id));
        proof {
            reveal(arena_ok);
            assert(self.arena@.subrange(0, old(self).arena@.len() as int) =~= old(self).arena@);
            assert(self.metadata@.subrange(0, old(self).metadata@.len() as int) =~= old(
                self,
            ).metadata@);
            assert(self.lookup_by_ts_node_id@.subrange(
                0,
                old(self).lookup_by_ts_node_id@.len() as int,
            ) =~= old(self).lookup_by_ts_node_id@);
        }
        id
    }

    /// Allocates a semantic node with fresh metadata but no syntax
    /// identity, for nodes synthesized after the build.
    pub fn alloc_node(&mut self, node: Node) -> (id: NodeId)
        requires
            old(self).wf(),
            forall|j: int|
                0 <= j < refs_of(node).len() ==> (#[trigger] refs_of(node)[j] as int) < old(
                    self,
                ).arena@.len(),
        ensures
            final(self).wf(),
            id == old(self).arena@.len(),
            final(self).now == old(self).now,
            final(self).arena@ == old(self).arena@.push(node),
            final(self).metadata@ == old(self).metadata@.push(
                NodeMetadata {
                    created_at: old(self).now,
                    updated_at: old(self).now,
                    ts_node_id: None,
                },
            ),
            final(self).lookup_by_ts_node_id@ == old(self).lookup_by_ts_node_id@,
            extends(*final(self), *old(self)),
    {
        let id = self.arena.len();
        self.arena.push(node);
        self.metadata.push(
            NodeMetadata { created_at: self.now, updated_at: self.now, ts_node_id: None },
        );
        proof {
            reveal(arena_ok);
            assert(self.arena@.subrange(0, old(self).arena@.len() as int) =~= old(self).arena@);
            assert(self.metadata@.subrange(0, old(self).metadata@.len() as int) =~= old(
                self,
            ).metadata@);
            assert(self.lookup_by_ts_node_id@.subrange(
                0,
                old(self).lookup_by_ts_node_id@.len() as int,
            ) =~= old(self).lookup_by_ts_node_id@);
        }
        id
    }

    /// Builds the semantic tree for a whole parse snapshot, from its root.
    pub fn load_document(&mut self, tree: &SyntaxTree) -> (r: Option<NodeId>)
        requires
            tree.wf(),
            old(self).wf(),
        ensures
            final(self).wf(),
            extends(*final(self), *old(self)),
            fresh_from(*final(self), old(self).metadata@.len() as int),
            r is Some <==> loadable(*tree, 0),
            r is Some ==> {
                &&& r->0 < final(self).arena@.len()
                &&& final(self).metadata@[r->0 as int].ts_node_id == Some(0usize)
                &&& lookup_spec(final(self).lookup_by_ts_node_id@, 0) == Some(r->0)
                &&& built_node_ok(*final(self), final(self).arena@[r->0 as int], *tree, 0)
            },
    {
        let r = self.load(tree, 0);
        proof {
            if r is Some {
                assert(final(self).lookup_by_ts_node_id@.last() == (0usize, r->0));
            }
        }
        r
    }

    /// Builds the semantic node for syntax node `t`, recursively building
    /// its structural children; the freshly built node is the last one
    /// allocated, and the builder only ever appends.
    pub fn load(&mut self, tree: &SyntaxTree, t: usize) -> (r: Option<NodeId>)
        requires
            tree.wf(),
            tree.is_node(t as int),
            old(self).wf(),
        ensures
            final(self).wf(),
            extends(*final(self), *old(self)),
            fresh_from(*final(self), old(self).metadata@.len() as int),
            r is Some <==> loadable(*tree, t as int),
            r is Some ==> {
                &&& final(self).arena@.len() > old(self).arena@.len()
                &&& r->0 == final(self).arena@.len() - 1
                &&& final(self).metadata@[r->0 as int].ts_node_id == Some(t)
                &&& final(self).lookup_by_ts_node_id@.last() == (t, r->0)
                &&& final(self).lookup_by_ts_node_id@.len()
                    > old(self).lookup_by_ts_node_id@.len()
                &&& built_node_ok(
                    *final(self),
                    final(self).arena@[r->0 as int],
                    *tree,
                    t as int,
                )
            },
        decreases tree.n_nodes() - t, 2int,
    {
        let ghost entry = *self;
        proof {
            lemma_extends_refl(*self);
        }
        let k = tree.kind(t);
        if k == SyntaxKind::Document {
            let children = self.load_child_list(tree, t, t);
            let ghost ids = children@;
            let ghost mid = *self;
            let id = self.make_node(Node::Document { children }, t);
            proof {
                lemma_extends_trans(entry, mid, *self);
                lemma_fresh_trans(entry, mid, *self, entry.metadata@.len() as int);
                assert forall|x: int| 0 <= x < ids.len() implies self.metadata@[#[trigger] ids[
                    x
                ] as int] == mid.metadata@[ids[x] as int] by {}
            }
            Some(id)
        } else if k == SyntaxKind::Node {
            let binding = self.read_binding(tree, t);
            let content = self.read_content(tree, t);
            let children = match tree.field_child(t, FieldLabel::FieldChildren) {
                Some(w) => self.load_child_list(tree, w, t),
                None => Vec::new(),
            };
            let ghost ids = children@;
            let ghost mid = *self;
            let id = self.make_node(Node::Node { binding, content, children }, t);
            proof {
                lemma_extends_trans(entry, mid, *self);
                lemma_fresh_trans(entry, mid, *self, entry.metadata@.len() as int);
                assert forall|x: int| 0 <= x < ids.len() implies self.metadata@[#[trigger] ids[
                    x
                ] as int] == mid.metadata@[ids[x] as int] by {}
            }
            Some(id)
        } else if k == SyntaxKind::Block {
            let binding = self.read_binding(tree, t);
            let header = match tree.field_child(t, FieldLabel::FieldHeader) {
                Some(h) => {
                    let ghost mid = *self;
                    let hr = self.load_child(tree, h, t);
                    proof {
                        lemma_extends_trans(entry, mid, *self);
                    }
                    hr
                },
                None => None,
            };
            let ghost after_header = *self;
            let children = match tree.field_child(t, FieldLabel::FieldChildren) {
                Some(w) => self.load_child_list(tree, w, t),
                None => Vec::new(),
            };
            proof {
                lemma_extends_refl(*self);
                lemma_extends_trans(entry, after_header, *self);
                lemma_fresh_trans(entry, after_header, *self, entry.metadata@.len() as int);
            }
            match header {
                Some(h) => {
                    proof {
                        assert(h < self.arena@.len());
                        let node = (Node::Block { binding, header: h, children });
                        assert forall|j: int| 0 <= j < refs_of(node).len() implies (
                        #[trigger] refs_of(node)[j] as int) < self.arena@.len() by {
                            if j == 0 {
                            } else {
                                assert(refs_of(node)[j] == children@[j - 1]);
                            }
                        }
                        assert(self.metadata@.subrange(
                            0,
                            after_header.metadata@.len() as int,
                        )[h as int] == self.metadata@[h as int]);
                    }
                    let ghost ids = children@;
                    let ghost mid = *self;
                    let id = self.make_node(Node::Block { binding, header: h, children }, t);
                    proof {
                        lemma_extends_trans(entry, mid, *self);
                        lemma_fresh_trans(entry, mid, *self, entry.metadata@.len() as int);
                        assert forall|x: int| 0 <= x < ids.len() implies self.metadata@[
                        #[trigger] ids[x] as int] == mid.metadata@[ids[x] as int] by {}
                        assert(self.metadata@[h as int] == mid.metadata@[h as int]);
                    }
                    Some(id)
                },
                None => None,
            }
        } else {
            None
        }
    }

    /// Loads one structural child during a parent's build, keeping the
    /// parent's measure.
    fn load_child(&mut self, tree: &SyntaxTree, c: usize, t: usize) -> (r: Option<NodeId>)
        requires
            tree.wf(),
            tree.is_node(c as int),
            tree.is_node(t as int),
            t < c,
            old(self).wf(),
        ensures
            final(self).wf(),
            extends(*final(self), *old(self)),
            fresh_from(*final(self), old(self).metadata@.len() as int),
            r is Some <==> loadable(*tree, c as int),
            r is Some ==> {
                &&& r->0 == final(self).arena@.len() - 1
                &&& final(self).arena@.len() > old(self).arena@.len()
                &&& final(self).metadata@[r->0 as int].ts_node_id == Some(c)
                &&& built_node_ok(
                    *final(self),
                    final(self).arena@[r->0 as int],
                    *tree,
                    c as int,
                )
            },
        decreases tree.n_nodes() - t, 0int,
    {
        self.load(tree, c)
    }

    /// Loads, in rank order, every child of `holder` that builds, during the
    /// build of the node at `t`; `holder` is `t` itself for a document, or
    /// the child-list wrapper inside `t`.
    fn load_child_list(&mut self, tree: &SyntaxTree, holder: usize, t: usize) -> (children: Vec<
        NodeId,
    >)
        requires
            tree.wf(),
            tree.is_node(holder as int),
            tree.is_node(t as int),
            t <= holder,
            old(self).wf(),
        ensures
            final(self).wf(),
            extends(*final(self), *old(self)),
            fresh_from(*final(self), old(self).metadata@.len() as int),
            forall|x: int|
                0 <= x < children@.len() ==> (#[trigger] children@[x] as int)
                    < final(self).arena@.len(),
            children_map_ok(
                *final(self),
                children@,
                loadable_kids(
                    *tree,
                    holder as int,
                    tree.node(holder as int).children@.len() as int,
                    tree.node(t as int).kind == SyntaxKind::Document,
                ),
            ),
        decreases tree.n_nodes() - t, 1int,
    {
        let ghost entry = *self;
        proof {
            lemma_extends_refl(*self);
        }
        let is_document = tree.kind(t) == SyntaxKind::Document;
        let n = tree.child_count(holder);
        let mut children: Vec<NodeId> = Vec::new();
        let mut j: usize = 0;
        while j < n
            invariant
                j <= n,
                n == tree.node(holder as int).children@.len(),
                tree.wf(),
                tree.is_node(holder as int),
                tree.is_node(t as int),
                t <= holder,
                self.wf(),
                extends(*self, entry),
                fresh_from(*self, entry.metadata@.len() as int),
                forall|x: int|
                    0 <= x < children@.len() ==> (#[trigger] children@[x] as int)
                        < self.arena@.len(),
                is_document == (tree.node(t as int).kind == SyntaxKind::Document),
                children_map_ok(
                    *self,
                    children@,
                    loadable_kids(*tree, holder as int, j as int, is_document),
                ),
            decreases n - j,
        {
            let c = tree.child(holder, j);
            proof {
                tree.lemma_node_wf(holder as int);
                tree.lemma_child_in_subtree(holder as int, j as int);
                tree.lemma_node_wf(c as int);
            }
            let take = if is_document {
                tree.field(c) == FieldLabel::FieldChildren
            } else {
                true
            };
            let ghost kids_pre = loadable_kids(*tree, holder as int, j as int, is_document);
            if take {
                let ghost mid = *self;
                let loaded = self.load_child(tree, c, t);
                proof {
                    lemma_extends_trans(entry, mid, *self);
                    lemma_fresh_trans(entry, mid, *self, entry.metadata@.len() as int);
                    assert forall|x: int| 0 <= x < children@.len() implies (
                    #[trigger] children@[x] as int) < self.metadata@.len()
                        && self.metadata@[children@[x] as int] == mid.metadata@[children@[
                        x
                    ] as int] by {
                        assert(self.metadata@.subrange(0, mid.metadata@.len() as int)[children@[
                            x
                        ] as int] == self.metadata@[children@[x] as int]);
                    }
                }
                match loaded {
                    Some(id) => {
                        children.push(id);
                        proof {
                            assert(loadable_kids(*tree, holder as int, j as int + 1, is_document)
                                =~= kids_pre.push(c));
                        }
                    },
                    None => {
                        proof {
                            assert(loadable_kids(*tree, holder as int, j as int + 1, is_document)
                                =~= kids_pre);
                        }
                    },
                }
            } else {
                proof {
                    assert(loadable_kids(*tree, holder as int, j as int + 1, is_document)
                        =~= kids_pre);
                }
            }
            j = j + 1;
        }
        children
    }

    /// The binding identifier's text, when the node carries a binding with
    /// an identifier.
    fn read_binding(&self, tree: &SyntaxTree, t: usize) -> (r: Option<String>)
        requires
            tree.wf(),
            tree.is_node(t as int),
        ensures
            r == binding_spec(*tree, t as int),
    {
        match tree.field_child(t, FieldLabel::FieldBinding) {
            Some(b) => match tree.field_child(b, FieldLabel::FieldIdentifier) {
                Some(idn) => Some(tree.text(idn).clone()),
                None => None,
            },
            None => None,
        }
    }

    /// The node's content child as literal content or a reference,
    /// distinguished by its kind.
    fn read_content(&self, tree: &SyntaxTree, t: usize) -> (r: Option<Content>)
        requires
            tree.wf(),
            tree.is_node(t as int),
        ensures
            r == content_spec(*tree, t as int),
    {
        match tree.field_child(t, FieldLabel::FieldContent) {
            Some(c) => {
                let k = tree.kind(c);
                if k == SyntaxKind::Content {
                    Some(Content::Content(tree.text(c).clone()))
                } else if k == SyntaxKind::Ref {
                    Some(Content::Ref(tree.text(c).clone()))
                } else {
                    None
                }
            },
            None => None,
        }
    }
}

} // verus!
