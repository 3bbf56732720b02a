//! A concrete syntax tree held as plain values.
//!
//! The incremental parser that produces syntax trees lives outside this
//! library; the diff engine and the semantic tree builder only ever read a
//! node's kind, its text, its children and its position in the tree.  This
//! module holds exactly that data: a tree flattened into a vector in
//! pre-order, so that a node's index doubles as its pre-order rank and as its
//! per-snapshot identity, and each node records the index range its subtree
//! occupies.

use vstd::prelude::*;

verus! {

/// Kind of a syntax node.  The named kinds are the ones the engine inspects;
/// any other token of the grammar is carried as `Token` with the grammar's
/// numeric kind id.
#[derive(Debug, Clone, Copy, PartialEq, Eq, Structural)]
pub enum SyntaxKind {
    Document,
    Node,
    Binding,
    Ref,
    Block,
    Content,
    Children,
    Identifier,
    BlockHeader,
    Token(u16),
}

/// Label of the edge from a node's parent, where the grammar names it.
#[derive(Debug, Clone, Copy, PartialEq, Eq, Structural)]
pub enum FieldLabel {
    FieldChildren,
    FieldBinding,
    FieldContent,
    FieldHeader,
    FieldIdentifier,
    NoField,
}

/// One syntax node: its kind, the text its span covers, the edge label from
/// its parent, and its place in the pre-order vector.
#[derive(Debug)]
pub struct SyntaxNode {
    pub kind: SyntaxKind,
    pub field: FieldLabel,
    pub text: String,
    pub parent: Option<usize>,
    pub child_rank: usize,
    pub children: Vec<usize>,
    pub subtree_size: usize,
}

/// A syntax tree: nodes in pre-order, the root at index 0.
pub struct SyntaxTree {
    pub nodes: Vec<SyntaxNode>,
}

/// Well-formedness of the node at index `i` of the pre-order vector `s`: its
/// subtree occupies exactly the index interval `[i, i + subtree_size)`, its
/// children partition `[i + 1, i + subtree_size)` in order, and each child
/// points back at `i`.
#[verifier::opaque]
pub open spec fn wf_at(s: Seq<SyntaxNode>, i: int) -> bool {
    let n = s[i];
    &&& n.subtree_size >= 1
    &&& i + n.subtree_size <= s.len()
    &&& (n.children@.len() == 0 ==> n.subtree_size == 1)
    &&& (n.children@.len() > 0 ==> {
        &&& n.children@[0] == i + 1
        &&& {
            let last = n.children@.last() as int;
            &&& i < last < s.len()
            &&& last + s[last].subtree_size == i + n.subtree_size
        }
    })
    &&& forall|j: int|
        0 <= j < n.children@.len() ==> {
            let c = #[trigger] n.children@[j] as int;
            &&& i < c < s.len()
            &&& (j > 0 ==> {
                let prev = n.children@[j - 1] as int;
                0 <= prev < s.len() && c == prev + s[prev].subtree_size
            })
            &&& s[c].parent == Some(i as usize)
            &&& s[c].child_rank == j
        }
}

/// The node at `i` agrees with its parent: the parent precedes it and lists
/// it at the node's own rank.
#[verifier::opaque]
pub open spec fn parent_ok(s: Seq<SyntaxNode>, i: int) -> bool {
    let n = s[i];
    &&& n.parent is Some
    &&& {
        let p = n.parent->0 as int;
        &&& 0 <= p < i
        &&& n.child_rank < s[p].children@.len()
        &&& s[p].children@[n.child_rank as int] == i
    }
}

impl SyntaxTree {
    /// Number of nodes.
    pub open spec fn n_nodes(self) -> int {
        self.nodes@.len() as int
    }

    pub open spec fn node(self, i: int) -> SyntaxNode {
        self.nodes@[i]
    }

    pub open spec fn is_node(self, i: int) -> bool {
        0 <= i < self.n_nodes()
    }

    /// Number of nodes in the subtree rooted at `i`.
    pub open spec fn size(self, i: int) -> int {
        self.node(i).subtree_size as int
    }

    /// One past the last pre-order index of the subtree rooted at `i`.
    pub open spec fn end(self, i: int) -> int {
        i + self.size(i)
    }

    /// The whole tree is well formed: nonempty, rooted at index 0, every node
    /// well placed, and every non-root node consistent with its parent's
    /// child list.
    pub open spec fn wf(self) -> bool {
        &&& self.n_nodes() >= 1
        &&& self.node(0).parent is None
        &&& self.end(0) == self.n_nodes()
        &&& forall|i: int| 0 <= i < self.n_nodes() ==> #[trigger] wf_at(self.nodes@, i)
        &&& forall|i: int| 1 <= i < self.n_nodes() ==> #[trigger] parent_ok(self.nodes@, i)
    }

    pub fn node_count(&self) -> (r: usize)
        ensures
            r == self.n_nodes(),
    {
        self.nodes.len()
    }

    pub fn kind(&self, i: usize) -> (r: SyntaxKind)
        requires
            self.is_node(i as int),
        ensures
            r == self.node(i as int).kind,
    {
        self.nodes[i].kind
    }

    pub fn text(&self, i: usize) -> (r: &String)
        requires
            self.is_node(i as int),
        ensures
            r == self.node(i as int).text,
    {
        &self.nodes[i].text
    }

    pub fn field(&self, i: usize) -> (r: FieldLabel)
        requires
            self.is_node(i as int),
        ensures
            r == self.node(i as int).field,
    {
        self.nodes[i].field
    }

    pub fn child_count(&self, i: usize) -> (r: usize)
        requires
            self.is_node(i as int),
        ensures
            r == self.node(i as int).children@.len(),
    {
        self.nodes[i].children.len()
    }

    pub fn child(&self, i: usize, j: usize) -> (r: usize)
        requires
            self.is_node(i as int),
            j < self.node(i as int).children@.len(),
        ensures
            r == self.node(i as int).children@[j as int],
    {
        self.nodes[i].children[j]
    }

    /// First child, if any; in pre-order it sits right after its parent.
    pub fn first_child(&self, i: usize) -> (r: Option<usize>)
        requires
            self.wf(),
            self.is_node(i as int),
        ensures
            r is Some <==> self.node(i as int).children@.len() > 0,
            r is Some ==> {
                &&& r->0 == self.node(i as int).children@[0]
                &&& r->0 == i + 1
                &&& self.is_node(r->0 as int)
            },
    {
        if self.nodes[i].children.len() > 0 {
            proof {
                self.lemma_node_wf(i as int);
            }
            Some(self.nodes[i].children[0])
        } else {
            None
        }
    }

    pub fn parent(&self, i: usize) -> (r: Option<usize>)
        requires
            self.is_node(i as int),
        ensures
            r == self.node(i as int).parent,
    {
        self.nodes[i].parent
    }

    /// The next sibling as the parent's child list gives it.
    pub open spec fn sib_spec(self, i: int) -> Option<usize> {
        match self.node(i).parent {
            Some(p) => if self.node(i).child_rank + 1 < self.node(p as int).children@.len() {
                Some(self.node(p as int).children@[self.node(i).child_rank + 1])
            } else {
                None
            },
            None => None,
        }
    }

    /// Next sibling, if any; in pre-order it starts where this node's subtree
    /// ends.  When there is none and a parent exists, the parent's subtree
    /// ends exactly where this node's does.
    #[verifier::rlimit(50)]
    pub fn next_sibling(&self, i: usize) -> (r: Option<usize>)
        requires
            self.wf(),
            self.is_node(i as int),
        ensures
            r == self.sib_spec(i as int),
            r is Some ==> {
                &&& self.is_node(r->0 as int)
                &&& r->0 == self.end(i as int)
            },
            r is None && self.node(i as int).parent is Some ==> {
                let p = self.node(i as int).parent->0 as int;
                &&& self.is_node(p)
                &&& self.end(p) == self.end(i as int)
            },
            r is None && self.node(i as int).parent is None ==> i as int == 0,
    {
        proof {
            if i as int != 0 {
                self.lemma_parent_wf(i as int);
                self.lemma_node_wf(self.node(i as int).parent->0 as int);
            }
        }
        match self.nodes[i].parent {
            None => None,
            Some(p) => {
                assert(i as int != 0);
                let rank = self.nodes[i].child_rank;
                let n_children = self.nodes[p].children.len();
                assert(rank < n_children);
                if rank + 1 < n_children {
                    Some(self.nodes[p].children[rank + 1])
                } else {
                    None
                }
            },
        }
    }

    /// Everything `wf_at` states of node `i`, unfolded.
    pub proof fn lemma_node_wf(self, i: int)
        requires
            self.wf(),
            self.is_node(i),
        ensures
            self.size(i) >= 1,
            self.end(i) <= self.n_nodes(),
            self.node(i).children@.len() == 0 ==> self.size(i) == 1,
            self.node(i).children@.len() > 0 ==> {
                &&& self.node(i).children@[0] == i + 1
                &&& {
                    let last = self.node(i).children@.last() as int;
                    &&& self.is_node(last)
                    &&& self.end(last) == self.end(i)
                }
            },
            forall|j: int|
                0 <= j < self.node(i).children@.len() ==> {
                    let c = #[trigger] self.node(i).children@[j] as int;
                    &&& i < c < self.n_nodes()
                    &&& (j > 0 ==> {
                        let prev = self.node(i).children@[j - 1] as int;
                        c == prev + self.size(prev)
                    })
                    &&& self.node(c).parent == Some(i as usize)
                    &&& self.node(c).child_rank == j
                },
    {
        assert(wf_at(self.nodes@, i));
        reveal(wf_at);
    }

    /// Everything `parent_ok` states of node `i`, unfolded.
    pub proof fn lemma_parent_wf(self, i: int)
        requires
            self.wf(),
            1 <= i < self.n_nodes(),
        ensures
            self.node(i).parent is Some,
            ({
                let p = self.node(i).parent->0 as int;
                &&& 0 <= p < i
                &&& self.node(i).child_rank < self.node(p).children@.len()
                &&& self.node(p).children@[self.node(i).child_rank as int] == i
            }),
    {
        assert(parent_ok(self.nodes@, i));
        reveal(parent_ok);
    }
}

/// A plain description of a syntax subtree, used to construct a
/// [`SyntaxTree`]: the same data as a node, with the children nested instead
/// of indexed.
#[derive(Debug)]
pub struct SyntaxDesc {
    pub kind: SyntaxKind,
    pub field: FieldLabel,
    pub text: String,
    pub children: Vec<SyntaxDesc>,
}

/// Number of nodes a description flattens to: itself and its descendants.
pub open spec fn desc_size(d: SyntaxDesc) -> int
    decreases d,
{
    1 + desc_kids_size(d.children@, 0)
}

/// Combined size of the descriptions `s[j..]`.
pub open spec fn desc_kids_size(s: Seq<SyntaxDesc>, j: int) -> int
    decreases s, s.len() - j,
{
    if j < 0 || j >= s.len() {
        0
    } else {
        desc_size(s[j]) + desc_kids_size(s, j + 1)
    }
}

/// Every text in the description is shorter than `b` bytes.
pub open spec fn desc_texts_lt(d: SyntaxDesc, b: int) -> bool
    decreases d,
{
    vstd::utf8::encode_utf8(d.text@).len() < b && (forall|x: int|
        0 <= x < d.children@.len() ==> desc_texts_lt(#[trigger] d.children@[x], b))
}

/// The descriptions of a subtree, flattened in pre-order: the order the
/// builder assigns indices in.
pub open spec fn desc_flat(d: SyntaxDesc) -> Seq<SyntaxDesc>
    decreases d,
{
    seq![d] + desc_kids_flat(d.children@, 0)
}

/// The flattened descriptions of `s[j..]`, concatenated.
pub open spec fn desc_kids_flat(s: Seq<SyntaxDesc>, j: int) -> Seq<SyntaxDesc>
    decreases s, s.len() - j,
{
    if j < 0 || j >= s.len() {
        Seq::empty()
    } else {
        desc_flat(s[j]) + desc_kids_flat(s, j + 1)
    }
}

/// The flattened descriptions of the first `j` children, accumulated from
/// the front.
pub open spec fn desc_kids_flat_upto(s: Seq<SyntaxDesc>, j: int) -> Seq<SyntaxDesc>
    decreases j,
{
    if j <= 0 {
        Seq::empty()
    } else {
        desc_kids_flat_upto(s, j - 1) + (if 0 <= j - 1 < s.len() {
            desc_flat(s[j - 1])
        } else {
            Seq::empty()
        })
    }
}

/// A built node carries exactly its description's kind, edge label and text.
pub open spec fn desc_matches(n: SyntaxNode, d: SyntaxDesc) -> bool {
    &&& n.kind == d.kind
    &&& n.field == d.field
    &&& n.text == d.text
}

/// A subtree flattens to as many descriptions as it has nodes.
proof fn lemma_flat_len(d: SyntaxDesc)
    ensures
        desc_flat(d).len() == desc_size(d),
    decreases d, 0int,
{
    lemma_kids_flat_len(d.children@, 0);
}

proof fn lemma_kids_flat_len(s: Seq<SyntaxDesc>, j: int)
    ensures
        desc_kids_flat(s, j).len() == desc_kids_size(s, j),
    decreases s, s.len() - j, 1int,
{
    if 0 <= j < s.len() {
        lemma_flat_len_elem(s, j);
        lemma_kids_flat_len(s, j + 1);
    }
}

proof fn lemma_flat_len_elem(s: Seq<SyntaxDesc>, j: int)
    requires
        0 <= j < s.len(),
    ensures
        desc_flat(s[j]).len() == desc_size(s[j]),
    decreases s, s.len() - j, 0int,
{
    lemma_flat_len(s[j]);
}

/// The front-accumulated prefix plus the rest is the whole flattening.
proof fn lemma_flat_prefix(s: Seq<SyntaxDesc>, j: int)
    requires
        0 <= j <= s.len(),
    ensures
        desc_kids_flat(s, 0) == desc_kids_flat_upto(s, j) + desc_kids_flat(s, j),
    decreases j,
{
    if j == 0 {
        assert(desc_kids_flat_upto(s, 0) + desc_kids_flat(s, 0) =~= desc_kids_flat(s, 0));
    } else {
        lemma_flat_prefix(s, j - 1);
        assert(desc_kids_flat_upto(s, j) + desc_kids_flat(s, j) =~= desc_kids_flat_upto(s, j - 1)
            + (desc_flat(s[j - 1]) + desc_kids_flat(s, j)));
    }
}

impl SyntaxTree {
    /// Flattens a description into a well-formed tree, assigning pre-order
    /// indices: node `i` carries exactly the `i`-th description of the
    /// flattened input.
    pub fn from_desc(desc: &SyntaxDesc) -> (r: SyntaxTree)
        ensures
            r.wf(),
            r.node(0).kind == desc.kind,
            r.node(0).text == desc.text,
            r.n_nodes() == desc_size(*desc),
            forall|i: int|
                0 <= i < r.n_nodes() ==> desc_matches(#[trigger] r.node(i), desc_flat(*desc)[i]),
            forall|b: int|
                #[trigger] desc_texts_lt(*desc, b) ==> (forall|i: int|
                    0 <= i < r.n_nodes() ==> vstd::utf8::encode_utf8(
                        (#[trigger] r.node(i)).text@,
                    ).len() < b),
    {
        let mut nodes: Vec<SyntaxNode> = Vec::new();
        build_at(desc, &mut nodes, None, 0);
        proof {
            lemma_flat_len(*desc);
        }
        let t = SyntaxTree { nodes };
        proof {
            reveal(seg_wf_from);
            assert forall|i: int| 0 <= i < t.n_nodes() implies desc_matches(
                #[trigger] t.node(i),
                desc_flat(*desc)[i],
            ) by {
                assert(desc_matches(t.nodes@[0 + i], desc_flat(*desc)[i]));
            }
            assert forall|i: int| 1 <= i < t.n_nodes() implies #[trigger] parent_ok(t.nodes@, i) by {
                reveal(parent_ok);
                reveal(seg_parent_ok);
                assert(seg_parent_ok(t.nodes@, 0, i));
            }
        }
        t
    }
}

/// The tail `[i, s.len())` of the pre-order vector is one well-formed
/// subtree rooted at `i`, every parent pointer inside it staying inside it.
#[verifier::opaque]
pub open spec fn seg_wf_from(s: Seq<SyntaxNode>, i: int) -> bool {
    &&& 0 <= i < s.len()
    &&& i + s[i].subtree_size == s.len()
    &&& forall|k: int| i <= k < s.len() ==> #[trigger] wf_at(s, k)
    &&& forall|k: int| i < k < s.len() ==> #[trigger] seg_parent_ok(s, i, k)
}

/// Parent consistency of node `k` within the segment rooted at `i`.
#[verifier::opaque]
pub open spec fn seg_parent_ok(s: Seq<SyntaxNode>, i: int, k: int) -> bool {
    let n = s[k];
    &&& n.parent is Some
    &&& {
        let p = n.parent->0 as int;
        &&& i <= p < k
        &&& n.child_rank < s[p].children@.len()
        &&& s[p].children@[n.child_rank as int] == k
    }
}

/// State of `build_at` after `cids.len()` child subtrees of the node at `i`
/// have been appended: the segments sit back to back after `i`, each child
/// root points at `i` with its rank, and everything appended so far is well
/// formed.
#[verifier::opaque]
spec fn children_built(s: Seq<SyntaxNode>, i: int, cids: Seq<usize>) -> bool {
    &&& 0 <= i < s.len()
    &&& (cids.len() == 0 ==> s.len() == i + 1)
    &&& (cids.len() > 0 ==> {
        &&& cids[0] == i + 1
        &&& {
            let last = cids.last() as int;
            &&& i < last < s.len()
            &&& last + s[last].subtree_size == s.len()
        }
    })
    &&& forall|x: int| 0 <= x < cids.len() ==> #[trigger] cid_ok(s, i, cids, x)
    &&& forall|k: int| i < k < s.len() ==> #[trigger] wf_at(s, k)
    &&& forall|k: int| i < k < s.len() ==> #[trigger] built_parent_ok(s, i, cids, k)
}

/// The `x`-th recorded child root: adjacent to its predecessor's segment and
/// wired to the parent `i`.
#[verifier::opaque]
spec fn cid_ok(s: Seq<SyntaxNode>, i: int, cids: Seq<usize>, x: int) -> bool {
    let c = cids[x] as int;
    &&& i < c < s.len()
    &&& (x > 0 ==> {
        let prev = cids[x - 1] as int;
        &&& 0 <= prev < s.len()
        &&& c == prev + s[prev].subtree_size
    })
    &&& s[c].parent == Some(i as usize)
    &&& s[c].child_rank == x
}

/// Parent consistency of node `k` while the child list of `i` still lives in
/// `cids` rather than in the node itself.
#[verifier::opaque]
spec fn built_parent_ok(s: Seq<SyntaxNode>, i: int, cids: Seq<usize>, k: int) -> bool {
    let n = s[k];
    &&& n.parent is Some
    &&& {
        let p = n.parent->0 as int;
        &&& i <= p < k
        &&& (p > i ==> n.child_rank < s[p].children@.len() && s[p].children@[n.child_rank as int]
            == k)
        &&& (p == i ==> n.child_rank < cids.len() && cids[n.child_rank as int] == k)
    }
}

proof fn lemma_children_built_empty(s: Seq<SyntaxNode>, i: int)
    requires
        0 <= i < s.len(),
        s.len() == i + 1,
    ensures
        children_built(s, i, Seq::<usize>::empty()),
{
    reveal(children_built);
}

/// One more child subtree, spanning `[c, post.len())`, has been appended to
/// a partially built node.
proof fn lemma_children_built_step(
    pre: Seq<SyntaxNode>,
    post: Seq<SyntaxNode>,
    i: int,
    cids: Seq<usize>,
    c: usize,
)
    requires
        children_built(pre, i, cids),
        c as int == pre.len(),
        pre.len() < post.len(),
        post.subrange(0, pre.len() as int) == pre,
        seg_wf_from(post, c as int),
        post[c as int].parent == Some(i as usize),
        post[c as int].child_rank == cids.len(),
    ensures
        children_built(post, i, cids.push(c)),
{
    reveal(children_built);
    reveal(cid_ok);
    reveal(built_parent_ok);
    reveal(seg_wf_from);
    reveal(seg_parent_ok);
    assert forall|x: int| 0 <= x < pre.len() implies post[x] == pre[x] by {
        assert(post.subrange(0, pre.len() as int)[x] == post[x]);
    }
    let cids2 = cids.push(c);
    assert forall|x: int| 0 <= x < cids2.len() implies #[trigger] cid_ok(post, i, cids2, x) by {
        if x < cids.len() {
            assert(cid_ok(pre, i, cids, x));
        } else {
            assert(cids2[x] == c);
            if x > 0 {
                assert(cid_ok(pre, i, cids, x - 1));
                assert(cids2[x - 1] == cids[x - 1]);
                assert(cids.last() == cids[x - 1]);
            }
        }
    }
    assert forall|k: int| i < k < post.len() implies #[trigger] wf_at(post, k) by {
        if k < pre.len() {
            lemma_wf_at_prefix(pre, post, k);
        } else {
            assert(wf_at(post, k));
        }
    }
    assert forall|k: int| i < k < post.len() implies #[trigger] built_parent_ok(
        post,
        i,
        cids2,
        k,
    ) by {
        if k < pre.len() {
            assert(built_parent_ok(pre, i, cids, k));
            assert(cids2[post[k].child_rank as int] == cids[post[k].child_rank as int] || post[
                k
            ].parent->0 as int != i);
        } else if k == c as int {
            assert(post[k].child_rank < cids2.len());
            assert(cids2[post[k].child_rank as int] == c);
        } else {
            assert(seg_parent_ok(post, c as int, k));
        }
    }
}

/// Writing the recorded child list and the final subtree size into the node
/// at `i` completes its segment.
#[verifier::rlimit(60)]
proof fn lemma_build_finish(pre: Seq<SyntaxNode>, post: Seq<SyntaxNode>, i: int, cids: Seq<usize>)
    requires
        children_built(pre, i, cids),
        pre.len() == post.len(),
        forall|x: int| 0 <= x < pre.len() && x != i ==> post[x] == #[trigger] pre[x],
        post[i].children@ == cids,
        post[i].subtree_size == post.len() - i,
    ensures
        seg_wf_from(post, i),
{
    reveal(children_built);
    reveal(cid_ok);
    reveal(built_parent_ok);
    reveal(seg_wf_from);
    reveal(seg_parent_ok);
    assert forall|k: int| i < k < post.len() implies #[trigger] wf_at(post, k) by {
        assert(wf_at(pre, k));
        lemma_wf_at_change_elsewhere(pre, post, k, i);
    }
    assert(wf_at(post, i)) by {
        reveal(wf_at);
        let n = post[i];
        assert forall|j: int| 0 <= j < n.children@.len() implies ({
            let c = #[trigger] n.children@[j] as int;
            &&& i < c < post.len()
            &&& (j > 0 ==> {
                let prev = n.children@[j - 1] as int;
                0 <= prev < post.len() && c == prev + post[prev].subtree_size
            })
            &&& post[c].parent == Some(i as usize)
            &&& post[c].child_rank == j
        }) by {
            assert(cid_ok(pre, i, cids, j));
            if j > 0 {
                assert(cid_ok(pre, i, cids, j - 1));
            }
        }
        if cids.len() > 0 {
            assert(cid_ok(pre, i, cids, 0));
            assert(cid_ok(pre, i, cids, cids.len() - 1));
        }
    }
    assert forall|k: int| i < k < post.len() implies #[trigger] seg_parent_ok(post, i, k) by {
        assert(built_parent_ok(pre, i, cids, k));
    }
}

/// Appends the subtree described by `desc` to `nodes` in pre-order, wiring
/// parent, rank and subtree sizes.
fn build_at(desc: &SyntaxDesc, nodes: &mut Vec<SyntaxNode>, parent: Option<usize>, rank: usize)
    ensures
        final(nodes)@.len() > old(nodes)@.len(),
        final(nodes)@.len() == old(nodes)@.len() + desc_size(*desc),
        final(nodes)@.subrange(0, old(nodes)@.len() as int) == old(nodes)@,
        seg_wf_from(final(nodes)@, old(nodes)@.len() as int),
        forall|b: int|
            #[trigger] desc_texts_lt(*desc, b) ==> (forall|k: int|
                old(nodes)@.len() <= k < final(nodes)@.len() ==> vstd::utf8::encode_utf8(
                    (#[trigger] final(nodes)@[k]).text@,
                ).len() < b),
        forall|x: int|
            0 <= x < desc_size(*desc) ==> desc_matches(
                #[trigger] final(nodes)@[old(nodes)@.len() + x],
                desc_flat(*desc)[x],
            ),
        ({
            let n = final(nodes)@[old(nodes)@.len() as int];
            &&& n.kind == desc.kind
            &&& n.field == desc.field
            &&& n.text == desc.text
            &&& n.parent == parent
            &&& n.child_rank == rank
        }),
    decreases desc,
{
    let i = nodes.len();
    nodes.push(
        SyntaxNode {
            kind: desc.kind,
            field: desc.field,
            text: desc.text.clone(),
            parent,
            child_rank: rank,
            children: Vec::new(),
            subtree_size: 1,
        },
    );
    proof {
        assert(nodes@.subrange(0, i as int) =~= old(nodes)@);
        lemma_children_built_empty(nodes@, i as int);
    }
    let mut child_ids: Vec<usize> = Vec::new();
    let mut j: usize = 0;
    while j < desc.children.len()
        invariant
            i < nodes@.len(),
            j == child_ids@.len(),
            j <= desc.children@.len(),
            nodes@.subrange(0, i as int) == old(nodes)@,
            nodes@[i as int].kind == desc.kind,
            nodes@[i as int].field == desc.field,
            nodes@[i as int].text == desc.text,
            nodes@[i as int].parent == parent,
            nodes@[i as int].child_rank == rank,
            children_built(nodes@, i as int, child_ids@),
            nodes@.len() == i + 1 + desc_kids_size(desc.children@, 0) - desc_kids_size(
                desc.children@,
                j as int,
            ),
            forall|b: int|
                #[trigger] desc_texts_lt(*desc, b) ==> (forall|k: int|
                    i <= k < nodes@.len() ==> vstd::utf8::encode_utf8(
                        (#[trigger] nodes@[k]).text@,
                    ).len() < b),
            desc_kids_flat_upto(desc.children@, j as int).len() == nodes@.len() - i - 1,
            forall|x: int|
                0 <= x < nodes@.len() - i - 1 ==> desc_matches(
                    #[trigger] nodes@[i + 1 + x],
                    desc_kids_flat_upto(desc.children@, j as int)[x],
                ),
        decreases desc.children@.len() - j,
    {
        let c = nodes.len();
        let ghost pre = nodes@;
        let ghost cids_before = child_ids@;
        build_at(&desc.children[j], nodes, Some(i), j);
        child_ids.push(c);
        proof {
            assert forall|x: int| 0 <= x < pre.len() implies nodes@[x] == pre[x] by {
                assert(nodes@.subrange(0, pre.len() as int)[x] == nodes@[x]);
            }
            assert(nodes@.subrange(0, i as int) =~= pre.subrange(0, i as int));
            lemma_children_built_step(pre, nodes@, i as int, cids_before, c);
            assert(child_ids@ =~= cids_before.push(c));
            assert forall|b: int| #[trigger] desc_texts_lt(*desc, b) implies (forall|k: int|
                i <= k < nodes@.len() ==> vstd::utf8::encode_utf8(
                    (#[trigger] nodes@[k]).text@,
                ).len() < b) by {
                assert(desc_texts_lt(desc.children@[j as int], b));
                assert forall|k: int| i <= k < nodes@.len() implies vstd::utf8::encode_utf8(
                    (#[trigger] nodes@[k]).text@,
                ).len() < b by {
                    if k < pre.len() {
                        assert(nodes@[k] == pre[k]);
                    }
                }
            }
            lemma_flat_len(desc.children@[j as int]);
            assert(desc_kids_flat_upto(desc.children@, j as int + 1) =~= desc_kids_flat_upto(
                desc.children@,
                j as int,
            ) + desc_flat(desc.children@[j as int]));
            assert forall|x: int| 0 <= x < nodes@.len() - i - 1 implies desc_matches(
                #[trigger] nodes@[i + 1 + x],
                desc_kids_flat_upto(desc.children@, j as int + 1)[x],
            ) by {
                if x < pre.len() - i - 1 {
                    assert(nodes@[i + 1 + x] == pre[i + 1 + x]);
                } else {
                    assert(nodes@[i + 1 + x] == nodes@[pre.len() + (x - (pre.len() - i - 1))]);
                    assert(desc_matches(
                        nodes@[pre.len() + (x - (pre.len() - i - 1))],
                        desc_flat(desc.children@[j as int])[x - (pre.len() - i - 1)],
                    ));
                }
            }
        }
        j = j + 1;
    }
    let total = nodes.len() - i;
    let ghost before_fix = nodes@;
    let ghost cids = child_ids@;
    nodes[i].children = child_ids;
    nodes[i].subtree_size = total;
    proof {
        lemma_build_finish(before_fix, nodes@, i as int, cids);
        assert(nodes@.subrange(0, i as int) =~= old(nodes)@);
        lemma_flat_prefix(desc.children@, desc.children@.len() as int);
        assert(desc_kids_flat_upto(desc.children@, desc.children@.len() as int)
            =~= desc_kids_flat(desc.children@, 0));
        lemma_flat_len(*desc);
        assert(desc_kids_size(desc.children@, desc.children@.len() as int) == 0);
        assert(before_fix.len() - i == desc_size(*desc));
        assert(desc_kids_flat_upto(desc.children@, desc.children@.len() as int).len()
            == desc_size(*desc) - 1);
        assert forall|x: int| 0 <= x < desc_size(*desc) implies desc_matches(
            #[trigger] nodes@[i + x],
            desc_flat(*desc)[x],
        ) by {
            if x == 0 {
            } else {
                let y = x - 1;
                assert(j as int == desc.children@.len() as int);
                assert(0 <= y < before_fix.len() - i - 1);
                assert(desc_matches(
                    #[trigger] before_fix[i + 1 + y],
                    desc_kids_flat_upto(desc.children@, j as int)[y],
                ));
                assert(nodes@[i + x] == before_fix[i + 1 + y]);
                assert(desc_flat(*desc)[x] == desc_kids_flat(desc.children@, 0)[y]);
            }
        }
    }
}

/// `wf_at` only looks at the node and its children's slots, so it survives
/// appending nodes after the vector it held in.
proof fn lemma_wf_at_prefix(s1: Seq<SyntaxNode>, s2: Seq<SyntaxNode>, k: int)
    requires
        0 <= k < s1.len(),
        s1.len() <= s2.len(),
        wf_at(s1, k),
        forall|x: int| 0 <= x < s1.len() ==> s1[x] == #[trigger] s2[x],
    ensures
        wf_at(s2, k),
{
    reveal(wf_at);
}

/// `wf_at(s, k)` for `k` after `i` never reads slot `i` itself: `k`'s
/// children all lie strictly after `k > i`.
proof fn lemma_wf_at_change_elsewhere(s1: Seq<SyntaxNode>, s2: Seq<SyntaxNode>, k: int, i: int)
    requires
        0 <= i < k < s1.len(),
        s1.len() == s2.len(),
        wf_at(s1, k),
        forall|x: int| 0 <= x < s1.len() && x != i ==> s1[x] == #[trigger] s2[x],
    ensures
        wf_at(s2, k),
{
    reveal(wf_at);
}

impl SyntaxTree {
    /// Later children start at or after the end of earlier ones.
    pub proof fn lemma_children_ordered(self, i: int, j1: int, j2: int)
        requires
            self.wf(),
            self.is_node(i),
            0 <= j1 < j2 < self.node(i).children@.len(),
        ensures
            self.end(self.node(i).children@[j1] as int) <= self.node(i).children@[j2] as int,
        decreases j2 - j1,
    {
        self.lemma_node_wf(i);
        let c1 = self.node(i).children@[j1] as int;
        let c2 = self.node(i).children@[j2] as int;
        if j2 == j1 + 1 {
        } else {
            let cm = self.node(i).children@[j2 - 1] as int;
            self.lemma_children_ordered(i, j1, j2 - 1);
            self.lemma_node_wf(cm);
        }
    }

    /// A child's subtree lies strictly inside its parent's.
    pub proof fn lemma_child_in_subtree(self, i: int, j: int)
        requires
            self.wf(),
            self.is_node(i),
            0 <= j < self.node(i).children@.len(),
        ensures
            i < self.node(i).children@[j] as int,
            self.end(self.node(i).children@[j] as int) <= self.end(i),
        decreases self.node(i).children@.len() - j,
    {
        self.lemma_node_wf(i);
        let c = self.node(i).children@[j] as int;
        let lastj = self.node(i).children@.len() - 1;
        if j == lastj {
        } else {
            self.lemma_children_ordered(i, j, lastj);
            let last = self.node(i).children@[lastj] as int;
            self.lemma_node_wf(last);
        }
    }

    /// The first child of `i` carrying field label `f`, scanning ranks from
    /// `j` on.
    pub open spec fn scan_field(self, i: int, f: FieldLabel, j: int) -> Option<usize>
        decreases self.node(i).children@.len() - j,
    {
        if j < 0 || j >= self.node(i).children@.len() {
            None
        } else if self.node(self.node(i).children@[j] as int).field == f {
            Some(self.node(i).children@[j])
        } else {
            self.scan_field(i, f, j + 1)
        }
    }

    /// The first child of `i` carrying field label `f`.
    pub open spec fn field_child_spec(self, i: int, f: FieldLabel) -> Option<usize> {
        self.scan_field(i, f, 0)
    }

    /// Looks up the first child with the given field label, as the grammar's
    /// field lookup does.
    pub fn field_child(&self, i: usize, f: FieldLabel) -> (r: Option<usize>)
        requires
            self.wf(),
            self.is_node(i as int),
        ensures
            r == self.field_child_spec(i as int, f),
            r is Some ==> {
                &&& self.is_node(r->0 as int)
                &&& i < r->0 < self.end(i as int)
                &&& self.end(r->0 as int) <= self.end(i as int)
                &&& self.node(r->0 as int).field == f
            },
    {
        proof {
            self.lemma_node_wf(i as int);
        }
        let n = self.nodes[i].children.len();
        let mut j: usize = 0;
        while j < n
            invariant
                j <= n,
                n == self.node(i as int).children@.len(),
                self.wf(),
                self.is_node(i as int),
                self.field_child_spec(i as int, f) == self.scan_field(i as int, f, j as int),
            decreases n - j,
        {
            proof {
                self.lemma_node_wf(i as int);
            }
            let c = self.nodes[i].children[j];
            if self.nodes[c].field == f {
                proof {
                    self.lemma_child_in_subtree(i as int, j as int);
                    self.lemma_node_wf(c as int);
                }
                return Some(c);
            }
            j = j + 1;
        }
        None
    }
}

} // verus!
