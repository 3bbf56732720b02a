//! The tree diff engine.
//!
//! Computes a minimum-cost edit script between an old and a new syntax tree
//! by a uniform-cost best-first search over pairs of tree cursors.  Every
//! node gets a content hash, a byte size and a subtree base cost in one
//! bottom-up pass; the search then aligns the two trees, preferring
//! structural alignment (free) over replacement (priced by subtree base
//! costs) and pricing an in-place leaf rewrite by edit distance.
//!
//! The script a finished search hands out covers each tree exactly: read in
//! order, its operations consume the old tree's pre-order positions from
//! first to last with no gap and no overlap, and likewise the new tree's.

use vstd::prelude::*;
use vstd::string::StringSliceAdditionalSpecFns;

use crate::levenshtein::{edit_dist, levenshtein};
use crate::syntax::{SyntaxKind, SyntaxTree};
use crate::text_diff::Diff;

verus! {

/// One edit-script instruction over nodes of type `T`.
#[derive(Debug, PartialEq, Clone, Copy, Eq, Structural)]
pub enum OpF<T> {
    /// Content is identical: the whole old subtree matches the whole new one.
    Exact { old: T, new: T },
    /// Structural correspondence of the nodes themselves; descendants follow.
    Update { old: T, new: T },
    /// Same position, same kind, different text: rewrite the leaf in place.
    UpdateScalar { old: T, new: T },
    /// The old node is dropped; its descendants may still match.
    Delete { old: T },
    /// The whole old subtree is dropped.
    DeleteSubtree { old: T },
    /// The new node is fresh; its descendants may still match.
    Insert { new: T },
    /// The whole new subtree is fresh.
    InsertSubtree { new: T },
}

/// An edit-script instruction over syntax nodes, named by their pre-order
/// index, which doubles as their per-snapshot identity.
pub type Op = OpF<usize>;

/// A traversal position: about to enter a node, or just past its subtree.
#[derive(Debug, PartialEq, Clone, Copy, Eq, Structural)]
pub enum Cursor<T> {
    Before(T),
    After(T),
}

/// Diff-time data of one syntax node: a content hash combining kind and
/// text (for leaves) or child hashes (for internal nodes), the byte size of
/// the subtree's text, and the subtree's base cost, which prices deleting
/// or inserting it whole.
#[derive(Debug, PartialEq, Clone, Copy)]
pub struct NodeData {
    pub hash: u32,
    pub size_bytes: usize,
    pub base_cost_subtree: usize,
}

/// One text update handed to the engine: both revisions of the text, both
/// parse trees, and the byte-level hunks between the texts.
pub struct Update {
    pub old_text: String,
    pub old_tree: SyntaxTree,
    pub new_text: String,
    pub new_tree: SyntaxTree,
    pub diff: Diff,
}

/// The modulus keeping content hashes inside 28 bits.
pub open spec fn hash_mod() -> int {
    0x10000000
}

/// One mixing step of the rolling content hash.
pub open spec fn mix(h: int, v: int) -> int {
    (h * 31 + v) % hash_mod()
}

/// A numeric code for each syntax kind, feeding the content hash.
pub open spec fn kind_code(k: SyntaxKind) -> int {
    match k {
        SyntaxKind::Document => 1,
        SyntaxKind::Node => 2,
        SyntaxKind::Binding => 3,
        SyntaxKind::Ref => 4,
        SyntaxKind::Block => 5,
        SyntaxKind::Content => 6,
        SyntaxKind::Children => 7,
        SyntaxKind::Identifier => 8,
        SyntaxKind::BlockHeader => 9,
        SyntaxKind::Token(t) => 10 + t as int,
    }
}

/// The rolling hash folded over a byte sequence prefix.
pub open spec fn hash_bytes(h: int, s: Seq<u8>, k: int) -> int
    decreases k,
{
    if k <= 0 {
        h
    } else {
        mix(hash_bytes(h, s, k - 1), s[k - 1] as int)
    }
}

/// Content hash of the subtree rooted at `i`: the node's kind code, mixed
/// with its raw text for a leaf or with the child hashes for an internal
/// node.
pub open spec fn hash_of(tree: SyntaxTree, i: int) -> int
    decreases tree.n_nodes() - i, 1int, 0int,
{
    let h0 = kind_code(tree.node(i).kind) % hash_mod();
    if tree.node(i).children@.len() == 0 {
        hash_bytes(h0, text_bytes(tree, i), text_bytes(tree, i).len() as int)
    } else {
        hash_kids(tree, i, 0, h0)
    }
}

/// The UTF-8 bytes of the node's text.
pub open spec fn text_bytes(tree: SyntaxTree, i: int) -> Seq<u8> {
    vstd::utf8::encode_utf8(tree.node(i).text@)
}

/// The rolling hash folded over the child subtree hashes from rank `j` on.
pub open spec fn hash_kids(tree: SyntaxTree, i: int, j: int, h: int) -> int
    decreases tree.n_nodes() - i, 0int, tree.node(i).children@.len() - j,
{
    if j < 0 || j >= tree.node(i).children@.len() {
        h
    } else {
        let c = tree.node(i).children@[j] as int;
        if i < c < tree.n_nodes() {
            hash_kids(tree, i, j + 1, mix(h, hash_of(tree, c)))
        } else {
            h
        }
    }
}

/// Byte size of the subtree's text: the text length for a leaf, the sum
/// over the children otherwise, capped at the machine's limit.
pub open spec fn size_of(tree: SyntaxTree, i: int) -> int
    decreases tree.n_nodes() - i, 1int, 0int,
{
    if tree.node(i).children@.len() == 0 {
        text_bytes(tree, i).len() as int
    } else {
        size_kids(tree, i, 0, 0)
    }
}

pub open spec fn sat_cap(v: int) -> int {
    if v > usize::MAX {
        usize::MAX as int
    } else {
        v
    }
}

pub open spec fn size_kids(tree: SyntaxTree, i: int, j: int, acc: int) -> int
    decreases tree.n_nodes() - i, 0int, tree.node(i).children@.len() - j,
{
    if j < 0 || j >= tree.node(i).children@.len() {
        acc
    } else {
        let c = tree.node(i).children@[j] as int;
        if i < c < tree.n_nodes() {
            size_kids(tree, i, j + 1, sat_cap(acc + size_of(tree, c)))
        } else {
            acc
        }
    }
}

/// The per-node base cost: the structural kinds cost one, everything else
/// nothing.
pub open spec fn base_cost_of(k: SyntaxKind) -> int {
    match k {
        SyntaxKind::Node => 1,
        SyntaxKind::Binding => 1,
        SyntaxKind::Ref => 1,
        SyntaxKind::Block => 1,
        _ => 0,
    }
}

/// Base cost of the whole subtree rooted at `i`: the sum of the per-node
/// base costs over it.
pub open spec fn cost_of(tree: SyntaxTree, i: int) -> int
    decreases tree.n_nodes() - i, 1int, 0int,
{
    cost_kids(tree, i, 0, base_cost_of(tree.node(i).kind))
}

pub open spec fn cost_kids(tree: SyntaxTree, i: int, j: int, acc: int) -> int
    decreases tree.n_nodes() - i, 0int, tree.node(i).children@.len() - j,
{
    if j < 0 || j >= tree.node(i).children@.len() {
        acc
    } else {
        let c = tree.node(i).children@[j] as int;
        if i < c < tree.n_nodes() {
            cost_kids(tree, i, j + 1, acc + cost_of(tree, c))
        } else {
            acc
        }
    }
}

/// The diff-time data of every node of the tree, as one sequence indexed
/// like the tree.
pub open spec fn spec_node_data(tree: SyntaxTree, i: int) -> NodeData {
    NodeData {
        hash: hash_of(tree, i) as u32,
        size_bytes: sat_cap(size_of(tree, i)) as usize,
        base_cost_subtree: cost_of(tree, i) as usize,
    }
}

pub open spec fn data_ok(tree: SyntaxTree, data: Seq<NodeData>) -> bool {
    &&& data.len() == tree.n_nodes()
    &&& forall|i: int| 0 <= i < data.len() ==> #[trigger] data[i] == spec_node_data(tree, i)
}

/// The per-node base cost never exceeds one, so a subtree's base cost is
/// bounded by its node count.
pub proof fn lemma_cost_bounded(tree: SyntaxTree, i: int)
    requires
        tree.wf(),
        tree.is_node(i),
    ensures
        0 <= cost_of(tree, i) <= tree.size(i),
    decreases tree.n_nodes() - i, 1int, 0int,
{
    tree.lemma_node_wf(i);
    lemma_cost_kids_bounded(tree, i, 0, base_cost_of(tree.node(i).kind));
}

/// Running bound for `cost_kids`: the accumulated cost stays within the
/// index interval consumed so far plus one for the node itself.
proof fn lemma_cost_kids_bounded(tree: SyntaxTree, i: int, j: int, acc: int)
    requires
        tree.wf(),
        tree.is_node(i),
        0 <= j <= tree.node(i).children@.len(),
        0 <= acc,
        acc <= 1 + (if j == 0 {
            0int
        } else {
            tree.end(tree.node(i).children@[j - 1] as int) - (i + 1)
        }),
    ensures
        0 <= cost_kids(tree, i, j, acc),
        cost_kids(tree, i, j, acc) <= 1 + (tree.end(i) - (i + 1)),
    decreases tree.n_nodes() - i, 0int, tree.node(i).children@.len() - j,
{
    tree.lemma_node_wf(i);
    if j == tree.node(i).children@.len() {
        if j == 0 {
        } else {
            assert(tree.end(tree.node(i).children@[j - 1] as int) == tree.end(i));
        }
    } else {
        let c = tree.node(i).children@[j] as int;
        tree.lemma_child_in_subtree(i, j);
        tree.lemma_node_wf(c);
        lemma_cost_bounded_child(tree, c, i);
        if j == 0 {
            assert(c == i + 1);
        } else {
            assert(c == tree.end(tree.node(i).children@[j - 1] as int));
        }
        lemma_cost_kids_bounded(tree, i, j + 1, acc + cost_of(tree, c));
    }
}

/// Recursion helper keeping the lexicographic measure in order.
proof fn lemma_cost_bounded_child(tree: SyntaxTree, c: int, i: int)
    requires
        tree.wf(),
        tree.is_node(c),
        i < c,
    ensures
        0 <= cost_of(tree, c) <= tree.size(c),
    decreases tree.n_nodes() - i, 0int, 0int,
{
    lemma_cost_bounded(tree, c);
}

/// Every rolling-hash value stays inside the modulus.
proof fn lemma_hash_bytes_range(h: int, s: Seq<u8>, k: int)
    requires
        0 <= h < hash_mod(),
    ensures
        0 <= hash_bytes(h, s, k) < hash_mod(),
    decreases k,
{
    if k > 0 {
        lemma_hash_bytes_range(h, s, k - 1);
    }
}

proof fn lemma_hash_range(tree: SyntaxTree, i: int)
    ensures
        0 <= hash_of(tree, i) < hash_mod(),
    decreases tree.n_nodes() - i, 1int, 0int,
{
    let h0 = kind_code(tree.node(i).kind) % hash_mod();
    if tree.node(i).children@.len() == 0 {
        lemma_hash_bytes_range(h0, text_bytes(tree, i), text_bytes(tree, i).len() as int);
    } else {
        lemma_hash_kids_range(tree, i, 0, h0);
    }
}

proof fn lemma_hash_kids_range(tree: SyntaxTree, i: int, j: int, h: int)
    requires
        0 <= h < hash_mod(),
    ensures
        0 <= hash_kids(tree, i, j, h) < hash_mod(),
    decreases tree.n_nodes() - i, 0int, tree.node(i).children@.len() - j,
{
    if 0 <= j < tree.node(i).children@.len() {
        let c = tree.node(i).children@[j] as int;
        if i < c < tree.n_nodes() {
            lemma_hash_range_child(tree, c, i);
            lemma_hash_kids_range(tree, i, j + 1, mix(h, hash_of(tree, c)));
        }
    }
}

proof fn lemma_hash_range_child(tree: SyntaxTree, c: int, i: int)
    requires
        i < c < tree.n_nodes(),
    ensures
        0 <= hash_of(tree, c) < hash_mod(),
    decreases tree.n_nodes() - i, 0int, 0int,
{
    lemma_hash_range(tree, c);
}

/// Subtree byte sizes are never negative.
proof fn lemma_size_nonneg(tree: SyntaxTree, i: int)
    ensures
        size_of(tree, i) >= 0,
    decreases tree.n_nodes() - i, 1int, 0int,
{
    if tree.node(i).children@.len() != 0 {
        lemma_size_kids_nonneg(tree, i, 0, 0);
    }
}

proof fn lemma_size_kids_nonneg(tree: SyntaxTree, i: int, j: int, acc: int)
    requires
        acc >= 0,
    ensures
        size_kids(tree, i, j, acc) >= 0,
    decreases tree.n_nodes() - i, 0int, tree.node(i).children@.len() - j,
{
    if 0 <= j < tree.node(i).children@.len() {
        let c = tree.node(i).children@[j] as int;
        if i < c < tree.n_nodes() {
            lemma_size_nonneg_child(tree, c, i);
            lemma_size_kids_nonneg(tree, i, j + 1, sat_cap(acc + size_of(tree, c)));
        }
    }
}

proof fn lemma_size_nonneg_child(tree: SyntaxTree, c: int, i: int)
    requires
        i < c < tree.n_nodes(),
    ensures
        size_of(tree, c) >= 0,
    decreases tree.n_nodes() - i, 0int, 0int,
{
    lemma_size_nonneg(tree, c);
}

/// One mixing step, executed: the accumulator stays inside the modulus.
fn mix_step(h: u64, v: u64) -> (r: u64)
    requires
        h < 0x10000000,
        v < 0x100000000,
    ensures
        r == mix(h as int, v as int),
        r < 0x10000000,
{
    (h * 31 + v) % 0x10000000
}

/// The per-node base cost, read off the node's kind.
pub fn base_cost(tree: &SyntaxTree, node: usize) -> (r: usize)
    requires
        tree.is_node(node as int),
    ensures
        r == base_cost_of(tree.node(node as int).kind),
{
    match tree.kind(node) {
        SyntaxKind::Node => 1,
        SyntaxKind::Binding => 1,
        SyntaxKind::Ref => 1,
        SyntaxKind::Block => 1,
        _ => 0,
    }
}

/// Whether two childless nodes may be aligned by an in-place text rewrite:
/// exactly when they share a kind.
pub fn is_compatible_for_scalar_update(
    old_tree: &SyntaxTree,
    old: usize,
    new_tree: &SyntaxTree,
    new: usize,
) -> (r: bool)
    requires
        old_tree.is_node(old as int),
        new_tree.is_node(new as int),
    ensures
        r == (old_tree.node(old as int).kind == new_tree.node(new as int).kind),
{
    old_tree.kind(old) == new_tree.kind(new)
}

/// The bottom-up pass: hash, byte size and subtree base cost for every node
/// of the tree, exactly as the specification functions state them.
pub fn get_content_hashes(tree: &SyntaxTree) -> (data: Vec<NodeData>)
    requires
        tree.wf(),
    ensures
        data_ok(*tree, data@),
{
    let n = tree.node_count();
    let mut data: Vec<NodeData> = vec![NodeData { hash: 0, size_bytes: 0, base_cost_subtree: 0 }; n];
    let mut i = n;
    while i > 0
        invariant
            i <= n,
            n == tree.n_nodes(),
            tree.wf(),
            data@.len() == n,
            forall|k: int| i <= k < n ==> #[trigger] data@[k] == spec_node_data(*tree, k),
        decreases i,
    {
        i = i - 1;
        let d = node_data_at(tree, i, &data);
        data[i] = d;
        proof {
            assert forall|k: int| i <= k < n implies #[trigger] data@[k] == spec_node_data(
                *tree,
                k,
            ) by {}
        }
    }
    data
}

/// The diff-time data of node `i`, given the data of every later node.
fn node_data_at(tree: &SyntaxTree, i: usize, data: &Vec<NodeData>) -> (d: NodeData)
    requires
        tree.wf(),
        tree.is_node(i as int),
        data@.len() == tree.n_nodes(),
        forall|k: int|
            i < k < data@.len() ==> #[trigger] data@[k] == spec_node_data(*tree, k),
    ensures
        d == spec_node_data(*tree, i as int),
{
    proof {
        tree.lemma_node_wf(i as int);
        lemma_hash_range(*tree, i as int);
        lemma_cost_bounded(*tree, i as int);
    }
    let n_children = tree.child_count(i);
    let kc = kind_code_exec(tree.kind(i));
    let h0: u64 = kc % 0x10000000;
    if n_children == 0 {
        let bytes = tree.text(i).as_str().as_bytes();
        let ghost bs = text_bytes(*tree, i as int);
        let mut h: u64 = h0;
        let mut k: usize = 0;
        proof {
            lemma_hash_bytes_range(h0 as int, bs, 0);
        }
        while k < bytes.len()
            invariant
                k <= bytes@.len(),
                bytes@ == bs,
                h == hash_bytes(h0 as int, bs, k as int),
                h < 0x10000000,
            decreases bytes@.len() - k,
        {
            h = mix_step(h, bytes[k] as u64);
            k = k + 1;
        }
        NodeData {
            hash: h as u32,
            size_bytes: bytes.len(),
            base_cost_subtree: base_cost(tree, i),
        }
    } else {
        let mut h: u64 = h0;
        let mut size: usize = 0;
        let mut cost: usize = base_cost(tree, i);
        let mut j: usize = 0;
        while j < n_children
            invariant
                j <= n_children,
                n_children == tree.node(i as int).children@.len(),
                tree.wf(),
                tree.is_node(i as int),
                data@.len() == tree.n_nodes(),
                forall|k2: int|
                    i < k2 < data@.len() ==> #[trigger] data@[k2] == spec_node_data(*tree, k2),
                h < 0x10000000,
                hash_of(*tree, i as int) == hash_kids(*tree, i as int, j as int, h as int),
                size_of(*tree, i as int) == size_kids(*tree, i as int, j as int, size as int),
                cost_of(*tree, i as int) == cost_kids(*tree, i as int, j as int, cost as int),
                cost as int <= 1 + (if j == 0 {
                    0int
                } else {
                    tree.end(tree.node(i as int).children@[j as int - 1] as int) - (i + 1)
                }),
            decreases n_children - j,
        {
            let c = tree.child(i, j);
            proof {
                tree.lemma_node_wf(i as int);
                tree.lemma_child_in_subtree(i as int, j as int);
                tree.lemma_node_wf(c as int);
                lemma_cost_bounded(*tree, c as int);
                if j > 0 {
                    tree.lemma_children_ordered(i as int, j as int - 1, j as int);
                }
            }
            proof {
                lemma_hash_range(*tree, c as int);
                lemma_size_nonneg(*tree, c as int);
                assert(sat_cap(size as int + sat_cap(size_of(*tree, c as int))) == sat_cap(
                    size as int + size_of(*tree, c as int),
                ));
            }
            let cd = data[c];
            h = mix_step(h, cd.hash as u64);
            size = sat_add_usize(size, cd.size_bytes);
            cost = cost + cd.base_cost_subtree;
            j = j + 1;
        }
        proof {
            tree.lemma_node_wf(i as int);
            if n_children > 0 {
                assert(tree.end(tree.node(i as int).children@[n_children - 1] as int) == tree.end(
                    i as int,
                ));
            }
        }
        NodeData { hash: h as u32, size_bytes: size, base_cost_subtree: cost }
    }
}

/// The numeric kind code, executed.
fn kind_code_exec(k: SyntaxKind) -> (r: u64)
    ensures
        r == kind_code(k),
        r < 0x100000000,
{
    match k {
        SyntaxKind::Document => 1,
        SyntaxKind::Node => 2,
        SyntaxKind::Binding => 3,
        SyntaxKind::Ref => 4,
        SyntaxKind::Block => 5,
        SyntaxKind::Content => 6,
        SyntaxKind::Children => 7,
        SyntaxKind::Identifier => 8,
        SyntaxKind::BlockHeader => 9,
        SyntaxKind::Token(t) => 10 + t as u64,
    }
}

/// Addition on sizes, capped at the machine's limit.
fn sat_add_usize(a: usize, b: usize) -> (r: usize)
    ensures
        r as int == sat_cap(a + b),
{
    match a.checked_add(b) {
        Some(v) => v,
        None => usize::MAX,
    }
}

/// Where a traversal past the subtree of `x` resumes: before the next
/// sibling, past the parent, or fixed at the root.
pub open spec fn after_step(tree: SyntaxTree, x: int) -> Cursor<usize> {
    match tree.sib_spec(x) {
        Some(s) => Cursor::Before(s),
        None => match tree.node(x).parent {
            Some(p) => Cursor::After(p),
            None => Cursor::After(x as usize),
        },
    }
}

/// The exact cursor one pre-order step reaches: into the first child or
/// past a leaf from `Before`, and `after_step` from `After`.
pub open spec fn spec_next(tree: SyntaxTree, c: Cursor<usize>) -> Cursor<usize> {
    match c {
        Cursor::Before(i) => if tree.node(i as int).children@.len() > 0 {
            Cursor::Before(tree.node(i as int).children@[0])
        } else {
            Cursor::After(i)
        },
        Cursor::After(x) => after_step(tree, x as int),
    }
}

/// The exact cursor normalizing reaches: `Before` is already normal,
/// `After` takes `after_step`.
pub open spec fn spec_normalize(tree: SyntaxTree, c: Cursor<usize>) -> Cursor<usize> {
    match c {
        Cursor::Before(i) => c,
        Cursor::After(x) => after_step(tree, x as int),
    }
}

impl Cursor<usize> {
    /// The index this cursor stands at.
    pub open spec fn idx(self) -> int {
        match self {
            Cursor::Before(i) => i as int,
            Cursor::After(i) => i as int,
        }
    }

    pub open spec fn valid(self, tree: SyntaxTree) -> bool {
        tree.is_node(self.idx())
    }

    /// How much of the tree's pre-order the cursor has consumed: everything
    /// before the node for `Before`, everything through its subtree for
    /// `After`.
    pub open spec fn boundary(self, tree: SyntaxTree) -> int {
        match self {
            Cursor::Before(i) => i as int,
            Cursor::After(i) => tree.end(i as int),
        }
    }

    pub fn node(&self) -> (r: usize)
        ensures
            r as int == self.idx(),
    {
        match self {
            Cursor::Before(node) => *node,
            Cursor::After(node) => *node,
        }
    }

    /// Advances one pre-order step: into the first child (or past a leaf)
    /// from `Before`, to the next sibling or out of the parent from
    /// `After`; the root's `After` position is final.
    pub fn next(self, tree: &SyntaxTree) -> (r: Cursor<usize>)
        requires
            tree.wf(),
            self.valid(*tree),
            tree.node(0).kind == SyntaxKind::Document,
        ensures
            r == spec_next(*tree, self),
            r.valid(*tree),
            self is Before ==> r.boundary(*tree) == self.boundary(*tree) + 1,
            self is After ==> r.boundary(*tree) == self.boundary(*tree),
            self == Cursor::After(0usize) ==> r == self,
    {
        match self {
            Cursor::Before(node) => {
                proof {
                    tree.lemma_node_wf(node as int);
                }
                match tree.first_child(node) {
                    Some(c) => Cursor::Before(c),
                    None => Cursor::After(node),
                }
            },
            Cursor::After(node) => {
                match tree.next_sibling(node) {
                    Some(s) => Cursor::Before(s),
                    None => match tree.parent(node) {
                        Some(p) => Cursor::After(p),
                        None => Cursor::After(node),
                    },
                }
            },
        }
    }

    /// Collapses a trailing `After` onto the next pre-order position at the
    /// same consumption boundary; a `Before` cursor is already normal.
    pub fn normalize(self, tree: &SyntaxTree) -> (r: Cursor<usize>)
        requires
            tree.wf(),
            self.valid(*tree),
            tree.node(0).kind == SyntaxKind::Document,
        ensures
            r == spec_normalize(*tree, self),
            r.valid(*tree),
            r.boundary(*tree) == self.boundary(*tree),
            self is Before ==> r == self,
            self == Cursor::After(0usize) ==> r == self,
    {
        match self {
            Cursor::After(node) => {
                match tree.next_sibling(node) {
                    Some(s) => Cursor::Before(s),
                    None => match tree.parent(node) {
                        Some(p) => Cursor::After(p),
                        None => Cursor::After(node),
                    },
                }
            },
            x => x,
        }
    }
}

/// Which operations consume a position of the old tree.
pub open spec fn op_covers_old(op: Op) -> bool {
    match op {
        OpF::Exact { .. } => true,
        OpF::Update { .. } => true,
        OpF::UpdateScalar { .. } => true,
        OpF::Delete { .. } => true,
        OpF::DeleteSubtree { .. } => true,
        OpF::Insert { .. } => false,
        OpF::InsertSubtree { .. } => false,
    }
}

/// The old-tree node an operation consumes from.
pub open spec fn op_old_idx(op: Op) -> int {
    match op {
        OpF::Exact { old, .. } => old as int,
        OpF::Update { old, .. } => old as int,
        OpF::UpdateScalar { old, .. } => old as int,
        OpF::Delete { old } => old as int,
        OpF::DeleteSubtree { old } => old as int,
        OpF::Insert { .. } => 0,
        OpF::InsertSubtree { .. } => 0,
    }
}

/// How many old-tree pre-order positions an operation consumes: the whole
/// subtree for a full match or a subtree drop, one node when descending.
pub open spec fn op_old_span(op: Op, tree: SyntaxTree) -> int {
    match op {
        OpF::Exact { old, .. } => tree.size(old as int),
        OpF::Update { .. } => 1,
        OpF::UpdateScalar { old, .. } => tree.size(old as int),
        OpF::Delete { .. } => 1,
        OpF::DeleteSubtree { old } => tree.size(old as int),
        OpF::Insert { .. } => 0,
        OpF::InsertSubtree { .. } => 0,
    }
}

/// Which operations consume a position of the new tree.
pub open spec fn op_covers_new(op: Op) -> bool {
    match op {
        OpF::Exact { .. } => true,
        OpF::Update { .. } => true,
        OpF::UpdateScalar { .. } => true,
        OpF::Delete { .. } => false,
        OpF::DeleteSubtree { .. } => false,
        OpF::Insert { .. } => true,
        OpF::InsertSubtree { .. } => true,
    }
}

pub open spec fn op_new_idx(op: Op) -> int {
    match op {
        OpF::Exact { new, .. } => new as int,
        OpF::Update { new, .. } => new as int,
        OpF::UpdateScalar { new, .. } => new as int,
        OpF::Delete { .. } => 0,
        OpF::DeleteSubtree { .. } => 0,
        OpF::Insert { new } => new as int,
        OpF::InsertSubtree { new } => new as int,
    }
}

pub open spec fn op_new_span(op: Op, tree: SyntaxTree) -> int {
    match op {
        OpF::Exact { new, .. } => tree.size(new as int),
        OpF::Update { .. } => 1,
        OpF::UpdateScalar { new, .. } => tree.size(new as int),
        OpF::Delete { .. } => 0,
        OpF::DeleteSubtree { .. } => 0,
        OpF::Insert { .. } => 1,
        OpF::InsertSubtree { new } => tree.size(new as int),
    }
}

/// The operations of `path` that touch the old tree consume its pre-order
/// positions from `s` up to `e`, in order, with no gap and no overlap: each
/// consuming operation starts exactly where the previous one stopped.
pub open spec fn old_chain_ok(path: Seq<Op>, tree: SyntaxTree, s: int, e: int) -> bool
    decreases path.len(),
{
    if path.len() == 0 {
        s == e
    } else {
        let op = path.last();
        if op_covers_old(op) {
            &&& tree.is_node(op_old_idx(op))
            &&& op_old_idx(op) + op_old_span(op, tree) == e
            &&& old_chain_ok(path.drop_last(), tree, s, op_old_idx(op))
        } else {
            old_chain_ok(path.drop_last(), tree, s, e)
        }
    }
}

/// The counterpart of `old_chain_ok` on the new tree.
pub open spec fn new_chain_ok(path: Seq<Op>, tree: SyntaxTree, s: int, e: int) -> bool
    decreases path.len(),
{
    if path.len() == 0 {
        s == e
    } else {
        let op = path.last();
        if op_covers_new(op) {
            &&& tree.is_node(op_new_idx(op))
            &&& op_new_idx(op) + op_new_span(op, tree) == e
            &&& new_chain_ok(path.drop_last(), tree, s, op_new_idx(op))
        } else {
            new_chain_ok(path.drop_last(), tree, s, e)
        }
    }
}

/// Appending one operation prices the path by that operation, capped.
proof fn lemma_sat_cost_push(path: Seq<Op>, op: Op, ot: SyntaxTree, nt: SyntaxTree)
    ensures
        sat_cost(path.push(op), ot, nt) == sat_cap(
            sat_cost(path, ot, nt) + op_cost_spec(op, ot, nt),
        ),
{
    assert(path.push(op).drop_last() =~= path);
}

proof fn lemma_chain_push_covers_old(path: Seq<Op>, op: Op, tree: SyntaxTree, s: int)
    requires
        op_covers_old(op),
        tree.is_node(op_old_idx(op)),
        old_chain_ok(path, tree, s, op_old_idx(op)),
    ensures
        old_chain_ok(path.push(op), tree, s, op_old_idx(op) + op_old_span(op, tree)),
{
    assert(path.push(op).drop_last() =~= path);
}

proof fn lemma_chain_push_skips_old(path: Seq<Op>, op: Op, tree: SyntaxTree, s: int, e: int)
    requires
        !op_covers_old(op),
        old_chain_ok(path, tree, s, e),
    ensures
        old_chain_ok(path.push(op), tree, s, e),
{
    assert(path.push(op).drop_last() =~= path);
}

proof fn lemma_chain_push_covers_new(path: Seq<Op>, op: Op, tree: SyntaxTree, s: int)
    requires
        op_covers_new(op),
        tree.is_node(op_new_idx(op)),
        new_chain_ok(path, tree, s, op_new_idx(op)),
    ensures
        new_chain_ok(path.push(op), tree, s, op_new_idx(op) + op_new_span(op, tree)),
{
    assert(path.push(op).drop_last() =~= path);
}

proof fn lemma_chain_push_skips_new(path: Seq<Op>, op: Op, tree: SyntaxTree, s: int, e: int)
    requires
        !op_covers_new(op),
        new_chain_ok(path, tree, s, e),
    ensures
        new_chain_ok(path.push(op), tree, s, e),
{
    assert(path.push(op).drop_last() =~= path);
}

/// The accumulated price of a path: the op costs summed in emission order,
/// each step capped at the machine's limit as the search accumulates them.
pub open spec fn sat_cost(path: Seq<Op>, ot: SyntaxTree, nt: SyntaxTree) -> int
    decreases path.len(),
{
    if path.len() == 0 {
        0
    } else {
        sat_cap(sat_cost(path.drop_last(), ot, nt) + op_cost_spec(path.last(), ot, nt))
    }
}

/// A search-graph vertex: a cursor into each tree, the accumulated cost and
/// the operations emitted so far.
#[derive(Debug)]
pub struct SearchData {
    pub old: Cursor<usize>,
    pub new: Cursor<usize>,
    pub cost: usize,
    pub path: Vec<Op>,
}

/// A reachable search state is internally consistent: both cursors stand in
/// their trees and the path consumes exactly the positions behind them.
pub open spec fn state_inv(d: SearchData, ot: SyntaxTree, nt: SyntaxTree) -> bool {
    &&& d.old.valid(ot)
    &&& d.new.valid(nt)
    &&& old_chain_ok(d.path@, ot, 0, d.old.boundary(ot))
    &&& new_chain_ok(d.path@, nt, 0, d.new.boundary(nt))
    &&& d.cost == sat_cost(d.path@, ot, nt)
}

/// The initial vertex: both cursors before their roots, nothing emitted.
pub open spec fn is_start(d: SearchData) -> bool {
    &&& d.old == Cursor::Before(0usize)
    &&& d.new == Cursor::Before(0usize)
    &&& d.cost == 0
    &&& d.path@.len() == 0
}

/// The vertex an equal pair of trees reaches: both roots matched by one
/// free `Exact`.
pub open spec fn is_goal_exact(d: SearchData) -> bool {
    &&& d.old == Cursor::After(0usize)
    &&& d.new == Cursor::After(0usize)
    &&& d.cost == 0
    &&& d.path@ =~= seq![OpF::Exact { old: 0usize, new: 0usize }]
}

/// The numeric code of a cursor, two per node.
pub open spec fn cursor_code(c: Cursor<usize>) -> int {
    match c {
        Cursor::Before(i) => 2 * i,
        Cursor::After(i) => 2 * i + 1,
    }
}

/// The memo-table slot of a cursor pair.
pub open spec fn slot_of(co: Cursor<usize>, cn: Cursor<usize>, n_new: int) -> int {
    cursor_code(co) * (2 * n_new) + cursor_code(cn)
}

/// The slot of the final vertex, both cursors past their roots.
pub open spec fn goal_slot(ot: SyntaxTree, nt: SyntaxTree) -> int {
    slot_of(Cursor::After(0usize), Cursor::After(0usize), nt.n_nodes())
}

/// Distinct cursor pairs get distinct slots.
proof fn lemma_slot_injective(
    co1: Cursor<usize>,
    cn1: Cursor<usize>,
    co2: Cursor<usize>,
    cn2: Cursor<usize>,
    n_old: int,
    n_new: int,
)
    requires
        0 <= co1.idx() < n_old,
        0 <= co2.idx() < n_old,
        0 <= cn1.idx() < n_new,
        0 <= cn2.idx() < n_new,
        slot_of(co1, cn1, n_new) == slot_of(co2, cn2, n_new),
    ensures
        co1 == co2,
        cn1 == cn2,
{
    let a1 = cursor_code(co1);
    let b1 = cursor_code(cn1);
    let a2 = cursor_code(co2);
    let b2 = cursor_code(cn2);
    assert(0 <= b1 < 2 * n_new && 0 <= b2 < 2 * n_new);
    assert(a1 == a2 && b1 == b2) by (nonlinear_arith)
        requires
            a1 * (2 * n_new) + b1 == a2 * (2 * n_new) + b2,
            0 <= b1 < 2 * n_new,
            0 <= b2 < 2 * n_new,
    {}
}

/// Slots stay inside a table of size `4 * n_old * n_new`.
proof fn lemma_slot_bounds(co: Cursor<usize>, cn: Cursor<usize>, n_old: int, n_new: int)
    requires
        0 <= co.idx() < n_old,
        0 <= cn.idx() < n_new,
    ensures
        0 <= slot_of(co, cn, n_new) < 4 * n_old * n_new,
{
    let a = cursor_code(co);
    let b = cursor_code(cn);
    assert(0 <= a < 2 * n_old && 0 <= b < 2 * n_new);
    assert(0 <= a * (2 * n_new) + b < (2 * n_old) * (2 * n_new)) by (nonlinear_arith)
        requires
            0 <= a < 2 * n_old,
            0 <= b < 2 * n_new,
    {}
    assert((2 * n_old) * (2 * n_new) == 4 * n_old * n_new) by (nonlinear_arith) {}
}

/// The final vertex's slot is inside the memo table.
pub proof fn lemma_goal_slot_bounds(ot: SyntaxTree, nt: SyntaxTree)
    requires
        ot.n_nodes() >= 1,
        nt.n_nodes() >= 1,
    ensures
        0 <= goal_slot(ot, nt) < 4 * ot.n_nodes() * nt.n_nodes(),
{
    lemma_slot_bounds(
        Cursor::After(0usize),
        Cursor::After(0usize),
        ot.n_nodes(),
        nt.n_nodes(),
    );
}

/// Some frontier entry stands at the cursor pair of slot `s`.
pub open spec fn has_pending(f: Seq<SearchData>, n_new: int, s: int) -> bool {
    exists|x: int|
        0 <= x < f.len() && slot_of((#[trigger] f[x]).old, f[x].new, n_new) == s
}

/// A pending slot stays pending while the frontier only grows at the end.
proof fn lemma_pending_persists(f1: Seq<SearchData>, f2: Seq<SearchData>, n_new: int, s: int)
    requires
        has_pending(f1, n_new, s),
        f1.len() <= f2.len(),
        forall|x: int| 0 <= x < f1.len() ==> #[trigger] f2[x] == f1[x],
    ensures
        has_pending(f2, n_new, s),
{
    let x = choose|x: int|
        0 <= x < f1.len() && slot_of((#[trigger] f1[x]).old, f1[x].new, n_new) == s;
    assert(slot_of(f2[x].old, f2[x].new, n_new) == s);
}

/// The search frontier and the memoization table, which keeps the best
/// known vertex per cursor pair.
pub struct SearchCache {
    pub frontier: Vec<SearchData>,
    pub map: Vec<Option<SearchData>>,
}

/// Every vertex the cache holds is consistent, every table entry sits in
/// its own slot, and when the two trees are equal the cache only ever holds
/// the start vertex and the one-`Exact` goal vertex.
pub open spec fn cache_inv(c: SearchCache, ot: SyntaxTree, nt: SyntaxTree) -> bool {
    &&& c.map@.len() == 4 * ot.n_nodes() * nt.n_nodes()
    &&& forall|x: int| 0 <= x < c.frontier@.len() ==> state_inv(#[trigger] c.frontier@[x], ot, nt)
    &&& forall|s: int|
        0 <= s < c.map@.len() && (#[trigger] c.map@[s]) is Some ==> {
            let d = c.map@[s]->0;
            &&& state_inv(d, ot, nt)
            &&& slot_of(d.old, d.new, nt.n_nodes()) == s
        }
    &&& ot == nt ==> {
        &&& forall|x: int|
            0 <= x < c.frontier@.len() ==> is_start(#[trigger] c.frontier@[x]) || is_goal_exact(
                c.frontier@[x],
            )
        &&& forall|s: int|
            0 <= s < c.map@.len() && (#[trigger] c.map@[s]) is Some ==> is_goal_exact(
                c.map@[s]->0,
            )
    }
}

/// Node texts small enough that any two of them fit one edit-distance
/// table.
pub open spec fn texts_bounded(tree: SyntaxTree) -> bool {
    forall|i: int|
        0 <= i < tree.n_nodes() ==> (#[trigger] text_bytes(tree, i)).len() < 0x40000000
}

/// Checks the node-text size bound the engine's edit pricing needs, so a
/// caller can establish it for a tree it did not build itself.
pub fn check_texts_bounded(tree: &SyntaxTree) -> (r: bool)
    ensures
        r == texts_bounded(*tree),
{
    let n = tree.node_count();
    let mut i: usize = 0;
    while i < n
        invariant
            i <= n,
            n == tree.n_nodes(),
            forall|k: int| 0 <= k < i ==> (#[trigger] text_bytes(*tree, k)).len() < 0x40000000,
        decreases n - i,
    {
        let t = tree.text(i).as_str();
        let len = t.as_bytes().len();
        proof {
            assert(t.spec_bytes() == text_bytes(*tree, i as int));
        }
        if len >= 0x40000000 {
            return false;
        }
        i = i + 1;
    }
    true
}

/// The engine's working state: the update under diff, the per-node data of
/// both trees, and the search cache.
pub struct UpdateContext {
    pub update: Update,
    pub old_data: Vec<NodeData>,
    pub new_data: Vec<NodeData>,
    pub search_cache: SearchCache,
}

impl UpdateContext {
    /// Both trees are well-formed documents of workable size, the node data
    /// matches them, and the cache is consistent.
    pub open spec fn inv(self) -> bool {
        &&& self.update.old_tree.wf()
        &&& self.update.new_tree.wf()
        &&& self.update.old_tree.node(0).kind == SyntaxKind::Document
        &&& self.update.new_tree.node(0).kind == SyntaxKind::Document
        &&& texts_bounded(self.update.old_tree)
        &&& texts_bounded(self.update.new_tree)
        &&& 4 * self.update.old_tree.n_nodes() * self.update.new_tree.n_nodes() <= usize::MAX
        &&& data_ok(self.update.old_tree, self.old_data@)
        &&& data_ok(self.update.new_tree, self.new_data@)
        &&& cache_inv(self.search_cache, self.update.old_tree, self.update.new_tree)
    }
}

/// Number of empty memo-table slots.
pub open spec fn empties(m: Seq<Option<SearchData>>) -> int
    decreases m.len(),
{
    if m.len() == 0 {
        0
    } else {
        empties(m.drop_last()) + (if m.last() is None {
            1int
        } else {
            0int
        })
    }
}

/// Sum of the costs of the occupied memo-table slots.
pub open spec fn cost_sum(m: Seq<Option<SearchData>>) -> int
    decreases m.len(),
{
    if m.len() == 0 {
        0
    } else {
        cost_sum(m.drop_last()) + (match m.last() {
            Some(d) => d.cost as int,
            None => 0int,
        })
    }
}

proof fn lemma_empties_nonneg(m: Seq<Option<SearchData>>)
    ensures
        empties(m) >= 0,
        cost_sum(m) >= 0,
    decreases m.len(),
{
    if m.len() > 0 {
        lemma_empties_nonneg(m.drop_last());
    }
}

/// Overwriting one slot moves the measures by exactly that slot's change.
proof fn lemma_measures_update(m: Seq<Option<SearchData>>, s: int, d: SearchData)
    requires
        0 <= s < m.len(),
    ensures
        empties(m.update(s, Some(d))) == empties(m) - (if m[s] is None {
            1int
        } else {
            0int
        }),
        cost_sum(m.update(s, Some(d))) == cost_sum(m) - (match m[s] {
            Some(e) => e.cost as int,
            None => 0int,
        }) + d.cost,
    decreases m.len(),
{
    let m2 = m.update(s, Some(d));
    if s == m.len() - 1 {
        assert(m2.drop_last() =~= m.drop_last());
        assert(m2.last() == Some(d));
    } else {
        assert(m2.drop_last() =~= m.drop_last().update(s, Some(d)));
        assert(m2.last() == m.last());
        lemma_measures_update(m.drop_last(), s, d);
    }
}

/// A copy of an operation list.
fn clone_ops(v: &Vec<Op>) -> (r: Vec<Op>)
    ensures
        r@ == v@,
{
    let mut r: Vec<Op> = Vec::new();
    let mut x: usize = 0;
    while x < v.len()
        invariant
            x <= v@.len(),
            r@ == v@.subrange(0, x as int),
        decreases v@.len() - x,
    {
        r.push(v[x]);
        x = x + 1;
    }
    proof {
        assert(v@.subrange(0, v@.len() as int) =~= v@);
    }
    r
}

/// A copy of a search vertex.
fn clone_search(d: &SearchData) -> (r: SearchData)
    ensures
        r.old == d.old,
        r.new == d.new,
        r.cost == d.cost,
        r.path@ == d.path@,
{
    SearchData { old: d.old, new: d.new, cost: d.cost, path: clone_ops(&d.path) }
}

/// The memo-table slot of a cursor pair, computed.
fn slot_index(co: Cursor<usize>, cn: Cursor<usize>, n_old: usize, n_new: usize) -> (s: usize)
    requires
        1 <= n_old,
        1 <= n_new,
        0 <= co.idx() < n_old,
        0 <= cn.idx() < n_new,
        4 * n_old * n_new <= usize::MAX,
    ensures
        s == slot_of(co, cn, n_new as int),
        s < 4 * n_old * n_new,
{
    proof {
        lemma_slot_bounds(co, cn, n_old as int, n_new as int);
        assert(2 * (n_old as int) <= 4 * n_old * n_new && 2 * (n_new as int) <= 4 * n_old
            * n_new) by (nonlinear_arith)
            requires
                1 <= n_old,
                1 <= n_new,
        {}
    }
    let code_o: usize = match co {
        Cursor::Before(i) => 2 * i,
        Cursor::After(i) => 2 * i + 1,
    };
    let code_n: usize = match cn {
        Cursor::Before(i) => 2 * i,
        Cursor::After(i) => 2 * i + 1,
    };
    proof {
        assert(code_o * (2 * (n_new as int)) + code_n < 4 * n_old * n_new) by (nonlinear_arith)
            requires
                0 <= code_o < 2 * (n_old as int),
                0 <= code_n < 2 * (n_new as int),
                1 <= n_old,
                1 <= n_new,
        {}
    }
    code_o * (2 * n_new) + code_n
}

impl SearchCache {
    /// Removes and returns a cheapest pending vertex.
    fn pop_min(&mut self) -> (r: Option<SearchData>)
        ensures
            final(self).map == old(self).map,
            old(self).frontier@.len() == 0 ==> r is None && final(self).frontier
                == old(self).frontier,
            old(self).frontier@.len() > 0 ==> {
                &&& r is Some
                &&& exists|y: int|
                    0 <= y < old(self).frontier@.len() && r->0 == old(self).frontier@[y]
                &&& final(self).frontier@.len() == old(self).frontier@.len() - 1
                &&& forall|x: int|
                    0 <= x < final(self).frontier@.len() ==> exists|y: int|
                        0 <= y < old(self).frontier@.len() && #[trigger] final(self).frontier@[x]
                            == old(self).frontier@[y]
                &&& exists|idx: int|
                    0 <= idx < old(self).frontier@.len() && r->0 == old(self).frontier@[idx] && (
                    forall|y: int|
                        0 <= y < old(self).frontier@.len() && y != idx ==> exists|x: int|
                            0 <= x < final(self).frontier@.len() && final(self).frontier@[x] == #[
                                trigger
                            ] old(self).frontier@[y])
            },
    {
        let n = self.frontier.len();
        if n == 0 {
            return None;
        }
        let mut best: usize = 0;
        let mut k: usize = 1;
        while k < n
            invariant
                1 <= k <= n,
                best < k,
                n == self.frontier@.len(),
            decreases n - k,
        {
            if self.frontier[k].cost < self.frontier[best].cost {
                best = k;
            }
            k = k + 1;
        }
        let ghost pre = self.frontier@;
        let d = self.frontier.swap_remove(best);
        proof {
            assert(d == pre[best as int]);
            assert forall|x: int| 0 <= x < self.frontier@.len() implies exists|y: int|
                0 <= y < pre.len() && #[trigger] self.frontier@[x] == pre[y] by {
                if x == best as int {
                    assert(self.frontier@[x] == pre[pre.len() - 1]);
                } else {
                    assert(self.frontier@[x] == pre[x]);
                }
            }
            assert forall|y: int| 0 <= y < pre.len() && y != best as int implies exists|x: int|
                0 <= x < self.frontier@.len() && self.frontier@[x] == #[trigger] pre[y] by {
                if y == pre.len() - 1 {
                    assert(self.frontier@[best as int] == pre[y]);
                } else {
                    assert(self.frontier@[y] == pre[y]);
                }
            }
            assert(0 <= (best as int) && (best as int) < pre.len() && d == pre[best as int] && (forall|y: int|
                0 <= y < pre.len() && y != best as int ==> exists|x: int|
                    0 <= x < self.frontier@.len() && self.frontier@[x] == #[trigger] pre[y]));
        }
        Some(d)
    }
}

impl UpdateContext {
    /// Offers a vertex to the search: it enters the frontier and the memo
    /// table exactly when no vertex for the same cursor pair with a cost at
    /// most as low is known.
    fn add_to_frontier(&mut self, data: SearchData) -> (added: bool)
        requires
            old(self).inv(),
            state_inv(data, old(self).update.old_tree, old(self).update.new_tree),
            old(self).update.old_tree == old(self).update.new_tree ==> is_goal_exact(data),
        ensures
            final(self).inv(),
            final(self).update == old(self).update,
            final(self).old_data == old(self).old_data,
            final(self).new_data == old(self).new_data,
            final(self).search_cache.map@.len() == old(self).search_cache.map@.len(),
            forall|s2: int|
                0 <= s2 < old(self).search_cache.map@.len() && (#[trigger] old(self).search_cache.map@[s2]) is Some ==> final(self).search_cache.map@[s2] is Some,
            forall|x: int|
                0 <= x < old(self).search_cache.frontier@.len() ==> #[trigger] final(self).search_cache.frontier@[x] == old(self).search_cache.frontier@[x],
            final(self).search_cache.frontier@.len() >= old(self).search_cache.frontier@.len(),
            ({
                let s = slot_of(data.old, data.new, old(self).update.new_tree.n_nodes());
                &&& final(self).search_cache.map@[s] is Some
                &&& (added ==> final(self).search_cache.frontier@.len() > 0 && slot_of(
                    final(self).search_cache.frontier@.last().old,
                    final(self).search_cache.frontier@.last().new,
                    old(self).update.new_tree.n_nodes(),
                ) == s)
                &&& forall|s2: int|
                    0 <= s2 < old(self).search_cache.map@.len() && final(self).search_cache.map@[s2] is Some && (#[trigger] old(self).search_cache.map@[s2]) is None ==> has_pending(
                        final(self).search_cache.frontier@,
                        old(self).update.new_tree.n_nodes(),
                        s2,
                    )
                &&& forall|s2: int|
                    0 <= s2 < old(self).search_cache.map@.len() && s2 != s
                        ==> final(self).search_cache.map@[s2] == old(self).search_cache.map@[s2]
                &&& (added ==> {
                    &&& (old(self).search_cache.map@[s] is None || old(self).search_cache.map@[s]->0.cost > data.cost)
                    &&& final(self).search_cache.frontier@ == old(self).search_cache.frontier@.push(data)
                    &&& final(self).search_cache.map@[s] is Some
                    &&& {
                        let e = final(self).search_cache.map@[s]->0;
                        &&& e.old == data.old
                        &&& e.new == data.new
                        &&& e.cost == data.cost
                        &&& e.path@ == data.path@
                    }
                    &&& final(self).search_cache.frontier@.len() == old(self).search_cache.frontier@.len() + 1
                    &&& forall|x: int|
                        0 <= x < old(self).search_cache.frontier@.len() ==> final(self).search_cache.frontier@[x] == old(self).search_cache.frontier@[x]
                    &&& (old(self).search_cache.map@[s] is None ==> empties(
                        final(self).search_cache.map@,
                    ) == empties(old(self).search_cache.map@) - 1)
                    &&& (old(self).search_cache.map@[s] is Some ==> empties(
                        final(self).search_cache.map@,
                    ) == empties(old(self).search_cache.map@) && cost_sum(
                        final(self).search_cache.map@,
                    ) < cost_sum(old(self).search_cache.map@))
                })
                &&& (!added ==> {
                    &&& final(self).search_cache.map@ == old(self).search_cache.map@
                    &&& final(self).search_cache.frontier@ == old(self).search_cache.frontier@
                    &&& old(self).search_cache.map@[s] is Some
                    &&& old(self).search_cache.map@[s]->0.cost <= data.cost
                })
            }),
    {
        let ghost ot = self.update.old_tree;
        let ghost nt = self.update.new_tree;
        let n_old = self.update.old_tree.node_count();
        let n_new = self.update.new_tree.node_count();
        let s = slot_index(data.old, data.new, n_old, n_new);
        proof {
            lemma_slot_bounds(data.old, data.new, n_old as int, n_new as int);
        }
        let keep = match &self.search_cache.map[s] {
            Some(existing_data) => existing_data.cost <= data.cost,
            None => false,
        };
        if keep {
            return false;
        }
        let ghost pre_map = self.search_cache.map@;
        let copy = clone_search(&data);
        self.search_cache.map[s] = Some(copy);
        self.search_cache.frontier.push(data);
        proof {
            lemma_measures_update(pre_map, s as int, self.search_cache.map@[s as int]->0);
            assert(self.search_cache.map@ =~= pre_map.update(
                s as int,
                Some(self.search_cache.map@[s as int]->0),
            ));
            assert forall|s2: int|
                0 <= s2 < self.search_cache.map@.len() && (
                #[trigger] self.search_cache.map@[s2]) is Some implies {
                let d2 = self.search_cache.map@[s2]->0;
                &&& state_inv(d2, ot, nt)
                &&& slot_of(d2.old, d2.new, nt.n_nodes()) == s2
            } by {
                if s2 != s as int {
                    assert(self.search_cache.map@[s2] == pre_map[s2]);
                }
            }
            assert forall|s2: int|
                0 <= s2 < pre_map.len() && self.search_cache.map@[s2] is Some && (
                #[trigger] pre_map[s2]) is None implies has_pending(
                self.search_cache.frontier@,
                nt.n_nodes(),
                s2,
            ) by {
                assert(s2 == s as int);
                let fl = self.search_cache.frontier@.len() as int;
                assert(slot_of(
                    self.search_cache.frontier@[fl - 1].old,
                    self.search_cache.frontier@[fl - 1].new,
                    nt.n_nodes(),
                ) == s2);
            }
        }
        true
    }
}

/// The price of one operation: structural alignment is free, an in-place
/// leaf rewrite costs its edit distance, dropping old material costs four
/// per base-cost unit and inserting new material two.
pub open spec fn op_cost_spec(op: Op, ot: SyntaxTree, nt: SyntaxTree) -> int {
    match op {
        OpF::Exact { .. } => 0,
        OpF::Update { .. } => 0,
        OpF::UpdateScalar { old, new } => edit_dist(
            text_bytes(ot, old as int),
            text_bytes(nt, new as int),
        ) as int,
        OpF::Delete { old } => 4 * base_cost_of(ot.node(old as int).kind),
        OpF::DeleteSubtree { old } => 4 * cost_of(ot, old as int),
        OpF::Insert { new } => 2 * base_cost_of(nt.node(new as int).kind),
        OpF::InsertSubtree { new } => 2 * cost_of(nt, new as int),
    }
}

impl OpF<usize> {
    /// Whether this operation's node references are inside the two trees.
    pub open spec fn nodes_valid(self, ot: SyntaxTree, nt: SyntaxTree) -> bool {
        match self {
            OpF::Exact { old, new } => ot.is_node(old as int) && nt.is_node(new as int),
            OpF::Update { old, new } => ot.is_node(old as int) && nt.is_node(new as int),
            OpF::UpdateScalar { old, new } => ot.is_node(old as int) && nt.is_node(new as int),
            OpF::Delete { old } => ot.is_node(old as int),
            OpF::DeleteSubtree { old } => ot.is_node(old as int),
            OpF::Insert { new } => nt.is_node(new as int),
            OpF::InsertSubtree { new } => nt.is_node(new as int),
        }
    }

    /// The operation's price, as `op_cost_spec` states it.
    pub fn cost(&self, context: &UpdateContext) -> (r: usize)
        requires
            context.inv(),
            self.nodes_valid(context.update.old_tree, context.update.new_tree),
        ensures
            r as int == op_cost_spec(*self, context.update.old_tree, context.update.new_tree),
    {
        let ghost ot = context.update.old_tree;
        let ghost nt = context.update.new_tree;
        proof {
            assert(ot.n_nodes() >= 1 && nt.n_nodes() >= 1);
            assert(4 * ot.n_nodes() <= 4 * ot.n_nodes() * nt.n_nodes() && 4 * nt.n_nodes() <= 4
                * ot.n_nodes() * nt.n_nodes()) by (nonlinear_arith)
                requires
                    ot.n_nodes() >= 1,
                    nt.n_nodes() >= 1,
            {}
        }
        match self {
            OpF::Exact { .. } => 0,
            OpF::Update { .. } => 0,
            OpF::UpdateScalar { old, new } => {
                let a = context.update.old_tree.text(*old);
                let b = context.update.new_tree.text(*new);
                let sa = a.as_str();
                let sb = b.as_str();
                proof {
                    assert(text_bytes(ot, *old as int).len() < 0x40000000);
                    assert(text_bytes(nt, *new as int).len() < 0x40000000);
                    assert(sa.spec_bytes() == text_bytes(ot, *old as int));
                    assert(sb.spec_bytes() == text_bytes(nt, *new as int));
                }
                levenshtein(sa, sb)
            },
            OpF::DeleteSubtree { old } => {
                proof {
                    lemma_cost_bounded(ot, *old as int);
                    ot.lemma_node_wf(*old as int);
                    assert(context.old_data@[*old as int] == spec_node_data(ot, *old as int));
                }
                4 * context.old_data[*old].base_cost_subtree
            },
            OpF::InsertSubtree { new } => {
                proof {
                    lemma_cost_bounded(nt, *new as int);
                    nt.lemma_node_wf(*new as int);
                    assert(context.new_data@[*new as int] == spec_node_data(nt, *new as int));
                }
                2 * context.new_data[*new].base_cost_subtree
            },
            OpF::Delete { old } => 4 * base_cost(&context.update.old_tree, *old),
            OpF::Insert { new } => 2 * base_cost(&context.update.new_tree, *new),
        }
    }
}

/// The path so far with one more operation at its end.
fn extend_path(path: &Vec<Op>, op: Op) -> (r: Vec<Op>)
    ensures
        r@ == path@.push(op),
{
    let mut p = clone_ops(path);
    p.push(op);
    p
}

/// How one search step may move the memo table: it fills a slot, improves
/// a slot's cost, or leaves both structures untouched.
pub open spec fn step_progress(
    pre_m: Seq<Option<SearchData>>,
    pre_f: Seq<SearchData>,
    post_m: Seq<Option<SearchData>>,
    post_f: Seq<SearchData>,
) -> bool {
    ||| empties(post_m) < empties(pre_m)
    ||| (empties(post_m) == empties(pre_m) && cost_sum(post_m) < cost_sum(pre_m))
    ||| (post_m == pre_m && post_f == pre_f)
}

proof fn lemma_progress_trans(
    m0: Seq<Option<SearchData>>,
    f0: Seq<SearchData>,
    m1: Seq<Option<SearchData>>,
    f1: Seq<SearchData>,
    m2: Seq<Option<SearchData>>,
    f2: Seq<SearchData>,
)
    requires
        step_progress(m0, f0, m1, f1),
        step_progress(m1, f1, m2, f2),
    ensures
        step_progress(m0, f0, m2, f2),
{
}

impl UpdateContext {
    /// Expands one search vertex: generates every candidate successor the
    /// current cursor pair admits — exactly the offers `succ_offers` lists,
    /// each priced by its operation and carrying the extended path — and
    /// offers each to the frontier.
    #[verifier::rlimit(100)]
    pub fn find_change_step(&mut self, data: SearchData)
        requires
            old(self).inv(),
            state_inv(data, old(self).update.old_tree, old(self).update.new_tree),
            old(self).update.old_tree == old(self).update.new_tree ==> (is_start(data)
                || is_goal_exact(data)),
        ensures
            final(self).inv(),
            final(self).update == old(self).update,
            final(self).old_data == old(self).old_data,
            final(self).new_data == old(self).new_data,
            step_progress(
                old(self).search_cache.map@,
                old(self).search_cache.frontier@,
                final(self).search_cache.map@,
                final(self).search_cache.frontier@,
            ),
            old(self).update.old_tree == old(self).update.new_tree
                ==> final(self).search_cache.map@[goal_slot(
                old(self).update.old_tree,
                old(self).update.new_tree,
            )] is Some,
            forall|x: int|
                0 <= x < old(self).search_cache.frontier@.len() ==> #[trigger] final(self).search_cache.frontier@[x] == old(self).search_cache.frontier@[x],
            final(self).search_cache.frontier@.len() >= old(self).search_cache.frontier@.len(),
            forall|s: int|
                0 <= s < old(self).search_cache.map@.len() && (#[trigger] old(self).search_cache.map@[s]) is Some ==> final(self).search_cache.map@[s] is Some,
            final(self).search_cache.map@[slot_of(
                witness_pair(
                    old(self).update.old_tree,
                    old(self).update.new_tree,
                    data.old,
                    data.new,
                ).0,
                witness_pair(
                    old(self).update.old_tree,
                    old(self).update.new_tree,
                    data.old,
                    data.new,
                ).1,
                old(self).update.new_tree.n_nodes(),
            )] is Some,
            forall|s: int|
                0 <= s < old(self).search_cache.map@.len() && final(self).search_cache.map@[s] is Some && (#[trigger] old(self).search_cache.map@[s]) is None ==> has_pending(
                    final(self).search_cache.frontier@,
                    old(self).update.new_tree.n_nodes(),
                    s,
                ),
            forall|x: int|
                old(self).search_cache.frontier@.len() <= x < final(self).search_cache.frontier@.len() ==> exists|k: int|
                    0 <= k < succ_offers(
                        old(self).update.old_tree,
                        old(self).update.new_tree,
                        data.old,
                        data.new,
                    ).len() && offer_state_ok(
                        #[trigger] final(self).search_cache.frontier@[x],
                        data,
                        succ_offers(
                            old(self).update.old_tree,
                            old(self).update.new_tree,
                            data.old,
                            data.new,
                        )[k],
                        old(self).update.old_tree,
                        old(self).update.new_tree,
                    ),
            forall|k: int|
                0 <= k < succ_offers(
                    old(self).update.old_tree,
                    old(self).update.new_tree,
                    data.old,
                    data.new,
                ).len() ==> final(self).search_cache.map@[slot_of(
                    (#[trigger] succ_offers(
                        old(self).update.old_tree,
                        old(self).update.new_tree,
                        data.old,
                        data.new,
                    )[k]).1,
                    succ_offers(
                        old(self).update.old_tree,
                        old(self).update.new_tree,
                        data.old,
                        data.new,
                    )[k].2,
                    old(self).update.new_tree.n_nodes(),
                )] is Some,
    {
        let ghost ot = self.update.old_tree;
        let ghost nt = self.update.new_tree;
        let ghost m0 = self.search_cache.map@;
        let ghost f0 = self.search_cache.frontier@;
        let ghost offs = succ_offers(ot, nt, data.old, data.new);
        match (data.old, data.new) {
            (Cursor::Before(old_node), Cursor::Before(new_node)) => {
                let old_hash = self.old_data[old_node].hash;
                let new_hash = self.new_data[new_node].hash;
                proof {
                    assert(self.old_data@[old_node as int] == spec_node_data(ot, old_node as int));
                    assert(self.new_data@[new_node as int] == spec_node_data(nt, new_node as int));
                }

                // No change
                if old_hash == new_hash {
                    let op = OpF::Exact { old: old_node, new: new_node };
                    let opc = op.cost(self);
                    let st = SearchData {
                        old: Cursor::After(old_node).normalize(&self.update.old_tree),
                        new: Cursor::After(new_node).normalize(&self.update.new_tree),
                        cost: sat_add_usize(data.cost, opc),
                        path: extend_path(&data.path, op),
                    };
                    proof {
                        lemma_chain_push_covers_old(data.path@, op, ot, 0);
                        lemma_chain_push_covers_new(data.path@, op, nt, 0);
                        lemma_sat_cost_push(data.path@, op, ot, nt);
                        if ot == nt {
                            assert(is_start(data));
                            assert(st.old == Cursor::<usize>::After(0usize));
                            assert(st.new == Cursor::<usize>::After(0usize));
                            assert(st.path@ =~= seq![OpF::Exact { old: 0usize, new: 0usize }]);
                            assert(is_goal_exact(st));
                        }
                        lemma_slot_bounds(st.old, st.new, ot.n_nodes(), nt.n_nodes());
                    }
                    let ghost st_g = st;
                    let _ = self.add_to_frontier(st);
                    proof {
                        if ot == nt {
                            assert(slot_of(st_g.old, st_g.new, nt.n_nodes()) == goal_slot(ot, nt));
                        }
                        lemma_hash_range(ot, old_node as int);
                        lemma_hash_range(nt, new_node as int);
                        assert(hash_of(ot, old_node as int) == hash_of(nt, new_node as int));
                        assert(witness_pair(ot, nt, data.old, data.new) == (st_g.old, st_g.new));
                        assert(offs =~= seq![
                            (
                                Some(OpF::Exact { old: old_node, new: new_node }),
                                st_g.old,
                                st_g.new,
                            ),
                        ]);
                        assert(offer_state_ok(st_g, data, offs[0], ot, nt));
                        assert forall|x: int|
                            f0.len() <= x < self.search_cache.frontier@.len() implies exists|
                            k: int,
                        |
                            0 <= k < offs.len() && offer_state_ok(
                                #[trigger] self.search_cache.frontier@[x],
                                data,
                                offs[k],
                                ot,
                                nt,
                            ) by {
                            assert(self.search_cache.frontier@ == f0.push(st_g));
                            assert(offer_state_ok(
                                self.search_cache.frontier@[x],
                                data,
                                offs[0],
                                ot,
                                nt,
                            ));
                        }
                        assert forall|k: int| 0 <= k < offs.len() implies self.search_cache.map@[
                        slot_of((#[trigger] offs[k]).1, offs[k].2, nt.n_nodes())] is Some by {
                            assert(offs[k] == offs[0]);
                        }
                    }
                    return ;
                }
                proof {
                    lemma_hash_range(ot, old_node as int);
                    lemma_hash_range(nt, new_node as int);
                    assert(hash_of(ot, old_node as int) != hash_of(nt, new_node as int));
                }
                // Scalar update
                let old_leaf = self.update.old_tree.child_count(old_node) == 0;
                let new_leaf = self.update.new_tree.child_count(new_node) == 0;
                if old_leaf && new_leaf && is_compatible_for_scalar_update(
                    &self.update.old_tree,
                    old_node,
                    &self.update.new_tree,
                    new_node,
                ) {
                    proof {
                        if ot == nt {
                            assert(false);
                        }
                    }
                    let op = OpF::UpdateScalar { old: old_node, new: new_node };
                    let opc = op.cost(self);
                    let st = SearchData {
                        old: Cursor::After(old_node).normalize(&self.update.old_tree),
                        new: Cursor::After(new_node).normalize(&self.update.new_tree),
                        cost: sat_add_usize(data.cost, opc),
                        path: extend_path(&data.path, op),
                    };
                    proof {
                        lemma_chain_push_covers_old(data.path@, op, ot, 0);
                        lemma_chain_push_covers_new(data.path@, op, nt, 0);
                        lemma_sat_cost_push(data.path@, op, ot, nt);
                    }
                    let ghost st_g = st;
                    let _ = self.add_to_frontier(st);
                    proof {
                        assert(witness_pair(ot, nt, data.old, data.new) == (st_g.old, st_g.new));
                        assert(offs =~= seq![
                            (
                                Some(OpF::UpdateScalar { old: old_node, new: new_node }),
                                st_g.old,
                                st_g.new,
                            ),
                        ]);
                        assert(offer_state_ok(st_g, data, offs[0], ot, nt));
                        assert forall|x: int|
                            f0.len() <= x < self.search_cache.frontier@.len() implies exists|
                            k: int,
                        |
                            0 <= k < offs.len() && offer_state_ok(
                                #[trigger] self.search_cache.frontier@[x],
                                data,
                                offs[k],
                                ot,
                                nt,
                            ) by {
                            assert(self.search_cache.frontier@ == f0.push(st_g));
                            assert(offer_state_ok(
                                self.search_cache.frontier@[x],
                                data,
                                offs[0],
                                ot,
                                nt,
                            ));
                        }
                        assert forall|k: int| 0 <= k < offs.len() implies self.search_cache.map@[
                        slot_of((#[trigger] offs[k]).1, offs[k].2, nt.n_nodes())] is Some by {
                            assert(offs[k] == offs[0]);
                        }
                    }
                    return ;
                }
                // Descend both
                let ghost mut st_de_g: Option<SearchData> = None;
                let oc0 = self.update.old_tree.first_child(old_node);
                let nc0 = self.update.new_tree.first_child(new_node);
                let ghost m_now = self.search_cache.map@;
                let ghost f_now = self.search_cache.frontier@;
                match (oc0, nc0) {
                    (Some(old_child), Some(new_child)) => {
                        if self.update.old_tree.kind(old_child) == self.update.new_tree.kind(
                            new_child,
                        ) {
                            proof {
                                if ot == nt {
                                    assert(false);
                                }
                            }
                            let op = OpF::Update { old: old_node, new: new_node };
                            let opc = op.cost(self);
                            let st = SearchData {
                                old: Cursor::Before(old_child),
                                new: Cursor::Before(new_child),
                                cost: sat_add_usize(data.cost, opc),
                                path: extend_path(&data.path, op),
                            };
                            proof {
                                lemma_chain_push_covers_old(data.path@, op, ot, 0);
                                lemma_chain_push_covers_new(data.path@, op, nt, 0);
                                lemma_sat_cost_push(data.path@, op, ot, nt);
                            }
                            let ghost st_g = st;
                            proof {
                                st_de_g = Some(st_g);
                            }
                            let _ = self.add_to_frontier(st);

                            let doc_roots = match (
                                self.update.old_tree.kind(old_node),
                                self.update.new_tree.kind(new_node),
                            ) {
                                (SyntaxKind::Document, SyntaxKind::Document) => true,
                                _ => false,
                            };
                            if doc_roots {
                                proof {
                                    assert(witness_pair(ot, nt, data.old, data.new) == (
                                        st_g.old,
                                        st_g.new,
                                    ));
                                    assert(offs =~= seq![
                                        (
                                            Some(OpF::Update { old: old_node, new: new_node }),
                                            st_g.old,
                                            st_g.new,
                                        ),
                                    ]);
                                    assert(offer_state_ok(st_g, data, offs[0], ot, nt));
                                    assert forall|x: int|
                                        f0.len() <= x < self.search_cache.frontier@.len() implies exists|
                                        k: int,
                                    |
                                        0 <= k < offs.len() && offer_state_ok(
                                            #[trigger] self.search_cache.frontier@[x],
                                            data,
                                            offs[k],
                                            ot,
                                            nt,
                                        ) by {
                                        assert(self.search_cache.frontier@ == f0.push(st_g));
                                        assert(offer_state_ok(
                                            self.search_cache.frontier@[x],
                                            data,
                                            offs[0],
                                            ot,
                                            nt,
                                        ));
                                    }
                                    assert forall|k: int|
                                        0 <= k < offs.len() implies self.search_cache.map@[slot_of(
                                        (#[trigger] offs[k]).1,
                                        offs[k].2,
                                        nt.n_nodes(),
                                    )] is Some by {
                                        assert(offs[k] == offs[0]);
                                    }
                                }
                                return ;
                            }
                        }
                    },
                    _ => {},
                }

                proof {
                    if ot == nt {
                        assert(false);
                    }
                }

                // Move left. Left novel, so delete whole subtree.
                let ghost m_a = self.search_cache.map@;
                let ghost f_a = self.search_cache.frontier@;
                let op_a = OpF::DeleteSubtree { old: old_node };
                let opc_a = op_a.cost(self);
                let st_a = SearchData {
                    old: Cursor::After(old_node).normalize(&self.update.old_tree),
                    new: Cursor::Before(new_node),
                    cost: sat_add_usize(data.cost, opc_a),
                    path: extend_path(&data.path, op_a),
                };
                proof {
                    lemma_chain_push_covers_old(data.path@, op_a, ot, 0);
                    lemma_chain_push_skips_new(data.path@, op_a, nt, 0, new_node as int);
                    lemma_sat_cost_push(data.path@, op_a, ot, nt);
                }
                let ghost st_a_g = st_a;
                let _ = self.add_to_frontier(st_a);
                proof {
                    lemma_progress_trans(
                        m0,
                        f0,
                        m_a,
                        f_a,
                        self.search_cache.map@,
                        self.search_cache.frontier@,
                    );
                }

                // Move right. Right novel, so insert whole subtree.
                let ghost m_b = self.search_cache.map@;
                let ghost f_b = self.search_cache.frontier@;
                let op_sb = OpF::InsertSubtree { new: new_node };
                let opc_sb = op_sb.cost(self);
                let st_sb = SearchData {
                    old: Cursor::Before(old_node),
                    new: Cursor::After(new_node).normalize(&self.update.new_tree),
                    cost: sat_add_usize(data.cost, opc_sb),
                    path: extend_path(&data.path, op_sb),
                };
                proof {
                    lemma_chain_push_skips_old(data.path@, op_sb, ot, 0, old_node as int);
                    lemma_chain_push_covers_new(data.path@, op_sb, nt, 0);
                    lemma_sat_cost_push(data.path@, op_sb, ot, nt);
                }
                let ghost st_sb_g = st_sb;
                let _ = self.add_to_frontier(st_sb);
                proof {
                    lemma_progress_trans(
                        m0,
                        f0,
                        m_b,
                        f_b,
                        self.search_cache.map@,
                        self.search_cache.frontier@,
                    );
                }

                // Descend left. Left novel, so delete parent.
                let ghost m_c = self.search_cache.map@;
                let ghost f_c = self.search_cache.frontier@;
                let ghost mut st_dl_g: Option<SearchData> = None;
                match self.update.old_tree.first_child(old_node) {
                    Some(old_child) => {
                        let op = OpF::Delete { old: old_node };
                        let opc = op.cost(self);
                        let st = SearchData {
                            old: Cursor::Before(old_child),
                            new: Cursor::Before(new_node),
                            cost: sat_add_usize(data.cost, opc),
                            path: extend_path(&data.path, op),
                        };
                        proof {
                            lemma_chain_push_covers_old(data.path@, op, ot, 0);
                            lemma_chain_push_skips_new(data.path@, op, nt, 0, new_node as int);
                            lemma_sat_cost_push(data.path@, op, ot, nt);
                            st_dl_g = Some(st);
                        }
                        let _ = self.add_to_frontier(st);
                    },
                    None => {},
                }
                proof {
                    lemma_progress_trans(
                        m0,
                        f0,
                        m_c,
                        f_c,
                        self.search_cache.map@,
                        self.search_cache.frontier@,
                    );
                }

                // Descend right. Right novel, so insert parent.
                let ghost m_d = self.search_cache.map@;
                let ghost f_d = self.search_cache.frontier@;
                let ghost mut st_in_g: Option<SearchData> = None;
                match self.update.new_tree.first_child(new_node) {
                    Some(new_child) => {
                        let op = OpF::Insert { new: new_node };
                        let opc = op.cost(self);
                        let st = SearchData {
                            old: Cursor::Before(old_node),
                            new: Cursor::Before(new_child),
                            cost: sat_add_usize(data.cost, opc),
                            path: extend_path(&data.path, op),
                        };
                        proof {
                            lemma_chain_push_skips_old(data.path@, op, ot, 0, old_node as int);
                            lemma_chain_push_covers_new(data.path@, op, nt, 0);
                            lemma_sat_cost_push(data.path@, op, ot, nt);
                            st_in_g = Some(st);
                        }
                        let _ = self.add_to_frontier(st);
                    },
                    None => {},
                }
                proof {
                    lemma_progress_trans(
                        m0,
                        f0,
                        m_d,
                        f_d,
                        self.search_cache.map@,
                        self.search_cache.frontier@,
                    );
                    assert(witness_pair(ot, nt, data.old, data.new) == (st_a_g.old, st_a_g.new));
                    lemma_slot_bounds(st_a_g.old, st_a_g.new, ot.n_nodes(), nt.n_nodes());
                    let ws = slot_of(st_a_g.old, st_a_g.new, nt.n_nodes());
                    assert(m_b[ws] is Some);
                    assert(m_c[ws] is Some);
                    assert(m_d[ws] is Some);
                    assert(self.search_cache.map@[ws] is Some);
                    let descend_applies = ot.node(old_node as int).children@.len() > 0 && nt.node(
                        new_node as int,
                    ).children@.len() > 0 && ot.node(
                        ot.node(old_node as int).children@[0] as int,
                    ).kind == nt.node(nt.node(new_node as int).children@[0] as int).kind;
                    let dlen: int = if descend_applies {
                        1int
                    } else {
                        0int
                    };
                    let old_has: int = if ot.node(old_node as int).children@.len() > 0 {
                        1int
                    } else {
                        0int
                    };
                    let new_has: int = if nt.node(new_node as int).children@.len() > 0 {
                        1int
                    } else {
                        0int
                    };
                    assert(offs.len() == dlen + 2 + old_has + new_has);
                    assert(offs[dlen] == (
                        Some(OpF::DeleteSubtree { old: old_node }),
                        st_a_g.old,
                        st_a_g.new,
                    ));
                    assert(offs[dlen + 1] == (
                        Some(OpF::InsertSubtree { new: new_node }),
                        st_sb_g.old,
                        st_sb_g.new,
                    ));
                    assert(offer_state_ok(st_a_g, data, offs[dlen], ot, nt));
                    assert(offer_state_ok(st_sb_g, data, offs[dlen + 1], ot, nt));
                    if descend_applies {
                        assert(st_de_g is Some);
                        assert(offs[0] == (
                            Some(OpF::Update { old: old_node, new: new_node }),
                            st_de_g->0.old,
                            st_de_g->0.new,
                        ));
                        assert(offer_state_ok(st_de_g->0, data, offs[0], ot, nt));
                        lemma_slot_bounds(st_de_g->0.old, st_de_g->0.new, ot.n_nodes(), nt.n_nodes());
                        assert(m_a[slot_of(st_de_g->0.old, st_de_g->0.new, nt.n_nodes())] is Some);
                        assert(m_b[slot_of(st_de_g->0.old, st_de_g->0.new, nt.n_nodes())] is Some);
                        assert(m_c[slot_of(st_de_g->0.old, st_de_g->0.new, nt.n_nodes())] is Some);
                        assert(m_d[slot_of(st_de_g->0.old, st_de_g->0.new, nt.n_nodes())] is Some);
                        assert(self.search_cache.map@[slot_of(
                            st_de_g->0.old,
                            st_de_g->0.new,
                            nt.n_nodes(),
                        )] is Some);
                    }
                    lemma_slot_bounds(st_sb_g.old, st_sb_g.new, ot.n_nodes(), nt.n_nodes());
                    assert(m_c[slot_of(st_sb_g.old, st_sb_g.new, nt.n_nodes())] is Some);
                    assert(m_d[slot_of(st_sb_g.old, st_sb_g.new, nt.n_nodes())] is Some);
                    assert(self.search_cache.map@[slot_of(
                        st_sb_g.old,
                        st_sb_g.new,
                        nt.n_nodes(),
                    )] is Some);
                    if old_has == 1 {
                        assert(st_dl_g is Some);
                        assert(offs[dlen + 2] == (
                            Some(OpF::Delete { old: old_node }),
                            st_dl_g->0.old,
                            st_dl_g->0.new,
                        ));
                        assert(offer_state_ok(st_dl_g->0, data, offs[dlen + 2], ot, nt));
                        lemma_slot_bounds(st_dl_g->0.old, st_dl_g->0.new, ot.n_nodes(), nt.n_nodes());
                        assert(m_d[slot_of(st_dl_g->0.old, st_dl_g->0.new, nt.n_nodes())] is Some);
                        assert(self.search_cache.map@[slot_of(
                            st_dl_g->0.old,
                            st_dl_g->0.new,
                            nt.n_nodes(),
                        )] is Some);
                    }
                    if new_has == 1 {
                        assert(st_in_g is Some);
                        assert(offs[dlen + 2 + old_has] == (
                            Some(OpF::Insert { new: new_node }),
                            st_in_g->0.old,
                            st_in_g->0.new,
                        ));
                        assert(offer_state_ok(st_in_g->0, data, offs[dlen + 2 + old_has], ot, nt));
                        lemma_slot_bounds(st_in_g->0.old, st_in_g->0.new, ot.n_nodes(), nt.n_nodes());
                        assert(self.search_cache.map@[slot_of(
                            st_in_g->0.old,
                            st_in_g->0.new,
                            nt.n_nodes(),
                        )] is Some);
                    }
                    assert forall|k: int| 0 <= k < offs.len() implies self.search_cache.map@[
                    slot_of((#[trigger] offs[k]).1, offs[k].2, nt.n_nodes())] is Some by {
                        if k < dlen {
                            assert(offs[k].1 == st_de_g->0.old && offs[k].2 == st_de_g->0.new);
                        } else if k == dlen {
                            assert(offs[k].1 == st_a_g.old && offs[k].2 == st_a_g.new);
                        } else if k == dlen + 1 {
                            assert(offs[k].1 == st_sb_g.old && offs[k].2 == st_sb_g.new);
                        } else if old_has == 1 && k == dlen + 2 {
                            assert(offs[k].1 == st_dl_g->0.old && offs[k].2 == st_dl_g->0.new);
                        } else {
                            assert(offs[k].1 == st_in_g->0.old && offs[k].2 == st_in_g->0.new);
                        }
                    }
                    assert(f_now == f0);
                    assert forall|x: int|
                        f0.len() <= x < self.search_cache.frontier@.len() implies exists|k: int|
                        0 <= k < offs.len() && offer_state_ok(
                            #[trigger] self.search_cache.frontier@[x],
                            data,
                            offs[k],
                            ot,
                            nt,
                        ) by {
                        let ff = self.search_cache.frontier@;
                        if x < f_a.len() {
                            assert(f_a == f_now.push(st_de_g->0));
                            assert(ff[x] == f_d[x] && f_d[x] == f_c[x] && f_c[x] == f_b[x] && f_b[
                                x
                            ] == f_a[x]);
                            assert(f_a[x] == st_de_g->0);
                            assert(offer_state_ok(ff[x], data, offs[0], ot, nt));
                        } else if x < f_b.len() {
                            assert(f_b == f_a.push(st_a_g));
                            assert(ff[x] == f_d[x] && f_d[x] == f_c[x] && f_c[x] == f_b[x]);
                            assert(f_b[x] == st_a_g);
                            assert(offer_state_ok(ff[x], data, offs[dlen], ot, nt));
                        } else if x < f_c.len() {
                            assert(f_c == f_b.push(st_sb_g));
                            assert(ff[x] == f_d[x] && f_d[x] == f_c[x]);
                            assert(f_c[x] == st_sb_g);
                            assert(offer_state_ok(ff[x], data, offs[dlen + 1], ot, nt));
                        } else if x < f_d.len() {
                            assert(f_d == f_c.push(st_dl_g->0));
                            assert(ff[x] == f_d[x]);
                            assert(f_d[x] == st_dl_g->0);
                            assert(old_has == 1);
                            assert(offer_state_ok(ff[x], data, offs[dlen + 2], ot, nt));
                        } else {
                            assert(ff == f_d.push(st_in_g->0));
                            assert(ff[x] == st_in_g->0);
                            assert(new_has == 1);
                            assert(offer_state_ok(ff[x], data, offs[dlen + 2 + old_has], ot, nt));
                        }
                    }
                    assert forall|s: int|
                        0 <= s < m0.len() && self.search_cache.map@[s] is Some && (#[trigger] m0[
                            s
                        ]) is None implies has_pending(
                        self.search_cache.frontier@,
                        nt.n_nodes(),
                        s,
                    ) by {
                        if m_now[s] is Some {
                        } else if m_a[s] is Some {
                            lemma_pending_persists(f_a, self.search_cache.frontier@, nt.n_nodes(), s);
                        } else if m_b[s] is Some {
                            lemma_pending_persists(f_b, self.search_cache.frontier@, nt.n_nodes(), s);
                        } else if m_c[s] is Some {
                            lemma_pending_persists(f_c, self.search_cache.frontier@, nt.n_nodes(), s);
                        } else if m_d[s] is Some {
                            lemma_pending_persists(f_d, self.search_cache.frontier@, nt.n_nodes(), s);
                        } else {
                        }
                    }
                }
            },
            (Cursor::After(old_node), Cursor::Before(new_node)) => {
                proof {
                    if ot == nt {
                        assert(false);
                    }
                }
                // Left traversed, insert right subtree.
                let op_s = OpF::InsertSubtree { new: new_node };
                let opc_s = op_s.cost(self);
                let st_s = SearchData {
                    old: Cursor::After(old_node),
                    new: Cursor::After(new_node).next(&self.update.new_tree),
                    cost: sat_add_usize(data.cost, opc_s),
                    path: extend_path(&data.path, op_s),
                };
                proof {
                    lemma_chain_push_skips_old(data.path@, op_s, ot, 0, data.old.boundary(ot));
                    lemma_chain_push_covers_new(data.path@, op_s, nt, 0);
                    lemma_sat_cost_push(data.path@, op_s, ot, nt);
                }
                let ghost st_s_g = st_s;
                let _ = self.add_to_frontier(st_s);
                // Left traversed, insert right.
                let ghost m_b = self.search_cache.map@;
                let ghost f_b = self.search_cache.frontier@;
                let op_m = OpF::Insert { new: new_node };
                let opc_m = op_m.cost(self);
                let st_m = SearchData {
                    old: Cursor::After(old_node).normalize(&self.update.old_tree),
                    new: Cursor::Before(new_node).next(&self.update.new_tree),
                    cost: sat_add_usize(data.cost, opc_m),
                    path: extend_path(&data.path, op_m),
                };
                proof {
                    lemma_chain_push_skips_old(data.path@, op_m, ot, 0, data.old.boundary(ot));
                    lemma_chain_push_covers_new(data.path@, op_m, nt, 0);
                    lemma_sat_cost_push(data.path@, op_m, ot, nt);
                }
                let ghost st_m_g = st_m;
                let _ = self.add_to_frontier(st_m);
                proof {
                    lemma_progress_trans(
                        m0,
                        f0,
                        m_b,
                        f_b,
                        self.search_cache.map@,
                        self.search_cache.frontier@,
                    );
                }
                // Pop left.
                let ghost m_c = self.search_cache.map@;
                let ghost f_c = self.search_cache.frontier@;
                let st_p = SearchData {
                    old: Cursor::After(old_node).next(&self.update.old_tree),
                    new: Cursor::Before(new_node),
                    cost: data.cost,
                    path: clone_ops(&data.path),
                };
                let ghost st_p_g = st_p;
                let _ = self.add_to_frontier(st_p);
                proof {
                    lemma_progress_trans(
                        m0,
                        f0,
                        m_c,
                        f_c,
                        self.search_cache.map@,
                        self.search_cache.frontier@,
                    );
                    assert(witness_pair(ot, nt, data.old, data.new) == (st_m_g.old, st_m_g.new));
                    lemma_slot_bounds(st_m_g.old, st_m_g.new, ot.n_nodes(), nt.n_nodes());
                    let ws = slot_of(st_m_g.old, st_m_g.new, nt.n_nodes());
                    assert(m_c[ws] is Some);
                    assert(self.search_cache.map@[ws] is Some);
                    assert forall|s: int|
                        0 <= s < m0.len() && self.search_cache.map@[s] is Some && (#[trigger] m0[
                            s
                        ]) is None implies has_pending(
                        self.search_cache.frontier@,
                        nt.n_nodes(),
                        s,
                    ) by {
                        if m_b[s] is Some {
                            lemma_pending_persists(f_b, self.search_cache.frontier@, nt.n_nodes(), s);
                        } else if m_c[s] is Some {
                            lemma_pending_persists(f_c, self.search_cache.frontier@, nt.n_nodes(), s);
                        } else {
                        }
                    }
                    assert(offer_state_ok(st_s_g, data, offs[0], ot, nt));
                    assert(offer_state_ok(st_m_g, data, offs[1], ot, nt));
                    assert(offer_state_ok(st_p_g, data, offs[2], ot, nt));
                    lemma_slot_bounds(st_s_g.old, st_s_g.new, ot.n_nodes(), nt.n_nodes());
                    lemma_slot_bounds(st_m_g.old, st_m_g.new, ot.n_nodes(), nt.n_nodes());
                    lemma_slot_bounds(st_p_g.old, st_p_g.new, ot.n_nodes(), nt.n_nodes());
                    assert(m_b[slot_of(st_s_g.old, st_s_g.new, nt.n_nodes())] is Some);
                    assert(m_c[slot_of(st_s_g.old, st_s_g.new, nt.n_nodes())] is Some);
                    assert(m_c[slot_of(st_m_g.old, st_m_g.new, nt.n_nodes())] is Some);
                    assert forall|k: int| 0 <= k < offs.len() implies self.search_cache.map@[
                    slot_of((#[trigger] offs[k]).1, offs[k].2, nt.n_nodes())] is Some by {
                        if k == 0 {
                            assert(offs[0].1 == st_s_g.old && offs[0].2 == st_s_g.new);
                        } else if k == 1 {
                            assert(offs[1].1 == st_m_g.old && offs[1].2 == st_m_g.new);
                        } else {
                            assert(offs[2].1 == st_p_g.old && offs[2].2 == st_p_g.new);
                        }
                    }
                    assert forall|x: int|
                        f0.len() <= x < self.search_cache.frontier@.len() implies exists|k: int|
                        0 <= k < offs.len() && offer_state_ok(
                            #[trigger] self.search_cache.frontier@[x],
                            data,
                            offs[k],
                            ot,
                            nt,
                        ) by {
                        if x < f_b.len() {
                            assert(f_b == f0.push(st_s_g));
                            assert(self.search_cache.frontier@[x] == f_c[x]);
                            assert(f_c[x] == f_b[x]);
                            assert(f_b[x] == st_s_g);
                            assert(offer_state_ok(
                                self.search_cache.frontier@[x],
                                data,
                                offs[0],
                                ot,
                                nt,
                            ));
                        } else if x < f_c.len() {
                            assert(f_c == f_b.push(st_m_g));
                            assert(self.search_cache.frontier@[x] == f_c[x]);
                            assert(f_c[x] == st_m_g);
                            assert(offer_state_ok(
                                self.search_cache.frontier@[x],
                                data,
                                offs[1],
                                ot,
                                nt,
                            ));
                        } else {
                            assert(self.search_cache.frontier@ == f_c.push(st_p_g));
                            assert(self.search_cache.frontier@[x] == st_p_g);
                            assert(offer_state_ok(
                                self.search_cache.frontier@[x],
                                data,
                                offs[2],
                                ot,
                                nt,
                            ));
                        }
                    }
                }
            },
            (Cursor::Before(old_node), Cursor::After(new_node)) => {
                proof {
                    if ot == nt {
                        assert(false);
                    }
                }
                // Right traversed, delete left subtree.
                let op_s = OpF::DeleteSubtree { old: old_node };
                let opc_s = op_s.cost(self);
                let st_s = SearchData {
                    old: Cursor::After(old_node).next(&self.update.old_tree),
                    new: Cursor::After(new_node),
                    cost: sat_add_usize(data.cost, opc_s),
                    path: extend_path(&data.path, op_s),
                };
                proof {
                    lemma_chain_push_covers_old(data.path@, op_s, ot, 0);
                    lemma_chain_push_skips_new(data.path@, op_s, nt, 0, data.new.boundary(nt));
                    lemma_sat_cost_push(data.path@, op_s, ot, nt);
                }
                let ghost st_s_g = st_s;
                let _ = self.add_to_frontier(st_s);
                // Right traversed, delete left.
                let ghost m_b = self.search_cache.map@;
                let ghost f_b = self.search_cache.frontier@;
                let op_m = OpF::Delete { old: old_node };
                let opc_m = op_m.cost(self);
                let st_m = SearchData {
                    old: Cursor::Before(old_node).next(&self.update.old_tree),
                    new: Cursor::After(new_node).normalize(&self.update.new_tree),
                    cost: sat_add_usize(data.cost, opc_m),
                    path: extend_path(&data.path, op_m),
                };
                proof {
                    lemma_chain_push_covers_old(data.path@, op_m, ot, 0);
                    lemma_chain_push_skips_new(data.path@, op_m, nt, 0, data.new.boundary(nt));
                    lemma_sat_cost_push(data.path@, op_m, ot, nt);
                }
                let ghost st_m_g = st_m;
                let _ = self.add_to_frontier(st_m);
                proof {
                    lemma_progress_trans(
                        m0,
                        f0,
                        m_b,
                        f_b,
                        self.search_cache.map@,
                        self.search_cache.frontier@,
                    );
                }
                // Pop right.
                let ghost m_c = self.search_cache.map@;
                let ghost f_c = self.search_cache.frontier@;
                let st_p = SearchData {
                    old: Cursor::Before(old_node),
                    new: Cursor::After(new_node).next(&self.update.new_tree),
                    cost: data.cost,
                    path: clone_ops(&data.path),
                };
                let ghost st_p_g = st_p;
                let _ = self.add_to_frontier(st_p);
                proof {
                    lemma_progress_trans(
                        m0,
                        f0,
                        m_c,
                        f_c,
                        self.search_cache.map@,
                        self.search_cache.frontier@,
                    );
                    assert(witness_pair(ot, nt, data.old, data.new) == (st_m_g.old, st_m_g.new));
                    lemma_slot_bounds(st_m_g.old, st_m_g.new, ot.n_nodes(), nt.n_nodes());
                    let ws = slot_of(st_m_g.old, st_m_g.new, nt.n_nodes());
                    assert(m_c[ws] is Some);
                    assert(self.search_cache.map@[ws] is Some);
                    assert forall|s: int|
                        0 <= s < m0.len() && self.search_cache.map@[s] is Some && (#[trigger] m0[
                            s
                        ]) is None implies has_pending(
                        self.search_cache.frontier@,
                        nt.n_nodes(),
                        s,
                    ) by {
                        if m_b[s] is Some {
                            lemma_pending_persists(f_b, self.search_cache.frontier@, nt.n_nodes(), s);
                        } else if m_c[s] is Some {
                            lemma_pending_persists(f_c, self.search_cache.frontier@, nt.n_nodes(), s);
                        } else {
                        }
                    }
                    assert(offer_state_ok(st_s_g, data, offs[0], ot, nt));
                    assert(offer_state_ok(st_m_g, data, offs[1], ot, nt));
                    assert(offer_state_ok(st_p_g, data, offs[2], ot, nt));
                    lemma_slot_bounds(st_s_g.old, st_s_g.new, ot.n_nodes(), nt.n_nodes());
                    lemma_slot_bounds(st_m_g.old, st_m_g.new, ot.n_nodes(), nt.n_nodes());
                    lemma_slot_bounds(st_p_g.old, st_p_g.new, ot.n_nodes(), nt.n_nodes());
                    assert(m_b[slot_of(st_s_g.old, st_s_g.new, nt.n_nodes())] is Some);
                    assert(m_c[slot_of(st_s_g.old, st_s_g.new, nt.n_nodes())] is Some);
                    assert(m_c[slot_of(st_m_g.old, st_m_g.new, nt.n_nodes())] is Some);
                    assert forall|k: int| 0 <= k < offs.len() implies self.search_cache.map@[
                    slot_of((#[trigger] offs[k]).1, offs[k].2, nt.n_nodes())] is Some by {
                        if k == 0 {
                            assert(offs[0].1 == st_s_g.old && offs[0].2 == st_s_g.new);
                        } else if k == 1 {
                            assert(offs[1].1 == st_m_g.old && offs[1].2 == st_m_g.new);
                        } else {
                            assert(offs[2].1 == st_p_g.old && offs[2].2 == st_p_g.new);
                        }
                    }
                    assert forall|x: int|
                        f0.len() <= x < self.search_cache.frontier@.len() implies exists|k: int|
                        0 <= k < offs.len() && offer_state_ok(
                            #[trigger] self.search_cache.frontier@[x],
                            data,
                            offs[k],
                            ot,
                            nt,
                        ) by {
                        if x < f_b.len() {
                            assert(f_b == f0.push(st_s_g));
                            assert(self.search_cache.frontier@[x] == f_c[x]);
                            assert(f_c[x] == f_b[x]);
                            assert(f_b[x] == st_s_g);
                            assert(offer_state_ok(
                                self.search_cache.frontier@[x],
                                data,
                                offs[0],
                                ot,
                                nt,
                            ));
                        } else if x < f_c.len() {
                            assert(f_c == f_b.push(st_m_g));
                            assert(self.search_cache.frontier@[x] == f_c[x]);
                            assert(f_c[x] == st_m_g);
                            assert(offer_state_ok(
                                self.search_cache.frontier@[x],
                                data,
                                offs[1],
                                ot,
                                nt,
                            ));
                        } else {
                            assert(self.search_cache.frontier@ == f_c.push(st_p_g));
                            assert(self.search_cache.frontier@[x] == st_p_g);
                            assert(offer_state_ok(
                                self.search_cache.frontier@[x],
                                data,
                                offs[2],
                                ot,
                                nt,
                            ));
                        }
                    }
                }
            },
            (Cursor::After(old_node), Cursor::After(new_node)) => {
                let st = SearchData {
                    old: Cursor::After(old_node).normalize(&self.update.old_tree),
                    new: Cursor::After(new_node).normalize(&self.update.new_tree),
                    cost: data.cost,
                    path: clone_ops(&data.path),
                };
                proof {
                    if ot == nt {
                        assert(is_goal_exact(data));
                        assert(st.old == Cursor::<usize>::After(0usize));
                        assert(st.new == Cursor::<usize>::After(0usize));
                        assert(is_goal_exact(st));
                    }
                    lemma_slot_bounds(st.old, st.new, ot.n_nodes(), nt.n_nodes());
                }
                let ghost st_g = st;
                let _ = self.add_to_frontier(st);
                proof {
                    if ot == nt {
                        assert(slot_of(st_g.old, st_g.new, nt.n_nodes()) == goal_slot(ot, nt));
                    }
                    assert(witness_pair(ot, nt, data.old, data.new) == (st_g.old, st_g.new));
                    assert(offs =~= seq![(None, st_g.old, st_g.new)]);
                    assert(offer_state_ok(st_g, data, offs[0], ot, nt));
                    assert forall|x: int|
                        f0.len() <= x < self.search_cache.frontier@.len() implies exists|k: int|
                        0 <= k < offs.len() && offer_state_ok(
                            #[trigger] self.search_cache.frontier@[x],
                            data,
                            offs[k],
                            ot,
                            nt,
                        ) by {
                        assert(self.search_cache.frontier@ == f0.push(st_g));
                        assert(offer_state_ok(
                            self.search_cache.frontier@[x],
                            data,
                            offs[0],
                            ot,
                            nt,
                        ));
                    }
                    assert forall|k: int| 0 <= k < offs.len() implies self.search_cache.map@[
                    slot_of((#[trigger] offs[k]).1, offs[k].2, nt.n_nodes())] is Some by {
                        assert(offs[k] == offs[0]);
                    }
                }
            },
        }
    }
}

impl UpdateContext {
    /// Whether the memo table already holds the final vertex.
    fn goal_reached(&self) -> (r: bool)
        requires
            self.inv(),
        ensures
            r == self.search_cache.map@[goal_slot(
                self.update.old_tree,
                self.update.new_tree,
            )] is Some,
    {
        let n_old = self.update.old_tree.node_count();
        let n_new = self.update.new_tree.node_count();
        let s = slot_index(
            Cursor::After(0usize),
            Cursor::After(0usize),
            n_old,
            n_new,
        );
        match &self.search_cache.map[s] {
            Some(_) => true,
            None => false,
        }
    }

    /// The guaranteed successor exists, stays valid, and its slot is inside
    /// the memo table.
    proof fn lemma_witness_valid(ot: SyntaxTree, nt: SyntaxTree, co: Cursor<usize>, cn: Cursor<usize>)
        requires
            ot.wf(),
            nt.wf(),
            co.valid(ot),
            cn.valid(nt),
            4 * ot.n_nodes() * nt.n_nodes() <= usize::MAX,
        ensures
            witness_pair(ot, nt, co, cn).0.valid(ot),
            witness_pair(ot, nt, co, cn).1.valid(nt),
            0 <= slot_of(
                witness_pair(ot, nt, co, cn).0,
                witness_pair(ot, nt, co, cn).1,
                nt.n_nodes(),
            ) < 4 * ot.n_nodes() * nt.n_nodes(),
    {
        if co == Cursor::<usize>::After(0usize) && cn == Cursor::<usize>::After(0usize) {
            lemma_after_step(ot, 0);
            lemma_after_step(nt, 0);
        } else {
            lemma_witness_phi(ot, nt, co, cn);
        }
        lemma_slot_bounds(
            witness_pair(ot, nt, co, cn).0,
            witness_pair(ot, nt, co, cn).1,
            ot.n_nodes(),
            nt.n_nodes(),
        );
    }

    /// With nothing pending, a memo table closed under guaranteed successors
    /// holds the final vertex as soon as it holds any vertex: follow the
    /// guaranteed successors down the descent measure.
    proof fn lemma_closed_reaches_goal(
        c: SearchCache,
        ot: SyntaxTree,
        nt: SyntaxTree,
        co: Cursor<usize>,
        cn: Cursor<usize>,
    )
        requires
            ot.wf(),
            nt.wf(),
            4 * ot.n_nodes() * nt.n_nodes() <= usize::MAX,
            cache_inv(c, ot, nt),
            co.valid(ot),
            cn.valid(nt),
            c.map@[slot_of(co, cn, nt.n_nodes())] is Some,
            forall|s: int|
                0 <= s < c.map@.len() && (#[trigger] c.map@[s]) is Some ==> {
                    let d = c.map@[s]->0;
                    c.map@[slot_of(
                        witness_pair(ot, nt, d.old, d.new).0,
                        witness_pair(ot, nt, d.old, d.new).1,
                        nt.n_nodes(),
                    )] is Some
                },
        ensures
            c.map@[goal_slot(ot, nt)] is Some,
        decreases phi(ot, nt, co, cn),
    {
        lemma_cursor_measure_bounds(ot, co);
        lemma_cursor_measure_bounds(nt, cn);
        assert(0 <= phi(ot, nt, co, cn)) by (nonlinear_arith)
            requires
                0 <= co.boundary(ot) <= ot.n_nodes(),
                0 <= cn.boundary(nt) <= nt.n_nodes(),
                0 <= phi2(co),
                0 <= phi2(cn),
                phi(ot, nt, co, cn) == ((ot.n_nodes() - co.boundary(ot)) + (nt.n_nodes()
                    - cn.boundary(nt))) * (ot.n_nodes() + nt.n_nodes() + 3) + phi2(co) + phi2(cn),
        {}
        if co == Cursor::<usize>::After(0usize) && cn == Cursor::<usize>::After(0usize) {
        } else {
            lemma_slot_bounds(co, cn, ot.n_nodes(), nt.n_nodes());
            let s = slot_of(co, cn, nt.n_nodes());
            let d = c.map@[s]->0;
            lemma_slot_injective(d.old, d.new, co, cn, ot.n_nodes(), nt.n_nodes());
            lemma_witness_phi(ot, nt, co, cn);
            let wo = witness_pair(ot, nt, co, cn).0;
            let wn = witness_pair(ot, nt, co, cn).1;
            Self::lemma_closed_reaches_goal(c, ot, nt, wo, wn);
        }
    }

    /// Runs the best-first search from the two roots until the final vertex
    /// enters the memo table or the frontier runs dry.  Diffing a tree
    /// against an equal tree always finishes with the final vertex present,
    /// holding the single free `Exact` of the two roots.  From a fresh
    /// cache the final vertex is always reached: an edit script exists for
    /// every pair of trees.
    pub fn compute_diff(&mut self)
        requires
            old(self).inv(),
            old(self).search_cache.frontier@.len() == 0,
            forall|s: int|
                0 <= s < old(self).search_cache.map@.len() ==> (#[trigger] old(self).search_cache.map@[s]) is None,
        ensures
            final(self).inv(),
            final(self).update == old(self).update,
            final(self).search_cache.map@[goal_slot(
                old(self).update.old_tree,
                old(self).update.new_tree,
            )] is Some,
    {
        let ghost ot = self.update.old_tree;
        let ghost nt = self.update.new_tree;
        let start = SearchData {
            old: Cursor::Before(0usize),
            new: Cursor::Before(0usize),
            cost: 0,
            path: Vec::new(),
        };
        proof {
            assert(state_inv(start, ot, nt));
        }
        self.search_cache.frontier.push(start);
        proof {
            let fl = self.search_cache.frontier@.len() as int;
            assert(is_start(self.search_cache.frontier@[fl - 1]));
        }
        loop
            invariant_except_break
                self.inv(),
                self.update == old(self).update,
                ot == self.update.old_tree,
                nt == self.update.new_tree,
                ot == nt ==> (exists|x: int|
                    0 <= x < self.search_cache.frontier@.len() && (is_start(
                        #[trigger] self.search_cache.frontier@[x],
                    ) || is_goal_exact(self.search_cache.frontier@[x])))
                    || self.search_cache.map@[goal_slot(ot, nt)] is Some,
                self.search_cache.frontier@.len() > 0 || (exists|s: int|
                    0 <= s < self.search_cache.map@.len() && (
                    #[trigger] self.search_cache.map@[s]) is Some),
                forall|s: int|
                    0 <= s < self.search_cache.map@.len() && (
                    #[trigger] self.search_cache.map@[s]) is Some ==> (has_pending(
                        self.search_cache.frontier@,
                        nt.n_nodes(),
                        s,
                    ) || ({
                        let d = self.search_cache.map@[s]->0;
                        self.search_cache.map@[slot_of(
                            witness_pair(ot, nt, d.old, d.new).0,
                            witness_pair(ot, nt, d.old, d.new).1,
                            nt.n_nodes(),
                        )] is Some
                    })),
            ensures
                self.inv(),
                self.update == old(self).update,
                self.search_cache.map@[goal_slot(ot, nt)] is Some,
            decreases
                    empties(self.search_cache.map@),
                    cost_sum(self.search_cache.map@),
                    self.search_cache.frontier@.len(),
        {
            proof {
                lemma_empties_nonneg(self.search_cache.map@);
            }
            let ghost m_entry = self.search_cache.map@;
            let ghost f_entry = self.search_cache.frontier@;
            let popped = self.search_cache.pop_min();
            match popped {
                None => {
                    proof {
                        assert(f_entry.len() == 0);
                        let s = choose|s: int|
                            0 <= s < self.search_cache.map@.len() && (
                            #[trigger] self.search_cache.map@[s]) is Some;
                        let d = self.search_cache.map@[s]->0;
                        assert(state_inv(d, ot, nt));
                        assert(slot_of(d.old, d.new, nt.n_nodes()) == s);
                        assert forall|s2: int|
                            0 <= s2 < self.search_cache.map@.len() && (
                            #[trigger] self.search_cache.map@[s2]) is Some implies {
                            let d2 = self.search_cache.map@[s2]->0;
                            self.search_cache.map@[slot_of(
                                witness_pair(ot, nt, d2.old, d2.new).0,
                                witness_pair(ot, nt, d2.old, d2.new).1,
                                nt.n_nodes(),
                            )] is Some
                        } by {
                            assert(!has_pending(self.search_cache.frontier@, nt.n_nodes(), s2));
                        }
                        Self::lemma_closed_reaches_goal(self.search_cache, ot, nt, d.old, d.new);
                    }
                    break ;
                },
                Some(vertex) => {
                    let ghost f_afterpop = self.search_cache.frontier@;
                    let ghost v_g = vertex;
                    self.find_change_step(vertex);
                    proof {
                        let m_final = self.search_cache.map@;
                        let f_final = self.search_cache.frontier@;
                        let nn = nt.n_nodes();
                        Self::lemma_witness_valid(ot, nt, v_g.old, v_g.new);
                        assert(m_final[slot_of(
                            witness_pair(ot, nt, v_g.old, v_g.new).0,
                            witness_pair(ot, nt, v_g.old, v_g.new).1,
                            nn,
                        )] is Some);
                        assert forall|s: int|
                            0 <= s < m_final.len() && (#[trigger] m_final[s]) is Some implies (
                        has_pending(f_final, nn, s) || ({
                            let d = m_final[s]->0;
                            m_final[slot_of(
                                witness_pair(ot, nt, d.old, d.new).0,
                                witness_pair(ot, nt, d.old, d.new).1,
                                nn,
                            )] is Some
                        })) by {
                            if m_entry[s] is Some {
                                let d0 = m_entry[s]->0;
                                let d1 = m_final[s]->0;
                                lemma_slot_injective(
                                    d1.old,
                                    d1.new,
                                    d0.old,
                                    d0.new,
                                    ot.n_nodes(),
                                    nn,
                                );
                                Self::lemma_witness_valid(ot, nt, d0.old, d0.new);
                                if has_pending(f_entry, nn, s) {
                                    let x = choose|x: int|
                                        0 <= x < f_entry.len() && slot_of(
                                            (#[trigger] f_entry[x]).old,
                                            f_entry[x].new,
                                            nn,
                                        ) == s;
                                    let idx = choose|idx: int|
                                        0 <= idx < f_entry.len() && v_g == f_entry[idx] && (
                                        forall|y: int|
                                            0 <= y < f_entry.len() && y != idx ==> exists|x2: int|
                                                0 <= x2 < f_afterpop.len() && f_afterpop[x2] == #[
                                                    trigger
                                                ] f_entry[y]);
                                    if x == idx {
                                        lemma_slot_injective(
                                            d0.old,
                                            d0.new,
                                            f_entry[x].old,
                                            f_entry[x].new,
                                            ot.n_nodes(),
                                            nn,
                                        );
                                        assert(m_final[slot_of(
                                            witness_pair(ot, nt, v_g.old, v_g.new).0,
                                            witness_pair(ot, nt, v_g.old, v_g.new).1,
                                            nn,
                                        )] is Some);
                                    } else {
                                        let x2 = choose|x2: int|
                                            0 <= x2 < f_afterpop.len() && f_afterpop[x2]
                                                == f_entry[x];
                                        assert(f_final[x2] == f_afterpop[x2]);
                                        assert(slot_of(f_final[x2].old, f_final[x2].new, nn)
                                            == s);
                                        assert(has_pending(f_final, nn, s));
                                    }
                                } else {
                                    assert(m_entry[slot_of(
                                        witness_pair(ot, nt, d0.old, d0.new).0,
                                        witness_pair(ot, nt, d0.old, d0.new).1,
                                        nn,
                                    )] is Some);
                                }
                            } else {
                                assert(has_pending(f_final, nn, s));
                            }
                        }
                    }
                    if self.goal_reached() {
                        break ;
                    }
                    proof {
                        lemma_empties_nonneg(self.search_cache.map@);
                        if ot == nt {
                            assert(false);
                        }
                    }
                },
            }
        }
    }

    /// The finished edit script: the path stored at the final vertex, with
    /// the vertex's recorded cost equal to the script's accumulated op
    /// price.  Read in order the script consumes every pre-order position
    /// of the old tree and of the new tree exactly once; when the trees are
    /// equal it is the single `Exact` matching root to root.
    pub fn get_root_diff(&self) -> (r: Option<&Vec<Op>>)
        requires
            self.inv(),
        ensures
            r is Some <==> self.search_cache.map@[goal_slot(
                self.update.old_tree,
                self.update.new_tree,
            )] is Some,
            r is Some ==> r->0@ == self.search_cache.map@[goal_slot(
                self.update.old_tree,
                self.update.new_tree,
            )]->0.path@,
            r is Some ==> self.search_cache.map@[goal_slot(
                self.update.old_tree,
                self.update.new_tree,
            )]->0.cost == sat_cost(r->0@, self.update.old_tree, self.update.new_tree),
            r is Some ==> {
                &&& old_chain_ok(
                    r->0@,
                    self.update.old_tree,
                    0,
                    self.update.old_tree.n_nodes(),
                )
                &&& new_chain_ok(
                    r->0@,
                    self.update.new_tree,
                    0,
                    self.update.new_tree.n_nodes(),
                )
            },
            self.update.old_tree == self.update.new_tree && r is Some ==> r->0@ =~= seq![
                OpF::Exact { old: 0usize, new: 0usize },
            ],
    {
        let ghost ot = self.update.old_tree;
        let ghost nt = self.update.new_tree;
        let n_old = self.update.old_tree.node_count();
        let n_new = self.update.new_tree.node_count();
        let s = slot_index(Cursor::After(0usize), Cursor::After(0usize), n_old, n_new);
        match &self.search_cache.map[s] {
            Some(d) => {
                proof {
                    lemma_slot_injective(
                        d.old,
                        d.new,
                        Cursor::After(0usize),
                        Cursor::After(0usize),
                        ot.n_nodes(),
                        nt.n_nodes(),
                    );
                    ot.lemma_node_wf(0);
                    nt.lemma_node_wf(0);
                }
                Some(&d.path)
            },
            None => None,
        }
    }

    /// Builds the engine state for one update and runs the search, as the
    /// specification functions of this module describe it.
    pub fn new(update: Update) -> (r: UpdateContext)
        requires
            update.old_tree.wf(),
            update.new_tree.wf(),
            update.old_tree.node(0).kind == SyntaxKind::Document,
            update.new_tree.node(0).kind == SyntaxKind::Document,
            texts_bounded(update.old_tree),
            texts_bounded(update.new_tree),
            4 * update.old_tree.n_nodes() * update.new_tree.n_nodes() <= usize::MAX,
        ensures
            r.inv(),
            r.update == update,
            r.search_cache.map@[goal_slot(update.old_tree, update.new_tree)] is Some,
    {
        let old_data = get_content_hashes(&update.old_tree);
        let new_data = get_content_hashes(&update.new_tree);
        let n_old = update.old_tree.node_count();
        let n_new = update.new_tree.node_count();
        proof {
            assert(n_old >= 1 && n_new >= 1);
            assert(4 * (n_old as int) * (n_new as int) >= 0 && 4 * (n_old as int) <= 4 * (
            n_old as int) * (n_new as int)) by (nonlinear_arith)
                requires
                    n_old >= 1,
                    n_new >= 1,
            {}
        }
        let size = 4 * n_old * n_new;
        let mut map: Vec<Option<SearchData>> = Vec::new();
        let mut k: usize = 0;
        while k < size
            invariant
                k <= size,
                map@.len() == k,
                forall|x: int| 0 <= x < k ==> (#[trigger] map@[x]) is None,
            decreases size - k,
        {
            map.push(None);
            k = k + 1;
        }
        let mut context = UpdateContext {
            update,
            old_data,
            new_data,
            search_cache: SearchCache { frontier: Vec::new(), map },
        };
        context.compute_diff();
        context
    }
}

/// The node-identity pairs of the matched operations of a path, keyed by
/// the new side, in path order.
pub open spec fn recon_pairs(path: Seq<Op>) -> Seq<(usize, Op)>
    decreases path.len(),
{
    if path.len() == 0 {
        Seq::empty()
    } else {
        recon_pairs(path.drop_last()) + (match path.last() {
            OpF::Exact { old, new } => seq![(new, path.last())],
            OpF::Update { old, new } => seq![(new, path.last())],
            OpF::UpdateScalar { old, new } => seq![(new, path.last())],
            _ => Seq::empty(),
        })
    }
}

impl OpF<usize> {
    /// The matched pair of syntax identities, for the operations carrying
    /// both an old and a new side.
    pub fn reconciliation(&self) -> (r: Option<(usize, usize)>)
        ensures
            r == (match *self {
                OpF::Exact { old, new } => Some((old, new)),
                OpF::Update { old, new } => Some((old, new)),
                OpF::UpdateScalar { old, new } => Some((old, new)),
                _ => None::<(usize, usize)>,
            }),
    {
        match self {
            OpF::Exact { old, new } => Some((*old, *new)),
            OpF::Update { old, new } => Some((*old, *new)),
            OpF::UpdateScalar { old, new } => Some((*old, *new)),
            _ => None,
        }
    }

    /// The syntax identity this operation hangs off: the matched old node,
    /// or the parent of an unmatched node.
    pub fn source_node_id(&self, old_tree: &SyntaxTree, new_tree: &SyntaxTree) -> (r: usize)
        requires
            self.nodes_valid(*old_tree, *new_tree),
            match *self {
                OpF::Delete { old } => old_tree.node(old as int).parent is Some,
                OpF::DeleteSubtree { old } => old_tree.node(old as int).parent is Some,
                OpF::Insert { new } => new_tree.node(new as int).parent is Some,
                OpF::InsertSubtree { new } => new_tree.node(new as int).parent is Some,
                _ => true,
            },
        ensures
            r == (match *self {
                OpF::Exact { old, .. } => old,
                OpF::Update { old, .. } => old,
                OpF::UpdateScalar { old, .. } => old,
                OpF::Delete { old } => old_tree.node(old as int).parent->0,
                OpF::DeleteSubtree { old } => old_tree.node(old as int).parent->0,
                OpF::Insert { new } => new_tree.node(new as int).parent->0,
                OpF::InsertSubtree { new } => new_tree.node(new as int).parent->0,
            }),
    {
        match self {
            OpF::Exact { old, .. } => *old,
            OpF::Update { old, .. } => *old,
            OpF::UpdateScalar { old, .. } => *old,
            OpF::Delete { old } => old_tree.parent(*old).unwrap(),
            OpF::DeleteSubtree { old } => old_tree.parent(*old).unwrap(),
            OpF::Insert { new } => new_tree.parent(*new).unwrap(),
            OpF::InsertSubtree { new } => new_tree.parent(*new).unwrap(),
        }
    }

    /// The same operation over the nodes' text spans and kinds, the old
    /// side read from the old tree and the new side from the new tree.
    pub fn to_hunks_with_kind(&self, context: &UpdateContext) -> (r: OpF<(String, SyntaxKind)>)
        requires
            context.inv(),
            self.nodes_valid(context.update.old_tree, context.update.new_tree),
        ensures
            r == self.spec_hunks_with_kind(context.update.old_tree, context.update.new_tree),
    {
        let ot = &context.update.old_tree;
        let nt = &context.update.new_tree;
        match self {
            OpF::Exact { old, new } => OpF::Exact {
                old: (ot.text(*old).clone(), ot.kind(*old)),
                new: (nt.text(*new).clone(), nt.kind(*new)),
            },
            OpF::Update { old, new } => OpF::Update {
                old: (ot.text(*old).clone(), ot.kind(*old)),
                new: (nt.text(*new).clone(), nt.kind(*new)),
            },
            OpF::UpdateScalar { old, new } => OpF::UpdateScalar {
                old: (ot.text(*old).clone(), ot.kind(*old)),
                new: (nt.text(*new).clone(), nt.kind(*new)),
            },
            OpF::Delete { old } => OpF::Delete { old: (ot.text(*old).clone(), ot.kind(*old)) },
            OpF::DeleteSubtree { old } => OpF::DeleteSubtree {
                old: (ot.text(*old).clone(), ot.kind(*old)),
            },
            OpF::Insert { new } => OpF::Insert { new: (nt.text(*new).clone(), nt.kind(*new)) },
            OpF::InsertSubtree { new } => OpF::InsertSubtree {
                new: (nt.text(*new).clone(), nt.kind(*new)),
            },
        }
    }

    /// What `to_hunks_with_kind` returns.
    pub open spec fn spec_hunks_with_kind(self, ot: SyntaxTree, nt: SyntaxTree) -> OpF<
        (String, SyntaxKind),
    > {
        match self {
            OpF::Exact { old, new } => OpF::Exact {
                old: (ot.node(old as int).text, ot.node(old as int).kind),
                new: (nt.node(new as int).text, nt.node(new as int).kind),
            },
            OpF::Update { old, new } => OpF::Update {
                old: (ot.node(old as int).text, ot.node(old as int).kind),
                new: (nt.node(new as int).text, nt.node(new as int).kind),
            },
            OpF::UpdateScalar { old, new } => OpF::UpdateScalar {
                old: (ot.node(old as int).text, ot.node(old as int).kind),
                new: (nt.node(new as int).text, nt.node(new as int).kind),
            },
            OpF::Delete { old } => OpF::Delete {
                old: (ot.node(old as int).text, ot.node(old as int).kind),
            },
            OpF::DeleteSubtree { old } => OpF::DeleteSubtree {
                old: (ot.node(old as int).text, ot.node(old as int).kind),
            },
            OpF::Insert { new } => OpF::Insert {
                new: (nt.node(new as int).text, nt.node(new as int).kind),
            },
            OpF::InsertSubtree { new } => OpF::InsertSubtree {
                new: (nt.node(new as int).text, nt.node(new as int).kind),
            },
        }
    }

    /// The same operation over the nodes' text spans alone.
    pub fn to_hunks(&self, context: &UpdateContext) -> (r: OpF<String>)
        requires
            context.inv(),
            self.nodes_valid(context.update.old_tree, context.update.new_tree),
        ensures
            r == self.spec_hunks(context.update.old_tree, context.update.new_tree),
    {
        let with_kind = self.to_hunks_with_kind(context);
        match with_kind {
            OpF::Exact { old, new } => OpF::Exact { old: old.0, new: new.0 },
            OpF::Update { old, new } => OpF::Update { old: old.0, new: new.0 },
            OpF::UpdateScalar { old, new } => OpF::UpdateScalar { old: old.0, new: new.0 },
            OpF::Delete { old } => OpF::Delete { old: old.0 },
            OpF::DeleteSubtree { old } => OpF::DeleteSubtree { old: old.0 },
            OpF::Insert { new } => OpF::Insert { new: new.0 },
            OpF::InsertSubtree { new } => OpF::InsertSubtree { new: new.0 },
        }
    }

    /// What `to_hunks` returns.
    pub open spec fn spec_hunks(self, ot: SyntaxTree, nt: SyntaxTree) -> OpF<String> {
        match self {
            OpF::Exact { old, new } => OpF::Exact {
                old: ot.node(old as int).text,
                new: nt.node(new as int).text,
            },
            OpF::Update { old, new } => OpF::Update {
                old: ot.node(old as int).text,
                new: nt.node(new as int).text,
            },
            OpF::UpdateScalar { old, new } => OpF::UpdateScalar {
                old: ot.node(old as int).text,
                new: nt.node(new as int).text,
            },
            OpF::Delete { old } => OpF::Delete { old: ot.node(old as int).text },
            OpF::DeleteSubtree { old } => OpF::DeleteSubtree { old: ot.node(old as int).text },
            OpF::Insert { new } => OpF::Insert { new: nt.node(new as int).text },
            OpF::InsertSubtree { new } => OpF::InsertSubtree { new: nt.node(new as int).text },
        }
    }
}

impl<T> OpF<T> {
    /// The same operation with every node mapped through `fun`.
    pub fn map<U, F: Fn(&T) -> U>(&self, fun: &F) -> (r: OpF<U>)
        requires
            forall|t: &T| #[trigger] fun.requires((t,)),
        ensures
            match (*self, r) {
                (OpF::Exact { old, new }, OpF::Exact { old: o2, new: n2 }) => fun.ensures(
                    (&old,),
                    o2,
                ) && fun.ensures((&new,), n2),
                (OpF::Update { old, new }, OpF::Update { old: o2, new: n2 }) => fun.ensures(
                    (&old,),
                    o2,
                ) && fun.ensures((&new,), n2),
                (OpF::UpdateScalar { old, new }, OpF::UpdateScalar { old: o2, new: n2 }) => fun
                    .ensures((&old,), o2) && fun.ensures((&new,), n2),
                (OpF::Delete { old }, OpF::Delete { old: o2 }) => fun.ensures((&old,), o2),
                (OpF::DeleteSubtree { old }, OpF::DeleteSubtree { old: o2 }) => fun.ensures(
                    (&old,),
                    o2,
                ),
                (OpF::Insert { new }, OpF::Insert { new: n2 }) => fun.ensures((&new,), n2),
                (OpF::InsertSubtree { new }, OpF::InsertSubtree { new: n2 }) => fun.ensures(
                    (&new,),
                    n2,
                ),
                _ => false,
            },
    {
        match self {
            OpF::Exact { old, new } => OpF::Exact { old: fun(old), new: fun(new) },
            OpF::Update { old, new } => OpF::Update { old: fun(old), new: fun(new) },
            OpF::UpdateScalar { old, new } => OpF::UpdateScalar { old: fun(old), new: fun(new) },
            OpF::Delete { old } => OpF::Delete { old: fun(old) },
            OpF::DeleteSubtree { old } => OpF::DeleteSubtree { old: fun(old) },
            OpF::Insert { new } => OpF::Insert { new: fun(new) },
            OpF::InsertSubtree { new } => OpF::InsertSubtree { new: fun(new) },
        }
    }
}

impl<T> OpF<T> {
    /// The same operation with every node mapped through `fun`, told which
    /// side of the diff it came from: `false` for the old tree, `true` for
    /// the new one.
    pub fn map_with_type<U, F: Fn(&T, bool) -> U>(&self, fun: &F) -> (r: OpF<U>)
        requires
            forall|t: &T, b: bool| #[trigger] fun.requires((t, b)),
        ensures
            match (*self, r) {
                (OpF::Exact { old, new }, OpF::Exact { old: o2, new: n2 }) => fun.ensures(
                    (&old, false),
                    o2,
                ) && fun.ensures((&new, true), n2),
                (OpF::Update { old, new }, OpF::Update { old: o2, new: n2 }) => fun.ensures(
                    (&old, false),
                    o2,
                ) && fun.ensures((&new, true), n2),
                (OpF::UpdateScalar { old, new }, OpF::UpdateScalar { old: o2, new: n2 }) => fun
                    .ensures((&old, false), o2) && fun.ensures((&new, true), n2),
                (OpF::Delete { old }, OpF::Delete { old: o2 }) => fun.ensures((&old, false), o2),
                (OpF::DeleteSubtree { old }, OpF::DeleteSubtree { old: o2 }) => fun.ensures(
                    (&old, false),
                    o2,
                ),
                (OpF::Insert { new }, OpF::Insert { new: n2 }) => fun.ensures((&new, true), n2),
                (OpF::InsertSubtree { new }, OpF::InsertSubtree { new: n2 }) => fun.ensures(
                    (&new, true),
                    n2,
                ),
                _ => false,
            },
    {
        match self {
            OpF::Exact { old, new } => OpF::Exact { old: fun(old, false), new: fun(new, true) },
            OpF::Update { old, new } => OpF::Update { old: fun(old, false), new: fun(new, true) },
            OpF::UpdateScalar { old, new } => OpF::UpdateScalar {
                old: fun(old, false),
                new: fun(new, true),
            },
            OpF::Delete { old } => OpF::Delete { old: fun(old, false) },
            OpF::DeleteSubtree { old } => OpF::DeleteSubtree { old: fun(old, false) },
            OpF::Insert { new } => OpF::Insert { new: fun(new, true) },
            OpF::InsertSubtree { new } => OpF::InsertSubtree { new: fun(new, true) },
        }
    }
}

/// Every operation of a well-chained path names nodes inside its trees.
proof fn lemma_chain_ops_valid(path: Seq<Op>, ot: SyntaxTree, nt: SyntaxTree, so: int, eo: int, sn: int, en: int)
    requires
        old_chain_ok(path, ot, so, eo),
        new_chain_ok(path, nt, sn, en),
    ensures
        forall|x: int|
            0 <= x < path.len() ==> (#[trigger] path[x]).nodes_valid(ot, nt),
    decreases path.len(),
{
    if path.len() > 0 {
        let op = path.last();
        if op_covers_old(op) {
            if op_covers_new(op) {
                lemma_chain_ops_valid(
                    path.drop_last(),
                    ot,
                    nt,
                    so,
                    op_old_idx(op),
                    sn,
                    op_new_idx(op),
                );
            } else {
                lemma_chain_ops_valid(path.drop_last(), ot, nt, so, op_old_idx(op), sn, en);
            }
        } else {
            lemma_chain_ops_valid(path.drop_last(), ot, nt, so, eo, sn, op_new_idx(op));
        }
        assert forall|x: int| 0 <= x < path.len() implies (#[trigger] path[x]).nodes_valid(
            ot,
            nt,
        ) by {
            if x < path.len() - 1 {
                assert(path.drop_last()[x] == path[x]);
            }
        }
    }
}

/// Law: at any vertex both nodes' structural alignment is free, while every
/// delete or insert alternative for the same nodes costs at least that;
/// the search therefore never prices a structural alignment above a
/// replacement of the same nodes.
pub proof fn lemma_structural_alignment_never_costlier(
    ot: SyntaxTree,
    nt: SyntaxTree,
    old: usize,
    new: usize,
)
    requires
        ot.wf(),
        nt.wf(),
        ot.is_node(old as int),
        nt.is_node(new as int),
    ensures
        op_cost_spec(OpF::Exact { old, new }, ot, nt) == 0,
        op_cost_spec(OpF::Update { old, new }, ot, nt) == 0,
        op_cost_spec(OpF::Exact { old, new }, ot, nt) <= op_cost_spec(
            OpF::DeleteSubtree { old },
            ot,
            nt,
        ) + op_cost_spec(OpF::InsertSubtree { new }, ot, nt),
        op_cost_spec(OpF::Exact { old, new }, ot, nt) <= op_cost_spec(OpF::Delete { old }, ot, nt)
            + op_cost_spec(OpF::Insert { new }, ot, nt),
{
    lemma_cost_bounded(ot, old as int);
    lemma_cost_bounded(nt, new as int);
}

impl UpdateContext {
    /// The finished script over text spans, for reading a diff at a glance.
    pub fn get_root_diff_debug(&self) -> (r: Vec<OpF<String>>)
        requires
            self.inv(),
            self.search_cache.map@[goal_slot(self.update.old_tree, self.update.new_tree)] is Some,
        ensures
            ({
                let p = self.search_cache.map@[goal_slot(
                    self.update.old_tree,
                    self.update.new_tree,
                )]->0.path@;
                &&& r@.len() == p.len()
                &&& forall|x: int|
                    0 <= x < p.len() ==> r@[x] == (#[trigger] p[x]).spec_hunks(
                        self.update.old_tree,
                        self.update.new_tree,
                    )
            }),
    {
        let ghost ot = self.update.old_tree;
        let ghost nt = self.update.new_tree;
        let path = self.get_root_diff().unwrap();
        proof {
            lemma_chain_ops_valid(path@, ot, nt, 0, ot.n_nodes(), 0, nt.n_nodes());
        }
        let mut r: Vec<OpF<String>> = Vec::new();
        let mut x: usize = 0;
        while x < path.len()
            invariant
                x <= path@.len(),
                r@.len() == x,
                self.inv(),
                ot == self.update.old_tree,
                nt == self.update.new_tree,
                forall|y: int| 0 <= y < path@.len() ==> (#[trigger] path@[y]).nodes_valid(ot, nt),
                forall|y: int|
                    0 <= y < x ==> r@[y] == (#[trigger] path@[y]).spec_hunks(ot, nt),
            decreases path@.len() - x,
        {
            let h = path[x].to_hunks(self);
            r.push(h);
            x = x + 1;
        }
        r
    }

    /// The matched operations of the finished script, keyed by the new
    /// side's syntax identity, for the reconciler to consult.
    pub fn get_root_diff_reconciliations_by_target_node(&self) -> (r: Option<Vec<(usize, Op)>>)
        requires
            self.inv(),
        ensures
            r is Some <==> self.search_cache.map@[goal_slot(
                self.update.old_tree,
                self.update.new_tree,
            )] is Some,
            r is Some ==> r->0@ == recon_pairs(
                self.search_cache.map@[goal_slot(
                    self.update.old_tree,
                    self.update.new_tree,
                )]->0.path@,
            ),
    {
        let path = match self.get_root_diff() {
            Some(p) => p,
            None => {
                return None;
            },
        };
        let mut r: Vec<(usize, Op)> = Vec::new();
        let mut x: usize = 0;
        while x < path.len()
            invariant
                x <= path@.len(),
                r@ == recon_pairs(path@.subrange(0, x as int)),
            decreases path@.len() - x,
        {
            let op = path[x];
            proof {
                assert(path@.subrange(0, x as int + 1).drop_last() =~= path@.subrange(0, x as int));
                assert(path@.subrange(0, x as int + 1).last() == op);
            }
            match op.reconciliation() {
                Some((_, new_id)) => {
                    r.push((new_id, op));
                },
                None => {},
            }
            x = x + 1;
        }
        proof {
            assert(path@.subrange(0, path@.len() as int) =~= path@);
        }
        Some(r)
    }
}

/// A consumption chain never runs backwards: spans are nonnegative, so the
/// end bound is at least the start.
proof fn lemma_chain_monotone_old(path: Seq<Op>, tree: SyntaxTree, s: int, e: int)
    requires
        old_chain_ok(path, tree, s, e),
    ensures
        s <= e,
    decreases path.len(),
{
    if path.len() > 0 {
        let op = path.last();
        if op_covers_old(op) {
            lemma_chain_monotone_old(path.drop_last(), tree, s, op_old_idx(op));
        } else {
            lemma_chain_monotone_old(path.drop_last(), tree, s, e);
        }
    }
}

/// Every old-covering operation of a chain consumes inside `[s, e)`.
proof fn lemma_chain_bounds_old(path: Seq<Op>, tree: SyntaxTree, s: int, e: int)
    requires
        old_chain_ok(path, tree, s, e),
    ensures
        forall|x: int|
            0 <= x < path.len() && op_covers_old(#[trigger] path[x]) ==> s <= op_old_idx(path[x])
                && op_old_idx(path[x]) + op_old_span(path[x], tree) <= e,
    decreases path.len(),
{
    if path.len() > 0 {
        let op = path.last();
        let e2 = if op_covers_old(op) {
            op_old_idx(op)
        } else {
            e
        };
        lemma_chain_bounds_old(path.drop_last(), tree, s, e2);
        if op_covers_old(op) {
            lemma_chain_monotone_old(path.drop_last(), tree, s, e2);
        }
        assert forall|x: int|
            0 <= x < path.len() && op_covers_old(#[trigger] path[x]) implies s <= op_old_idx(
            path[x],
        ) && op_old_idx(path[x]) + op_old_span(path[x], tree) <= e by {
            if x < path.len() - 1 {
                assert(path.drop_last()[x] == path[x]);
            }
        }
    }
}

/// Law: a script whose chain spans `[s, e)` covers each position in it
/// exactly once on the old side — one operation consumes it, and only one.
pub proof fn lemma_old_covered_exactly_once(path: Seq<Op>, tree: SyntaxTree, s: int, e: int, i: int)
    requires
        old_chain_ok(path, tree, s, e),
        s <= i < e,
    ensures
        exists|x: int|
            0 <= x < path.len() && op_covers_old(#[trigger] path[x]) && op_old_idx(path[x]) <= i
                < op_old_idx(path[x]) + op_old_span(path[x], tree),
        forall|x1: int, x2: int|
            (0 <= x1 < path.len() && op_covers_old(#[trigger] path[x1]) && op_old_idx(path[x1])
                <= i < op_old_idx(path[x1]) + op_old_span(path[x1], tree) && 0 <= x2 < path.len()
                && op_covers_old(#[trigger] path[x2]) && op_old_idx(path[x2]) <= i < op_old_idx(
                path[x2],
            ) + op_old_span(path[x2], tree)) ==> x1 == x2,
    decreases path.len(),
{
    let op = path.last();
    if op_covers_old(op) && op_old_idx(op) <= i {
        assert(0 <= path.len() - 1 < path.len() && op_covers_old(path[path.len() - 1])
            && op_old_idx(path[path.len() - 1]) <= i < op_old_idx(path[path.len() - 1])
            + op_old_span(path[path.len() - 1], tree));
        lemma_chain_bounds_old(path.drop_last(), tree, s, op_old_idx(op));
        assert forall|x: int|
            0 <= x < path.len() - 1 && op_covers_old(#[trigger] path[x]) implies !(op_old_idx(
            path[x],
        ) <= i < op_old_idx(path[x]) + op_old_span(path[x], tree)) by {
            assert(path.drop_last()[x] == path[x]);
        }
    } else {
        let e2 = if op_covers_old(op) {
            op_old_idx(op)
        } else {
            e
        };
        lemma_old_covered_exactly_once(path.drop_last(), tree, s, e2, i);
        let w = choose|x: int|
            0 <= x < path.drop_last().len() && op_covers_old(#[trigger] path.drop_last()[x])
                && op_old_idx(path.drop_last()[x]) <= i < op_old_idx(path.drop_last()[x])
                + op_old_span(path.drop_last()[x], tree);
        assert(path.drop_last()[w] == path[w]);
        assert(0 <= w < path.len() && op_covers_old(path[w]) && op_old_idx(path[w]) <= i
            < op_old_idx(path[w]) + op_old_span(path[w], tree));
        assert forall|x1: int, x2: int|
            (0 <= x1 < path.len() && op_covers_old(#[trigger] path[x1]) && op_old_idx(path[x1])
                <= i < op_old_idx(path[x1]) + op_old_span(path[x1], tree) && 0 <= x2 < path.len()
                && op_covers_old(#[trigger] path[x2]) && op_old_idx(path[x2]) <= i < op_old_idx(
                path[x2],
            ) + op_old_span(path[x2], tree)) implies x1 == x2 by {
            if x1 < path.len() - 1 {
                assert(path.drop_last()[x1] == path[x1]);
            }
            if x2 < path.len() - 1 {
                assert(path.drop_last()[x2] == path[x2]);
            }
        }
    }
}

/// The same on the new side.
proof fn lemma_chain_monotone_new(path: Seq<Op>, tree: SyntaxTree, s: int, e: int)
    requires
        new_chain_ok(path, tree, s, e),
    ensures
        s <= e,
    decreases path.len(),
{
    if path.len() > 0 {
        let op = path.last();
        if op_covers_new(op) {
            lemma_chain_monotone_new(path.drop_last(), tree, s, op_new_idx(op));
        } else {
            lemma_chain_monotone_new(path.drop_last(), tree, s, e);
        }
    }
}

proof fn lemma_chain_bounds_new(path: Seq<Op>, tree: SyntaxTree, s: int, e: int)
    requires
        new_chain_ok(path, tree, s, e),
    ensures
        forall|x: int|
            0 <= x < path.len() && op_covers_new(#[trigger] path[x]) ==> s <= op_new_idx(path[x])
                && op_new_idx(path[x]) + op_new_span(path[x], tree) <= e,
    decreases path.len(),
{
    if path.len() > 0 {
        let op = path.last();
        let e2 = if op_covers_new(op) {
            op_new_idx(op)
        } else {
            e
        };
        lemma_chain_bounds_new(path.drop_last(), tree, s, e2);
        if op_covers_new(op) {
            lemma_chain_monotone_new(path.drop_last(), tree, s, e2);
        }
        assert forall|x: int|
            0 <= x < path.len() && op_covers_new(#[trigger] path[x]) implies s <= op_new_idx(
            path[x],
        ) && op_new_idx(path[x]) + op_new_span(path[x], tree) <= e by {
            if x < path.len() - 1 {
                assert(path.drop_last()[x] == path[x]);
            }
        }
    }
}

/// Law: a script whose chain spans `[s, e)` covers each position in it
/// exactly once on the new side.
pub proof fn lemma_new_covered_exactly_once(path: Seq<Op>, tree: SyntaxTree, s: int, e: int, i: int)
    requires
        new_chain_ok(path, tree, s, e),
        s <= i < e,
    ensures
        exists|x: int|
            0 <= x < path.len() && op_covers_new(#[trigger] path[x]) && op_new_idx(path[x]) <= i
                < op_new_idx(path[x]) + op_new_span(path[x], tree),
        forall|x1: int, x2: int|
            (0 <= x1 < path.len() && op_covers_new(#[trigger] path[x1]) && op_new_idx(path[x1])
                <= i < op_new_idx(path[x1]) + op_new_span(path[x1], tree) && 0 <= x2 < path.len()
                && op_covers_new(#[trigger] path[x2]) && op_new_idx(path[x2]) <= i < op_new_idx(
                path[x2],
            ) + op_new_span(path[x2], tree)) ==> x1 == x2,
    decreases path.len(),
{
    let op = path.last();
    if op_covers_new(op) && op_new_idx(op) <= i {
        assert(0 <= path.len() - 1 < path.len() && op_covers_new(path[path.len() - 1])
            && op_new_idx(path[path.len() - 1]) <= i < op_new_idx(path[path.len() - 1])
            + op_new_span(path[path.len() - 1], tree));
        lemma_chain_bounds_new(path.drop_last(), tree, s, op_new_idx(op));
        assert forall|x: int|
            0 <= x < path.len() - 1 && op_covers_new(#[trigger] path[x]) implies !(op_new_idx(
            path[x],
        ) <= i < op_new_idx(path[x]) + op_new_span(path[x], tree)) by {
            assert(path.drop_last()[x] == path[x]);
        }
    } else {
        let e2 = if op_covers_new(op) {
            op_new_idx(op)
        } else {
            e
        };
        lemma_new_covered_exactly_once(path.drop_last(), tree, s, e2, i);
        let w = choose|x: int|
            0 <= x < path.drop_last().len() && op_covers_new(#[trigger] path.drop_last()[x])
                && op_new_idx(path.drop_last()[x]) <= i < op_new_idx(path.drop_last()[x])
                + op_new_span(path.drop_last()[x], tree);
        assert(path.drop_last()[w] == path[w]);
        assert(0 <= w < path.len() && op_covers_new(path[w]) && op_new_idx(path[w]) <= i
            < op_new_idx(path[w]) + op_new_span(path[w], tree));
        assert forall|x1: int, x2: int|
            (0 <= x1 < path.len() && op_covers_new(#[trigger] path[x1]) && op_new_idx(path[x1])
                <= i < op_new_idx(path[x1]) + op_new_span(path[x1], tree) && 0 <= x2 < path.len()
                && op_covers_new(#[trigger] path[x2]) && op_new_idx(path[x2]) <= i < op_new_idx(
                path[x2],
            ) + op_new_span(path[x2], tree)) implies x1 == x2 by {
            if x1 < path.len() - 1 {
                assert(path.drop_last()[x1] == path[x1]);
            }
            if x2 < path.len() - 1 {
                assert(path.drop_last()[x2] == path[x2]);
            }
        }
    }
}

/// Total number of operations across the groups.
pub open spec fn groups_size(gs: Seq<(usize, Vec<Op>)>) -> int
    decreases gs.len(),
{
    if gs.len() == 0 {
        0
    } else {
        groups_size(gs.drop_last()) + gs.last().1@.len()
    }
}

/// Growing one group by one operation grows the total by one.
proof fn lemma_groups_size_update(gs: Seq<(usize, Vec<Op>)>, g: int, pair: (usize, Vec<Op>))
    requires
        0 <= g < gs.len(),
        pair.1@.len() == gs[g].1@.len() + 1,
    ensures
        groups_size(gs.update(g, pair)) == groups_size(gs) + 1,
    decreases gs.len(),
{
    let gs2 = gs.update(g, pair);
    if g == gs.len() - 1 {
        assert(gs2.drop_last() =~= gs.drop_last());
    } else {
        assert(gs2.drop_last() =~= gs.drop_last().update(g, pair));
        assert(gs2.last() == gs.last());
        lemma_groups_size_update(gs.drop_last(), g, pair);
    }
}

/// The syntax identity an operation would be grouped under: the matched
/// old node, or the parent of an unmatched node.
pub open spec fn spec_source(op: Op, ot: SyntaxTree, nt: SyntaxTree) -> int {
    match op {
        OpF::Exact { old, .. } => old as int,
        OpF::Update { old, .. } => old as int,
        OpF::UpdateScalar { old, .. } => old as int,
        OpF::Delete { old } => ot.node(old as int).parent->0 as int,
        OpF::DeleteSubtree { old } => ot.node(old as int).parent->0 as int,
        OpF::Insert { new } => nt.node(new as int).parent->0 as int,
        OpF::InsertSubtree { new } => nt.node(new as int).parent->0 as int,
    }
}

/// Whether an operation's anchoring parent exists, where one is needed.
pub open spec fn op_parent_ok(op: Op, ot: SyntaxTree, nt: SyntaxTree) -> bool {
    match op {
        OpF::Delete { old } => ot.node(old as int).parent is Some,
        OpF::DeleteSubtree { old } => ot.node(old as int).parent is Some,
        OpF::Insert { new } => nt.node(new as int).parent is Some,
        OpF::InsertSubtree { new } => nt.node(new as int).parent is Some,
        _ => true,
    }
}

impl UpdateContext {
    /// The finished script's operations grouped by the old-side syntax
    /// identity they hang off, in first-appearance order; each group holds
    /// only operations of the script with that source.
    pub fn get_root_diff_by_source_node(&self) -> (r: Option<Vec<(usize, Vec<Op>)>>)
        requires
            self.inv(),
            ({
                let entry = self.search_cache.map@[goal_slot(
                    self.update.old_tree,
                    self.update.new_tree,
                )];
                entry is Some ==> forall|x: int|
                    0 <= x < entry->0.path@.len() ==> op_parent_ok(
                        #[trigger] entry->0.path@[x],
                        self.update.old_tree,
                        self.update.new_tree,
                    )
            }),
        ensures
            r is Some <==> self.search_cache.map@[goal_slot(
                self.update.old_tree,
                self.update.new_tree,
            )] is Some,
            r is Some ==> ({
                let p = self.search_cache.map@[goal_slot(
                    self.update.old_tree,
                    self.update.new_tree,
                )]->0.path@;
                &&& forall|g: int|
                    0 <= g < r->0@.len() ==> (forall|y: int|
                        0 <= y < (#[trigger] r->0@[g]).1@.len() ==> {
                            let op = #[trigger] r->0@[g].1@[y];
                            &&& spec_source(op, self.update.old_tree, self.update.new_tree)
                                == r->0@[g].0
                            &&& exists|z: int| 0 <= z < p.len() && p[z] == op
                        })
                &&& forall|g1: int, g2: int|
                    0 <= g1 < g2 < r->0@.len() ==> (#[trigger] r->0@[g1]).0 != (
                    #[trigger] r->0@[g2]).0
                &&& groups_size(r->0@) == p.len()
                &&& forall|z: int|
                    0 <= z < p.len() ==> exists|g: int, y: int|
                        0 <= g < r->0@.len() && 0 <= y < r->0@[g].1@.len() && r->0@[g].1@[y] == #[
                            trigger
                        ] p[z]
            }),
    {
        let ghost ot = self.update.old_tree;
        let ghost nt = self.update.new_tree;
        let path = match self.get_root_diff() {
            Some(p) => p,
            None => {
                return None;
            },
        };
        proof {
            lemma_chain_ops_valid(path@, ot, nt, 0, ot.n_nodes(), 0, nt.n_nodes());
        }
        let mut r: Vec<(usize, Vec<Op>)> = Vec::new();
        let mut x: usize = 0;
        while x < path.len()
            invariant
                x <= path@.len(),
                self.inv(),
                ot == self.update.old_tree,
                nt == self.update.new_tree,
                forall|y: int| 0 <= y < path@.len() ==> (#[trigger] path@[y]).nodes_valid(ot, nt),
                forall|y: int| 0 <= y < path@.len() ==> op_parent_ok(#[trigger] path@[y], ot, nt),
                forall|g: int|
                    0 <= g < r@.len() ==> (forall|y: int|
                        0 <= y < (#[trigger] r@[g]).1@.len() ==> {
                            let op = #[trigger] r@[g].1@[y];
                            &&& spec_source(op, ot, nt) == r@[g].0
                            &&& exists|z: int| 0 <= z < path@.len() && path@[z] == op
                        }),
                forall|g1: int, g2: int|
                    0 <= g1 < g2 < r@.len() ==> (#[trigger] r@[g1]).0 != (#[trigger] r@[g2]).0,
                groups_size(r@) == x,
                forall|z: int|
                    0 <= z < x ==> exists|g: int, y: int|
                        0 <= g < r@.len() && 0 <= y < r@[g].1@.len() && r@[g].1@[y] == #[trigger] path@[
                            z
                        ],
            decreases path@.len() - x,
        {
            let op = path[x];
            let ts_node_id = op.source_node_id(&self.update.old_tree, &self.update.new_tree);
            let mut g: usize = 0;
            let mut found = false;
            while g < r.len() && !found
                invariant
                    g <= r@.len(),
                    found ==> g < r@.len() && r@[g as int].0 == ts_node_id,
                    forall|y: int| 0 <= y < g ==> (#[trigger] r@[y]).0 != ts_node_id,
                decreases r@.len() - g + (if found {
                    0int
                } else {
                    1int
                }),
            {
                if r[g].0 == ts_node_id {
                    found = true;
                } else {
                    g = g + 1;
                }
            }
            proof {
                assert(path@[x as int] == op);
            }
            let ghost r_pre = r@;
            if found {
                r[g].1.push(op);
                proof {
                    assert(r@ =~= r_pre.update(g as int, r@[g as int]));
                    lemma_groups_size_update(r_pre, g as int, r@[g as int]);
                    assert(r@[g as int].1@[r@[g as int].1@.len() - 1] == op);
                    assert forall|z: int| 0 <= z < x + 1 implies exists|g2: int, y: int|
                        0 <= g2 < r@.len() && 0 <= y < r@[g2].1@.len() && r@[g2].1@[y] == #[
                            trigger
                        ] path@[z] by {
                        if z < x {
                            let (g0, y0) = choose|g0: int, y0: int|
                                0 <= g0 < r_pre.len() && 0 <= y0 < r_pre[g0].1@.len() && r_pre[
                                    g0
                                ].1@[y0] == path@[z];
                            assert(0 <= g0 < r@.len() && 0 <= y0 < r@[g0].1@.len() && r@[g0].1@[y0]
                                == path@[z]);
                        } else {
                            assert(r@[g as int].1@[r@[g as int].1@.len() - 1] == path@[z]);
                        }
                    }
                }
            } else {
                let mut ops: Vec<Op> = Vec::new();
                ops.push(op);
                r.push((ts_node_id, ops));
                proof {
                    assert(r@.drop_last() =~= r_pre);
                    assert(r@[r@.len() - 1].1@[0] == op);
                    assert forall|z: int| 0 <= z < x + 1 implies exists|g2: int, y: int|
                        0 <= g2 < r@.len() && 0 <= y < r@[g2].1@.len() && r@[g2].1@[y] == #[
                            trigger
                        ] path@[z] by {
                        if z < x {
                            let (g0, y0) = choose|g0: int, y0: int|
                                0 <= g0 < r_pre.len() && 0 <= y0 < r_pre[g0].1@.len() && r_pre[
                                    g0
                                ].1@[y0] == path@[z];
                            assert(0 <= g0 < r@.len() && 0 <= y0 < r@[g0].1@.len() && r@[g0].1@[y0]
                                == path@[z]);
                        } else {
                            assert(r@[r@.len() - 1].1@[0] == path@[z]);
                        }
                    }
                }
            }
            x = x + 1;
        }
        Some(r)
    }
}

/// The candidate successors one expansion offers for a cursor pair, in
/// generation order: each an optional emitted operation with the two
/// cursors the search moves to.  A free match or a leaf rewrite stands
/// alone; an aligned document root descends alone; otherwise an open pair
/// offers the guarded descent and the four skip/descend alternatives; a
/// mixed pair offers its three; a finished pair climbs.
pub open spec fn succ_offers(ot: SyntaxTree, nt: SyntaxTree, co: Cursor<usize>, cn: Cursor<usize>) -> Seq<
    (Option<Op>, Cursor<usize>, Cursor<usize>),
> {
    match (co, cn) {
        (Cursor::Before(o), Cursor::Before(n)) => {
            if hash_of(ot, o as int) == hash_of(nt, n as int) {
                seq![
                    (
                        Some(OpF::Exact { old: o, new: n }),
                        spec_normalize(ot, Cursor::After(o)),
                        spec_normalize(nt, Cursor::After(n)),
                    ),
                ]
            } else if ot.node(o as int).children@.len() == 0 && nt.node(
                n as int,
            ).children@.len() == 0 && ot.node(o as int).kind == nt.node(n as int).kind {
                seq![
                    (
                        Some(OpF::UpdateScalar { old: o, new: n }),
                        spec_normalize(ot, Cursor::After(o)),
                        spec_normalize(nt, Cursor::After(n)),
                    ),
                ]
            } else {
                let descend_applies = ot.node(o as int).children@.len() > 0 && nt.node(
                    n as int,
                ).children@.len() > 0 && ot.node(ot.node(o as int).children@[0] as int).kind
                    == nt.node(nt.node(n as int).children@[0] as int).kind;
                let descend = seq![
                    (
                        Some(OpF::Update { old: o, new: n }),
                        Cursor::<usize>::Before(ot.node(o as int).children@[0]),
                        Cursor::<usize>::Before(nt.node(n as int).children@[0]),
                    ),
                ];
                if descend_applies && ot.node(o as int).kind == SyntaxKind::Document && nt.node(
                    n as int,
                ).kind == SyntaxKind::Document {
                    descend
                } else {
                    (if descend_applies {
                        descend
                    } else {
                        Seq::empty()
                    }) + seq![
                        (
                            Some(OpF::DeleteSubtree { old: o }),
                            spec_normalize(ot, Cursor::After(o)),
                            Cursor::<usize>::Before(n),
                        ),
                        (
                            Some(OpF::InsertSubtree { new: n }),
                            Cursor::<usize>::Before(o),
                            spec_normalize(nt, Cursor::After(n)),
                        ),
                    ] + (if ot.node(o as int).children@.len() > 0 {
                        seq![
                            (
                                Some(OpF::Delete { old: o }),
                                Cursor::<usize>::Before(ot.node(o as int).children@[0]),
                                Cursor::<usize>::Before(n),
                            ),
                        ]
                    } else {
                        Seq::empty()
                    }) + (if nt.node(n as int).children@.len() > 0 {
                        seq![
                            (
                                Some(OpF::Insert { new: n }),
                                Cursor::<usize>::Before(o),
                                Cursor::<usize>::Before(nt.node(n as int).children@[0]),
                            ),
                        ]
                    } else {
                        Seq::empty()
                    })
                }
            }
        },
        (Cursor::After(o), Cursor::Before(n)) => seq![
            (
                Some(OpF::InsertSubtree { new: n }),
                Cursor::<usize>::After(o),
                spec_next(nt, Cursor::After(n)),
            ),
            (
                Some(OpF::Insert { new: n }),
                spec_normalize(ot, Cursor::After(o)),
                spec_next(nt, Cursor::Before(n)),
            ),
            (None, spec_next(ot, Cursor::After(o)), Cursor::<usize>::Before(n)),
        ],
        (Cursor::Before(o), Cursor::After(n)) => seq![
            (
                Some(OpF::DeleteSubtree { old: o }),
                spec_next(ot, Cursor::After(o)),
                Cursor::<usize>::After(n),
            ),
            (
                Some(OpF::Delete { old: o }),
                spec_next(ot, Cursor::Before(o)),
                spec_normalize(nt, Cursor::After(n)),
            ),
            (None, Cursor::<usize>::Before(o), spec_next(nt, Cursor::After(n))),
        ],
        (Cursor::After(o), Cursor::After(n)) => seq![
            (
                None,
                spec_normalize(ot, Cursor::After(o)),
                spec_normalize(nt, Cursor::After(n)),
            ),
        ],
    }
}

/// The vertex one accepted offer produces: the offered cursors, the path
/// extended by the offered operation, and the cost advanced by its price.
pub open spec fn offer_state_ok(
    e: SearchData,
    base: SearchData,
    offer: (Option<Op>, Cursor<usize>, Cursor<usize>),
    ot: SyntaxTree,
    nt: SyntaxTree,
) -> bool {
    &&& e.old == offer.1
    &&& e.new == offer.2
    &&& match offer.0 {
        Some(op) => e.path@ == base.path@.push(op) && e.cost == sat_cap(
            base.cost + op_cost_spec(op, ot, nt),
        ),
        None => e.path@ == base.path@ && e.cost == base.cost,
    }
}

/// The one successor vertex an expansion is guaranteed to leave in the memo
/// table, determined by the cursor pair and the two trees alone: the free
/// match or leaf rewrite where one applies, the document-root descent, the
/// whole-subtree drop from an open pair, the single-node step from a mixed
/// pair, and the climb from a finished pair.
pub open spec fn witness_pair(
    ot: SyntaxTree,
    nt: SyntaxTree,
    co: Cursor<usize>,
    cn: Cursor<usize>,
) -> (Cursor<usize>, Cursor<usize>) {
    match (co, cn) {
        (Cursor::Before(o), Cursor::Before(n)) => {
            if hash_of(ot, o as int) == hash_of(nt, n as int) {
                (spec_normalize(ot, Cursor::After(o)), spec_normalize(nt, Cursor::After(n)))
            } else if ot.node(o as int).children@.len() == 0 && nt.node(
                n as int,
            ).children@.len() == 0 && ot.node(o as int).kind == nt.node(n as int).kind {
                (spec_normalize(ot, Cursor::After(o)), spec_normalize(nt, Cursor::After(n)))
            } else if ot.node(o as int).children@.len() > 0 && nt.node(n as int).children@.len()
                > 0 && ot.node(ot.node(o as int).children@[0] as int).kind == nt.node(
                nt.node(n as int).children@[0] as int,
            ).kind && ot.node(o as int).kind == SyntaxKind::Document && nt.node(n as int).kind
                == SyntaxKind::Document {
                (
                    Cursor::Before(ot.node(o as int).children@[0]),
                    Cursor::Before(nt.node(n as int).children@[0]),
                )
            } else {
                (spec_normalize(ot, Cursor::After(o)), Cursor::Before(n))
            }
        },
        (Cursor::After(o), Cursor::Before(n)) => (
            spec_normalize(ot, Cursor::After(o)),
            spec_next(nt, Cursor::Before(n)),
        ),
        (Cursor::Before(o), Cursor::After(n)) => (
            spec_next(ot, Cursor::Before(o)),
            spec_normalize(nt, Cursor::After(n)),
        ),
        (Cursor::After(o), Cursor::After(n)) => (
            spec_normalize(ot, Cursor::After(o)),
            spec_normalize(nt, Cursor::After(n)),
        ),
    }
}

/// Tiebreaker of the descent measure: how deep an `After` cursor still has
/// to climb.
pub open spec fn phi2(c: Cursor<usize>) -> int {
    match c {
        Cursor::After(x) => x as int + 1,
        Cursor::Before(_) => 0,
    }
}

/// The descent measure of a vertex: how much of both trees is still
/// unconsumed, weighted past the climb tiebreaker.
pub open spec fn phi(ot: SyntaxTree, nt: SyntaxTree, co: Cursor<usize>, cn: Cursor<usize>) -> int {
    ((ot.n_nodes() - co.boundary(ot)) + (nt.n_nodes() - cn.boundary(nt))) * (ot.n_nodes()
        + nt.n_nodes() + 3) + phi2(co) + phi2(cn)
}

/// Stepping past a subtree keeps the consumption boundary, stays valid, and
/// climbs: the reached cursor's tiebreaker is at most the node's own index,
/// except at the root, which is a fixpoint.
proof fn lemma_after_step(tree: SyntaxTree, x: int)
    requires
        tree.wf(),
        tree.is_node(x),
    ensures
        after_step(tree, x).valid(tree),
        after_step(tree, x).boundary(tree) == tree.end(x),
        x != 0 ==> phi2(after_step(tree, x)) <= x,
        x == 0 ==> after_step(tree, x) == Cursor::After(0usize),
        tree.end(x) <= tree.n_nodes(),
{
    tree.lemma_node_wf(x);
    if x != 0 {
        tree.lemma_parent_wf(x);
        let p = tree.node(x).parent->0 as int;
        tree.lemma_node_wf(p);
        match tree.sib_spec(x) {
            Some(s) => {
                assert(tree.node(p as int).children@[tree.node(x).child_rank + 1] == s);
                assert(s as int == tree.end(x)) by {
                    assert(tree.node(p as int).children@[tree.node(x).child_rank as int] == x);
                }
            },
            None => {
                assert(tree.node(p as int).children@.last() == x) by {
                    assert(tree.node(p as int).children@[tree.node(x).child_rank as int] == x);
                }
            },
        }
    }
}

/// From every vertex but the final one, the guaranteed successor strictly
/// decreases the descent measure.
proof fn lemma_witness_phi(ot: SyntaxTree, nt: SyntaxTree, co: Cursor<usize>, cn: Cursor<usize>)
    requires
        ot.wf(),
        nt.wf(),
        co.valid(ot),
        cn.valid(nt),
        !(co == Cursor::<usize>::After(0usize) && cn == Cursor::<usize>::After(0usize)),
    ensures
        witness_pair(ot, nt, co, cn).0.valid(ot),
        witness_pair(ot, nt, co, cn).1.valid(nt),
        0 <= phi(ot, nt, witness_pair(ot, nt, co, cn).0, witness_pair(ot, nt, co, cn).1),
        phi(ot, nt, witness_pair(ot, nt, co, cn).0, witness_pair(ot, nt, co, cn).1) < phi(
            ot,
            nt,
            co,
            cn,
        ),
{
    let wo = witness_pair(ot, nt, co, cn).0;
    let wn = witness_pair(ot, nt, co, cn).1;
    let big = ot.n_nodes() + nt.n_nodes() + 3;
    lemma_cursor_measure_bounds(ot, co);
    lemma_cursor_measure_bounds(nt, cn);
    match (co, cn) {
        (Cursor::Before(o), Cursor::Before(n)) => {
            ot.lemma_node_wf(o as int);
            nt.lemma_node_wf(n as int);
            lemma_after_step(ot, o as int);
            lemma_after_step(nt, n as int);
            if ot.node(o as int).children@.len() > 0 {
                assert(ot.node(o as int).children@[0] == o + 1);
            }
            if nt.node(n as int).children@.len() > 0 {
                assert(nt.node(n as int).children@[0] == n + 1);
            }
            lemma_cursor_measure_bounds(ot, wo);
            lemma_cursor_measure_bounds(nt, wn);
            assert(wo.boundary(ot) + wn.boundary(nt) >= co.boundary(ot) + cn.boundary(nt) + 1);
            lemma_phi_dominates(ot, nt, co, cn, wo, wn);
        },
        (Cursor::After(o), Cursor::Before(n)) => {
            ot.lemma_node_wf(o as int);
            nt.lemma_node_wf(n as int);
            lemma_after_step(ot, o as int);
            if nt.node(n as int).children@.len() > 0 {
                assert(nt.node(n as int).children@[0] == n + 1);
                nt.lemma_node_wf(n as int + 1);
            }
            lemma_cursor_measure_bounds(ot, wo);
            lemma_cursor_measure_bounds(nt, wn);
            assert(wn.boundary(nt) == cn.boundary(nt) + 1);
            lemma_phi_dominates(ot, nt, co, cn, wo, wn);
        },
        (Cursor::Before(o), Cursor::After(n)) => {
            ot.lemma_node_wf(o as int);
            nt.lemma_node_wf(n as int);
            lemma_after_step(nt, n as int);
            if ot.node(o as int).children@.len() > 0 {
                assert(ot.node(o as int).children@[0] == o + 1);
                ot.lemma_node_wf(o as int + 1);
            }
            lemma_cursor_measure_bounds(ot, wo);
            lemma_cursor_measure_bounds(nt, wn);
            assert(wo.boundary(ot) == co.boundary(ot) + 1);
            lemma_phi_dominates(ot, nt, co, cn, wo, wn);
        },
        (Cursor::After(o), Cursor::After(n)) => {
            lemma_after_step(ot, o as int);
            lemma_after_step(nt, n as int);
            lemma_cursor_measure_bounds(ot, wo);
            lemma_cursor_measure_bounds(nt, wn);
            assert(wo.boundary(ot) == co.boundary(ot) && wn.boundary(nt) == cn.boundary(nt));
            assert(phi2(wo) + phi2(wn) < phi2(co) + phi2(cn));
        },
    }
}

/// Valid cursors keep the measure's parts inside their ranges.
proof fn lemma_cursor_measure_bounds(tree: SyntaxTree, c: Cursor<usize>)
    requires
        tree.wf(),
        c.valid(tree),
    ensures
        0 <= c.boundary(tree) <= tree.n_nodes(),
        0 <= phi2(c) <= tree.n_nodes() + 1,
{
    tree.lemma_node_wf(c.idx());
}

/// A strict gain in consumed positions outweighs any change of the climb
/// tiebreaker.
proof fn lemma_phi_dominates(
    ot: SyntaxTree,
    nt: SyntaxTree,
    co: Cursor<usize>,
    cn: Cursor<usize>,
    wo: Cursor<usize>,
    wn: Cursor<usize>,
)
    requires
        wo.boundary(ot) + wn.boundary(nt) >= co.boundary(ot) + cn.boundary(nt) + 1,
        0 <= co.boundary(ot) <= ot.n_nodes(),
        0 <= cn.boundary(nt) <= nt.n_nodes(),
        0 <= wo.boundary(ot) <= ot.n_nodes(),
        0 <= wn.boundary(nt) <= nt.n_nodes(),
        0 <= phi2(co) <= ot.n_nodes() + 1,
        0 <= phi2(cn) <= nt.n_nodes() + 1,
        0 <= phi2(wo) <= ot.n_nodes() + 1,
        0 <= phi2(wn) <= nt.n_nodes() + 1,
    ensures
        0 <= phi(ot, nt, wo, wn),
        phi(ot, nt, wo, wn) < phi(ot, nt, co, cn),
{
    let big = ot.n_nodes() + nt.n_nodes() + 3;
    let r1 = (ot.n_nodes() - co.boundary(ot)) + (nt.n_nodes() - cn.boundary(nt));
    let r2 = (ot.n_nodes() - wo.boundary(ot)) + (nt.n_nodes() - wn.boundary(nt));
    assert(r2 <= r1 - 1 && 0 <= r2);
    assert(r2 * big + (phi2(wo) + phi2(wn)) < r1 * big + (phi2(co) + phi2(cn)) && 0 <= r2 * big)
        by (nonlinear_arith)
        requires
            0 <= r2 <= r1 - 1,
            big >= ot.n_nodes() + nt.n_nodes() + 3,
            0 <= phi2(wo) + phi2(wn) <= ot.n_nodes() + nt.n_nodes() + 2,
            0 <= phi2(co) + phi2(cn),
            big == ot.n_nodes() + nt.n_nodes() + 3,
    {}
}


/// Per-node base costs only ever add, so a subtree's base cost is never
/// negative, whatever the indices.
proof fn lemma_cost_nonneg(tree: SyntaxTree, i: int)
    ensures
        cost_of(tree, i) >= 0,
    decreases tree.n_nodes() - i, 1int, 0int,
{
    lemma_cost_kids_nonneg(tree, i, 0, base_cost_of(tree.node(i).kind));
}

proof fn lemma_cost_kids_nonneg(tree: SyntaxTree, i: int, j: int, acc: int)
    requires
        acc >= 0,
    ensures
        cost_kids(tree, i, j, acc) >= 0,
    decreases tree.n_nodes() - i, 0int, tree.node(i).children@.len() - j,
{
    if 0 <= j < tree.node(i).children@.len() {
        let c = tree.node(i).children@[j] as int;
        if i < c < tree.n_nodes() {
            lemma_cost_nonneg_child(tree, c, i);
            lemma_cost_kids_nonneg(tree, i, j + 1, acc + cost_of(tree, c));
        }
    }
}

proof fn lemma_cost_nonneg_child(tree: SyntaxTree, c: int, i: int)
    requires
        i < c < tree.n_nodes(),
    ensures
        cost_of(tree, c) >= 0,
    decreases tree.n_nodes() - i, 0int, 0int,
{
    lemma_cost_nonneg(tree, c);
}

/// No operation has a negative price.
pub proof fn lemma_op_cost_nonneg(op: Op, ot: SyntaxTree, nt: SyntaxTree)
    ensures
        op_cost_spec(op, ot, nt) >= 0,
{
    match op {
        OpF::DeleteSubtree { old } => {
            lemma_cost_nonneg(ot, old as int);
        },
        OpF::InsertSubtree { new } => {
            lemma_cost_nonneg(nt, new as int);
        },
        _ => {},
    }
}

/// Law: the accumulated cost never decreases along a search path — every
/// prefix of a path prices at or below the whole — which is what lets the
/// search close at the first final vertex it pops.
pub proof fn lemma_cost_never_decreases(path: Seq<Op>, ot: SyntaxTree, nt: SyntaxTree, k: int)
    requires
        0 <= k <= path.len(),
    ensures
        0 <= sat_cost(path, ot, nt) <= usize::MAX,
        sat_cost(path.take(k), ot, nt) <= sat_cost(path, ot, nt),
    decreases path.len(),
{
    if path.len() == 0 {
        assert(path.take(k) =~= path);
    } else if k == path.len() {
        assert(path.take(k) =~= path);
        lemma_cost_never_decreases(path.drop_last(), ot, nt, path.len() - 1);
        lemma_op_cost_nonneg(path.last(), ot, nt);
    } else {
        assert(path.take(k) =~= path.drop_last().take(k));
        lemma_cost_never_decreases(path.drop_last(), ot, nt, k);
        lemma_op_cost_nonneg(path.last(), ot, nt);
    }
}

} // verus!
