//! Priority extraction over the semantic tree.
//!
//! A content line of exactly a capital letter P and one digit from zero to
//! four marks a priority: it prioritizes its own children when it has any,
//! and otherwise the node it sits under.  Extraction walks the tree
//! collecting `(node, priority)` pairs; `make_prioritized_list` regroups the
//! collected nodes under one fresh label node per occupied priority, inside
//! a fresh document.

use vstd::prelude::*;

use vstd::string::StrSliceExecFns;

use crate::context::extends;
use crate::node::{refs_of, Content, Context, Node, NodeId};

verus! {

/// The priority a content line encodes, if any: the letter P (code 80)
/// followed by one digit from zero (code 48) to four (code 52).
pub open spec fn priority_of(s: Seq<char>) -> Option<i32> {
    if s.len() == 2 && s[0] as int == 80 && 48 <= s[1] as int <= 52 {
        Some((s[1] as int - 48) as i32)
    } else {
        None
    }
}

/// The pairs one marker child contributes: its grandchildren under the
/// marker's priority when it has any, else the parent node itself.
pub open spec fn marker_of(arena: Seq<Node>, parent: int, c: int) -> Seq<(usize, i32)> {
    if 0 <= c < arena.len() {
        match arena[c] {
            Node::Node { content, children, .. } => match content {
                Some(Content::Content(s)) => match priority_of(s@) {
                    Some(p) => if children@.len() > 0 {
                        Seq::new(children@.len(), |x: int| (children@[x], p))
                    } else {
                        seq![(parent as usize, p)]
                    },
                    None => Seq::empty(),
                },
                _ => Seq::empty(),
            },
            _ => Seq::empty(),
        }
    } else {
        Seq::empty()
    }
}

/// All `(node, priority)` pairs collected under `i`, in traversal order:
/// documents pass through to their children, nodes also read each child as
/// a possible marker, blocks contribute nothing.
pub open spec fn prio_list(arena: Seq<Node>, i: int) -> Seq<(usize, i32)>
    decreases i, 1int, 0int,
{
    if 0 <= i < arena.len() {
        match arena[i] {
            Node::Document { children } => prio_children(arena, children@, 0, i, false, i),
            Node::Node { children, .. } => prio_children(arena, children@, 0, i, true, i),
            Node::Block { .. } => Seq::empty(),
        }
    } else {
        Seq::empty()
    }
}

/// The pairs of the children `cs[j..]`, all below the bound `b`, markers
/// included when `check` holds.
pub open spec fn prio_children(
    arena: Seq<Node>,
    cs: Seq<usize>,
    j: int,
    b: int,
    check: bool,
    parent: int,
) -> Seq<(usize, i32)>
    decreases b, 0int, cs.len() - j,
{
    if j < 0 || j >= cs.len() {
        Seq::empty()
    } else if (cs[j] as int) < b {
        (if check {
            marker_of(arena, parent, cs[j] as int)
        } else {
            Seq::empty()
        }) + prio_list(arena, cs[j] as int) + prio_children(arena, cs, j + 1, b, check, parent)
    } else {
        Seq::empty()
    }
}

/// The nodes collected under one priority, in collection order.
pub open spec fn bucket_of(ps: Seq<(usize, i32)>, k: i32) -> Seq<usize>
    decreases ps.len(),
{
    if ps.len() == 0 {
        Seq::empty()
    } else {
        bucket_of(ps.drop_last(), k) + (if ps.last().1 == k {
            seq![ps.last().0]
        } else {
            Seq::empty()
        })
    }
}

/// The priorities from `k` up whose buckets are occupied, in order.
pub open spec fn labels_from(ps: Seq<(usize, i32)>, k: int) -> Seq<i32>
    decreases 5 - k,
{
    if k < 0 || k >= 5 {
        Seq::empty()
    } else {
        (if bucket_of(ps, k as i32).len() > 0 {
            seq![k as i32]
        } else {
            Seq::empty()
        }) + labels_from(ps, k + 1)
    }
}

/// Reads a content line as a priority marker.
fn priority_label(content: &String) -> (r: Option<i32>)
    ensures
        r == priority_of(content@),
{
    let st = content.as_str();
    if st.unicode_len() == 2 {
        let c0 = st.get_char(0);
        let c1 = st.get_char(1);
        let d0 = c0 as u32;
        let d1 = c1 as u32;
        if d0 == 80 && 48 <= d1 && d1 <= 52 {
            return Some((d1 - 48) as i32);
        }
    }
    None
}

/// The pairs the first `j` children contribute, accumulated from the front.
pub open spec fn prio_upto(
    arena: Seq<Node>,
    cs: Seq<usize>,
    j: int,
    b: int,
    check: bool,
    parent: int,
) -> Seq<(usize, i32)>
    decreases j,
{
    if j <= 0 {
        Seq::empty()
    } else {
        prio_upto(arena, cs, j - 1, b, check, parent) + (if 0 <= j - 1 < cs.len() && (cs[j
            - 1] as int) < b {
            (if check {
                marker_of(arena, parent, cs[j - 1] as int)
            } else {
                Seq::empty()
            }) + prio_list(arena, cs[j - 1] as int)
        } else {
            Seq::empty()
        })
    }
}

proof fn lemma_prio_upto_step(
    arena: Seq<Node>,
    cs: Seq<usize>,
    j: int,
    b: int,
    check: bool,
    parent: int,
)
    requires
        0 <= j < cs.len(),
        (cs[j] as int) < b,
    ensures
        prio_upto(arena, cs, j + 1, b, check, parent) == prio_upto(arena, cs, j, b, check, parent)
            + ((if check {
            marker_of(arena, parent, cs[j] as int)
        } else {
            Seq::empty()
        }) + prio_list(arena, cs[j] as int)),
{
}

/// Once every child is below the bound, the running concatenation equals
/// the child-list collection.
proof fn lemma_prio_prefix(
    arena: Seq<Node>,
    cs: Seq<usize>,
    j: int,
    b: int,
    check: bool,
    parent: int,
)
    requires
        0 <= j <= cs.len(),
        forall|x: int| 0 <= x < cs.len() ==> (#[trigger] cs[x] as int) < b,
    ensures
        prio_children(arena, cs, 0, b, check, parent) == prio_upto(arena, cs, j, b, check, parent)
            + prio_children(arena, cs, j, b, check, parent),
    decreases j,
{
    if j == 0 {
        assert(prio_upto(arena, cs, 0, b, check, parent) + prio_children(
            arena,
            cs,
            0,
            b,
            check,
            parent,
        ) =~= prio_children(arena, cs, 0, b, check, parent));
    } else {
        lemma_prio_prefix(arena, cs, j - 1, b, check, parent);
        assert(prio_children(arena, cs, j - 1, b, check, parent) == ((if check {
            marker_of(arena, parent, cs[j - 1] as int)
        } else {
            Seq::empty()
        }) + prio_list(arena, cs[j - 1] as int)) + prio_children(arena, cs, j, b, check, parent));
        assert(prio_upto(arena, cs, j, b, check, parent) + prio_children(
            arena,
            cs,
            j,
            b,
            check,
            parent,
        ) =~= prio_upto(arena, cs, j - 1, b, check, parent) + (((if check {
            marker_of(arena, parent, cs[j - 1] as int)
        } else {
            Seq::empty()
        }) + prio_list(arena, cs[j - 1] as int)) + prio_children(arena, cs, j, b, check, parent)));
    }
}

/// Every collected pair names a node inside the arena.
proof fn lemma_prio_range(arena: Seq<Node>, i: int)
    requires
        crate::node::arena_ok(arena),
    ensures
        forall|x: int|
            0 <= x < prio_list(arena, i).len() ==> (#[trigger] prio_list(arena, i)[x]).0 < arena.len(),
    decreases i, 1int, 0int,
{
    if 0 <= i < arena.len() {
        match arena[i] {
            Node::Document { children } => {
                lemma_prio_children_range(arena, children@, 0, i, false, i);
                assert(prio_list(arena, i) == prio_children(arena, children@, 0, i, false, i));
            },
            Node::Node { children, .. } => {
                lemma_prio_children_range(arena, children@, 0, i, true, i);
                assert(prio_list(arena, i) == prio_children(arena, children@, 0, i, true, i));
            },
            Node::Block { .. } => {},
        }
    }
}

proof fn lemma_prio_children_range(
    arena: Seq<Node>,
    cs: Seq<usize>,
    j: int,
    b: int,
    check: bool,
    parent: int,
)
    requires
        crate::node::arena_ok(arena),
        0 <= parent < arena.len(),
    ensures
        forall|x: int|
            0 <= x < prio_children(arena, cs, j, b, check, parent).len() ==> (
            #[trigger] prio_children(arena, cs, j, b, check, parent)[x]).0 < arena.len(),
    decreases b, 0int, cs.len() - j,
{
    if 0 <= j < cs.len() && (cs[j] as int) < b {
        lemma_marker_range(arena, parent, cs[j] as int);
        lemma_prio_range_child(arena, cs[j] as int, b);
        lemma_prio_children_range(arena, cs, j + 1, b, check, parent);
        let m = if check {
            marker_of(arena, parent, cs[j] as int)
        } else {
            Seq::<(usize, i32)>::empty()
        };
        let pl = prio_list(arena, cs[j] as int);
        let rest = prio_children(arena, cs, j + 1, b, check, parent);
        let whole = prio_children(arena, cs, j, b, check, parent);
        assert(whole == m + pl + rest);
        assert forall|x: int| 0 <= x < whole.len() implies (#[trigger] whole[x]).0
            < arena.len() by {
            if x < m.len() {
                assert(whole[x] == m[x]);
            } else if x < m.len() + pl.len() {
                assert(whole[x] == pl[x - m.len()]);
            } else {
                assert(whole[x] == rest[x - m.len() - pl.len()]);
            }
        }
    }
}

proof fn lemma_prio_range_child(arena: Seq<Node>, c: int, b: int)
    requires
        crate::node::arena_ok(arena),
        0 <= c < b,
    ensures
        forall|x: int|
            0 <= x < prio_list(arena, c).len() ==> (#[trigger] prio_list(arena, c)[x]).0 < arena.len(),
    decreases b, 0int, 0int,
{
    lemma_prio_range(arena, c);
}

proof fn lemma_marker_range(arena: Seq<Node>, parent: int, c: int)
    requires
        crate::node::arena_ok(arena),
        0 <= parent < arena.len(),
    ensures
        forall|x: int|
            0 <= x < marker_of(arena, parent, c).len() ==> (#[trigger] marker_of(arena, parent, c)[
                x
            ]).0 < arena.len(),
{
    reveal(crate::node::arena_ok);
    if 0 <= c < arena.len() {
        match arena[c] {
            Node::Node { content, children, .. } => {
                assert forall|x: int| 0 <= x < children@.len() implies (#[trigger] children@[
                    x
                ] as int) < c by {
                    assert(refs_of(arena[c])[x] == children@[x]);
                }
            },
            _ => {},
        }
    }
}

/// Bucket members come from the collected pairs.
proof fn lemma_bucket_range(ps: Seq<(usize, i32)>, k: i32, bound: int)
    requires
        forall|x: int| 0 <= x < ps.len() ==> (#[trigger] ps[x]).0 < bound,
    ensures
        forall|y: int|
            0 <= y < bucket_of(ps, k).len() ==> (#[trigger] bucket_of(ps, k)[y] as int) < bound,
    decreases ps.len(),
{
    if ps.len() > 0 {
        assert(forall|x: int|
            0 <= x < ps.drop_last().len() ==> (#[trigger] ps.drop_last()[x]).0 < bound);
        lemma_bucket_range(ps.drop_last(), k, bound);
        assert(ps.last() == ps[ps.len() - 1]);
        let sub = bucket_of(ps.drop_last(), k);
        let whole = bucket_of(ps, k);
        assert forall|y: int| 0 <= y < whole.len() implies (#[trigger] whole[y] as int)
            < bound by {
            if y < sub.len() {
                assert(whole[y] == sub[y]);
            } else {
                assert(whole[y] == ps.last().0);
            }
        }
    }
}

/// A freshly made label node: no binding, a two-letter label as content,
/// and exactly the given nodes as children.
pub open spec fn label_node_ok(n: Node, ids: Seq<usize>, k: i32) -> bool {
    match n {
        Node::Node { binding, content, children } => binding is None && children@ == ids && match content {
            Some(Content::Content(lab)) => lab@.len() == 2 && lab@[0] as int == 80 && lab@[1] as int == 48 + k,
            _ => false,
        },
        _ => false,
    }
}

impl Context {
    /// Collects every `(node, priority)` pair under `node`.
    pub fn extract_priorities(&self, node: NodeId) -> (r: Vec<(NodeId, i32)>)
        requires
            self.wf(),
            node < self.arena@.len(),
        ensures
            r@ == prio_list(self.arena@, node as int),
    {
        let mut priorities: Vec<(NodeId, i32)> = Vec::new();
        self.extract_priorities_rec(node, &mut priorities);
        proof {
            assert(priorities@ =~= Seq::<(usize, i32)>::empty() + prio_list(
                self.arena@,
                node as int,
            ));
        }
        priorities
    }

    fn extract_priorities_rec(&self, node: NodeId, priorities: &mut Vec<(NodeId, i32)>)
        requires
            self.wf(),
            node < self.arena@.len(),
        ensures
            final(priorities)@ == old(priorities)@ + prio_list(self.arena@, node as int),
        decreases node, 1int, 0int,
    {
        proof {
            self.lemma_refs_down(node as int);
        }
        let check = match &self.arena[node] {
            Node::Document { .. } => false,
            Node::Node { .. } => true,
            Node::Block { .. } => {
                return ;
            },
        };
        let cs = self.arena[node].children();
        let n = cs.len();
        let ghost cseq = crate::node::children_of(self.arena@[node as int]);
        proof {
            let nn = self.arena@[node as int];
            assert forall|x: int| 0 <= x < cseq.len() implies (#[trigger] cseq[x] as int)
                < node by {
                assert(refs_of(nn)[x] == cseq[x]);
            }
            assert(cs@ == cseq);
        }
        let mut j: usize = 0;
        while j < n
            invariant
                j <= n,
                n == cseq.len(),
                cseq == crate::node::children_of(self.arena@[node as int]),
                cs@ == cseq,
                self.wf(),
                node < self.arena@.len(),
                forall|x: int| 0 <= x < cseq.len() ==> (#[trigger] cseq[x] as int) < node,
                check == (self.arena@[node as int] matches Node::Node { .. }),
                (self.arena@[node as int] matches Node::Document { .. }) || (
                self.arena@[node as int] matches Node::Node { .. }),
                priorities@ == old(priorities)@ + prio_upto(
                    self.arena@,
                    cseq,
                    j as int,
                    node as int,
                    check,
                    node as int,
                ),
            decreases n - j,
        {
            let c = cs[j];
            if check {
                self.push_marker(node, c, priorities);
            }
            self.extract_priorities_child(c, priorities);
            proof {
                lemma_prio_upto_step(
                    self.arena@,
                    cseq,
                    j as int,
                    node as int,
                    check,
                    node as int,
                );
            }
            j = j + 1;
        }
        proof {
            lemma_prio_prefix(self.arena@, cseq, n as int, node as int, check, node as int);
            assert(prio_children(self.arena@, cseq, n as int, node as int, check, node as int)
                =~= Seq::<(usize, i32)>::empty());
            assert(priorities@ =~= old(priorities)@ + prio_list(self.arena@, node as int));
        }
    }

    /// Appends what one marker child contributes.
    fn push_marker(&self, parent: NodeId, c: NodeId, priorities: &mut Vec<(NodeId, i32)>)
        requires
            self.wf(),
            parent < self.arena@.len(),
            c < self.arena@.len(),
        ensures
            final(priorities)@ == old(priorities)@ + marker_of(
                self.arena@,
                parent as int,
                c as int,
            ),
    {
        match &self.arena[c] {
            Node::Node { content: Some(Content::Content(content)), children, .. } => {
                match priority_label(content) {
                    Some(p) => {
                        if children.len() > 0 {
                            let ghost gc = children@;
                            let ghost want = Seq::new(gc.len(), |x: int| (gc[x], p));
                            let mut x: usize = 0;
                            while x < children.len()
                                invariant
                                    x <= gc.len(),
                                    children@ == gc,
                                    priorities@ == old(priorities)@ + want.subrange(0, x as int),
                                    want == Seq::new(gc.len(), |y: int| (gc[y], p)),
                                decreases gc.len() - x,
                            {
                                priorities.push((children[x], p));
                                proof {
                                    assert(want.subrange(0, x as int + 1) =~= want.subrange(
                                        0,
                                        x as int,
                                    ).push((gc[x as int], p)));
                                }
                                x = x + 1;
                            }
                            proof {
                                assert(want.subrange(0, gc.len() as int) =~= want);
                            }
                        } else {
                            priorities.push((parent, p));
                        }
                    },
                    None => {},
                }
            },
            _ => {},
        }
    }

    /// Recursion helper with the same contract, giving the nested call a
    /// smaller measure.
    fn extract_priorities_child(&self, node: NodeId, priorities: &mut Vec<(NodeId, i32)>)
        requires
            self.wf(),
            node < self.arena@.len(),
        ensures
            final(priorities)@ == old(priorities)@ + prio_list(self.arena@, node as int),
        decreases node, 2int, 0int,
    {
        self.extract_priorities_rec(node, priorities);
    }

    /// Regroups the prioritized nodes under one fresh label node per
    /// occupied priority, inside a fresh document: the label nodes sit at
    /// the end of the arena in priority order, each carrying a two-letter
    /// label and exactly its bucket's nodes, and the returned document
    /// lists them in order.
    pub fn make_prioritized_list(&mut self, node: NodeId) -> (r: NodeId)
        requires
            old(self).wf(),
            node < old(self).arena@.len(),
        ensures
            final(self).wf(),
            extends(*final(self), *old(self)),
            r == final(self).arena@.len() - 1,
            ({
                let ps = prio_list(old(self).arena@, node as int);
                let labs = labels_from(ps, 0);
                let base = old(self).arena@.len() as int;
                &&& final(self).arena@.len() == base + labs.len() + 1
                &&& (final(self).arena@[r as int] matches Node::Document { children }
                    && children@.len() == labs.len() && (forall|x: int|
                    0 <= x < labs.len() ==> #[trigger] children@[x] == base + x))
                &&& forall|x: int|
                    0 <= x < labs.len() ==> label_node_ok(
                        #[trigger] final(self).arena@[base + x],
                        bucket_of(ps, labs[x]),
                        labs[x],
                    )
            }),
    {
        let ghost base = self.arena@.len() as int;
        let priorities = self.extract_priorities(node);
        let ghost ps = prio_list(self.arena@, node as int);

        let mut buckets: Vec<Vec<NodeId>> = Vec::new();
        let mut k: usize = 0;
        while k < 5
            invariant
                k <= 5,
                buckets@.len() == k,
                forall|x: int| 0 <= x < k ==> (#[trigger] buckets@[x])@.len() == 0,
            decreases 5 - k,
        {
            buckets.push(Vec::new());
            k = k + 1;
        }
        let mut x: usize = 0;
        while x < priorities.len()
            invariant
                x <= priorities@.len(),
                priorities@ == ps,
                buckets@.len() == 5,
                forall|kk: int|
                    0 <= kk < 5 ==> (#[trigger] buckets@[kk])@ == bucket_of(
                        ps.subrange(0, x as int),
                        kk as i32,
                    ),
            decreases priorities@.len() - x,
        {
            let (id, p) = priorities[x];
            if p >= 0 && p < 5 {
                let pu = p as usize;
                buckets[pu].push(id);
            }
            proof {
                assert forall|kk: int| 0 <= kk < 5 implies (#[trigger] buckets@[kk])@ == bucket_of(
                    ps.subrange(0, x as int + 1),
                    kk as i32,
                ) by {
                    assert(ps.subrange(0, x as int + 1).drop_last() =~= ps.subrange(0, x as int));
                    assert(ps.subrange(0, x as int + 1).last() == ps[x as int]);
                }
            }
            x = x + 1;
        }
        proof {
            assert(ps.subrange(0, ps.len() as int) =~= ps);
        }

        let mut children: Vec<NodeId> = Vec::new();
        let ghost entry = *self;
        proof {
            crate::context::lemma_extends_refl(*self);
            lemma_prio_range(self.arena@, node as int);
            assert forall|kk: int| 0 <= kk < 5 implies (forall|y: int|
                0 <= y < (#[trigger] buckets@[kk])@.len() ==> (#[trigger] buckets@[kk]@[
                    y
                ] as int) < base) by {
                lemma_bucket_range(ps, kk as i32, base);
            }
        }
        let mut k: usize = 0;
        while k < 5
            invariant
                k <= 5,
                self.wf(),
                extends(*self, entry),
                buckets@.len() == 5,
                forall|kk: int|
                    0 <= kk < 5 ==> (#[trigger] buckets@[kk])@ == bucket_of(ps, kk as i32),
                forall|kk: int|
                    0 <= kk < 5 ==> (forall|y: int|
                        0 <= y < (#[trigger] buckets@[kk])@.len() ==> (#[trigger] buckets@[kk]@[
                            y
                        ] as int) < base),
                base == entry.arena@.len(),
                self.arena@.len() == base + labels_from(ps, 0).len() - labels_from(
                    ps,
                    k as int,
                ).len(),
                children@.len() == labels_from(ps, 0).len() - labels_from(ps, k as int).len(),
                forall|x2: int|
                    0 <= x2 < children@.len() ==> #[trigger] children@[x2] == base + x2,
                forall|x2: int|
                    0 <= x2 < children@.len() ==> label_node_ok(
                        #[trigger] self.arena@[base + x2],
                        bucket_of(ps, labels_from(ps, 0)[x2]),
                        labels_from(ps, 0)[x2],
                    ),
                labels_from(ps, 0).subrange(
                    0,
                    labels_from(ps, 0).len() - labels_from(ps, k as int).len(),
                ) =~= labels_from(ps, 0).subrange(
                    0,
                    labels_from(ps, 0).len() - labels_from(ps, k as int).len(),
                ),
                labels_from(ps, 0) =~= labels_from(ps, 0).subrange(
                    0,
                    labels_from(ps, 0).len() - labels_from(ps, k as int).len(),
                ) + labels_from(ps, k as int),
            decreases 5 - k,
        {
            let bucket_len = buckets[k].len();
            if bucket_len > 0 {
                let mut ids: Vec<NodeId> = Vec::new();
                let mut y: usize = 0;
                while y < bucket_len
                    invariant
                        y <= bucket_len,
                        k < 5,
                        buckets@.len() == 5,
                        bucket_len == buckets@[k as int]@.len(),
                        ids@ == buckets@[k as int]@.subrange(0, y as int),
                    decreases bucket_len - y,
                {
                    ids.push(buckets[k][y]);
                    proof {
                        assert(buckets@[k as int]@.subrange(0, y as int + 1) =~= buckets@[
                            k as int
                        ]@.subrange(0, y as int).push(buckets@[k as int]@[y as int]));
                    }
                    y = y + 1;
                }
                proof {
                    assert(ids@ =~= buckets@[k as int]@);
                }
                let mut label_bytes: Vec<u8> = Vec::new();
                label_bytes.push(80);
                label_bytes.push(48 + (k as u8));
                let label = ascii_label(&label_bytes);
                let ghost mid = *self;
                let id = self.alloc_node(
                    Node::Node {
                        binding: None,
                        content: Some(Content::Content(label)),
                        children: ids,
                    },
                );
                children.push(id);
                proof {
                    crate::context::lemma_extends_trans(entry, mid, *self);
                    assert(labels_from(ps, k as int) =~= seq![k as i32] + labels_from(
                        ps,
                        k as int + 1,
                    ));
                    assert(labels_from(ps, 0)[children@.len() - 1] == k as i32);
                }
            } else {
                proof {
                    assert(labels_from(ps, k as int) =~= labels_from(ps, k as int + 1));
                }
            }
            k = k + 1;
        }
        proof {
            assert(labels_from(ps, 5int) =~= Seq::<i32>::empty());
        }
        let ghost mid2 = *self;
        let r = self.alloc_node(Node::Document { children });
        proof {
            crate::context::lemma_extends_trans(entry, mid2, *self);
        }
        r
    }
}

/// Relies on `String::from_utf8`: ASCII bytes decode to exactly one
/// character each, with the same code points.
#[verifier::external_body]
fn ascii_label(bytes: &Vec<u8>) -> (r: String)
    requires
        forall|x: int| 0 <= x < bytes@.len() ==> bytes@[x] < 128,
    ensures
        r@.len() == bytes@.len(),
        forall|x: int| 0 <= x < bytes@.len() ==> r@[x] as int == bytes@[x] as int,
{
    String::from_utf8(bytes.clone()).unwrap()
}

} // verus!
