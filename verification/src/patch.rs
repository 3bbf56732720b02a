//! The reconciler.
//!
//! Replays a finished edit script over the freshly built new snapshot:
//! every new semantic node whose syntax identity was matched by the script
//! gets its creation time carried over from the corresponding old node, and
//! keeps the old modification time exactly when the match proved the
//! content identical; everything else keeps its fresh build-time metadata.
//! Only metadata is ever written, never structure.

use vstd::prelude::*;

use crate::node::{lookup_spec, Context, NodeCursorImmutable, NodeId, NodeMetadata};
use crate::tree_diff::{goal_slot, is_goal_exact, recon_pairs, Op, OpF, UpdateContext};

verus! {

/// Every node's modification time still equals its creation time.
pub open spec fn timestamps_settled(ctx: Context) -> bool {
    forall|k: int|
        0 <= k < ctx.metadata@.len() ==> (#[trigger] ctx.metadata@[k]).created_at
            == ctx.metadata@[k].updated_at
}

/// `m2` is `m1` after a reconciliation write: the identity is untouched,
/// the creation time comes from some old entry, and the modification time
/// is either that entry's or still `m1`'s own.
pub open spec fn reconciled_from(m2: NodeMetadata, m1: NodeMetadata, octx: Context) -> bool {
    &&& m2.ts_node_id == m1.ts_node_id
    &&& exists|j: int|
        0 <= j < octx.metadata@.len() && m2.created_at == (#[trigger] octx.metadata@[j]).created_at
    &&& (m2.updated_at == m1.updated_at || exists|j: int|
        0 <= j < octx.metadata@.len() && m2.updated_at == (
        #[trigger] octx.metadata@[j]).updated_at)
}

/// Reconciliation writes compose: two in a row still read off one snapshot.
proof fn lemma_reconciled_compose(
    m2: NodeMetadata,
    m1: NodeMetadata,
    m0: NodeMetadata,
    octx: Context,
)
    requires
        m2 == m1 || reconciled_from(m2, m1, octx),
        m1 == m0 || reconciled_from(m1, m0, octx),
    ensures
        m2 == m0 || reconciled_from(m2, m0, octx),
{
}

/// The first reconciliation entry for `ts`, scanning from `j` on.
pub open spec fn find_from(pairs: Seq<(usize, Op)>, ts: usize, j: int) -> Option<int>
    decreases pairs.len() - j,
{
    if j < 0 || j >= pairs.len() {
        None
    } else if pairs[j].0 == ts {
        Some(j)
    } else {
        find_from(pairs, ts, j + 1)
    }
}

/// The metadata map after one visited node is reconciled: when the node
/// carries a syntax identity the script matched, both sides of the matched
/// operation are resolved through the two snapshots' identity tables and
/// the old node's metadata is copied onto the resolved new node — the
/// creation time always, the modification time only for an `Exact` match;
/// any other visit changes nothing.
pub open spec fn visit_step(
    md: Seq<NodeMetadata>,
    new_lookup: Seq<(usize, usize)>,
    octx: Context,
    pairs: Seq<(usize, Op)>,
    id: int,
) -> Seq<NodeMetadata> {
    if 0 <= id < md.len() && md[id].ts_node_id is Some {
        let ts = md[id].ts_node_id->0;
        match find_from(pairs, ts, 0) {
            Some(x) => {
                let op = pairs[x].1;
                let p = op.spec_reconciliation();
                if lookup_spec(octx.lookup_by_ts_node_id@, p.0) is Some && lookup_spec(
                    new_lookup,
                    p.1,
                ) is Some {
                    let old_id = lookup_spec(octx.lookup_by_ts_node_id@, p.0)->0 as int;
                    let new_id = lookup_spec(new_lookup, p.1)->0 as int;
                    if 0 <= old_id < octx.metadata@.len() && 0 <= new_id < md.len() {
                        md.update(
                            new_id,
                            NodeMetadata {
                                created_at: octx.metadata@[old_id].created_at,
                                updated_at: if op matches OpF::Exact { .. } {
                                    octx.metadata@[old_id].updated_at
                                } else {
                                    md[new_id].updated_at
                                },
                                ts_node_id: md[new_id].ts_node_id,
                            },
                        )
                    } else {
                        md
                    }
                } else {
                    md
                }
            },
            None => md,
        }
    } else {
        md
    }
}

/// The metadata map after the given nodes are visited in order.
pub open spec fn visit_fold(
    md: Seq<NodeMetadata>,
    new_lookup: Seq<(usize, usize)>,
    octx: Context,
    pairs: Seq<(usize, Op)>,
    order: Seq<usize>,
) -> Seq<NodeMetadata>
    decreases order.len(),
{
    if order.len() == 0 {
        md
    } else {
        visit_step(
            visit_fold(md, new_lookup, octx, pairs, order.drop_last()),
            new_lookup,
            octx,
            pairs,
            order.last() as int,
        )
    }
}

/// Reconciliation never touches a node's syntax identity.
proof fn lemma_visit_fold_ts(
    md: Seq<NodeMetadata>,
    new_lookup: Seq<(usize, usize)>,
    octx: Context,
    pairs: Seq<(usize, Op)>,
    order: Seq<usize>,
)
    ensures
        visit_fold(md, new_lookup, octx, pairs, order).len() == md.len(),
        forall|id: int|
            0 <= id < md.len() ==> (#[trigger] visit_fold(
                md,
                new_lookup,
                octx,
                pairs,
                order,
            )[id]).ts_node_id == md[id].ts_node_id,
    decreases order.len(),
{
    if order.len() > 0 {
        lemma_visit_fold_ts(md, new_lookup, octx, pairs, order.drop_last());
    }
}

/// The metadata map after one aligned pair of a subtree walk is reconciled.
pub open spec fn zip_step(
    md: Seq<NodeMetadata>,
    octx: Context,
    oid: int,
    nid: int,
    should_update_timestamp: bool,
) -> Seq<NodeMetadata> {
    if 0 <= oid < octx.metadata@.len() && 0 <= nid < md.len() {
        md.update(
            nid,
            NodeMetadata {
                created_at: octx.metadata@[oid].created_at,
                updated_at: if should_update_timestamp {
                    md[nid].updated_at
                } else {
                    octx.metadata@[oid].updated_at
                },
                ts_node_id: md[nid].ts_node_id,
            },
        )
    } else {
        md
    }
}

/// The metadata map after the first `n` aligned pairs of two subtree walks
/// are reconciled in order.
pub open spec fn zip_fold(
    md: Seq<NodeMetadata>,
    octx: Context,
    po: Seq<usize>,
    pn: Seq<usize>,
    n: int,
    should_update_timestamp: bool,
) -> Seq<NodeMetadata>
    decreases n,
{
    if n <= 0 {
        md
    } else {
        zip_step(
            zip_fold(md, octx, po, pn, n - 1, should_update_timestamp),
            octx,
            po[n - 1] as int,
            pn[n - 1] as int,
            should_update_timestamp,
        )
    }
}

pub open spec fn min_int(a: int, b: int) -> int {
    if a <= b {
        a
    } else {
        b
    }
}

/// Every lookup hit lands inside the arena.
proof fn lemma_lookup_in_range(entries: Seq<(usize, usize)>, ts: usize, bound: int)
    requires
        forall|x: int| 0 <= x < entries.len() ==> (#[trigger] entries[x]).1 < bound,
        lookup_spec(entries, ts) is Some,
    ensures
        (lookup_spec(entries, ts)->0 as int) < bound,
    decreases entries.len(),
{
    if entries.len() > 0 && entries.last().0 != ts {
        lemma_lookup_in_range(entries.drop_last(), ts, bound);
    }
}

impl Context {
    /// Copies stable metadata from one old node onto one new node: the
    /// creation time always, the modification time unless the caller asks
    /// for a fresh one.
    pub fn reconcile_node(
        context: &mut Context,
        old_context: &Context,
        old_node_id: NodeId,
        new_node_id: NodeId,
        should_update_timestamp: bool,
    )
        requires
            old(context).wf(),
            old_node_id < old_context.metadata@.len(),
            new_node_id < old(context).metadata@.len(),
        ensures
            final(context).wf(),
            final(context).arena@ == old(context).arena@,
            final(context).lookup_by_ts_node_id@ == old(context).lookup_by_ts_node_id@,
            final(context).now == old(context).now,
            final(context).metadata@.len() == old(context).metadata@.len(),
            forall|k: int|
                0 <= k < old(context).metadata@.len() && k != new_node_id ==> final(context).metadata@[k] == old(context).metadata@[k],
            ({
                let om = old_context.metadata@[old_node_id as int];
                let m1 = old(context).metadata@[new_node_id as int];
                let m2 = final(context).metadata@[new_node_id as int];
                &&& m2.ts_node_id == m1.ts_node_id
                &&& m2.created_at == om.created_at
                &&& m2.updated_at == (if should_update_timestamp {
                    m1.updated_at
                } else {
                    om.updated_at
                })
            }),
    {
        let old_metadata = old_context.get_node_metadata(old_node_id).unwrap();
        let new_metadata = context.get_node_metadata(new_node_id).unwrap();
        let mut m = NodeMetadata {
            created_at: old_metadata.created_at,
            updated_at: new_metadata.updated_at,
            ts_node_id: new_metadata.ts_node_id,
        };
        if !should_update_timestamp {
            m.updated_at = old_metadata.updated_at;
        }
        context.metadata[new_node_id] = m;
        proof {
            reveal(crate::node::arena_ok);
        }
    }

    /// Applies one matched operation: resolves both sides' semantic nodes
    /// through the two snapshots' identity tables and copies metadata; the
    /// modification time survives only an `Exact` match.
    pub fn reconcile_node_op(context: &mut Context, old_context: &Context, op: &Op)
        requires
            old(context).wf(),
            old_context.wf(),
            (*op matches OpF::Exact { .. }) || (*op matches OpF::Update { .. }) || (
            *op matches OpF::UpdateScalar { .. }),
            ({
                let p = op.spec_reconciliation();
                &&& lookup_spec(old_context.lookup_by_ts_node_id@, p.0) is Some
                &&& lookup_spec(old(context).lookup_by_ts_node_id@, p.1) is Some
            }),
        ensures
            final(context).wf(),
            final(context).arena@ == old(context).arena@,
            final(context).lookup_by_ts_node_id@ == old(context).lookup_by_ts_node_id@,
            final(context).now == old(context).now,
            final(context).metadata@.len() == old(context).metadata@.len(),
            ({
                let p = op.spec_reconciliation();
                let old_id = lookup_spec(old_context.lookup_by_ts_node_id@, p.0)->0 as int;
                let new_id = lookup_spec(old(context).lookup_by_ts_node_id@, p.1)->0 as int;
                &&& 0 <= old_id < old_context.metadata@.len()
                &&& 0 <= new_id < old(context).metadata@.len()
                &&& final(context).metadata@ == old(context).metadata@.update(
                    new_id,
                    NodeMetadata {
                        created_at: old_context.metadata@[old_id].created_at,
                        updated_at: if *op matches OpF::Exact { .. } {
                            old_context.metadata@[old_id].updated_at
                        } else {
                            old(context).metadata@[new_id].updated_at
                        },
                        ts_node_id: old(context).metadata@[new_id].ts_node_id,
                    },
                )
            }),
            forall|k: int|
                0 <= k < final(context).metadata@.len() ==> (final(context).metadata@[k] == #[trigger] old(context).metadata@[k] || reconciled_from(
                    final(context).metadata@[k],
                    old(context).metadata@[k],
                    *old_context,
                )),
            timestamps_settled(*old_context) && timestamps_settled(*old(context)) && (
            *op matches OpF::Exact { .. }) ==> timestamps_settled(*final(context)),
    {
        let (old_ts, new_ts) = op.reconciliation().unwrap();
        let old_node_id = old_context.lookup(old_ts).unwrap();
        let new_node_id = context.lookup(new_ts).unwrap();
        proof {
            lemma_lookup_in_range(
                old_context.lookup_by_ts_node_id@,
                old_ts,
                old_context.metadata@.len() as int,
            );
            lemma_lookup_in_range(
                context.lookup_by_ts_node_id@,
                new_ts,
                context.metadata@.len() as int,
            );
        }
        let is_exact = match op {
            OpF::Exact { .. } => true,
            _ => false,
        };
        Context::reconcile_node(context, old_context, old_node_id, new_node_id, !is_exact);
        proof {
            assert(context.metadata@ =~= old(context).metadata@.update(
                new_node_id as int,
                context.metadata@[new_node_id as int],
            ));
        }
    }
}

impl OpF<usize> {
    /// The identity pair `reconciliation` returns, for the matched
    /// operations.
    pub open spec fn spec_reconciliation(self) -> (usize, usize) {
        match self {
            OpF::Exact { old, new } => (old, new),
            OpF::Update { old, new } => (old, new),
            OpF::UpdateScalar { old, new } => (old, new),
            _ => (0usize, 0usize),
        }
    }
}

impl Context {
    /// Replays a finished edit script over the new snapshot: walks the new
    /// semantic tree, and for every node whose syntax identity is the new
    /// side of a matched operation, copies metadata from the corresponding
    /// old node — the creation time always, the modification time only when
    /// the match was an `Exact`.  Only an operation's own two nodes are
    /// tied together: a node inside an exactly matched subtree keeps its
    /// fresh build-time metadata unless some operation matched it itself,
    /// and so does every unmatched node.  `visit_fold` states the resulting
    /// metadata map exactly.  When the two trees were equal — the script is
    /// the single root `Exact` — every node's modification time still
    /// equals its creation time afterwards, provided both snapshots were
    /// built fresh.
    pub fn reconcile_changes(
        context: &mut Context,
        update_context: &UpdateContext,
        old_context: &Context,
        new_root_id: NodeId,
    )
        requires
            old(context).wf(),
            old_context.wf(),
            update_context.inv(),
            new_root_id < old(context).arena@.len(),
            update_context.search_cache.map@[goal_slot(
                update_context.update.old_tree,
                update_context.update.new_tree,
            )] is Some,
            ({
                let pairs = recon_pairs(
                    update_context.search_cache.map@[goal_slot(
                        update_context.update.old_tree,
                        update_context.update.new_tree,
                    )]->0.path@,
                );
                let order = crate::node::preorder(old(context).arena@, new_root_id as int);
                forall|v: int|
                    0 <= v < order.len() ==> {
                        let id = (#[trigger] order[v]) as int;
                        (0 <= id < old(context).metadata@.len() && old(
                            context,
                        ).metadata@[id].ts_node_id is Some) ==> (match find_from(
                            pairs,
                            old(context).metadata@[id].ts_node_id->0,
                            0,
                        ) {
                            Some(x) => {
                                let p = pairs[x].1.spec_reconciliation();
                                lookup_spec(old_context.lookup_by_ts_node_id@, p.0) is Some
                                    && lookup_spec(
                                    old(context).lookup_by_ts_node_id@,
                                    p.1,
                                ) is Some
                            },
                            None => true,
                        })
                    }
            }),
        ensures
            final(context).wf(),
            final(context).arena@ == old(context).arena@,
            final(context).lookup_by_ts_node_id@ == old(context).lookup_by_ts_node_id@,
            final(context).now == old(context).now,
            final(context).metadata@.len() == old(context).metadata@.len(),
            final(context).metadata@ == visit_fold(
                old(context).metadata@,
                old(context).lookup_by_ts_node_id@,
                *old_context,
                recon_pairs(
                    update_context.search_cache.map@[goal_slot(
                        update_context.update.old_tree,
                        update_context.update.new_tree,
                    )]->0.path@,
                ),
                crate::node::preorder(old(context).arena@, new_root_id as int),
            ),
            forall|k: int|
                0 <= k < final(context).metadata@.len() ==> (final(context).metadata@[k] == #[trigger] old(context).metadata@[k] || reconciled_from(
                    final(context).metadata@[k],
                    old(context).metadata@[k],
                    *old_context,
                )),
            update_context.update.old_tree == update_context.update.new_tree && timestamps_settled(
                *old_context,
            ) && timestamps_settled(*old(context)) ==> timestamps_settled(*final(context)),
    {
        let ghost entry = *old(context);
        let ghost goal_path = update_context.search_cache.map@[goal_slot(
            update_context.update.old_tree,
            update_context.update.new_tree,
        )]->0.path@;
        let reconciliations = update_context.get_root_diff_reconciliations_by_target_node()
            .unwrap();
        proof {
            crate::tree_diff::lemma_goal_slot_bounds(
                update_context.update.old_tree,
                update_context.update.new_tree,
            );
            if update_context.update.old_tree == update_context.update.new_tree {
                assert(is_goal_exact(
                    update_context.search_cache.map@[goal_slot(
                        update_context.update.old_tree,
                        update_context.update.new_tree,
                    )]->0,
                ));
                assert(goal_path =~= seq![OpF::Exact { old: 0usize, new: 0usize }]);
                assert(goal_path.drop_last() == Seq::<Op>::empty());
                assert(recon_pairs(Seq::<Op>::empty()) =~= Seq::<(usize, Op)>::empty());
                assert(goal_path.last() == (OpF::Exact { old: 0usize, new: 0usize }));
                assert(recon_pairs(goal_path) =~= seq![
                    (0usize, OpF::Exact { old: 0usize, new: 0usize }),
                ]);
            }
        }
        let mut cursor = NodeCursorImmutable::new(context, new_root_id);
        let ghost order = cursor.order@;
        loop
            invariant_except_break
                order == crate::node::preorder(entry.arena@, new_root_id as int),
                cursor.order@ == order,
                cursor.pos <= order.len(),
                context.metadata@ == visit_fold(
                    entry.metadata@,
                    entry.lookup_by_ts_node_id@,
                    *old_context,
                    recon_pairs(goal_path),
                    order.subrange(0, cursor.pos as int),
                ),
                context.wf(),
                old_context.wf(),
                context.arena@ == entry.arena@,
                context.lookup_by_ts_node_id@ == entry.lookup_by_ts_node_id@,
                context.now == entry.now,
                context.metadata@.len() == entry.metadata@.len(),
                reconciliations@ == recon_pairs(goal_path),
                update_context.update.old_tree == update_context.update.new_tree ==> recon_pairs(
                    goal_path,
                ) =~= seq![(0usize, OpF::Exact { old: 0usize, new: 0usize })],
                forall|v: int|
                    0 <= v < order.len() ==> {
                        let id = (#[trigger] order[v]) as int;
                        (0 <= id < entry.metadata@.len() && entry.metadata@[id].ts_node_id is Some)
                            ==> (match find_from(
                            recon_pairs(goal_path),
                            entry.metadata@[id].ts_node_id->0,
                            0,
                        ) {
                            Some(x) => {
                                let p = recon_pairs(goal_path)[x].1.spec_reconciliation();
                                lookup_spec(old_context.lookup_by_ts_node_id@, p.0) is Some
                                    && lookup_spec(entry.lookup_by_ts_node_id@, p.1) is Some
                            },
                            None => true,
                        })
                    },
                forall|k: int|
                    0 <= k < context.metadata@.len() ==> (context.metadata@[k]
                        == #[trigger] entry.metadata@[k] || reconciled_from(
                        context.metadata@[k],
                        entry.metadata@[k],
                        *old_context,
                    )),
                update_context.update.old_tree == update_context.update.new_tree
                    && timestamps_settled(*old_context) && timestamps_settled(entry)
                    ==> timestamps_settled(*context),
            ensures
                context.wf(),
                context.arena@ == entry.arena@,
                context.lookup_by_ts_node_id@ == entry.lookup_by_ts_node_id@,
                context.now == entry.now,
                context.metadata@.len() == entry.metadata@.len(),
                context.metadata@ == visit_fold(
                    entry.metadata@,
                    entry.lookup_by_ts_node_id@,
                    *old_context,
                    recon_pairs(goal_path),
                    order,
                ),
                forall|k: int|
                    0 <= k < context.metadata@.len() ==> (context.metadata@[k]
                        == #[trigger] entry.metadata@[k] || reconciled_from(
                        context.metadata@[k],
                        entry.metadata@[k],
                        *old_context,
                    )),
                update_context.update.old_tree == update_context.update.new_tree
                    && timestamps_settled(*old_context) && timestamps_settled(entry)
                    ==> timestamps_settled(*context),
            decreases cursor.order@.len() - cursor.pos,
        {
            let ghost pos0 = cursor.pos as int;
            let ghost md_pre = context.metadata@;
            let node_id = match cursor.next() {
                Some(id) => id,
                None => {
                    proof {
                        assert(order.subrange(0, pos0) =~= order);
                    }
                    break ;
                },
            };
            proof {
                assert(node_id == order[pos0]);
                assert(order.subrange(0, pos0 + 1).drop_last() =~= order.subrange(0, pos0));
                assert(order.subrange(0, pos0 + 1).last() == order[pos0]);
            }
            let ts = context.get_ts_node_id(node_id);
            match ts {
                Some(ts_id) => {
                    match find_pair(&reconciliations, ts_id) {
                        Some(x) => {
                            proof {
                                assert(find_from(recon_pairs(goal_path), ts_id, 0) == Some(
                                    x as int,
                                ));
                                lemma_visit_fold_ts(
                                    entry.metadata@,
                                    entry.lookup_by_ts_node_id@,
                                    *old_context,
                                    recon_pairs(goal_path),
                                    order.subrange(0, pos0),
                                );
                                assert(context.metadata@[node_id as int].ts_node_id
                                    == entry.metadata@[node_id as int].ts_node_id);
                            }
                            let op = reconciliations[x].1;
                            proof {
                                assert(recon_pairs(goal_path)[x as int].1 == op);
                                lemma_recon_pairs_matched(goal_path, x as int);
                                if update_context.update.old_tree
                                    == update_context.update.new_tree {
                                    assert(recon_pairs(goal_path).len() == 1);
                                    assert(op == OpF::Exact { old: 0usize, new: 0usize });
                                }
                            }
                            let ghost pre = *context;
                            Context::reconcile_node_op(context, old_context, &op);
                            proof {
                                assert forall|k: int|
                                    0 <= k < context.metadata@.len() implies (context.metadata@[k]
                                    == #[trigger] entry.metadata@[k] || reconciled_from(
                                    context.metadata@[k],
                                    entry.metadata@[k],
                                    *old_context,
                                )) by {
                                    lemma_reconciled_compose(
                                        context.metadata@[k],
                                        pre.metadata@[k],
                                        entry.metadata@[k],
                                        *old_context,
                                    );
                                }
                                assert(context.metadata@ =~= visit_step(
                                    md_pre,
                                    entry.lookup_by_ts_node_id@,
                                    *old_context,
                                    recon_pairs(goal_path),
                                    node_id as int,
                                ));
                            }
                        },
                        None => {
                            proof {
                                assert(context.metadata@ =~= visit_step(
                                    md_pre,
                                    entry.lookup_by_ts_node_id@,
                                    *old_context,
                                    recon_pairs(goal_path),
                                    node_id as int,
                                ));
                            }
                        },
                    }
                },
                None => {
                    proof {
                        assert(context.metadata@ =~= visit_step(
                            md_pre,
                            entry.lookup_by_ts_node_id@,
                            *old_context,
                            recon_pairs(goal_path),
                            node_id as int,
                        ));
                    }
                },
            }
        }
    }
}

impl Context {
    /// Copies metadata pairwise over two matched subtrees: the old and the
    /// new subtree are walked in pre-order and each aligned pair of nodes
    /// reconciled, the shorter walk bounding the pairing.
    pub fn reconcile_tree(
        context: &mut Context,
        old_context: &Context,
        old_node_id: NodeId,
        new_node_id: NodeId,
        should_update_timestamp: bool,
    )
        requires
            old(context).wf(),
            old_context.wf(),
            old_node_id < old_context.arena@.len(),
            new_node_id < old(context).arena@.len(),
        ensures
            final(context).wf(),
            final(context).arena@ == old(context).arena@,
            final(context).lookup_by_ts_node_id@ == old(context).lookup_by_ts_node_id@,
            final(context).now == old(context).now,
            final(context).metadata@.len() == old(context).metadata@.len(),
            final(context).metadata@ == zip_fold(
                old(context).metadata@,
                *old_context,
                crate::node::preorder(old_context.arena@, old_node_id as int),
                crate::node::preorder(old(context).arena@, new_node_id as int),
                min_int(
                    crate::node::preorder(old_context.arena@, old_node_id as int).len() as int,
                    crate::node::preorder(old(context).arena@, new_node_id as int).len() as int,
                ),
                should_update_timestamp,
            ),
            forall|k: int|
                0 <= k < final(context).metadata@.len() ==> (final(context).metadata@[k]
                    == #[trigger] old(context).metadata@[k] || reconciled_from(
                    final(context).metadata@[k],
                    old(context).metadata@[k],
                    *old_context,
                )),
            !should_update_timestamp && timestamps_settled(*old_context) && timestamps_settled(
                *old(context),
            ) ==> timestamps_settled(*final(context)),
    {
        let ghost entry = *old(context);
        let mut old_cursor = NodeCursorImmutable::new(old_context, old_node_id);
        let mut new_cursor = NodeCursorImmutable::new(context, new_node_id);
        let ghost po = old_cursor.order@;
        let ghost pn = new_cursor.order@;
        loop
            invariant_except_break
                po == crate::node::preorder(old_context.arena@, old_node_id as int),
                pn == crate::node::preorder(entry.arena@, new_node_id as int),
                old_cursor.order@ == po,
                new_cursor.order@ == pn,
                old_cursor.pos == new_cursor.pos,
                old_cursor.pos <= po.len(),
                new_cursor.pos <= pn.len(),
                context.metadata@ == zip_fold(
                    entry.metadata@,
                    *old_context,
                    po,
                    pn,
                    old_cursor.pos as int,
                    should_update_timestamp,
                ),
                context.wf(),
                old_context.wf(),
                context.arena@ == entry.arena@,
                context.lookup_by_ts_node_id@ == entry.lookup_by_ts_node_id@,
                context.now == entry.now,
                context.metadata@.len() == entry.metadata@.len(),
                forall|k: int|
                    0 <= k < context.metadata@.len() ==> (context.metadata@[k]
                        == #[trigger] entry.metadata@[k] || reconciled_from(
                        context.metadata@[k],
                        entry.metadata@[k],
                        *old_context,
                    )),
                !should_update_timestamp && timestamps_settled(*old_context)
                    && timestamps_settled(entry) ==> timestamps_settled(*context),
            ensures
                context.wf(),
                context.arena@ == entry.arena@,
                context.lookup_by_ts_node_id@ == entry.lookup_by_ts_node_id@,
                context.now == entry.now,
                context.metadata@.len() == entry.metadata@.len(),
                context.metadata@ == zip_fold(
                    entry.metadata@,
                    *old_context,
                    po,
                    pn,
                    min_int(po.len() as int, pn.len() as int),
                    should_update_timestamp,
                ),
                forall|k: int|
                    0 <= k < context.metadata@.len() ==> (context.metadata@[k]
                        == #[trigger] entry.metadata@[k] || reconciled_from(
                        context.metadata@[k],
                        entry.metadata@[k],
                        *old_context,
                    )),
                !should_update_timestamp && timestamps_settled(*old_context)
                    && timestamps_settled(entry) ==> timestamps_settled(*context),
            decreases old_cursor.order@.len() - old_cursor.pos,
        {
            let ghost k0 = old_cursor.pos as int;
            let ghost md_pre = context.metadata@;
            let old_id = match old_cursor.next() {
                Some(id) => id,
                None => {
                    proof {
                        assert(k0 == po.len());
                        assert(min_int(po.len() as int, pn.len() as int) == k0);
                    }
                    break ;
                },
            };
            let new_id = match new_cursor.next() {
                Some(id) => id,
                None => {
                    proof {
                        assert(k0 == pn.len());
                        assert(min_int(po.len() as int, pn.len() as int) == k0);
                    }
                    break ;
                },
            };
            proof {
                assert(old_id == po[k0] && new_id == pn[k0]);
            }
            if old_id < old_context.metadata.len() && new_id < context.metadata.len() {
                let ghost pre = *context;
                Context::reconcile_node(
                    context,
                    old_context,
                    old_id,
                    new_id,
                    should_update_timestamp,
                );
                proof {
                    assert forall|k: int| 0 <= k < context.metadata@.len() implies (
                    context.metadata@[k] == #[trigger] entry.metadata@[k] || reconciled_from(
                        context.metadata@[k],
                        entry.metadata@[k],
                        *old_context,
                    )) by {
                        lemma_reconciled_compose(
                            context.metadata@[k],
                            pre.metadata@[k],
                            entry.metadata@[k],
                            *old_context,
                        );
                    }
                }
            }
            proof {
                assert(context.metadata@ =~= zip_step(
                    md_pre,
                    *old_context,
                    po[k0] as int,
                    pn[k0] as int,
                    should_update_timestamp,
                ));
            }
        }
    }
}

/// Every entry of `recon_pairs` carries a matched operation.
proof fn lemma_recon_pairs_matched(path: Seq<Op>, x: int)
    requires
        0 <= x < recon_pairs(path).len(),
    ensures
        (recon_pairs(path)[x].1 matches OpF::Exact { .. }) || (recon_pairs(path)[x].1 matches OpF::Update { .. })
            || (recon_pairs(path)[x].1 matches OpF::UpdateScalar { .. }),
        recon_pairs(path)[x].0 == recon_pairs(path)[x].1.spec_reconciliation().1,
    decreases path.len(),
{
    if path.len() > 0 {
        let tail = recon_pairs(path.drop_last());
        if x < tail.len() {
            lemma_recon_pairs_matched(path.drop_last(), x);
        }
    }
}

/// The first reconciliation entry for the given new-side identity, if any.
fn find_pair(pairs: &Vec<(usize, Op)>, ts: usize) -> (r: Option<usize>)
    ensures
        r is Some <==> find_from(pairs@, ts, 0) is Some,
        r is Some ==> {
            &&& r->0 < pairs@.len()
            &&& r->0 as int == find_from(pairs@, ts, 0)->0
            &&& pairs@[r->0 as int].0 == ts
        },
        r is None ==> forall|x: int| 0 <= x < pairs@.len() ==> (#[trigger] pairs@[x]).0 != ts,
{
    let mut x: usize = 0;
    while x < pairs.len()
        invariant
            x <= pairs@.len(),
            forall|y: int| 0 <= y < x ==> (#[trigger] pairs@[y]).0 != ts,
            find_from(pairs@, ts, 0) == find_from(pairs@, ts, x as int),
        decreases pairs@.len() - x,
    {
        if pairs[x].0 == ts {
            return Some(x);
        }
        x = x + 1;
    }
    None
}

} // verus!
