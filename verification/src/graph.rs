//! The global graph and the instruction stream that mutates it.
//!
//! Reconciliation never touches the maps directly: diffing a path produces
//! [`GraphUpdate`] instructions, and the graph applies them in two stages:
//! map mutations first (path nodes entering and leaving, node ids entering
//! and leaving the global map), then node mutations (backlinks and
//! connection checks), exactly as a batch.

use crate::config::Config;
use crate::keymap::{KeyMap, KeySet, Stored};
use crate::patch::GraphPatch;
use crate::path_node::PathNode;
use vstd::prelude::*;

verus! {

/// An update to be made to the graph.
pub enum GraphUpdate {
    /// The provided path node should be added to the graph. This does not
    /// include any instructions regarding its constituent nodes.
    CreatePathNode(PathNode),
    /// The path node with the provided path should be replaced by the new
    /// node.
    ModifyPathNode { path: String, new_node: PathNode },
    /// The path node with the provided path should be deleted.
    DeletePathNode(String),
    /// The node should enter the global node map. Previously invalid
    /// connections to it become connection checks; its path is scheduled for
    /// a write-back so any synthesised id is persisted.
    AddNode { id: u128, path: String },
    /// The node should leave the global node map; its connections are
    /// handled by separate instructions.
    RemoveNode(u128),
    /// The node should be added to the named index.
    AddNodeToIndex { id: u128, path: String, index: String },
    /// The node should be removed from the named index.
    RemoveNodeFromIndex { id: u128, index: String },
    /// The backlink from `from`, found on `on`, should be removed.
    RemoveBacklink { on: u128, from: u128 },
    /// The record that `from` holds an invalid connection to `to` should be
    /// removed from the invalid-connection index.
    RemoveInvalidConnection { from: u128, to: u128 },
    /// Whether the connection from `from` to `to` is valid should be
    /// checked: valid connections gain a backlink and a refreshed title;
    /// invalid ones are recorded in the invalid-connection index.
    CheckConnection { from: u128, to: u128 },
}

pub enum GraphUpdateV {
    CreatePathNode(crate::path_node::PathNodeV),
    ModifyPathNode { path: Seq<char>, new_node: crate::path_node::PathNodeV },
    DeletePathNode(Seq<char>),
    AddNode { id: u128, path: Seq<char> },
    RemoveNode(u128),
    AddNodeToIndex { id: u128, path: Seq<char>, index: Seq<char> },
    RemoveNodeFromIndex { id: u128, index: Seq<char> },
    RemoveBacklink { on: u128, from: u128 },
    RemoveInvalidConnection { from: u128, to: u128 },
    CheckConnection { from: u128, to: u128 },
}

impl View for GraphUpdate {
    type V = GraphUpdateV;

    open spec fn view(&self) -> GraphUpdateV {
        match self {
            GraphUpdate::CreatePathNode(pn) => GraphUpdateV::CreatePathNode(pn@),
            GraphUpdate::ModifyPathNode { path, new_node } => GraphUpdateV::ModifyPathNode {
                path: path@,
                new_node: new_node@,
            },
            GraphUpdate::DeletePathNode(p) => GraphUpdateV::DeletePathNode(p@),
            GraphUpdate::AddNode { id, path } => GraphUpdateV::AddNode { id: *id, path: path@ },
            GraphUpdate::RemoveNode(id) => GraphUpdateV::RemoveNode(*id),
            GraphUpdate::AddNodeToIndex { id, path, index } => GraphUpdateV::AddNodeToIndex {
                id: *id,
                path: path@,
                index: index@,
            },
            GraphUpdate::RemoveNodeFromIndex { id, index } => GraphUpdateV::RemoveNodeFromIndex {
                id: *id,
                index: index@,
            },
            GraphUpdate::RemoveBacklink { on, from } => GraphUpdateV::RemoveBacklink {
                on: *on,
                from: *from,
            },
            GraphUpdate::RemoveInvalidConnection { from, to } => {
                GraphUpdateV::RemoveInvalidConnection { from: *from, to: *to }
            },
            GraphUpdate::CheckConnection { from, to } => GraphUpdateV::CheckConnection {
                from: *from,
                to: *to,
            },
        }
    }
}

impl GraphUpdate {
    pub fn duplicate(&self) -> (r: Self)
        requires
            self.inv(),
        ensures
            r@ == self@,
            r.inv(),
    {
        match self {
            GraphUpdate::CreatePathNode(pn) => GraphUpdate::CreatePathNode(pn.duplicate()),
            GraphUpdate::ModifyPathNode { path, new_node } => GraphUpdate::ModifyPathNode {
                path: path.clone(),
                new_node: new_node.duplicate(),
            },
            GraphUpdate::DeletePathNode(p) => GraphUpdate::DeletePathNode(p.clone()),
            GraphUpdate::AddNode { id, path } => GraphUpdate::AddNode {
                id: *id,
                path: path.clone(),
            },
            GraphUpdate::RemoveNode(id) => GraphUpdate::RemoveNode(*id),
            GraphUpdate::AddNodeToIndex { id, path, index } => GraphUpdate::AddNodeToIndex {
                id: *id,
                path: path.clone(),
                index: index.clone(),
            },
            GraphUpdate::RemoveNodeFromIndex { id, index } => GraphUpdate::RemoveNodeFromIndex {
                id: *id,
                index: index.clone(),
            },
            GraphUpdate::RemoveBacklink { on, from } => GraphUpdate::RemoveBacklink {
                on: *on,
                from: *from,
            },
            GraphUpdate::RemoveInvalidConnection { from, to } => {
                GraphUpdate::RemoveInvalidConnection { from: *from, to: *to }
            },
            GraphUpdate::CheckConnection { from, to } => GraphUpdate::CheckConnection {
                from: *from,
                to: *to,
            },
        }
    }

    /// The payload of a path-node instruction is well-formed.
    pub open spec fn inv(&self) -> bool {
        match self {
            GraphUpdate::CreatePathNode(pn) => pn.inv(),
            GraphUpdate::ModifyPathNode { new_node, .. } => new_node.inv(),
            _ => true,
        }
    }
}

/// The views of a sequence of updates.
pub open spec fn ups_view(s: Seq<GraphUpdate>) -> Seq<GraphUpdateV> {
    s.map_values(|u: GraphUpdate| u@)
}

/// A corrective write: the path to rewrite and the document to serialise
/// into it.
pub struct DocumentWrite {
    pub path: String,
    pub document: crate::document::StarlingDocument,
}

/// The graph's mathematical state: the global maps, plus the set of paths
/// scheduled for a corrective write during the current batch.
#[verifier::ext_equal]
pub struct GraphStateV {
    pub nodes: Map<u128, Seq<char>>,
    pub indices: Map<Seq<char>, Map<u128, Seq<char>>>,
    pub paths: Map<Seq<char>, crate::path_node::PathNodeV>,
    pub ic: Map<u128, Seq<u128>>,
    pub pending: Set<Seq<char>>,
}

/// Instructions applied in stage two, under per-path locks in the
/// concurrent setting: everything that touches node records.
pub open spec fn is_stage2(u: GraphUpdateV) -> bool {
    match u {
        GraphUpdateV::RemoveBacklink { .. } => true,
        GraphUpdateV::CheckConnection { .. } => true,
        _ => false,
    }
}

pub open spec fn stage1_of(us: Seq<GraphUpdateV>) -> Seq<GraphUpdateV>
    decreases us.len(),
{
    if us.len() == 0 {
        Seq::empty()
    } else if is_stage2(us[0]) {
        stage1_of(us.drop_first())
    } else {
        seq![us[0]] + stage1_of(us.drop_first())
    }
}

pub open spec fn stage2_of(us: Seq<GraphUpdateV>) -> Seq<GraphUpdateV>
    decreases us.len(),
{
    if us.len() == 0 {
        Seq::empty()
    } else if is_stage2(us[0]) {
        seq![us[0]] + stage2_of(us.drop_first())
    } else {
        stage2_of(us.drop_first())
    }
}

/// The connection checks produced by validating previously invalid
/// references to a newly added node; self-references stay invalid.
pub open spec fn extras_of(referrers: Seq<u128>, id: u128) -> Seq<GraphUpdateV>
    decreases referrers.len(),
{
    if referrers.len() == 0 {
        Seq::empty()
    } else if referrers[0] == id {
        extras_of(referrers.drop_first(), id)
    } else {
        seq![(GraphUpdateV::CheckConnection { from: referrers[0], to: id })] + extras_of(
            referrers.drop_first(),
            id,
        )
    }
}

/// The sequence with the first occurrence of `x` removed.
pub open spec fn seq_remove_val(s: Seq<u128>, x: u128) -> Seq<u128>
    decreases s.len(),
{
    if s.len() == 0 {
        Seq::empty()
    } else if s[0] == x {
        s.drop_first()
    } else {
        seq![s[0]] + seq_remove_val(s.drop_first(), x)
    }
}

/// Recording an invalid connection: `from` joins the referrers of `to`,
/// once.
pub open spec fn ic_record(m: Map<u128, Seq<u128>>, to: u128, from: u128) -> Map<
    u128,
    Seq<u128>,
> {
    if m.dom().contains(to) {
        if m[to].contains(from) {
            m
        } else {
            m.insert(to, m[to].push(from))
        }
    } else {
        m.insert(to, seq![from])
    }
}

/// A path node with a backlink added on node `on`.
pub open spec fn pn_add_backlink(
    pn: crate::path_node::PathNodeV,
    on: u128,
    from: u128,
) -> crate::path_node::PathNodeV {
    match pn.document {
        Some(od) => crate::path_node::PathNodeV {
            document: Some(
                (crate::connection::ConnectedDocumentV {
                    root: (crate::connection::ConnectedNodeV {
                        node: od.root.node,
                        map: if od.root.map.dom().contains(on) {
                            od.root.map.insert(
                                on,
                                (crate::connection::SingleConnectedNodeV {
                                    backlinks: od.root.map[on].backlinks.insert(from),
                                    ..od.root.map[on]
                                }),
                            )
                        } else {
                            od.root.map
                        },
                    }),
                    attributes: od.attributes,
                }),
            ),
            ..pn
        },
        None => pn,
    }
}

/// A path node with the backlink from `from` removed on node `on`.
pub open spec fn pn_remove_backlink(
    pn: crate::path_node::PathNodeV,
    on: u128,
    from: u128,
) -> crate::path_node::PathNodeV {
    match pn.document {
        Some(od) => crate::path_node::PathNodeV {
            document: Some(
                (crate::connection::ConnectedDocumentV {
                    root: (crate::connection::ConnectedNodeV {
                        node: od.root.node,
                        map: if od.root.map.dom().contains(on) {
                            od.root.map.insert(
                                on,
                                (crate::connection::SingleConnectedNodeV {
                                    backlinks: od.root.map[on].backlinks.remove(from),
                                    ..od.root.map[on]
                                }),
                            )
                        } else {
                            od.root.map
                        },
                    }),
                    attributes: od.attributes,
                }),
            ),
            ..pn
        },
        None => pn,
    }
}

/// A path node with the connection from `on` to `to` marked invalid.
pub open spec fn pn_invalidate(
    pn: crate::path_node::PathNodeV,
    on: u128,
    to: u128,
) -> crate::path_node::PathNodeV {
    match pn.document {
        Some(od) => crate::path_node::PathNodeV {
            document: Some(
                (crate::connection::ConnectedDocumentV {
                    root: (crate::connection::ConnectedNodeV {
                        node: od.root.node,
                        map: if od.root.map.dom().contains(on) {
                            od.root.map.insert(
                                on,
                                (crate::connection::SingleConnectedNodeV {
                                    connections: if od.root.map[on].connections.dom().contains(
                                        to,
                                    ) {
                                        od.root.map[on].connections.insert(
                                            to,
                                            (crate::connection::ParallelConnectionsV {
                                                valid: false,
                                                variants:
                                                    od.root.map[on].connections[to].variants,
                                            }),
                                        )
                                    } else {
                                        od.root.map[on].connections
                                    },
                                    ..od.root.map[on]
                                }),
                            )
                        } else {
                            od.root.map
                        },
                    }),
                    attributes: od.attributes,
                }),
            ),
            ..pn
        },
        None => pn,
    }
}

/// A path node with the connection from `from` to `to` validated and its
/// variant titles overwritten by `title`.
pub open spec fn pn_validate(
    pn: crate::path_node::PathNodeV,
    from: u128,
    to: u128,
    title: Seq<char>,
) -> crate::path_node::PathNodeV {
    match pn.document {
        Some(od) => crate::path_node::PathNodeV {
            document: Some(
                (crate::connection::ConnectedDocumentV {
                    root: (crate::connection::ConnectedNodeV {
                        node: od.root.node,
                        map: if od.root.map.dom().contains(from) {
                            od.root.map.insert(
                                from,
                                (crate::connection::SingleConnectedNodeV {
                                    connections: if od.root.map[from].connections.dom().contains(
                                        to,
                                    ) {
                                        od.root.map[from].connections.insert(
                                            to,
                                            (crate::connection::ParallelConnectionsV {
                                                valid: true,
                                                variants: Seq::new(
                                                    od.root.map[from].connections[
                                                        to
                                                    ].variants.len(),
                                                    |i: int|
                                                        crate::connection::ConnectionV {
                                                            ty: od.root.map[from].connections[
                                                                to
                                                            ].variants[i].ty,
                                                            title: title,
                                                        },
                                                ),
                                            }),
                                        )
                                    } else {
                                        od.root.map[from].connections
                                    },
                                    ..od.root.map[from]
                                }),
                            )
                        } else {
                            od.root.map
                        },
                    }),
                    attributes: od.attributes,
                }),
            ),
            ..pn
        },
        None => pn,
    }
}

/// The rendered title of node `id` within a path node, if its document
/// holds it.
pub open spec fn pn_display_title(
    pn: crate::path_node::PathNodeV,
    id: u128,
    fmt: crate::document::Format,
) -> Option<Seq<char>> {
    match pn.document {
        Some(d) => if d.root.map.dom().contains(id) {
            Some(
                crate::connection::spec_render(
                    d.root.map[id].title,
                    d.root.map[id].connections,
                    fmt,
                ),
            )
        } else {
            None
        },
        None => None,
    }
}

/// One stage-one instruction applied to the state, with the extra stage-two
/// checks it spawns.
pub open spec fn spec_s1(st: GraphStateV, u: GraphUpdateV) -> (GraphStateV, Seq<GraphUpdateV>) {
    match u {
        GraphUpdateV::CreatePathNode(pn) => (
            GraphStateV { paths: st.paths.insert(pn.path, pn), ..st },
            Seq::empty(),
        ),
        GraphUpdateV::ModifyPathNode { path, new_node } => (
            GraphStateV { paths: st.paths.insert(path, new_node), ..st },
            Seq::empty(),
        ),
        GraphUpdateV::DeletePathNode(p) => (
            GraphStateV { paths: st.paths.remove(p), ..st },
            Seq::empty(),
        ),
        GraphUpdateV::AddNode { id, path } => {
            let base = GraphStateV {
                nodes: st.nodes.insert(id, path),
                pending: st.pending.insert(path),
                ..st
            };
            if st.ic.dom().contains(id) {
                let referrers = st.ic[id];
                let st2 = if referrers.contains(id) {
                    GraphStateV { ic: base.ic.remove(id).insert(id, seq![id]), ..base }
                } else {
                    GraphStateV { ic: base.ic.remove(id), ..base }
                };
                (st2, extras_of(referrers, id))
            } else {
                (base, Seq::empty())
            }
        },
        GraphUpdateV::RemoveNode(id) => (
            GraphStateV { nodes: st.nodes.remove(id), ..st },
            Seq::empty(),
        ),
        GraphUpdateV::AddNodeToIndex { id, path, index } => (
            if st.indices.dom().contains(index) {
                GraphStateV {
                    indices: st.indices.insert(index, st.indices[index].insert(id, path)),
                    ..st
                }
            } else {
                st
            },
            Seq::empty(),
        ),
        GraphUpdateV::RemoveNodeFromIndex { id, index } => (
            if st.indices.dom().contains(index) {
                GraphStateV {
                    indices: st.indices.insert(index, st.indices[index].remove(id)),
                    ..st
                }
            } else {
                st
            },
            Seq::empty(),
        ),
        GraphUpdateV::RemoveInvalidConnection { from, to } => (
            if st.ic.dom().contains(to) {
                let rest = seq_remove_val(st.ic[to], from);
                if rest.len() == 0 {
                    GraphStateV { ic: st.ic.remove(to), ..st }
                } else {
                    GraphStateV { ic: st.ic.insert(to, rest), ..st }
                }
            } else {
                st
            },
            Seq::empty(),
        ),
        _ => (st, Seq::empty()),
    }
}

pub open spec fn spec_s1_all(st: GraphStateV, us: Seq<GraphUpdateV>) -> (
    GraphStateV,
    Seq<GraphUpdateV>,
)
    decreases us.len(),
{
    if us.len() == 0 {
        (st, Seq::empty())
    } else {
        let (st1, ex1) = spec_s1(st, us[0]);
        let (st2, ex2) = spec_s1_all(st1, us.drop_first());
        (st2, ex1 + ex2)
    }
}

/// One stage-two instruction applied to the state.
pub open spec fn spec_s2(st: GraphStateV, u: GraphUpdateV) -> GraphStateV {
    match u {
        GraphUpdateV::RemoveBacklink { on, from } => {
            if st.nodes.dom().contains(on) && st.paths.dom().contains(st.nodes[on]) {
                let p = st.nodes[on];
                GraphStateV {
                    paths: st.paths.insert(p, pn_remove_backlink(st.paths[p], on, from)),
                    ..st
                }
            } else {
                st
            }
        },
        GraphUpdateV::CheckConnection { from, to } => {
            if st.nodes.dom().contains(from) && st.paths.dom().contains(st.nodes[from]) {
                if from != to && st.nodes.dom().contains(to) && st.paths.dom().contains(
                    st.nodes[to],
                ) {
                    let p_to = st.nodes[to];
                    let p_from = st.nodes[from];
                    let fmt = crate::path_node::spec_format_of(p_from);
                    match pn_display_title(st.paths[p_to], to, fmt) {
                        Some(title) => {
                            let st1 = GraphStateV {
                                paths: st.paths.insert(
                                    p_to,
                                    pn_add_backlink(st.paths[p_to], to, from),
                                ),
                                ..st
                            };
                            GraphStateV {
                                paths: st1.paths.insert(
                                    p_from,
                                    pn_validate(st1.paths[p_from], from, to, title),
                                ),
                                pending: st1.pending.insert(p_from),
                                ..st1
                            }
                        },
                        None => st,
                    }
                } else if from == to || !st.nodes.dom().contains(to) {
                    // The target is unknown, or the link is a self-reference:
                    // mark the connection invalid and record it.
                    let p_from = st.nodes[from];
                    GraphStateV {
                        paths: st.paths.insert(p_from, pn_invalidate(st.paths[p_from], from, to)),
                        ic: ic_record(st.ic, to, from),
                        ..st
                    }
                } else {
                    st
                }
            } else {
                st
            }
        },
        _ => st,
    }
}

pub open spec fn spec_s2_all(st: GraphStateV, us: Seq<GraphUpdateV>) -> GraphStateV
    decreases us.len(),
{
    if us.len() == 0 {
        st
    } else {
        spec_s2_all(spec_s2(st, us[0]), us.drop_first())
    }
}

/// The effect of a whole batch: stage one over its stage-one instructions,
/// then stage two over its stage-two instructions and the spawned checks.
pub open spec fn spec_batch(st: GraphStateV, us: Seq<GraphUpdateV>) -> GraphStateV {
    let (st1, extras) = spec_s1_all(st, stage1_of(us));
    spec_s2_all(st1, stage2_of(us) + extras)
}

/// The node and path maps agree: every live id's entry points at a tracked
/// path whose record carries that id, and every id of every parsed document
/// is live and points back at its path. This is the resting shape the
/// reconciliation pipeline maintains batch by batch; it holds of the empty
/// graph, and [`lemma_new_graph_inv`] anchors it there.
pub open spec fn inv_maps(st: GraphStateV) -> bool {
    &&& (forall|id: u128| #[trigger]
        st.nodes.dom().contains(id) ==> st.paths.dom().contains(st.nodes[id]) && st.paths[
            st.nodes[id]
        ].node_ids.contains(id))
    &&& (forall|p: Seq<char>, id: u128|
        #![trigger st.paths[p].node_ids.contains(id)]
        st.paths.dom().contains(p) && st.paths[p].node_ids.contains(id)
            ==> st.nodes.dom().contains(id) && st.nodes[id] == p)
}

/// A freshly created graph satisfies both map invariants, whatever indices
/// it was given.
pub proof fn lemma_new_graph_inv(st: GraphStateV)
    requires
        st.nodes == Map::<u128, Seq<char>>::empty(),
        st.paths == Map::<Seq<char>, crate::path_node::PathNodeV>::empty(),
        st.ic == Map::<u128, Seq<u128>>::empty(),
    ensures
        inv_maps(st),
        inv_targets(st),
{
}

/// Stage-two instructions only touch node records inside path nodes —
/// backlinks, validity flags, titles — never which ids or paths exist, so
/// the map agreement survives every backlink removal and connection check.
pub proof fn lemma_s2_inv_maps(st: GraphStateV, u: GraphUpdateV)
    requires
        inv_maps(st),
    ensures
        inv_maps(spec_s2(st, u)),
{
    let st2 = spec_s2(st, u);
    assert(st2.nodes == st.nodes);
    assert forall|id: u128| #[trigger]
        st2.nodes.dom().contains(id) implies st2.paths.dom().contains(st2.nodes[id]) && st2.paths[
        st2.nodes[id]
    ].node_ids.contains(id) by {
        assert(st.paths.dom().contains(st.nodes[id]));
        assert(st.paths[st.nodes[id]].node_ids.contains(id));
    }
    assert forall|p: Seq<char>, id: u128|
        #![trigger st2.paths[p].node_ids.contains(id)]
        st2.paths.dom().contains(p) && st2.paths[p].node_ids.contains(id) implies st2.nodes.dom()
        .contains(id) && st2.nodes[id] == p by {
        assert(st2.paths.dom() == st.paths.dom() || st2.paths.dom() =~= st.paths.dom());
        assert(st.paths.dom().contains(p));
        assert(st2.paths[p].node_ids == st.paths[p].node_ids);
        assert(st.paths[p].node_ids.contains(id));
    }
}

pub proof fn lemma_s2_all_inv_maps(st: GraphStateV, us: Seq<GraphUpdateV>)
    requires
        inv_maps(st),
    ensures
        inv_maps(spec_s2_all(st, us)),
    decreases us.len(),
{
    if us.len() > 0 {
        lemma_s2_inv_maps(st, us[0]);
        lemma_s2_all_inv_maps(spec_s2(st, us[0]), us.drop_first());
    }
}

/// A rename to a previously untracked path preserves the map agreement: the
/// moved record keeps its ids, and every entry that pointed at the old path
/// follows it.
pub proof fn lemma_rename_inv_maps(st: GraphStateV, from: Seq<char>, to: Seq<char>)
    requires
        inv_maps(st),
        !st.paths.dom().contains(to),
    ensures
        inv_maps(spec_rename(st, from, to)),
{
    let st2 = spec_rename(st, from, to);
    if st.paths.dom().contains(from) {
        let pn = st.paths[from];
        assert forall|id: u128| #[trigger]
            st2.nodes.dom().contains(id) implies st2.paths.dom().contains(st2.nodes[id])
            && st2.paths[st2.nodes[id]].node_ids.contains(id) by {
            assert(st.nodes.dom().contains(id));
            if st.nodes[id] == from {
                assert(st2.nodes[id] == to);
                assert(st2.paths[to].node_ids == pn.node_ids);
                assert(pn.node_ids.contains(id));
            } else {
                assert(st2.nodes[id] == st.nodes[id]);
                assert(st.nodes[id] != to);
                assert(st2.paths.dom().contains(st.nodes[id]));
                assert(st2.paths[st.nodes[id]] == st.paths[st.nodes[id]]);
            }
        }
        assert forall|p: Seq<char>, id: u128|
            #![trigger st2.paths[p].node_ids.contains(id)]
            st2.paths.dom().contains(p) && st2.paths[p].node_ids.contains(id) implies st2.nodes
            .dom().contains(id) && st2.nodes[id] == p by {
            if p == to {
                assert(pn.node_ids.contains(id));
                assert(st.nodes.dom().contains(id) && st.nodes[id] == from);
                assert(st2.nodes[id] == to);
            } else {
                assert(p != from);
                assert(st.paths.dom().contains(p));
                assert(st.paths[p].node_ids.contains(id));
                assert(st.nodes[id] == p);
                assert(st2.nodes[id] == p);
            }
        }
    }
}

/// An empty batch leaves the state exactly as it was, scheduling nothing.
pub proof fn lemma_empty_batch(st: GraphStateV)
    ensures
        spec_batch(st, Seq::<GraphUpdateV>::empty()) == st,
{
    assert(stage1_of(Seq::<GraphUpdateV>::empty()) =~= Seq::<GraphUpdateV>::empty());
    assert(stage2_of(Seq::<GraphUpdateV>::empty()) =~= Seq::<GraphUpdateV>::empty());
    assert(stage2_of(Seq::<GraphUpdateV>::empty()) + spec_s1_all(
        st,
        stage1_of(Seq::<GraphUpdateV>::empty()),
    ).1 =~= Seq::<GraphUpdateV>::empty());
}

/// The invalid-connection index never holds an empty entry, and every
/// referrer of a live target is the target itself (a permanently invalid
/// self-reference).
pub open spec fn inv_targets(st: GraphStateV) -> bool {
    &&& (forall|t: u128| st.ic.dom().contains(t) ==> (#[trigger] st.ic[t]).len() > 0)
    &&& (forall|t: u128, j: int|
        #![trigger st.ic[t][j]]
        st.ic.dom().contains(t) && 0 <= j < st.ic[t].len() ==> (!st.nodes.dom().contains(t)
            || st.ic[t][j] == t))
}

proof fn lemma_seq_remove_val_sub(s: Seq<u128>, x: u128)
    ensures
        forall|j: int|
            0 <= j < seq_remove_val(s, x).len() ==> s.contains(#[trigger] seq_remove_val(s, x)[j]),
    decreases s.len(),
{
    if s.len() > 0 {
        lemma_seq_remove_val_sub(s.drop_first(), x);
        assert forall|j: int|
            0 <= j < seq_remove_val(s, x).len() implies s.contains(
            #[trigger] seq_remove_val(s, x)[j],
        ) by {
            if s[0] == x {
                assert(seq_remove_val(s, x) == s.drop_first());
                assert(s[j + 1] == s.drop_first()[j]);
            } else {
                if j == 0 {
                    assert(seq_remove_val(s, x)[0] == s[0]);
                } else {
                    let v = seq_remove_val(s, x)[j];
                    assert(v == seq_remove_val(s.drop_first(), x)[j - 1]);
                    assert(s.drop_first().contains(v));
                    let j2 = choose|j2: int|
                        0 <= j2 < s.drop_first().len() && s.drop_first()[j2] == v;
                    assert(s[j2 + 1] == v);
                }
            }
        }
    }
}

/// Stage one preserves the invalid-connection invariants.
pub proof fn lemma_s1_inv(st: GraphStateV, u: GraphUpdateV)
    requires
        inv_targets(st),
    ensures
        inv_targets(spec_s1(st, u).0),
{
    let st2 = spec_s1(st, u).0;
    match u {
        GraphUpdateV::AddNode { id, path } => {
            assert forall|t: u128, j: int|
                #![trigger st2.ic[t][j]]
                st2.ic.dom().contains(t) && 0 <= j < st2.ic[t].len() implies (
            !st2.nodes.dom().contains(t) || st2.ic[t][j] == t) by {
                if t != id {
                    assert(st.ic[t][j] == st2.ic[t][j]);
                }
            }
        },
        GraphUpdateV::RemoveInvalidConnection { from, to } => {
            if st.ic.dom().contains(to) {
                lemma_seq_remove_val_sub(st.ic[to], from);
                assert forall|t: u128, j: int|
                    #![trigger st2.ic[t][j]]
                    st2.ic.dom().contains(t) && 0 <= j < st2.ic[t].len() implies (
                !st2.nodes.dom().contains(t) || st2.ic[t][j] == t) by {
                    if t == to && seq_remove_val(st.ic[to], from).len() > 0 {
                        assert(st.ic[to].contains(st2.ic[t][j]));
                        let j2 = choose|j2: int|
                            0 <= j2 < st.ic[to].len() && st.ic[to][j2] == st2.ic[t][j];
                        assert(st.ic[to][j2] == st2.ic[t][j]);
                    }
                }
            }
        },
        _ => {},
    }
}

/// Stage two preserves the invalid-connection invariants.
pub proof fn lemma_s2_inv(st: GraphStateV, u: GraphUpdateV)
    requires
        inv_targets(st),
    ensures
        inv_targets(spec_s2(st, u)),
{
    let st2 = spec_s2(st, u);
    match u {
        GraphUpdateV::CheckConnection { from, to } => {
            if st.nodes.dom().contains(from) && st.paths.dom().contains(st.nodes[from]) && !(from
                != to && st.nodes.dom().contains(to) && st.paths.dom().contains(st.nodes[to]))
                && (from == to || !st.nodes.dom().contains(to)) {
                assert forall|t: u128, j: int|
                    #![trigger st2.ic[t][j]]
                    st2.ic.dom().contains(t) && 0 <= j < st2.ic[t].len() implies (
                !st2.nodes.dom().contains(t) || st2.ic[t][j] == t) by {
                    if t == to {
                        if st.ic.dom().contains(to) && !st.ic[to].contains(from) && j
                            == st.ic[to].len() {
                            assert(st2.ic[t][j] == from);
                        }
                    } else {
                        assert(st.ic[t][j] == st2.ic[t][j]);
                    }
                }
            }
        },
        _ => {},
    }
}

pub proof fn lemma_s1_all_inv(st: GraphStateV, us: Seq<GraphUpdateV>)
    requires
        inv_targets(st),
    ensures
        inv_targets(spec_s1_all(st, us).0),
    decreases us.len(),
{
    if us.len() > 0 {
        lemma_s1_inv(st, us[0]);
        lemma_s1_all_inv(spec_s1(st, us[0]).0, us.drop_first());
    }
}

pub proof fn lemma_s2_all_inv(st: GraphStateV, us: Seq<GraphUpdateV>)
    requires
        inv_targets(st),
    ensures
        inv_targets(spec_s2_all(st, us)),
    decreases us.len(),
{
    if us.len() > 0 {
        lemma_s2_inv(st, us[0]);
        lemma_s2_all_inv(spec_s2(st, us[0]), us.drop_first());
    }
}

/// A whole batch preserves the invalid-connection invariants: however many
/// instructions a reconciliation produces, no empty referrer set appears,
/// and live targets are referred to only by themselves.
pub proof fn lemma_batch_inv(st: GraphStateV, us: Seq<GraphUpdateV>)
    requires
        inv_targets(st),
    ensures
        inv_targets(spec_batch(st, us)),
{
    lemma_s1_all_inv(st, stage1_of(us));
    lemma_s2_all_inv(spec_s1_all(st, stage1_of(us)).0, stage2_of(us) + spec_s1_all(
        st,
        stage1_of(us),
    ).1);
}

/// Adding a node whose only recorded referrer is itself leaves that
/// invalid-connection entry unchanged: self-references are permanently
/// invalid, and no connection check is spawned for them.
pub proof fn lemma_self_loop_add(st: GraphStateV, id: u128, path: Seq<char>)
    requires
        st.ic.dom().contains(id),
        st.ic[id] == seq![id],
    ensures
        spec_s1(st, (GraphUpdateV::AddNode { id, path })).0.ic == st.ic,
        spec_s1(st, (GraphUpdateV::AddNode { id, path })).1 == Seq::<GraphUpdateV>::empty(),
{
    reveal_with_fuel(extras_of, 3);
    assert(st.ic[id].contains(id)) by {
        assert(st.ic[id][0] == id);
    }
    assert(st.ic[id].drop_first() =~= Seq::<u128>::empty());
    assert(extras_of(st.ic[id], id) =~= Seq::<GraphUpdateV>::empty());
    assert(spec_s1(st, (GraphUpdateV::AddNode { id, path })).0.ic =~= st.ic);
}

proof fn lemma_stage1_of_snoc(s: Seq<GraphUpdateV>, u: GraphUpdateV)
    ensures
        stage1_of(s.push(u)) == (if is_stage2(u) {
            stage1_of(s)
        } else {
            stage1_of(s).push(u)
        }),
        stage2_of(s.push(u)) == (if is_stage2(u) {
            stage2_of(s).push(u)
        } else {
            stage2_of(s)
        }),
    decreases s.len(),
{
    reveal_with_fuel(stage1_of, 3);
    reveal_with_fuel(stage2_of, 3);
    if s.len() == 0 {
        assert(s.push(u).drop_first() =~= Seq::<GraphUpdateV>::empty());
        assert(s.push(u)[0] == u);
        if !is_stage2(u) {
            assert(seq![u] + Seq::<GraphUpdateV>::empty() =~= stage1_of(s).push(u));
        } else {
            assert(seq![u] + Seq::<GraphUpdateV>::empty() =~= stage2_of(s).push(u));
        }
    } else {
        assert(s.push(u)[0] == s[0]);
        assert(s.push(u).drop_first() =~= s.drop_first().push(u));
        lemma_stage1_of_snoc(s.drop_first(), u);
        if is_stage2(s[0]) {
            if is_stage2(u) {
                assert(seq![s[0]] + stage2_of(s.drop_first()).push(u) =~= (seq![s[0]]
                    + stage2_of(s.drop_first())).push(u));
            }
        } else {
            if !is_stage2(u) {
                assert(seq![s[0]] + stage1_of(s.drop_first()).push(u) =~= (seq![s[0]]
                    + stage1_of(s.drop_first())).push(u));
            }
        }
    }
}

proof fn lemma_s1_all_snoc(st: GraphStateV, s: Seq<GraphUpdateV>, u: GraphUpdateV)
    ensures
        spec_s1_all(st, s.push(u)) == ({
            let (st1, ex1) = spec_s1_all(st, s);
            let (st2, ex2) = spec_s1(st1, u);
            (st2, ex1 + ex2)
        }),
    decreases s.len(),
{
    reveal_with_fuel(spec_s1_all, 3);
    if s.len() == 0 {
        assert(s.push(u).drop_first() =~= Seq::<GraphUpdateV>::empty());
        assert(s.push(u)[0] == u);
        let (st2, ex2) = spec_s1(st, u);
        assert(ex2 + Seq::<GraphUpdateV>::empty() =~= ex2);
        assert(Seq::<GraphUpdateV>::empty() + ex2 =~= ex2);
    } else {
        assert(s.push(u)[0] == s[0]);
        assert(s.push(u).drop_first() =~= s.drop_first().push(u));
        let (sth, exh) = spec_s1(st, s[0]);
        lemma_s1_all_snoc(sth, s.drop_first(), u);
        let (stm, exm) = spec_s1_all(sth, s.drop_first());
        let (stf, exf) = spec_s1(stm, u);
        assert(exh + (exm + exf) =~= (exh + exm) + exf);
    }
}

proof fn lemma_s2_all_snoc(st: GraphStateV, s: Seq<GraphUpdateV>, u: GraphUpdateV)
    ensures
        spec_s2_all(st, s.push(u)) == spec_s2(spec_s2_all(st, s), u),
    decreases s.len(),
{
    reveal_with_fuel(spec_s2_all, 3);
    if s.len() == 0 {
        assert(s.push(u).drop_first() =~= Seq::<GraphUpdateV>::empty());
        assert(s.push(u)[0] == u);
    } else {
        assert(s.push(u)[0] == s[0]);
        assert(s.push(u).drop_first() =~= s.drop_first().push(u));
        lemma_s2_all_snoc(spec_s2(st, s[0]), s.drop_first(), u);
    }
}

proof fn lemma_extras_snoc(s: Seq<u128>, x: u128, id: u128)
    ensures
        extras_of(s.push(x), id) == (if x == id {
            extras_of(s, id)
        } else {
            extras_of(s, id).push((GraphUpdateV::CheckConnection { from: x, to: id }))
        }),
    decreases s.len(),
{
    reveal_with_fuel(extras_of, 3);
    if s.len() == 0 {
        assert(s.push(x).drop_first() =~= Seq::<u128>::empty());
        assert(s.push(x)[0] == x);
        if x != id {
            assert(seq![(GraphUpdateV::CheckConnection { from: x, to: id })] + Seq::<
                GraphUpdateV,
            >::empty() =~= extras_of(s, id).push(
                (GraphUpdateV::CheckConnection { from: x, to: id }),
            ));
        }
    } else {
        assert(s.push(x)[0] == s[0]);
        assert(s.push(x).drop_first() =~= s.drop_first().push(x));
        lemma_extras_snoc(s.drop_first(), x, id);
        if s[0] != id && x != id {
            assert(seq![(GraphUpdateV::CheckConnection { from: s[0], to: id })] + extras_of(
                s.drop_first(),
                id,
            ).push((GraphUpdateV::CheckConnection { from: x, to: id })) =~= (seq![
                (GraphUpdateV::CheckConnection { from: s[0], to: id }),
            ] + extras_of(s.drop_first(), id)).push(
                (GraphUpdateV::CheckConnection { from: x, to: id }),
            ));
        }
    }
}

proof fn lemma_remove_val_snoc(s: Seq<u128>, x: u128, v: u128)
    ensures
        seq_remove_val(s.push(x), v) == (if s.contains(v) {
            seq_remove_val(s, v).push(x)
        } else if x == v {
            s
        } else {
            s.push(x)
        }),
    decreases s.len(),
{
    reveal_with_fuel(seq_remove_val, 3);
    if s.len() == 0 {
        assert(s.push(x).drop_first() =~= Seq::<u128>::empty());
        assert(s.push(x)[0] == x);
        if x != v {
            assert(seq![x] + Seq::<u128>::empty() =~= s.push(x));
        } else {
            assert(s.push(x).drop_first() =~= s);
        }
    } else {
        assert(s.push(x)[0] == s[0]);
        assert(s.push(x).drop_first() =~= s.drop_first().push(x));
        lemma_remove_val_snoc(s.drop_first(), x, v);
        if s[0] == v {
            assert(s.contains(v)) by {
                assert(s[0] == v);
            }
            assert(seq_remove_val(s.push(x), v) == s.drop_first().push(x));
            assert(seq_remove_val(s, v).push(x) == s.drop_first().push(x));
        } else {
            assert(s.contains(v) <==> s.drop_first().contains(v)) by {
                if s.contains(v) {
                    let j = choose|j: int| 0 <= j < s.len() && s[j] == v;
                    assert(s.drop_first()[j - 1] == v);
                }
                if s.drop_first().contains(v) {
                    let j = choose|j: int|
                        0 <= j < s.drop_first().len() && s.drop_first()[j] == v;
                    assert(s[j + 1] == v);
                }
            }
            if s.contains(v) {
                assert(seq![s[0]] + seq_remove_val(s.drop_first(), v).push(x) =~= (seq![s[0]]
                    + seq_remove_val(s.drop_first(), v)).push(x));
            } else if x == v {
                assert(seq![s[0]] + s.drop_first() =~= s);
            } else {
                assert(seq![s[0]] + s.drop_first().push(x) =~= s.push(x));
            }
        }
    }
}

/// Whether the vector holds the value.
fn contains_u128(v: &Vec<u128>, x: u128) -> (r: bool)
    ensures
        r == v@.contains(x),
{
    let n = v.len();
    let mut i: usize = 0;
    while i < n
        invariant
            n == v@.len(),
            0 <= i <= n,
            forall|j: int| 0 <= j < i ==> v@[j] != x,
        decreases n - i,
    {
        if v[i] == x {
            return true;
        }
        i = i + 1;
    }
    false
}

/// A graph of many nodes derived from the tracked files, connected
/// together: the global node, path, index, and invalid-connection maps,
/// mutated only through instruction batches.
pub struct Graph {
    /// Every live node id, mapped to the path containing it.
    pub nodes: KeyMap<u128, String>,
    /// Named subsets of the node map, maintained incrementally.
    pub indices: KeyMap<String, KeyMap<u128, String>>,
    /// Every observed path, with its last good parse.
    pub paths: KeyMap<String, PathNode>,
    /// Known-invalid link targets, each with the sources that refer to it.
    pub invalid_connections: KeyMap<u128, Vec<u128>>,
}

impl Graph {
    pub open spec fn wf(&self) -> bool {
        &&& self.nodes.wf()
        &&& self.indices.wf()
        &&& self.paths.wf()
        &&& self.invalid_connections.wf()
    }

    /// The mathematical state, with the given set of scheduled writes.
    pub open spec fn st(&self, pending: Set<Seq<char>>) -> GraphStateV {
        GraphStateV {
            nodes: self.nodes@,
            indices: self.indices@,
            paths: self.paths@,
            ic: self.invalid_connections@,
            pending,
        }
    }

    /// Creates a new, completely empty graph with the given index names.
    pub fn new(index_names: Vec<String>) -> (r: Graph)
        ensures
            r.wf(),
            r.st(Set::empty()).nodes == Map::<u128, Seq<char>>::empty(),
            r.st(Set::empty()).paths == Map::<Seq<char>, crate::path_node::PathNodeV>::empty(),
            r.st(Set::empty()).ic == Map::<u128, Seq<u128>>::empty(),
            forall|i: int|
                0 <= i < index_names@.len() ==> r.st(Set::empty()).indices.dom().contains(
                    (#[trigger] index_names@[i])@,
                ),
            inv_targets(r.st(Set::empty())),
    {
        let mut indices: KeyMap<String, KeyMap<u128, String>> = KeyMap::new();
        let n = index_names.len();
        let mut i: usize = 0;
        while i < n
            invariant
                indices.wf(),
                n == index_names@.len(),
                0 <= i <= n,
                forall|j: int|
                    0 <= j < i ==> indices@.dom().contains((#[trigger] index_names@[j])@),
            decreases n - i,
        {
            let sub: KeyMap<u128, String> = KeyMap::new();
            indices.insert(index_names[i].clone(), sub);
            i = i + 1;
        }
        Graph {
            nodes: KeyMap::new(),
            indices,
            paths: KeyMap::new(),
            invalid_connections: KeyMap::new(),
        }
    }

    /// Applies one stage-one instruction, appending spawned connection
    /// checks to `s2` and scheduling id-stabilising writes in `pending`.
    #[verifier::loop_isolation(false)]
    fn apply_s1(&mut self, u: GraphUpdate, s2: &mut Vec<GraphUpdate>, pending: &mut KeySet<String>)
        requires
            old(self).wf(),
            u.inv(),
            old(pending).wf(),
        ensures
            final(self).wf(),
            final(pending).wf(),
            ({
                let (stp, ex) = spec_s1(old(self).st(old(pending)@), u@);
                &&& final(self).st(final(pending)@) == stp
                &&& ups_view(final(s2)@) == ups_view(old(s2)@) + ex
            }),
    {
        let ghost st0 = old(self).st(old(pending)@);
        match u {
            GraphUpdate::CreatePathNode(pn) => {
                let p = pn.path();
                self.paths.insert(p, pn);
                proof {
                    assert(ups_view(s2@) =~= ups_view(old(s2)@) + Seq::<GraphUpdateV>::empty());
                    assert(final(self).st(pending@) =~~= spec_s1(st0, u@).0);
                }
            },
            GraphUpdate::ModifyPathNode { path, new_node } => {
                self.paths.insert(path, new_node);
                proof {
                    assert(ups_view(s2@) =~= ups_view(old(s2)@) + Seq::<GraphUpdateV>::empty());
                    assert(final(self).st(pending@) =~~= spec_s1(st0, u@).0);
                }
            },
            GraphUpdate::DeletePathNode(p) => {
                self.paths.remove(&p);
                proof {
                    assert(ups_view(s2@) =~= ups_view(old(s2)@) + Seq::<GraphUpdateV>::empty());
                    assert(final(self).st(pending@) =~~= spec_s1(st0, u@).0);
                }
            },
            GraphUpdate::AddNode { id, path } => {
                self.nodes.insert(id, path.clone());
                pending.insert(path);
                match self.invalid_connections.remove(&id) {
                    Some(referrers) => {
                        // Previously invalid references to this id become
                        // connection checks; a self-reference stays invalid.
                        let n = referrers.len();
                        let mut has_self = false;
                        let mut i: usize = 0;
                        while i < n
                            invariant
                                0 <= i <= n,
                                n == referrers@.len(),
                                has_self == referrers@.take(i as int).contains(id),
                                ups_view(s2@) == ups_view(old(s2)@) + extras_of(
                                    referrers@.take(i as int),
                                    id,
                                ),
                            decreases n - i,
                        {
                            let s = referrers[i];
                            proof {
                                assert(referrers@.take(i + 1) =~= referrers@.take(i as int).push(
                                    referrers@[i as int],
                                ));
                                lemma_extras_snoc(referrers@.take(i as int), referrers@[i as int], id);
                            }
                            if s == id {
                                has_self = true;
                                proof {
                                    assert(referrers@.take(i + 1).contains(id)) by {
                                        assert(referrers@.take(i + 1)[i as int] == id);
                                    }
                                }
                            } else {
                                let ghost s2_prev = s2@;
                                s2.push(GraphUpdate::CheckConnection { from: s, to: id });
                                proof {
                                    assert(ups_view(s2@) =~= ups_view(s2_prev).push(
                                        (GraphUpdateV::CheckConnection { from: s, to: id }),
                                    ));
                                    assert(ups_view(old(s2)@) + extras_of(
                                        referrers@.take(i as int),
                                        id,
                                    ).push((GraphUpdateV::CheckConnection { from: s, to: id }))
                                        =~= (ups_view(old(s2)@) + extras_of(
                                        referrers@.take(i as int),
                                        id,
                                    )).push((GraphUpdateV::CheckConnection { from: s, to: id })));
                                    assert(ups_view(s2@) =~= ups_view(old(s2)@) + extras_of(
                                        referrers@.take(i + 1),
                                        id,
                                    ));
                                    if referrers@.take(i as int).contains(id) {
                                        let j = choose|j: int|
                                            0 <= j < i && referrers@.take(i as int)[j] == id;
                                        assert(referrers@.take(i + 1)[j] == id);
                                    }
                                    if referrers@.take(i + 1).contains(id) {
                                        let j = choose|j: int|
                                            0 <= j < i + 1 && #[trigger] referrers@.take(
                                                i + 1,
                                            )[j] == id;
                                        assert(j < i);
                                        assert(referrers@.take(i as int)[j] == id);
                                    }
                                }
                            }
                            i = i + 1;
                        }
                        proof {
                            assert(referrers@.take(n as int) =~= referrers@);
                        }
                        if has_self {
                            let mut v: Vec<u128> = Vec::new();
                            v.push(id);
                            proof {
                                assert(v@ =~= seq![id]);
                            }
                            self.invalid_connections.insert(id, v);
                            proof {
                                assert(self.invalid_connections@ =~= st0.ic.remove(id).insert(
                                    id,
                                    seq![id],
                                ));
                            }
                        }
                        proof {
                            assert(final(self).st(pending@) =~~= spec_s1(st0, u@).0);
                        }
                    },
                    None => {
                        proof {
                            assert(ups_view(s2@) =~= ups_view(old(s2)@) + Seq::<
                                GraphUpdateV,
                            >::empty());
                            assert(final(self).st(pending@) =~~= spec_s1(st0, u@).0);
                        }
                    },
                }
            },
            GraphUpdate::RemoveNode(id) => {
                self.nodes.remove(&id);
                proof {
                    assert(ups_view(s2@) =~= ups_view(old(s2)@) + Seq::<GraphUpdateV>::empty());
                    assert(final(self).st(pending@) =~~= spec_s1(st0, u@).0);
                }
            },
            GraphUpdate::AddNodeToIndex { id, path, index } => {
                match self.indices.remove(&index) {
                    Some(mut sub) => {
                        sub.insert(id, path);
                        self.indices.insert(index, sub);
                        proof {
                            assert(self.indices@ =~= st0.indices.insert(
                                index@,
                                st0.indices[index@].insert(id, path@),
                            ));
                        }
                    },
                    None => {},
                }
                proof {
                    assert(ups_view(s2@) =~= ups_view(old(s2)@) + Seq::<GraphUpdateV>::empty());
                    assert(final(self).st(pending@) =~~= spec_s1(st0, u@).0);
                }
            },
            GraphUpdate::RemoveNodeFromIndex { id, index } => {
                match self.indices.remove(&index) {
                    Some(mut sub) => {
                        sub.remove(&id);
                        self.indices.insert(index, sub);
                        proof {
                            assert(self.indices@ =~= st0.indices.insert(
                                index@,
                                st0.indices[index@].remove(id),
                            ));
                        }
                    },
                    None => {},
                }
                proof {
                    assert(ups_view(s2@) =~= ups_view(old(s2)@) + Seq::<GraphUpdateV>::empty());
                    assert(final(self).st(pending@) =~~= spec_s1(st0, u@).0);
                }
            },
            GraphUpdate::RemoveInvalidConnection { from, to } => {
                match self.invalid_connections.remove(&to) {
                    Some(referrers) => {
                        let n = referrers.len();
                        let mut rest: Vec<u128> = Vec::new();
                        let mut removed = false;
                        let mut i: usize = 0;
                        while i < n
                            invariant
                                0 <= i <= n,
                                n == referrers@.len(),
                                removed == referrers@.take(i as int).contains(from),
                                rest@ == (if removed {
                                    seq_remove_val(referrers@.take(i as int), from)
                                } else {
                                    referrers@.take(i as int)
                                }),
                            decreases n - i,
                        {
                            proof {
                                assert(referrers@.take(i + 1) =~= referrers@.take(i as int).push(
                                    referrers@[i as int],
                                ));
                                lemma_remove_val_snoc(
                                    referrers@.take(i as int),
                                    referrers@[i as int],
                                    from,
                                );
                                if referrers@.take(i as int).contains(from) {
                                    let j = choose|j: int|
                                        0 <= j < i && referrers@.take(i as int)[j] == from;
                                    assert(referrers@.take(i + 1)[j] == from);
                                }
                            }
                            let s = referrers[i];
                            if !removed && s == from {
                                removed = true;
                                proof {
                                    assert(referrers@.take(i + 1)[i as int] == from);
                                }
                            } else {
                                rest.push(s);
                            }
                            proof {
                                if referrers@.take(i + 1).contains(from)
                                    && !referrers@.take(i as int).contains(from) {
                                    let j = choose|j: int|
                                        0 <= j < i + 1 && #[trigger] referrers@.take(
                                            i + 1,
                                        )[j] == from;
                                    if j < i {
                                        assert(referrers@.take(i as int)[j] == from);
                                    }
                                }
                            }
                            i = i + 1;
                        }
                        proof {
                            assert(referrers@.take(n as int) =~= referrers@);
                        }
                        if rest.len() > 0 {
                            self.invalid_connections.insert(to, rest);
                        }
                        proof {
                            if referrers@.contains(from) {
                                if seq_remove_val(referrers@, from).len() == 0 {
                                    assert(self.invalid_connections@ =~= st0.ic.remove(to));
                                } else {
                                    assert(self.invalid_connections@ =~= st0.ic.insert(
                                        to,
                                        seq_remove_val(referrers@, from),
                                    ));
                                }
                            } else {
                                assert(rest@ == referrers@);
                                assert(seq_remove_val(referrers@, from).len() > 0 ==> true);
                                assert(self.invalid_connections@ =~= (if seq_remove_val(
                                    referrers@,
                                    from,
                                ).len() == 0 {
                                    st0.ic.remove(to)
                                } else {
                                    st0.ic.insert(to, seq_remove_val(referrers@, from))
                                })) by {
                                    lemma_remove_val_noop(referrers@, from);
                                }
                            }
                            assert(ups_view(s2@) =~= ups_view(old(s2)@) + Seq::<
                                GraphUpdateV,
                            >::empty());
                            assert(final(self).st(pending@) =~~= spec_s1(st0, u@).0);
                        }
                    },
                    None => {
                        proof {
                            assert(ups_view(s2@) =~= ups_view(old(s2)@) + Seq::<
                                GraphUpdateV,
                            >::empty());
                            assert(final(self).st(pending@) =~~= spec_s1(st0, u@).0);
                        }
                    },
                }
            },
            GraphUpdate::RemoveBacklink { .. } => {
                proof {
                    assert(ups_view(s2@) =~= ups_view(old(s2)@) + Seq::<GraphUpdateV>::empty());
                    assert(final(self).st(pending@) =~~= spec_s1(st0, u@).0);
                }
            },
            GraphUpdate::CheckConnection { .. } => {
                proof {
                    assert(ups_view(s2@) =~= ups_view(old(s2)@) + Seq::<GraphUpdateV>::empty());
                    assert(final(self).st(pending@) =~~= spec_s1(st0, u@).0);
                }
            },
        }
    }
}

/// Removing an absent value changes nothing.
proof fn lemma_remove_val_noop(s: Seq<u128>, v: u128)
    requires
        !s.contains(v),
    ensures
        seq_remove_val(s, v) == s,
        seq_remove_val(s, v).len() == s.len(),
    decreases s.len(),
{
    if s.len() > 0 {
        assert(s[0] != v);
        assert forall|j: int| 0 <= j < s.drop_first().len() implies s.drop_first()[j] != v by {
            assert(s[j + 1] == s.drop_first()[j]);
        }
        lemma_remove_val_noop(s.drop_first(), v);
        assert(seq![s[0]] + s.drop_first() =~= s);
    }
}

impl Graph {
    /// Applies one stage-two instruction: backlink removals and connection
    /// checks against the current node map.
    fn apply_s2(&mut self, u: &GraphUpdate, pending: &mut KeySet<String>)
        requires
            old(self).wf(),
            old(pending).wf(),
            !(u@ matches GraphUpdateV::CreatePathNode(_)),
            !(u@ matches GraphUpdateV::ModifyPathNode { .. }),
        ensures
            final(self).wf(),
            final(pending).wf(),
            final(self).st(final(pending)@) == spec_s2(old(self).st(old(pending)@), u@),
    {
        let ghost st0 = old(self).st(old(pending)@);
        match u {
            GraphUpdate::RemoveBacklink { on, from } => {
                let p_opt = match self.nodes.get(on) {
                    Some(p) => Some(p.clone()),
                    None => None,
                };
                match p_opt {
                    Some(p) => {
                        match self.paths.remove(&p) {
                            Some(mut pn) => {
                                pn.remove_backlink(*on, *from);
                                self.paths.insert(p, pn);
                                proof {
                                    assert(self.paths@ =~= st0.paths.insert(
                                        st0.nodes[*on],
                                        pn_remove_backlink(st0.paths[st0.nodes[*on]], *on, *from),
                                    ));
                                    assert(final(self).st(pending@) =~~= spec_s2(st0, u@));
                                }
                            },
                            None => {
                                proof {
                                    assert(final(self).st(pending@) =~~= spec_s2(st0, u@));
                                }
                            },
                        }
                    },
                    None => {
                        proof {
                            assert(final(self).st(pending@) =~~= spec_s2(st0, u@));
                        }
                    },
                }
            },
            GraphUpdate::CheckConnection { from, to } => {
                let pf_opt = match self.nodes.get(from) {
                    Some(p) => Some(p.clone()),
                    None => None,
                };
                match pf_opt {
                    None => {
                        proof {
                            assert(final(self).st(pending@) =~~= spec_s2(st0, u@));
                        }
                    },
                    Some(p_from) => {
                        if !self.paths.contains_key(&p_from) {
                            proof {
                                assert(final(self).st(pending@) =~~= spec_s2(st0, u@));
                            }
                        } else {
                            let pt_opt = if *from != *to {
                                match self.nodes.get(to) {
                                    Some(p) => Some(p.clone()),
                                    None => None,
                                }
                            } else {
                                None
                            };
                            match pt_opt {
                                Some(p_to) => {
                                    if !self.paths.contains_key(&p_to) {
                                        proof {
                                            assert(final(self).st(pending@) =~~= spec_s2(
                                                st0,
                                                u@,
                                            ));
                                        }
                                    } else {
                                        let fmt = crate::path_node::path_format(&p_from);
                                        let title_opt = match self.paths.get(&p_to) {
                                            Some(pn) => pn.display_title(*to, fmt),
                                            None => None,
                                        };
                                        match title_opt {
                                            Some(title) => {
                                                // The target exists: record
                                                // the backlink, then validate
                                                // with the target's current
                                                // title and schedule the
                                                // source path for rewriting.
                                                match self.paths.remove(&p_to) {
                                                    Some(mut pn_to) => {
                                                        pn_to.add_backlink(*to, *from);
                                                        self.paths.insert(p_to.clone(), pn_to);
                                                    },
                                                    None => {},
                                                }
                                                proof {
                                                    assert(self.paths@ =~= st0.paths.insert(
                                                        st0.nodes[*to],
                                                        pn_add_backlink(
                                                            st0.paths[st0.nodes[*to]],
                                                            *to,
                                                            *from,
                                                        ),
                                                    ));
                                                }
                                                match self.paths.remove(&p_from) {
                                                    Some(mut pn_from) => {
                                                        pn_from.validate_connection(
                                                            *from,
                                                            *to,
                                                            &title,
                                                        );
                                                        self.paths.insert(
                                                            p_from.clone(),
                                                            pn_from,
                                                        );
                                                    },
                                                    None => {},
                                                }
                                                pending.insert(p_from.clone());
                                                proof {
                                                    assert(final(self).st(pending@)
                                                        =~~= spec_s2(st0, u@));
                                                }
                                            },
                                            None => {
                                                proof {
                                                    assert(final(self).st(pending@)
                                                        =~~= spec_s2(st0, u@));
                                                }
                                            },
                                        }
                                    }
                                },
                                None => {
                                    // The target is unknown or the link is a
                                    // self-reference: invalidate it locally
                                    // and record it globally.
                                    match self.paths.remove(&p_from) {
                                        Some(mut pn) => {
                                            pn.invalidate_connection(*from, *to);
                                            self.paths.insert(p_from.clone(), pn);
                                        },
                                        None => {},
                                    }
                                    match self.invalid_connections.remove(to) {
                                        Some(mut v) => {
                                            if !contains_u128(&v, *from) {
                                                v.push(*from);
                                            }
                                            self.invalid_connections.insert(*to, v);
                                            proof {
                                                assert(self.invalid_connections@ =~= ic_record(
                                                    st0.ic,
                                                    *to,
                                                    *from,
                                                ));
                                            }
                                        },
                                        None => {
                                            let mut v: Vec<u128> = Vec::new();
                                            v.push(*from);
                                            proof {
                                                assert(v@ =~= seq![*from]);
                                            }
                                            self.invalid_connections.insert(*to, v);
                                            proof {
                                                assert(self.invalid_connections@ =~= ic_record(
                                                    st0.ic,
                                                    *to,
                                                    *from,
                                                ));
                                            }
                                        },
                                    }
                                    proof {
                                        assert(final(self).st(pending@) =~~= spec_s2(st0, u@));
                                    }
                                },
                            }
                        }
                    },
                }
            },
            _ => {
                proof {
                    assert(final(self).st(pending@) =~~= spec_s2(st0, u@));
                }
            },
        }
    }

    /// Processes a batch of [`GraphUpdate`]s: stage one mutates the global
    /// maps and spawns checks for previously invalid references; stage two
    /// applies backlink removals and connection checks. Returns one
    /// corrective write per distinct scheduled path that still has a parsed
    /// document.
    #[verifier::loop_isolation(false)]
    #[verifier::rlimit(100)]
    pub fn process_updates(&mut self, updates: Vec<GraphUpdate>) -> (writes: Vec<DocumentWrite>)
        requires
            old(self).wf(),
            forall|j: int| 0 <= j < updates@.len() ==> (#[trigger] updates@[j]).inv(),
        ensures
            final(self).wf(),
            ({
                let stf = spec_batch(old(self).st(Set::empty()), ups_view(updates@));
                &&& final(self).st(stf.pending) == stf
                &&& (inv_targets(old(self).st(Set::empty())) ==> inv_targets(stf))
                &&& (forall|i: int, j: int|
                    0 <= i < j < writes@.len() ==> (#[trigger] writes@[i]).path@ != (
                    #[trigger] writes@[j]).path@)
                &&& (forall|i: int|
                    0 <= i < writes@.len() ==> stf.pending.contains(
                        (#[trigger] writes@[i]).path@,
                    ) && stf.paths.dom().contains(writes@[i].path@) && (match stf.paths[
                        writes@[i].path@
                    ].document {
                        Some(d) => writes@[i].document@.root
                            == crate::connection::spec_detokenise(
                            d.root.node,
                            d.root.map,
                            crate::path_node::spec_format_of(writes@[i].path@),
                        ) && writes@[i].document@.attributes == d.attributes,
                        None => false,
                    }))
                &&& (forall|p: Seq<char>| #[trigger]
                    stf.pending.contains(p) ==> (stf.paths.dom().contains(p) && stf.paths[
                        p
                    ].document is Some) ==> exists|i: int|
                        0 <= i < writes@.len() && (#[trigger] writes@[i]).path@ == p)
            }),
    {
        let ghost upsv = ups_view(updates@);
        let ghost st0 = old(self).st(Set::empty());
        proof {
            if inv_targets(st0) {
                lemma_batch_inv(st0, upsv);
            }
        }
        // Partition into the two stages, keeping each stage's order.
        let mut s1: Vec<GraphUpdate> = Vec::new();
        let mut s2: Vec<GraphUpdate> = Vec::new();
        let n = updates.len();
        let mut updates = updates;
        let ghost updates0 = updates@;
        let mut k: usize = 0;
        while updates.len() > 0
            invariant
                0 <= k <= n,
                updates@.len() == n - k,
                updates@ =~= updates0.skip(k as int),
                forall|j: int| 0 <= j < updates@.len() ==> (#[trigger] updates@[j]).inv(),
                ups_view(s1@) == stage1_of(upsv.take(k as int)),
                ups_view(s2@) == stage2_of(upsv.take(k as int)),
                forall|j: int| 0 <= j < s1@.len() ==> (#[trigger] s1@[j]).inv(),
                forall|j: int|
                    0 <= j < ups_view(s2@).len() ==> !((#[trigger] ups_view(s2@)[j]) matches
                        GraphUpdateV::CreatePathNode(_)) && !(ups_view(s2@)[j] matches
                        GraphUpdateV::ModifyPathNode { .. }),
            decreases updates@.len(),
        {
            let u = updates.remove(0);
            proof {
                assert(u == updates0.skip(k as int)[0]);
                assert(u@ == upsv[k as int]);
                assert(updates@ =~= updates0.skip(k + 1));
                assert(upsv.take(k + 1) =~= upsv.take(k as int).push(upsv[k as int]));
                lemma_stage1_of_snoc(upsv.take(k as int), upsv[k as int]);
            }
            let is_two = match &u {
                GraphUpdate::RemoveBacklink { .. } => true,
                GraphUpdate::CheckConnection { .. } => true,
                _ => false,
            };
            if is_two {
                let ghost prev = s2@;
                s2.push(u);
                proof {
                    assert(ups_view(s2@) =~= ups_view(prev).push(upsv[k as int]));
                }
            } else {
                let ghost prev = s1@;
                s1.push(u);
                proof {
                    assert(ups_view(s1@) =~= ups_view(prev).push(upsv[k as int]));
                }
            }
            k = k + 1;
        }
        proof {
            assert(upsv.take(n as int) =~= upsv);
        }
        // Stage one: map mutations, which also decide which extra checks
        // stage two will need.
        let mut pending: KeySet<String> = KeySet::new();
        let ghost s1v = ups_view(s1@);
        let ghost s2v0 = ups_view(s2@);
        let ns1 = s1.len();
        let mut s1 = s1;
        let ghost s1_full = s1@;
        let mut i: usize = 0;
        while s1.len() > 0
            invariant
                self.wf(),
                pending.wf(),
                0 <= i <= ns1,
                s1@.len() == ns1 - i,
                s1@ =~= s1_full.skip(i as int),
                forall|j: int| 0 <= j < s1@.len() ==> (#[trigger] s1@[j]).inv(),
                forall|j: int|
                    0 <= j < ups_view(s2@).len() ==> !((#[trigger] ups_view(s2@)[j]) matches
                        GraphUpdateV::CreatePathNode(_)) && !(ups_view(s2@)[j] matches
                        GraphUpdateV::ModifyPathNode { .. }),
                ({
                    let (stp, ex) = spec_s1_all(st0, s1v.take(i as int));
                    &&& self.st(pending@) == stp
                    &&& ups_view(s2@) == s2v0 + ex
                }),
            decreases s1@.len(),
        {
            let u = s1.remove(0);
            proof {
                assert(u == s1_full.skip(i as int)[0]);
                assert(u@ == s1v[i as int]);
                assert(s1@ =~= s1_full.skip(i + 1));
                assert(s1v.take(i + 1) =~= s1v.take(i as int).push(s1v[i as int]));
                lemma_s1_all_snoc(st0, s1v.take(i as int), s1v[i as int]);
            }
            let ghost s2_before = ups_view(s2@);
            self.apply_s1(u, &mut s2, &mut pending);
            proof {
                let (stp, ex) = spec_s1_all(st0, s1v.take(i as int));
                let (stp2, ex2) = spec_s1(stp, s1v[i as int]);
                assert(ups_view(s2@) =~= (s2v0 + ex) + ex2);
                assert(s2v0 + (ex + ex2) =~= (s2v0 + ex) + ex2);
                assert forall|j: int|
                    0 <= j < ups_view(s2@).len() implies !((#[trigger] ups_view(s2@)[j]) matches
                    GraphUpdateV::CreatePathNode(_)) && !(ups_view(s2@)[j] matches
                    GraphUpdateV::ModifyPathNode { .. }) by {
                    if j < s2_before.len() {
                        assert(ups_view(s2@)[j] == s2_before[j]);
                    } else {
                        assert(ups_view(s2@)[j] == ex2[j - s2_before.len()]);
                        lemma_s1_extras_shape(stp, s1v[i as int], j - s2_before.len());
                    }
                }
            }
            i = i + 1;
        }
        proof {
            assert(s1v.take(ns1 as int) =~= s1v);
        }
        let ghost st1 = spec_s1_all(st0, s1v).0;
        let ghost s2v = ups_view(s2@);
        proof {
            assert(s2v == stage2_of(upsv) + spec_s1_all(st0, stage1_of(upsv)).1);
        }
        // Stage two: node mutations.
        let ns2 = s2.len();
        let mut j2: usize = 0;
        while j2 < ns2
            invariant
                self.wf(),
                pending.wf(),
                0 <= j2 <= ns2,
                ns2 == s2@.len(),
                s2v == ups_view(s2@),
                forall|j: int|
                    0 <= j < ups_view(s2@).len() ==> !((#[trigger] ups_view(s2@)[j]) matches
                        GraphUpdateV::CreatePathNode(_)) && !(ups_view(s2@)[j] matches
                        GraphUpdateV::ModifyPathNode { .. }),
                self.st(pending@) == spec_s2_all(st1, s2v.take(j2 as int)),
            decreases ns2 - j2,
        {
            proof {
                assert(s2v.take(j2 + 1) =~= s2v.take(j2 as int).push(s2v[j2 as int]));
                lemma_s2_all_snoc(st1, s2v.take(j2 as int), s2v[j2 as int]);
                assert(s2@[j2 as int]@ == ups_view(s2@)[j2 as int]);
                assert(s2@[j2 as int]@ == s2v[j2 as int]);
            }
            let u = &s2[j2];
            self.apply_s2(u, &mut pending);
            j2 = j2 + 1;
        }
        proof {
            assert(s2v.take(ns2 as int) =~= s2v);
        }
        // Serialise every scheduled path that still has a document.
        let ghost stf = spec_batch(st0, upsv);
        proof {
            assert(self.st(pending@) == stf);
            pending.lemma_view_props();
        }
        let mut writes: Vec<DocumentWrite> = Vec::new();
        let np = pending.num_elems();
        let mut w: usize = 0;
        while w < np
            invariant
                self.wf(),
                pending.wf(),
                self.st(pending@) == stf,
                0 <= w <= np,
                np == pending.eseq().len(),
                forall|a: int, b: int|
                    0 <= a < b < writes@.len() ==> (#[trigger] writes@[a]).path@ != (
                    #[trigger] writes@[b]).path@,
                forall|a: int|
                    0 <= a < writes@.len() ==> exists|e: int|
                        0 <= e < w && pending.eseq()[e] == (#[trigger] writes@[a]).path@,
                forall|a: int|
                    0 <= a < writes@.len() ==> stf.pending.contains(
                        (#[trigger] writes@[a]).path@,
                    ) && stf.paths.dom().contains(writes@[a].path@) && (match stf.paths[
                        writes@[a].path@
                    ].document {
                        Some(d) => writes@[a].document@.root
                            == crate::connection::spec_detokenise(
                            d.root.node,
                            d.root.map,
                            crate::path_node::spec_format_of(writes@[a].path@),
                        ) && writes@[a].document@.attributes == d.attributes,
                        None => false,
                    }),
                forall|e: int|
                    0 <= e < w ==> (stf.paths.dom().contains(#[trigger] pending.eseq()[e])
                        && stf.paths[pending.eseq()[e]].document is Some) ==> exists|a: int|
                        0 <= a < writes@.len() && (#[trigger] writes@[a]).path@
                            == pending.eseq()[e],
            decreases np - w,
        {
            let ghost wb = writes@;
            let p = pending.elem_at(w).clone();
            match self.paths.get(&p) {
                Some(pn) => {
                    match pn.document() {
                        Some(d) => {
                            let fmt = crate::path_node::path_format(&p);
                            let doc = d.to_document(fmt);
                            let ghost prev = writes@;
                            writes.push(DocumentWrite { path: p, document: doc });
                            proof {
                                assert(writes@[writes@.len() - 1].path@ == pending.eseq()[
                                    w as int
                                ]);
                                assert forall|a: int, b: int|
                                    0 <= a < b < writes@.len() implies (
                                #[trigger] writes@[a]).path@ != (#[trigger] writes@[b]).path@ by {
                                    if b == writes@.len() - 1 {
                                        let e = choose|e: int|
                                            0 <= e < w && pending.eseq()[e] == (
                                            #[trigger] writes@[a]).path@;
                                        assert(pending.eseq()[e] != pending.eseq()[w as int]);
                                    }
                                }
                            }
                        },
                        None => {},
                    }
                },
                None => {},
            }
            proof {
                assert(pending.eseq().contains(pending.eseq()[w as int]));
                assert forall|e: int|
                    0 <= e < w + 1 && (stf.paths.dom().contains(#[trigger] pending.eseq()[e])
                        && stf.paths[pending.eseq()[e]].document is Some) implies exists|a: int|
                    0 <= a < writes@.len() && (#[trigger] writes@[a]).path@
                        == pending.eseq()[e] by {
                    if e < w {
                        let a = choose|a: int|
                            0 <= a < wb.len() && (#[trigger] wb[a]).path@ == pending.eseq()[e];
                        assert(writes@[a].path@ == pending.eseq()[e]);
                    } else {
                        assert(writes@[writes@.len() - 1].path@ == pending.eseq()[w as int]);
                    }
                }
            }
            w = w + 1;
        }
        proof {
            assert forall|p: Seq<char>| #[trigger]
                stf.pending.contains(p) implies (stf.paths.dom().contains(p) && stf.paths[
                p
            ].document is Some) ==> exists|a: int|
                0 <= a < writes@.len() && (#[trigger] writes@[a]).path@ == p by {
                if stf.paths.dom().contains(p) && stf.paths[p].document is Some {
                    assert(pending@.contains(p));
                    assert(pending.eseq().contains(p));
                    let e = choose|e: int|
                        0 <= e < pending.eseq().len() && pending.eseq()[e] == p;
                    assert(0 <= e < np);
                }
            }
        }
        writes
    }
}

/// Every check spawned by a stage-one instruction is a connection check.
proof fn lemma_s1_extras_shape(st: GraphStateV, u: GraphUpdateV, j: int)
    requires
        0 <= j < spec_s1(st, u).1.len(),
    ensures
        spec_s1(st, u).1[j] matches GraphUpdateV::CheckConnection { .. },
{
    match u {
        GraphUpdateV::AddNode { id, path } => {
            if st.ic.dom().contains(id) {
                lemma_extras_shape(st.ic[id], id, j);
            }
        },
        _ => {},
    }
}

proof fn lemma_extras_shape(s: Seq<u128>, id: u128, j: int)
    requires
        0 <= j < extras_of(s, id).len(),
    ensures
        extras_of(s, id)[j] matches GraphUpdateV::CheckConnection { .. },
    decreases s.len(),
{
    if s.len() > 0 {
        if s[0] == id {
            lemma_extras_shape(s.drop_first(), id, j);
        } else {
            if j > 0 {
                lemma_extras_shape(s.drop_first(), id, j - 1);
            }
        }
    }
}

/// Every entry whose value is `from` rewritten to `to`.
pub open spec fn spec_rewrite_values(
    m: Map<u128, Seq<char>>,
    from: Seq<char>,
    to: Seq<char>,
) -> Map<u128, Seq<char>> {
    Map::new(
        |id: u128| m.dom().contains(id),
        |id: u128|
            if m[id] == from {
                to
            } else {
                m[id]
            },
    )
}

/// One rename applied to the whole state: the path node moves to its new
/// key with its internal path rewritten, and every node-map and index entry
/// pointing at the old path points at the new one.
pub open spec fn spec_rename(st: GraphStateV, from: Seq<char>, to: Seq<char>) -> GraphStateV {
    if st.paths.dom().contains(from) {
        let pn = st.paths[from];
        GraphStateV {
            nodes: spec_rewrite_values(st.nodes, from, to),
            indices: Map::new(
                |n: Seq<char>| st.indices.dom().contains(n),
                |n: Seq<char>| spec_rewrite_values(st.indices[n], from, to),
            ),
            paths: st.paths.remove(from).insert(
                to,
                (crate::path_node::PathNodeV { path: to, ..pn }),
            ),
            ..st
        }
    } else {
        st
    }
}

pub open spec fn spec_rename_all(st: GraphStateV, rs: Seq<(Seq<char>, Seq<char>)>) -> GraphStateV
    decreases rs.len(),
{
    if rs.len() == 0 {
        st
    } else {
        spec_rename_all(spec_rename(st, rs[0].0, rs[0].1), rs.drop_first())
    }
}

proof fn lemma_rename_all_snoc(st: GraphStateV, rs: Seq<(Seq<char>, Seq<char>)>, p: (
    Seq<char>,
    Seq<char>,
))
    ensures
        spec_rename_all(st, rs.push(p)) == spec_rename(spec_rename_all(st, rs), p.0, p.1),
    decreases rs.len(),
{
    reveal_with_fuel(spec_rename_all, 3);
    if rs.len() == 0 {
        assert(rs.push(p).drop_first() =~= Seq::<(Seq<char>, Seq<char>)>::empty());
        assert(rs.push(p)[0] == p);
    } else {
        assert(rs.push(p)[0] == rs[0]);
        assert(rs.push(p).drop_first() =~= rs.drop_first().push(p));
        lemma_rename_all_snoc(spec_rename(st, rs[0].0, rs[0].1), rs.drop_first(), p);
    }
}

/// A rename never changes which node ids are live, nor the
/// invalid-connection index, so the invalid-connection invariants survive.
pub proof fn lemma_rename_inv(st: GraphStateV, from: Seq<char>, to: Seq<char>)
    requires
        inv_targets(st),
    ensures
        inv_targets(spec_rename(st, from, to)),
{
    let st2 = spec_rename(st, from, to);
    assert(st2.ic == st.ic);
    assert forall|t: u128, j: int|
        #![trigger st2.ic[t][j]]
        st2.ic.dom().contains(t) && 0 <= j < st2.ic[t].len() implies (!st2.nodes.dom().contains(t)
        || st2.ic[t][j] == t) by {
        assert(st.ic[t][j] == st2.ic[t][j]);
        assert(st2.nodes.dom().contains(t) ==> st.nodes.dom().contains(t));
    }
}

impl Graph {
    /// Rewrites every value equal to `from` in a node-to-path map.
    #[verifier::loop_isolation(false)]
    fn rewrite_values(m: &mut KeyMap<u128, String>, from: &String, to: &String)
        requires
            old(m).wf(),
        ensures
            final(m).wf(),
            final(m)@ == spec_rewrite_values(old(m)@, from@, to@),
    {
        let ghost m0 = m@;
        let n = m.num_entries();
        let mut i: usize = 0;
        while i < n
            invariant
                m.wf(),
                n == m.kseq().len(),
                0 <= i <= n,
                m.kseq() == old(m).kseq(),
                forall|q: u128| m@.dom().contains(q) <==> m0.dom().contains(q),
                forall|j: int|
                    0 <= j < i ==> m@[#[trigger] m.kseq()[j]] == (if m0[m.kseq()[j]] == from@ {
                        to@
                    } else {
                        m0[m.kseq()[j]]
                    }),
                forall|j: int| i <= j < n ==> m@[#[trigger] m.kseq()[j]] == m0[m.kseq()[j]],
            decreases n - i,
        {
            proof {
                m.lemma_view_props();
                assert(m.kseq().contains(m.kseq()[i as int]));
            }
            let ghost ks = m.kseq();
            let ghost before = m@;
            let matches_from = m.val_at(i).eq(from);
            if matches_from {
                m.replace_val_at(i, to.clone());
            }
            proof {
                m.lemma_view_props();
                assert forall|q: u128| m@.dom().contains(q) <==> m0.dom().contains(q) by {
                    if q == ks[i as int] {
                        assert(before.dom().contains(q));
                    }
                }
                assert forall|j: int|
                    0 <= j < i + 1 implies m@[#[trigger] m.kseq()[j]] == (if m0[m.kseq()[j]]
                    == from@ {
                    to@
                } else {
                    m0[m.kseq()[j]]
                }) by {
                    if j < i {
                        assert(ks[j] != ks[i as int]);
                        assert(m@[ks[j]] == before[ks[j]]);
                    }
                }
                assert forall|j: int|
                    i + 1 <= j < n implies m@[#[trigger] m.kseq()[j]] == m0[m.kseq()[j]] by {
                    assert(ks[j] != ks[i as int]);
                    assert(m@[ks[j]] == before[ks[j]]);
                }
            }
            i = i + 1;
        }
        proof {
            m.lemma_view_props();
            assert(m@ =~= spec_rewrite_values(m0, from@, to@)) by {
                assert forall|q: u128|
                    m0.dom().contains(q) implies m@[q] == spec_rewrite_values(m0, from@, to@)[
                    q
                ] by {
                    assert(m.kseq().contains(q));
                    let j = choose|j: int| 0 <= j < m.kseq().len() && m.kseq()[j] == q;
                    assert(m@[m.kseq()[j]] == (if m0[m.kseq()[j]] == from@ {
                        to@
                    } else {
                        m0[m.kseq()[j]]
                    }));
                }
            }
        }
    }

    /// Fully processes an array of renames, in order: each moves the path
    /// node to its new key and redirects every map entry that pointed at the
    /// old path.
    #[verifier::loop_isolation(false)]
    pub fn process_renames(&mut self, renames: Vec<(String, String)>)
        requires
            old(self).wf(),
        ensures
            final(self).wf(),
            final(self).st(Set::empty()) == spec_rename_all(
                old(self).st(Set::empty()),
                renames@.map_values(|p: (String, String)| (p.0@, p.1@)),
            ),
            final(self).st(Set::empty()).ic == old(self).st(Set::empty()).ic,
    {
        let ghost st0 = old(self).st(Set::empty());
        let ghost rsv = renames@.map_values(|p: (String, String)| (p.0@, p.1@));
        let n = renames.len();
        let mut k: usize = 0;
        while k < n
            invariant
                self.wf(),
                0 <= k <= n,
                n == renames@.len(),
                self.st(Set::empty()) == spec_rename_all(st0, rsv.take(k as int)),
            decreases n - k,
        {
            proof {
                assert(rsv.take(k + 1) =~= rsv.take(k as int).push(rsv[k as int]));
                lemma_rename_all_snoc(st0, rsv.take(k as int), rsv[k as int]);
            }
            let ghost stk = self.st(Set::empty());
            let from = &renames[k].0;
            let to = &renames[k].1;
            match self.paths.remove(from) {
                Some(mut pn) => {
                    pn.path = to.clone();
                    // Make sure all its nodes point at the new path, in the
                    // global map and in every index.
                    Self::rewrite_values(&mut self.nodes, from, to);
                    let ni = self.indices.num_entries();
                    let ghost idx0 = self.indices@;
                    let mut x: usize = 0;
                    while x < ni
                        invariant
                            self.indices.wf(),
                            self.paths.wf(),
                            self.nodes.wf(),
                            self.invalid_connections.wf(),
                            self.paths@ == stk.paths.remove(from@),
                            self.nodes@ == spec_rewrite_values(stk.nodes, from@, to@),
                            self.invalid_connections@ == stk.ic,
                            0 <= x <= ni,
                            ni == self.indices.kseq().len(),
                            idx0 == stk.indices,
                            forall|q: Seq<char>|
                                self.indices@.dom().contains(q) <==> idx0.dom().contains(q),
                            forall|j: int|
                                0 <= j < x ==> self.indices@[#[trigger] self.indices.kseq()[j]]
                                    == spec_rewrite_values(
                                    idx0[self.indices.kseq()[j]],
                                    from@,
                                    to@,
                                ),
                            forall|j: int|
                                x <= j < ni ==> self.indices@[#[trigger] self.indices.kseq()[j]]
                                    == idx0[self.indices.kseq()[j]],
                        decreases ni - x,
                    {
                        proof {
                            self.indices.lemma_view_props();
                            assert(self.indices.kseq().contains(self.indices.kseq()[x as int]));
                        }
                        let ghost iks = self.indices.kseq();
                        let ghost ibefore = self.indices@;
                        let dummy: KeyMap<u128, String> = KeyMap::new();
                        let mut sub = self.indices.replace_val_at(x, dummy);
                        Self::rewrite_values(&mut sub, from, to);
                        self.indices.replace_val_at(x, sub);
                        proof {
                            self.indices.lemma_view_props();
                            assert forall|q: Seq<char>|
                                self.indices@.dom().contains(q) <==> idx0.dom().contains(q) by {
                                if q == iks[x as int] {
                                    assert(ibefore.dom().contains(q));
                                }
                            }
                            assert forall|j: int|
                                0 <= j < x + 1 implies self.indices@[
                                #[trigger] self.indices.kseq()[j]] == spec_rewrite_values(
                                idx0[self.indices.kseq()[j]],
                                from@,
                                to@,
                            ) by {
                                if j < x {
                                    assert(iks[j] != iks[x as int]);
                                    assert(self.indices@[iks[j]] == ibefore[iks[j]]);
                                }
                            }
                            assert forall|j: int|
                                x + 1 <= j < ni implies self.indices@[
                                #[trigger] self.indices.kseq()[j]] == idx0[self.indices.kseq()[
                                j
                            ]] by {
                                assert(iks[j] != iks[x as int]);
                                assert(self.indices@[iks[j]] == ibefore[iks[j]]);
                            }
                        }
                        x = x + 1;
                    }
                    self.paths.insert(to.clone(), pn);
                    proof {
                        self.indices.lemma_view_props();
                        assert(self.indices@ =~= Map::new(
                            |q: Seq<char>| stk.indices.dom().contains(q),
                            |q: Seq<char>| spec_rewrite_values(stk.indices[q], from@, to@),
                        )) by {
                            assert forall|q: Seq<char>|
                                stk.indices.dom().contains(q) implies self.indices@[q]
                                == spec_rewrite_values(stk.indices[q], from@, to@) by {
                                assert(self.indices.kseq().contains(q));
                                let j = choose|j: int|
                                    0 <= j < self.indices.kseq().len() && self.indices.kseq()[j]
                                        == q;
                                assert(self.indices@[self.indices.kseq()[j]]
                                    == spec_rewrite_values(
                                    idx0[self.indices.kseq()[j]],
                                    from@,
                                    to@,
                                ));
                            }
                        }
                        assert(self.st(Set::empty()) =~~= spec_rename(stk, from@, to@));
                    }
                },
                None => {
                    proof {
                        assert(self.st(Set::empty()) =~~= spec_rename(stk, from@, to@));
                    }
                },
            }
            k = k + 1;
        }
        proof {
            assert(rsv.take(n as int) =~= rsv);
            lemma_rename_all_ic(st0, rsv);
        }
    }

    /// The engine's single entry point for filesystem-originated changes:
    /// renames first, then deletions, modifications (absent paths demote to
    /// creations), and creations, diffed and applied as one batch. The final
    /// state is exactly the batch semantics of the instruction stream the
    /// patch produces against the renamed state — one diff segment per
    /// entry, in order — and the returned writes are one per distinct path
    /// the batch scheduled that still holds a document.
    #[verifier::loop_isolation(false)]
    #[verifier::rlimit(100)]
    pub fn process_fs_patch(&mut self, patch: GraphPatch, config: &Config) -> (writes: Vec<
        DocumentWrite,
    >)
        requires
            old(self).wf(),
            config.valid(),
        ensures
            final(self).wf(),
            inv_targets(old(self).st(Set::empty())) ==> inv_targets(final(self).st(Set::empty())),
            forall|i: int, j: int|
                0 <= i < j < writes@.len() ==> (#[trigger] writes@[i]).path@ != (
                #[trigger] writes@[j]).path@,
            forall|i: int|
                0 <= i < writes@.len() ==> final(self).paths@.dom().contains(
                    (#[trigger] writes@[i]).path@,
                ) && (match final(self).paths@[writes@[i].path@].document {
                    Some(d) => writes@[i].document@.root == crate::connection::spec_detokenise(
                        d.root.node,
                        d.root.map,
                        crate::path_node::spec_format_of(writes@[i].path@),
                    ) && writes@[i].document@.attributes == d.attributes,
                    None => false,
                }),
            exists|us: Seq<GraphUpdate>|
                #![trigger ups_view(us)]
                {
                    let st_ren = spec_rename_all(
                        old(self).st(Set::empty()),
                        patch.renames@.map_values(|p: (String, String)| (p.0@, p.1@)),
                    );
                    let stf = spec_batch(st_ren, ups_view(us));
                    &&& patch_instructions(
                        st_ren.paths,
                        patch.deletions@,
                        patch.modifications@,
                        patch.creations@,
                        us,
                        *config,
                    )
                    &&& final(self).st(stf.pending) == stf
                    &&& (forall|i: int|
                        0 <= i < writes@.len() ==> stf.pending.contains(
                            (#[trigger] writes@[i]).path@,
                        ))
                    &&& (forall|p: Seq<char>| #[trigger]
                        stf.pending.contains(p) ==> (stf.paths.dom().contains(p) && stf.paths[
                            p
                        ].document is Some) ==> exists|i: int|
                            0 <= i < writes@.len() && (#[trigger] writes@[i]).path@ == p)
                },
    {
        let GraphPatch { renames, deletions, creations, modifications } = patch;
        let ghost st0 = old(self).st(Set::empty());
        let ghost rsv = renames@.map_values(|p: (String, String)| (p.0@, p.1@));
        // Renames have to be fully executed before anything else so the
        // right paths are in the map for everything else.
        self.process_renames(renames);
        let ghost st_renamed = self.st(Set::empty());
        proof {
            if inv_targets(st0) {
                lemma_rename_all_inv(st0, rsv);
            }
        }
        // Deletions first (avoiding id conflicts), then modifications, then
        // creations, as one instruction list, one segment per entry.
        let mut updates: Vec<GraphUpdate> = Vec::new();
        let ghost mut segs: Seq<Seq<GraphUpdate>> = Seq::empty();
        let nd = deletions.len();
        let mut i: usize = 0;
        while i < nd
            invariant
                self.wf(),
                self.st(Set::empty()) == st_renamed,
                0 <= i <= nd,
                nd == deletions@.len(),
                forall|j: int| 0 <= j < updates@.len() ==> (#[trigger] updates@[j]).inv(),
                segs.len() == i,
                updates@ == concat_all(segs),
                forall|j: int|
                    0 <= j < i ==> del_segment(st_renamed.paths, deletions@[j], #[trigger] segs[j]),
            decreases nd - i,
        {
            // A deletion of an unknown path has nothing to act on.
            match self.paths.get(&deletions[i]) {
                Some(pn) => {
                    let mut ups = pn.delete();
                    let ghost segv = ups@;
                    proof {
                        assert forall|j: int|
                            0 <= j < ups@.len() implies (#[trigger] ups@[j]).inv() by {
                            assert(crate::path_node::legit_delete(
                                ups@[j]@,
                                pn@.document,
                                pn@.node_ids,
                                pn@.path,
                            ));
                        }
                    }
                    let ghost ub = updates@;
                    updates.append(&mut ups);
                    proof {
                        assert forall|j: int|
                            0 <= j < updates@.len() implies (#[trigger] updates@[j]).inv() by {
                            if j < ub.len() {
                                assert(updates@[j] == ub[j]);
                            }
                        }
                        lemma_concat_all_snoc(segs, segv);
                        segs = segs.push(segv);
                        assert(del_segment(st_renamed.paths, deletions@[i as int], segv));
                    }
                },
                None => {
                    proof {
                        lemma_concat_all_snoc(segs, Seq::empty());
                        segs = segs.push(Seq::empty());
                        assert(updates@ =~= concat_all(segs));
                    }
                },
            }
            i = i + 1;
        }
        let nm = modifications.len();
        let mut modifications = modifications;
        let ghost mods0 = modifications@;
        let ghost mut k: int = 0;
        while modifications.len() > 0
            invariant
                self.wf(),
                config.valid(),
                self.st(Set::empty()) == st_renamed,
                forall|j: int| 0 <= j < updates@.len() ==> (#[trigger] updates@[j]).inv(),
                nm == mods0.len(),
                0 <= k <= nm,
                modifications@ =~= mods0.skip(k),
                segs.len() == nd + k,
                updates@ == concat_all(segs),
                forall|j: int|
                    0 <= j < nd ==> del_segment(st_renamed.paths, deletions@[j], #[trigger] segs[j]),
                forall|j: int|
                    0 <= j < k ==> mod_segment(
                        st_renamed.paths,
                        mods0[j],
                        #[trigger] segs[nd + j],
                        *config,
                    ),
            decreases modifications@.len(),
        {
            let pp = modifications.remove(0);
            proof {
                assert(pp == mods0.skip(k)[0]);
                assert(pp == mods0[k]);
                assert(modifications@ =~= mods0.skip(k + 1));
            }
            let crate::patch::PathPatch { path, contents_res } = pp;
            let ghost ub = updates@;
            match self.paths.get(&path) {
                Some(pn) => {
                    let (new_node, mut ups) = pn.update(path.clone(), contents_res, config);
                    let ghost segv = ups@;
                    proof {
                        lemma_ups_inv_from_legit(ups@, pn@, new_node@, path@, *config);
                    }
                    updates.append(&mut ups);
                    let ghost ub2 = updates@;
                    let u = GraphUpdate::ModifyPathNode { path, new_node };
                    updates.push(u);
                    proof {
                        assert forall|j: int|
                            0 <= j < updates@.len() implies (#[trigger] updates@[j]).inv() by {
                            if j < ub.len() {
                                assert(updates@[j] == ub[j]);
                            } else if j < ub2.len() {
                            } else {
                                assert(updates@[j] == updates@[updates@.len() - 1]);
                            }
                        }
                        let whole = segv.push(u);
                        lemma_concat_all_snoc(segs, whole);
                        assert(updates@ =~= concat_all(segs) + whole);
                        segs = segs.push(whole);
                        assert(whole.take(whole.len() - 1) =~= segv);
                        assert(mod_segment(st_renamed.paths, mods0[k], whole, *config));
                        k = k + 1;
                    }
                },
                None => {
                    // A modification of a path we do not know: treat it as a
                    // creation.
                    let (new_node, mut ups) = PathNode::new(path, contents_res, config);
                    let ghost segv = ups@;
                    proof {
                        lemma_new_ups_inv(ups@, new_node@, *config);
                    }
                    updates.append(&mut ups);
                    let ghost ub2 = updates@;
                    let u = GraphUpdate::CreatePathNode(new_node);
                    updates.push(u);
                    proof {
                        assert forall|j: int|
                            0 <= j < updates@.len() implies (#[trigger] updates@[j]).inv() by {
                            if j < ub.len() {
                                assert(updates@[j] == ub[j]);
                            } else if j < ub2.len() {
                            } else {
                                assert(updates@[j] == updates@[updates@.len() - 1]);
                            }
                        }
                        let whole = segv.push(u);
                        lemma_concat_all_snoc(segs, whole);
                        assert(updates@ =~= concat_all(segs) + whole);
                        segs = segs.push(whole);
                        assert(whole.take(whole.len() - 1) =~= segv);
                        assert(mod_segment(st_renamed.paths, mods0[k], whole, *config));
                        k = k + 1;
                    }
                },
            }
        }
        let mut creations = creations;
        let ghost crs0 = creations@;
        let ghost ncr = crs0.len();
        let ghost mut c: int = 0;
        while creations.len() > 0
            invariant
                self.wf(),
                config.valid(),
                self.st(Set::empty()) == st_renamed,
                forall|j: int| 0 <= j < updates@.len() ==> (#[trigger] updates@[j]).inv(),
                0 <= c <= ncr,
                ncr == crs0.len(),
                creations@ =~= crs0.skip(c),
                segs.len() == nd + nm + c,
                updates@ == concat_all(segs),
                forall|j: int|
                    0 <= j < nd ==> del_segment(st_renamed.paths, deletions@[j], #[trigger] segs[j]),
                forall|j: int|
                    0 <= j < nm ==> mod_segment(
                        st_renamed.paths,
                        mods0[j],
                        #[trigger] segs[nd + j],
                        *config,
                    ),
                forall|j: int|
                    0 <= j < c ==> creation_segment(crs0[j], #[trigger] segs[nd + nm + j], *config),
            decreases creations@.len(),
        {
            let pp = creations.remove(0);
            proof {
                assert(pp == crs0.skip(c)[0]);
                assert(pp == crs0[c]);
                assert(creations@ =~= crs0.skip(c + 1));
            }
            let crate::patch::PathPatch { path, contents_res } = pp;
            let ghost ub = updates@;
            let (new_node, mut ups) = PathNode::new(path, contents_res, config);
            let ghost segv = ups@;
            proof {
                lemma_new_ups_inv(ups@, new_node@, *config);
            }
            updates.append(&mut ups);
            let ghost ub2 = updates@;
            let u = GraphUpdate::CreatePathNode(new_node);
            updates.push(u);
            proof {
                assert forall|j: int|
                    0 <= j < updates@.len() implies (#[trigger] updates@[j]).inv() by {
                    if j < ub.len() {
                        assert(updates@[j] == ub[j]);
                    } else if j < ub2.len() {
                    } else {
                        assert(updates@[j] == updates@[updates@.len() - 1]);
                    }
                }
                let whole = segv.push(u);
                lemma_concat_all_snoc(segs, whole);
                assert(updates@ =~= concat_all(segs) + whole);
                segs = segs.push(whole);
                assert(whole.take(whole.len() - 1) =~= segv);
                assert(creation_segment(crs0[c], whole, *config));
                c = c + 1;
            }
        }
        let ghost st_pre = self.st(Set::empty());
        let writes = self.process_updates(updates);
        proof {
            if inv_targets(st0) {
                let stf = spec_batch(st_pre, ups_view(updates@));
                assert(inv_targets(stf));
                assert(self.st(Set::empty()).nodes == stf.nodes);
                assert(self.st(Set::empty()).ic == stf.ic);
            }
            assert(patch.deletions@ == deletions@);
            assert(patch.modifications@ == mods0);
            assert(patch.creations@ == crs0);
            assert(patch.renames@.map_values(|p: (String, String)| (p.0@, p.1@)) == rsv);
            assert(patch_instructions(
                st_renamed.paths,
                patch.deletions@,
                patch.modifications@,
                patch.creations@,
                updates@,
                *config,
            )) by {
                assert(updates@ == concat_all(segs));
                assert(segs.len() == patch.deletions@.len() + patch.modifications@.len()
                    + patch.creations@.len());
            }
        }
        writes
    }

}

/// Renames preserve the invalid-connection invariants.
proof fn lemma_rename_all_inv(st: GraphStateV, rs: Seq<(Seq<char>, Seq<char>)>)
    requires
        inv_targets(st),
    ensures
        inv_targets(spec_rename_all(st, rs)),
    decreases rs.len(),
{
    if rs.len() > 0 {
        lemma_rename_inv(st, rs[0].0, rs[0].1);
        lemma_rename_all_inv(spec_rename(st, rs[0].0, rs[0].1), rs.drop_first());
    }
}

/// The concatenation of a list of instruction segments.
pub open spec fn concat_all(segs: Seq<Seq<GraphUpdate>>) -> Seq<GraphUpdate>
    decreases segs.len(),
{
    if segs.len() == 0 {
        Seq::empty()
    } else {
        segs[0] + concat_all(segs.drop_first())
    }
}

pub proof fn lemma_concat_all_snoc(segs: Seq<Seq<GraphUpdate>>, s: Seq<GraphUpdate>)
    ensures
        concat_all(segs.push(s)) == concat_all(segs) + s,
    decreases segs.len(),
{
    reveal_with_fuel(concat_all, 3);
    if segs.len() == 0 {
        assert(segs.push(s).drop_first() =~= Seq::<Seq<GraphUpdate>>::empty());
        assert(segs.push(s)[0] == s);
        assert(s + Seq::<GraphUpdate>::empty() =~= s);
        assert(Seq::<GraphUpdate>::empty() + s =~= s);
    } else {
        assert(segs.push(s)[0] == segs[0]);
        assert(segs.push(s).drop_first() =~= segs.drop_first().push(s));
        lemma_concat_all_snoc(segs.drop_first(), s);
        assert(segs[0] + (concat_all(segs.drop_first()) + s) =~= (segs[0] + concat_all(
            segs.drop_first(),
        )) + s);
    }
}

/// The instructions one deletion contributes: the deletion diff of the
/// path's record, or nothing for an unknown path.
pub open spec fn del_segment(
    paths: Map<Seq<char>, crate::path_node::PathNodeV>,
    p: String,
    seg: Seq<GraphUpdate>,
) -> bool {
    if paths.dom().contains(p@) {
        crate::path_node::spec_delete_post(
            seg,
            paths[p@].document,
            paths[p@].node_ids,
            paths[p@].path,
        )
    } else {
        seg.len() == 0
    }
}

/// The instructions one creation contributes: the diff of the new contents
/// against an empty record, then the record itself.
pub open spec fn creation_segment(
    pp: crate::patch::PathPatch,
    seg: Seq<GraphUpdate>,
    config: Config,
) -> bool {
    seg.len() >= 1 && match seg[seg.len() - 1]@ {
        GraphUpdateV::CreatePathNode(new_node) => new_node.path == pp.path@
            && crate::path_node::spec_update_post(
            seg.take(seg.len() - 1),
            None,
            Set::<u128>::empty(),
            new_node,
            pp.path@,
            pp.contents_res,
            config,
        ),
        _ => false,
    }
}

/// The instructions one modification contributes: the diff of the new
/// contents against the path's record, then the replacement record — or a
/// creation segment when the path is unknown.
pub open spec fn mod_segment(
    paths: Map<Seq<char>, crate::path_node::PathNodeV>,
    pp: crate::patch::PathPatch,
    seg: Seq<GraphUpdate>,
    config: Config,
) -> bool {
    if paths.dom().contains(pp.path@) {
        seg.len() >= 1 && match seg[seg.len() - 1]@ {
            GraphUpdateV::ModifyPathNode { path, new_node } => path == pp.path@ && new_node.path
                == pp.path@ && crate::path_node::spec_update_post(
                seg.take(seg.len() - 1),
                paths[pp.path@].document,
                paths[pp.path@].node_ids,
                new_node,
                pp.path@,
                pp.contents_res,
                config,
            ),
            _ => false,
        }
    } else {
        creation_segment(pp, seg, config)
    }
}

/// `us` is exactly the instruction stream a patch produces against the
/// renamed state: one segment per deletion, modification, and creation, in
/// that order, each meeting the corresponding diff's contract.
pub open spec fn patch_instructions(
    paths: Map<Seq<char>, crate::path_node::PathNodeV>,
    dels: Seq<String>,
    mods: Seq<crate::patch::PathPatch>,
    crs: Seq<crate::patch::PathPatch>,
    us: Seq<GraphUpdate>,
    config: Config,
) -> bool {
    exists|segs: Seq<Seq<GraphUpdate>>|
        {
            &&& us == #[trigger] concat_all(segs)
            &&& segs.len() == dels.len() + mods.len() + crs.len()
            &&& (forall|i: int|
                0 <= i < dels.len() ==> del_segment(paths, dels[i], #[trigger] segs[i]))
            &&& (forall|i: int|
                0 <= i < mods.len() ==> mod_segment(
                    paths,
                    mods[i],
                    #[trigger] segs[dels.len() + i],
                    config,
                ))
            &&& (forall|i: int|
                0 <= i < crs.len() ==> creation_segment(
                    crs[i],
                    #[trigger] segs[dels.len() + mods.len() + i],
                    config,
                ))
        }
}

/// The invalid-connection index is untouched by renames.
proof fn lemma_rename_all_ic(st: GraphStateV, rs: Seq<(Seq<char>, Seq<char>)>)
    ensures
        spec_rename_all(st, rs).ic == st.ic,
        spec_rename_all(st, rs).pending == st.pending,
    decreases rs.len(),
{
    if rs.len() > 0 {
        lemma_rename_all_ic(spec_rename(st, rs[0].0, rs[0].1), rs.drop_first());
    }
}

/// Instructions from a diff carry no path-node payloads, so they trivially
/// satisfy the payload invariant.
proof fn lemma_ups_inv_from_legit(
    ups: Seq<GraphUpdate>,
    pn: crate::path_node::PathNodeV,
    new_node: crate::path_node::PathNodeV,
    path: Seq<char>,
    config: crate::config::Config,
)
    requires
        forall|j: int|
            0 <= j < ups.len() ==> match new_node.document {
                Some(nd) => crate::path_node::legit_update(
                    (#[trigger] ups[j])@,
                    pn.document,
                    pn.node_ids,
                    nd,
                    path,
                ),
                None => false,
            } || ups.len() == 0,
    ensures
        forall|j: int| 0 <= j < ups.len() ==> (#[trigger] ups[j]).inv(),
{
    assert forall|j: int| 0 <= j < ups.len() implies (#[trigger] ups[j]).inv() by {
        match ups[j] {
            GraphUpdate::CreatePathNode(_) => {
                assert(ups[j]@ matches GraphUpdateV::CreatePathNode(_));
            },
            GraphUpdate::ModifyPathNode { .. } => {
                assert(ups[j]@ matches GraphUpdateV::ModifyPathNode { .. });
            },
            _ => {},
        }
    }
}

proof fn lemma_new_ups_inv(
    ups: Seq<GraphUpdate>,
    new_node: crate::path_node::PathNodeV,
    config: crate::config::Config,
)
    requires
        forall|j: int|
            0 <= j < ups.len() ==> match new_node.document {
                Some(nd) => crate::path_node::legit_update(
                    (#[trigger] ups[j])@,
                    None,
                    Set::<u128>::empty(),
                    nd,
                    new_node.path,
                ),
                None => false,
            } || ups.len() == 0,
    ensures
        forall|j: int| 0 <= j < ups.len() ==> (#[trigger] ups[j]).inv(),
{
    assert forall|j: int| 0 <= j < ups.len() implies (#[trigger] ups[j]).inv() by {
        match ups[j] {
            GraphUpdate::CreatePathNode(_) => {
                assert(ups[j]@ matches GraphUpdateV::CreatePathNode(_));
            },
            GraphUpdate::ModifyPathNode { .. } => {
                assert(ups[j]@ matches GraphUpdateV::ModifyPathNode { .. });
            },
            _ => {},
        }
    }
}

} // verus!
