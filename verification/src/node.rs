//! The query surface's view of one node: everything a client may ask about
//! it, assembled under read access from the graph's maps.

use crate::connection::SingleConnectedNode;
use crate::document::{Format, StarlingTimestamp};
use crate::graph::Graph;
use crate::keymap::{KeyMap, Stored};
use vstd::prelude::*;

verus! {

/// A connection with (either to or from) another node: its raw title and
/// the types of the variants. The other node's id is the map key.
#[derive(PartialEq, Eq, Debug, Clone)]
pub struct NodeConnection {
    /// The other node's rendered title.
    pub title: String,
    /// The types of the connection's variants.
    pub types: Vec<String>,
}

pub struct NodeConnectionV {
    pub title: Seq<char>,
    pub types: Seq<Seq<char>>,
}

impl View for NodeConnection {
    type V = NodeConnectionV;

    open spec fn view(&self) -> NodeConnectionV {
        NodeConnectionV { title: self.title@, types: self.types@.map_values(|t: String| t@) }
    }
}

impl Stored for NodeConnection {
    open spec fn inv(&self) -> bool {
        true
    }

    fn duplicate(&self) -> (r: Self)
        ensures
            r@ == self@,
            r.inv(),
    {
        let mut types: Vec<String> = Vec::new();
        let n = self.types.len();
        let mut i: usize = 0;
        while i < n
            invariant
                n == self.types@.len(),
                0 <= i <= n,
                types@.len() == i,
                forall|j: int| 0 <= j < i ==> (#[trigger] types@[j])@ == self.types@[j]@,
            decreases n - i,
        {
            types.push(self.types[i].clone());
            i = i + 1;
        }
        let r = NodeConnection { title: self.title.clone(), types };
        proof {
            assert(r@.types =~= self@.types);
        }
        r
    }
}

/// Metadata about a node, for transmission.
pub struct NodeMetadata {
    /// The level of this node: 0 for a root.
    pub level: u8,
    /// The priority note on the heading, if present.
    pub priority: Option<String>,
    pub deadline: Option<StarlingTimestamp>,
    pub scheduled: Option<StarlingTimestamp>,
    pub closed: Option<StarlingTimestamp>,
    /// The freeform properties of the node.
    pub properties: Vec<(String, String)>,
    /// The action keyword at the start of the node, if present.
    pub keyword: Option<String>,
    /// Timestamps at the end of the node.
    pub timestamps: Vec<StarlingTimestamp>,
}

/// All the information about a single node in the graph, regulated by
/// [`NodeOptions`].
pub struct Node {
    pub id: u128,
    /// The node's rendered title.
    pub title: String,
    /// The path the node came from.
    pub path: String,
    /// The tags on the node itself.
    pub tags: Vec<String>,
    /// The tags inherited from the node's ancestors.
    pub parent_tags: Vec<String>,
    /// The metadata, if requested.
    pub metadata: Option<NodeMetadata>,
    /// The rendered body, if requested and present.
    pub body: Option<String>,
    /// The ids of the direct children, if requested.
    pub children: Vec<u128>,
    /// Valid connections out of this node, if requested.
    pub connections: KeyMap<u128, NodeConnection>,
    /// Valid connections out of the node's descendants, if requested.
    pub child_connections: KeyMap<u128, NodeConnection>,
    /// Connections from other nodes to this node, if requested.
    pub backlinks: KeyMap<u128, NodeConnection>,
    /// Connections from other nodes to this node's descendants, if
    /// requested.
    pub child_backlinks: KeyMap<u128, NodeConnection>,
}

/// Which fields of a [`Node`] a query wants.
pub struct NodeOptions {
    /// Whether to return the body (it may be arbitrarily large).
    pub body: bool,
    /// Whether to return metadata.
    pub metadata: bool,
    /// Whether to return the ids of direct children.
    pub children: bool,
    /// Whether to return connections and backlinks.
    pub connections: bool,
    /// Whether to also return connections and backlinks of descendants;
    /// ignored unless `connections` is set.
    pub child_connections: bool,
    /// The format links in titles are rendered in.
    pub conn_format: Format,
}

impl NodeOptions {
    pub fn new(format: Format) -> (r: Self)
        ensures
            !r.body && !r.metadata && !r.children && !r.connections && !r.child_connections
                && r.conn_format == format,
    {
        NodeOptions {
            body: false,
            metadata: false,
            children: false,
            connections: false,
            child_connections: false,
            conn_format: format,
        }
    }

    pub fn body(self, v: bool) -> (r: Self)
        ensures
            r == (NodeOptions { body: v, ..self }),
    {
        NodeOptions { body: v, ..self }
    }

    pub fn metadata(self, v: bool) -> (r: Self)
        ensures
            r == (NodeOptions { metadata: v, ..self }),
    {
        NodeOptions { metadata: v, ..self }
    }

    pub fn children(self, v: bool) -> (r: Self)
        ensures
            r == (NodeOptions { children: v, ..self }),
    {
        NodeOptions { children: v, ..self }
    }

    pub fn connections(self, v: bool) -> (r: Self)
        ensures
            r == (NodeOptions { connections: v, ..self }),
    {
        NodeOptions { connections: v, ..self }
    }

    pub fn child_connections(self, v: bool) -> (r: Self)
        ensures
            r == (NodeOptions { child_connections: v, ..self }),
    {
        NodeOptions { child_connections: v, ..self }
    }
}

/// Whether `long` extends `short` by at least one index: the node at `long`
/// is a strict descendant of the node at `short`.
pub open spec fn position_extends(long: Seq<usize>, short: Seq<usize>) -> bool {
    long.len() > short.len() && long.take(short.len() as int) == short
}

/// Whether `long` strictly extends `short`.
fn position_extends_exec(long: &Vec<usize>, short: &Vec<usize>) -> (r: bool)
    ensures
        r == position_extends(long@, short@),
{
    let nl = long.len();
    let ns = short.len();
    if nl <= ns {
        return false;
    }
    let mut i: usize = 0;
    while i < ns
        invariant
            ns < nl,
            nl == long@.len(),
            ns == short@.len(),
            0 <= i <= ns,
            forall|j: int| 0 <= j < i ==> long@[j] == short@[j],
        decreases ns - i,
    {
        if long[i] != short[i] {
            proof {
                assert(long@.take(ns as int)[i as int] != short@[i as int]);
            }
            return false;
        }
        i = i + 1;
    }
    proof {
        assert(long@.take(ns as int) =~= short@);
    }
    true
}

impl Graph {
    /// Gets the details of the node with the given id, if it exists.
    ///
    /// The basics (title, path, tags) always come back; the body, metadata,
    /// direct children, and connection information come back as requested in
    /// the options. Valid connections carry the target's rendered title and
    /// the variant types; backlinks carry the source's title and the types
    /// it used. Descendant information aggregates over every node of this
    /// path whose position extends the requested node's.
    #[verifier::loop_isolation(false)]
    #[verifier::rlimit(100)]
    pub fn get_node(&self, id: u128, options: NodeOptions) -> (r: Option<Node>)
        requires
            self.wf(),
        ensures
            match r {
                Some(node) => {
                    &&& self.nodes@.dom().contains(id)
                    &&& node.id == id
                    &&& node.path@ == self.nodes@[id]
                    &&& self.paths@.dom().contains(self.nodes@[id])
                    &&& (match self.paths@[self.nodes@[id]].document {
                        Some(d) => d.root.map.dom().contains(id) && node.title@
                            == crate::connection::spec_render(
                            d.root.map[id].title,
                            d.root.map[id].connections,
                            options.conn_format,
                        ) && (match node.body {
                            Some(b) => options.body && d.root.map[id].body is Some && b@
                                == crate::connection::spec_render(
                                d.root.map[id].body.unwrap(),
                                d.root.map[id].connections,
                                options.conn_format,
                            ),
                            None => !options.body || d.root.map[id].body is None,
                        }),
                        None => false,
                    })
                    &&& (match node.metadata {
                        Some(_) => options.metadata,
                        None => true,
                    })
                    &&& (!options.children ==> node.children@.len() == 0)
                    &&& (!options.connections ==> node.connections@.dom() == Set::<u128>::empty()
                        && node.backlinks@.dom() == Set::<u128>::empty())
                },
                None => !self.nodes@.dom().contains(id) || !self.paths@.dom().contains(
                    self.nodes@[id],
                ) || (match self.paths@[self.nodes@[id]].document {
                    Some(d) => !d.root.map.dom().contains(id),
                    None => true,
                }),
            },
    {
        let node_path = match self.nodes.get(&id) {
            Some(p) => p.clone(),
            None => {
                return None;
            },
        };
        let path_node = match self.paths.get(&node_path) {
            Some(pn) => pn,
            None => {
                return None;
            },
        };
        let document = match path_node.document() {
            Some(d) => d,
            None => {
                return None;
            },
        };
        let connected_node = match document.root.node(&id) {
            Some(scn) => scn,
            None => {
                return None;
            },
        };
        let title = connected_node.title(options.conn_format);
        let body = if options.body {
            connected_node.body(options.conn_format)
        } else {
            None
        };
        // Walk from the root along the stored position to the raw node,
        // collecting ancestor tags; a stale position stops early and yields
        // what has been gathered.
        let mut parent_tags: Vec<String> = Vec::new();
        let mut tags: Vec<String> = Vec::new();
        let mut metadata: Option<NodeMetadata> = None;
        let mut children: Vec<u128> = Vec::new();
        let position = connected_node.position();
        let mut curr = document.root.scrubbed_node();
        let np = position.len();
        let mut step: usize = 0;
        let mut lost = false;
        while step < np && !lost
            invariant
                0 <= step <= np,
                np == position@.len(),
            decreases np - step, (if lost {
                0int
            } else {
                1int
            }),
        {
            let idx = position[step];
            if idx < curr.children.len() {
                let mut t: usize = 0;
                let nt = curr.tags.len();
                while t < nt
                    invariant
                        0 <= t <= nt,
                        nt == curr.tags@.len(),
                    decreases nt - t,
                {
                    parent_tags.push(curr.tags[t].clone());
                    t = t + 1;
                }
                curr = &curr.children[idx];
            } else {
                lost = true;
            }
            step = step + 1;
        }
        if !lost {
            let nt = curr.tags.len();
            let mut t: usize = 0;
            while t < nt
                invariant
                    0 <= t <= nt,
                    nt == curr.tags@.len(),
                decreases nt - t,
            {
                tags.push(curr.tags[t].clone());
                t = t + 1;
            }
            if options.children {
                let nk = curr.children.len();
                let mut k: usize = 0;
                while k < nk
                    invariant
                        0 <= k <= nk,
                        nk == curr.children@.len(),
                    decreases nk - k,
                {
                    children.push(curr.children[k].id);
                    k = k + 1;
                }
            }
            if options.metadata {
                let raw = curr.duplicate();
                metadata = Some(
                    NodeMetadata {
                        level: raw.level,
                        priority: raw.priority,
                        deadline: raw.deadline,
                        scheduled: raw.scheduled,
                        closed: raw.closed,
                        properties: raw.properties,
                        keyword: raw.keyword,
                        timestamps: raw.timestamps,
                    },
                );
            }
        }
        // Connection information, if requested.
        let mut connections: KeyMap<u128, NodeConnection> = KeyMap::new();
        let mut backlinks: KeyMap<u128, NodeConnection> = KeyMap::new();
        let mut child_connections: KeyMap<u128, NodeConnection> = KeyMap::new();
        let mut child_backlinks: KeyMap<u128, NodeConnection> = KeyMap::new();
        if options.connections {
            self.collect_connections(
                connected_node,
                options.conn_format,
                &mut connections,
                &mut backlinks,
            );
            if options.child_connections {
                // Descendants are exactly the nodes of this path whose
                // position extends ours.
                let n_all = document.root.map.num_entries();
                let mut e: usize = 0;
                while e < n_all
                    invariant
                        self.wf(),
                        document.root.inv(),
                        child_connections.wf(),
                        child_backlinks.wf(),
                        0 <= e <= n_all,
                        n_all == document.root.map.kseq().len(),
                    decreases n_all - e,
                {
                    let scn = document.root.map.val_at(e);
                    if position_extends_exec(scn.position(), position) {
                        self.collect_connections(
                            scn,
                            options.conn_format,
                            &mut child_connections,
                            &mut child_backlinks,
                        );
                    }
                    e = e + 1;
                }
            }
        }
        Some(
            Node {
                id,
                title,
                path: node_path,
                tags,
                parent_tags,
                metadata,
                body,
                children,
                connections,
                child_connections,
                backlinks,
                child_backlinks,
            },
        )
    }

    /// Collects the valid connections and the backlinks of one node into the
    /// given accumulators: each valid target appears with its rendered title
    /// and the variant types used; each backlink source appears with its
    /// title and the types it used towards this node.
    #[verifier::loop_isolation(false)]
    fn collect_connections(
        &self,
        scn: &SingleConnectedNode,
        conn_format: Format,
        connections: &mut KeyMap<u128, NodeConnection>,
        backlinks: &mut KeyMap<u128, NodeConnection>,
    )
        requires
            self.wf(),
            scn.inv(),
            old(connections).wf(),
            old(backlinks).wf(),
        ensures
            final(connections).wf(),
            final(backlinks).wf(),
    {
        let conns = scn.connections();
        let nc = conns.len();
        let mut c: usize = 0;
        while c < nc
            invariant
                self.wf(),
                connections.wf(),
                0 <= c <= nc,
                nc == conns@.len(),
            decreases nc - c,
        {
            let (target, valid) = conns[c];
            if valid {
                // A valid connection's target is expected in the graph; its
                // title is read from wherever it lives.
                match self.title_and_types_of(target, scn, conn_format) {
                    Some(entry) => {
                        connections.insert(target, entry);
                    },
                    None => {},
                }
            }
            c = c + 1;
        }
        let bls = scn.backlinks();
        let nb = bls.len();
        let mut b: usize = 0;
        while b < nb
            invariant
                self.wf(),
                backlinks.wf(),
                scn.inv(),
                0 <= b <= nb,
                nb == bls@.len(),
            decreases nb - b,
        {
            let source = bls[b];
            match self.backlink_entry_of(source, scn, conn_format) {
                Some(entry) => {
                    backlinks.insert(source, entry);
                },
                None => {},
            }
            b = b + 1;
        }
    }

    /// The rendered title of `target` plus the types `scn` uses towards it,
    /// if `target` resolves in the graph.
    fn title_and_types_of(&self, target: u128, scn: &SingleConnectedNode, conn_format: Format) -> (r:
        Option<NodeConnection>)
        requires
            self.wf(),
            scn.inv(),
        ensures
            true,
    {
        let p = match self.nodes.get(&target) {
            Some(p) => p,
            None => {
                return None;
            },
        };
        let pn = match self.paths.get(p) {
            Some(pn) => pn,
            None => {
                return None;
            },
        };
        let title = match pn.display_title(target, conn_format) {
            Some(t) => t,
            None => {
                return None;
            },
        };
        let types = match scn.connections_map().get(&target) {
            Some(pc) => pc.types(),
            None => Vec::new(),
        };
        Some(NodeConnection { title, types })
    }

    /// The rendered title of a backlink's `source` plus the types it uses
    /// towards any node; `None` when the source does not resolve.
    fn backlink_entry_of(&self, source: u128, scn: &SingleConnectedNode, conn_format: Format) -> (r:
        Option<NodeConnection>)
        requires
            self.wf(),
            scn.inv(),
        ensures
            true,
    {
        let p = match self.nodes.get(&source) {
            Some(p) => p,
            None => {
                return None;
            },
        };
        let pn = match self.paths.get(p) {
            Some(pn) => pn,
            None => {
                return None;
            },
        };
        let title = match pn.display_title(source, conn_format) {
            Some(t) => t,
            None => {
                return None;
            },
        };
        Some(NodeConnection { title, types: Vec::new() })
    }

}

/// The node with the given id resolves: it is live, its path is tracked,
/// and that path's parsed document holds it.
pub open spec fn node_resolvable(
    nodes: Map<u128, Seq<char>>,
    paths: Map<Seq<char>, crate::path_node::PathNodeV>,
    id: u128,
) -> bool {
    &&& nodes.dom().contains(id)
    &&& paths.dom().contains(nodes[id])
    &&& (match paths[nodes[id]].document {
        Some(d) => d.root.map.dom().contains(id),
        None => false,
    })
}

/// The listing holds an entry for the id.
pub open spec fn node_listed(rs: Seq<Node>, id: u128) -> bool {
    exists|j: int| 0 <= j < rs.len() && (#[trigger] rs[j]).id == id
}

pub broadcast proof fn lemma_node_listed_push(s: Seq<Node>, x: Node, id: u128)
    requires
        node_listed(s, id),
    ensures
        #[trigger] node_listed(s.push(x), id),
{
    let j = choose|j: int| 0 <= j < s.len() && (#[trigger] s[j]).id == id;
    assert(s.push(x)[j].id == id);
}

impl Graph {
    /// Lists the nodes in the named index (or in the whole graph when no
    /// index is named), each resolved with the given options: exactly one
    /// entry per resolvable id of the chosen map, each on its own path;
    /// unresolvable ids are skipped, and an unknown index name yields
    /// nothing.
    #[verifier::loop_isolation(false)]
    pub fn nodes(&self, index: Option<&String>, options: &NodeOptions) -> (r: Vec<Node>)
        requires
            self.wf(),
        ensures
            forall|j: int|
                0 <= j < r@.len() ==> node_resolvable(
                    self.nodes@,
                    self.paths@,
                    (#[trigger] r@[j]).id,
                ) && r@[j].path@ == self.nodes@[r@[j].id],
            forall|x: int, y: int| 0 <= x < y < r@.len() ==> (#[trigger] r@[x]).id != (
            #[trigger] r@[y]).id,
            match index {
                Some(name) => (if self.indices@.dom().contains(name@) {
                    forall|id: u128| #[trigger]
                        self.indices@[name@].dom().contains(id) && node_resolvable(
                            self.nodes@,
                            self.paths@,
                            id,
                        ) ==> node_listed(r@, id)
                } else {
                    r@.len() == 0
                }),
                None => forall|id: u128| #[trigger]
                    self.nodes@.dom().contains(id) && node_resolvable(
                        self.nodes@,
                        self.paths@,
                        id,
                    ) ==> node_listed(r@, id),
            },
    {
        broadcast use lemma_node_listed_push;

        let mut ids: Vec<u128> = Vec::new();
        let mut known_index = true;
        match index {
            Some(name) => {
                match self.indices.get(name) {
                    Some(sub) => {
                        proof {
                            sub.lemma_view_props();
                        }
                        let n = sub.num_entries();
                        let mut i: usize = 0;
                        while i < n
                            invariant
                                sub.wf(),
                                0 <= i <= n,
                                n == sub.kseq().len(),
                                ids@.len() == i,
                                forall|j: int| 0 <= j < i ==> ids@[j] == sub.kseq()[j],
                            decreases n - i,
                        {
                            ids.push(*sub.key_at(i));
                            i = i + 1;
                        }
                        proof {
                            sub.lemma_view_props();
                            assert forall|id: u128| #[trigger]
                                sub@.dom().contains(id) implies id_listed(ids@, id) by {
                                assert(sub.kseq().contains(id));
                                let j = choose|j: int|
                                    0 <= j < sub.kseq().len() && sub.kseq()[j] == id;
                                assert(ids@[j] == id);
                            }
                            assert(ids@.no_duplicates());
                        }
                    },
                    None => {
                        known_index = false;
                    },
                }
            },
            None => {
                proof {
                    self.nodes.lemma_view_props();
                }
                let n = self.nodes.num_entries();
                let mut i: usize = 0;
                while i < n
                    invariant
                        self.wf(),
                        0 <= i <= n,
                        n == self.nodes.kseq().len(),
                        ids@.len() == i,
                        forall|j: int| 0 <= j < i ==> ids@[j] == self.nodes.kseq()[j],
                    decreases n - i,
                {
                    ids.push(*self.nodes.key_at(i));
                    i = i + 1;
                }
                proof {
                    self.nodes.lemma_view_props();
                    assert forall|id: u128| #[trigger]
                        self.nodes@.dom().contains(id) implies id_listed(ids@, id) by {
                        assert(self.nodes.kseq().contains(id));
                        let j = choose|j: int|
                            0 <= j < self.nodes.kseq().len() && self.nodes.kseq()[j] == id;
                        assert(ids@[j] == id);
                    }
                    assert(ids@.no_duplicates());
                }
            },
        }
        let mut out: Vec<Node> = Vec::new();
        let n = ids.len();
        let mut i: usize = 0;
        while i < n
            invariant
                self.wf(),
                0 <= i <= n,
                n == ids@.len(),
                ids@.no_duplicates() || ids@.len() == 0,
                forall|j: int|
                    0 <= j < out@.len() ==> node_resolvable(
                        self.nodes@,
                        self.paths@,
                        (#[trigger] out@[j]).id,
                    ) && out@[j].path@ == self.nodes@[out@[j].id],
                forall|j: int|
                    0 <= j < out@.len() ==> exists|a: int|
                        0 <= a < i && ids@[a] == (#[trigger] out@[j]).id,
                forall|x: int, y: int|
                    0 <= x < y < out@.len() ==> (#[trigger] out@[x]).id != (
                    #[trigger] out@[y]).id,
                forall|a: int|
                    0 <= a < i && node_resolvable(self.nodes@, self.paths@, #[trigger] ids@[a])
                        ==> node_listed(out@, ids@[a]),
            decreases n - i,
        {
            let opts = NodeOptions {
                body: options.body,
                metadata: options.metadata,
                children: options.children,
                connections: options.connections,
                child_connections: options.child_connections,
                conn_format: options.conn_format,
            };
            let ghost out0 = out@;
            match self.get_node(ids[i], opts) {
                Some(node) => {
                    out.push(node);
                    proof {
                        assert(out@[out@.len() - 1].id == ids@[i as int]);
                        assert(node_listed(out@, ids@[i as int])) by {
                            assert((#[trigger] out@[out@.len() - 1]).id == ids@[i as int]);
                        }
                        assert forall|j: int|
                            0 <= j < out@.len() implies node_resolvable(
                            self.nodes@,
                            self.paths@,
                            (#[trigger] out@[j]).id,
                        ) && out@[j].path@ == self.nodes@[out@[j].id] by {
                            if j < out0.len() {
                                assert(out@[j] == out0[j]);
                            }
                        }
                        assert forall|j: int|
                            0 <= j < out@.len() implies exists|a: int|
                            0 <= a < i + 1 && ids@[a] == (#[trigger] out@[j]).id by {
                            if j < out0.len() {
                                assert(out@[j] == out0[j]);
                                let a = choose|a: int|
                                    0 <= a < i && ids@[a] == (#[trigger] out0[j]).id;
                                assert(0 <= a < i + 1 && ids@[a] == out@[j].id);
                            } else {
                                assert(ids@[i as int] == out@[j].id);
                            }
                        }
                        assert forall|x: int, y: int|
                            0 <= x < y < out@.len() implies (#[trigger] out@[x]).id != (
                        #[trigger] out@[y]).id by {
                            if y == out@.len() - 1 {
                                let a = choose|a: int|
                                    0 <= a < i && ids@[a] == (#[trigger] out0[x]).id;
                                assert(ids@[a] != ids@[i as int]);
                            } else {
                                assert(out@[x] == out0[x] && out@[y] == out0[y]);
                            }
                        }
                    }
                },
                None => {
                    proof {
                        assert(!node_resolvable(self.nodes@, self.paths@, ids@[i as int]));
                    }
                },
            }
            i = i + 1;
        }
        proof {
            match index {
                Some(name) => {
                    if self.indices@.dom().contains(name@) {
                        assert forall|id: u128| #[trigger]
                            self.indices@[name@].dom().contains(id) && node_resolvable(
                            self.nodes@,
                            self.paths@,
                            id,
                        ) implies node_listed(out@, id) by {
                            assert(id_listed(ids@, id));
                            let a = choose|a: int| 0 <= a < ids@.len() && ids@[a] == id;
                            assert(node_resolvable(self.nodes@, self.paths@, ids@[a]));
                        }
                    }
                },
                None => {
                    assert forall|id: u128| #[trigger]
                        self.nodes@.dom().contains(id) && node_resolvable(
                        self.nodes@,
                        self.paths@,
                        id,
                    ) implies node_listed(out@, id) by {
                        assert(id_listed(ids@, id));
                        let a = choose|a: int| 0 <= a < ids@.len() && ids@[a] == id;
                        assert(node_resolvable(self.nodes@, self.paths@, ids@[a]));
                    }
                },
            }
        }
        out
    }

}

/// Some node of the document holds an invalid connection to `t`.
pub open spec fn invalid_target_recorded(
    d: crate::connection::ConnectedDocumentV,
    t: u128,
) -> bool {
    exists|src: u128|
        (#[trigger] d.root.map[src]).connections.dom().contains(t) && d.root.map.dom().contains(
            src,
        ) && !d.root.map[src].connections[t].valid
}

/// Node `src` of the document holds an invalid connection to `t`.
pub open spec fn node_invalid(
    d: crate::connection::ConnectedDocumentV,
    src: u128,
    t: u128,
) -> bool {
    d.root.map.dom().contains(src) && d.root.map[src].connections.dom().contains(t)
        && !d.root.map[src].connections[t].valid
}

/// The list holds the id.
pub open spec fn id_listed(ids: Seq<u128>, t: u128) -> bool {
    exists|a: int| 0 <= a < ids.len() && ids[a] == t
}

pub broadcast proof fn lemma_id_listed_push(s: Seq<u128>, x: u128, t: u128)
    requires
        id_listed(s, t),
    ensures
        #[trigger] id_listed(s.push(x), t),
{
    let a = choose|a: int| 0 <= a < s.len() && s[a] == t;
    assert(s.push(x)[a] == t);
}

impl Graph {
    /// Any errors associated with the given path: for a path whose last
    /// parse failed, the stored error's message; for a parsed path, exactly
    /// the targets of the invalid connections its nodes hold (with
    /// repetitions for shared targets). `None` for unknown paths and for
    /// paths with neither a document nor an error.
    #[verifier::loop_isolation(false)]
    pub fn errors(&self, path: &String) -> (r: Option<Result<Vec<u128>, String>>)
        requires
            self.wf(),
        ensures
            match r {
                Some(res) => self.paths@.dom().contains(path@) && (match res {
                    Ok(out) => (match self.paths@[path@].document {
                        Some(d) => {
                            &&& (forall|a: int|
                                0 <= a < out@.len() ==> invalid_target_recorded(
                                    d,
                                    #[trigger] out@[a],
                                ))
                            &&& (forall|src: u128, t: u128| #[trigger]
                                node_invalid(d, src, t) ==> id_listed(out@, t))
                        },
                        None => false,
                    }),
                    Err(msg) => self.paths@[path@].document is None && (match self.paths@[
                        path@
                    ].error {
                        Some(e) => msg@ == crate::error::spec_message(e),
                        None => false,
                    }),
                }),
                None => !self.paths@.dom().contains(path@) || (self.paths@[
                    path@
                ].document is None && self.paths@[path@].error is None),
            },
    {
        broadcast use lemma_id_listed_push;

        let pn = match self.paths.get(path) {
            Some(pn) => pn,
            None => {
                return None;
            },
        };
        match pn.document() {
            Some(d) => {
                let ghost dv = pn@.document.unwrap();
                // Collect the targets of all invalid connections in the path.
                let ids = d.root.ids();
                let n = ids.len();
                let mut out: Vec<u128> = Vec::new();
                let mut i: usize = 0;
                while i < n
                    invariant
                        self.wf(),
                        d.inv(),
                        d@ == dv,
                        0 <= i <= n,
                        n == ids@.len(),
                        forall|a: int|
                            0 <= a < out@.len() ==> invalid_target_recorded(
                                dv,
                                #[trigger] out@[a],
                            ),
                        forall|j: int, t: u128|
                            0 <= j < i && #[trigger] node_invalid(dv, ids@[j], t) ==> id_listed(
                                out@,
                                t,
                            ),
                    decreases n - i,
                {
                    match d.root.node(&ids[i]) {
                        Some(scn) => {
                            let conns = scn.connections();
                            let nc = conns.len();
                            let mut c: usize = 0;
                            while c < nc
                                invariant
                                    self.wf(),
                                    d.inv(),
                                    d@ == dv,
                                    scn@ == dv.root.map[ids@[i as int]],
                                    dv.root.map.dom().contains(ids@[i as int]),
                                    0 <= c <= nc,
                                    nc == conns@.len(),
                                    forall|a: int|
                                        0 <= a < out@.len() ==> invalid_target_recorded(
                                            dv,
                                            #[trigger] out@[a],
                                        ),
                                    forall|j: int, t: u128|
                                        0 <= j < i && #[trigger] node_invalid(dv, ids@[j], t)
                                            ==> id_listed(out@, t),
                                    forall|b: int|
                                        0 <= b < c && !(#[trigger] conns@[b]).1 ==> id_listed(
                                            out@,
                                            conns@[b].0,
                                        ),
                                decreases nc - c,
                            {
                                let (target, valid) = conns[c];
                                if !valid {
                                    let ghost out0 = out@;
                                    out.push(target);
                                    proof {
                                        assert(id_listed(out@, target)) by {
                                            assert(out@[out@.len() - 1] == target);
                                        }
                                        assert forall|a: int|
                                            0 <= a < out@.len() implies invalid_target_recorded(
                                            dv,
                                            #[trigger] out@[a],
                                        ) by {
                                            if a < out0.len() {
                                                assert(out@[a] == out0[a]);
                                                assert(invalid_target_recorded(dv, out0[a]));
                                            } else {
                                                let src = ids@[i as int];
                                                assert((#[trigger] dv.root.map[
                                                    src
                                                ]).connections.dom().contains(target)
                                                    && dv.root.map.dom().contains(src)
                                                    && !dv.root.map[src].connections[
                                                    target
                                                ].valid);
                                            }
                                        }
                                    }
                                }
                                c = c + 1;
                            }
                            proof {
                                assert forall|j: int, t: u128|
                                    0 <= j < i + 1 && #[trigger] node_invalid(
                                    dv,
                                    ids@[j],
                                    t,
                                ) implies id_listed(out@, t) by {
                                    if j == i {
                                        assert(dv.root.map[ids@[i as int]].connections.dom()
                                            .contains(t));
                                        assert(scn@.connections.dom().contains(t));
                                        let b = choose|b: int|
                                            0 <= b < conns@.len() && (#[trigger] conns@[b]).0
                                                == t;
                                        assert(conns@[b].1 == dv.root.map[
                                            ids@[i as int]
                                        ].connections[t].valid);
                                        assert(!conns@[b].1);
                                    }
                                }
                            }
                        },
                        None => {},
                    }
                    i = i + 1;
                }
                proof {
                    assert forall|src: u128, t: u128| #[trigger]
                        node_invalid(dv, src, t) implies id_listed(out@, t) by {
                        assert(dv.root.map.dom().contains(src));
                        let j = choose|j: int| 0 <= j < ids@.len() && ids@[j] == src;
                        assert(node_invalid(dv, ids@[j], t));
                    }
                }
                Some(Ok(out))
            },
            None => {
                match &pn.error {
                    Some(e) => Some(Err(e.message())),
                    None => None,
                }
            },
        }
    }

}

impl Graph {
    /// The id of the root node at the given path, if it exists and parsed.
    pub fn root_id(&self, path: &String) -> (r: Option<u128>)
        requires
            self.wf(),
        ensures
            match r {
                Some(id) => self.paths@.dom().contains(path@) && (match self.paths@[
                    path@
                ].document {
                    Some(d) => id == d.root.node.id,
                    None => false,
                }),
                None => !self.paths@.dom().contains(path@) || self.paths@[
                    path@
                ].document is None,
            },
    {
        match self.paths.get(path) {
            Some(pn) => match pn.document() {
                Some(d) => Some(d.root.scrubbed_node().id),
                None => None,
            },
            None => None,
        }
    }
}

} // verus!
