use crate::memory::opt_str_view;
use std::collections::HashMap;
use vstd::prelude::*;

verus! {

/// A node of a tenant's graph. Its identifier is chosen by the caller and is
/// unique within the tenant.
pub struct GraphNode {
    pub tenant_id: String,
    pub id: u128,
    pub node_type: String,
    pub properties: HashMap<String, serde_json::Value>,
}

/// An edge of a tenant's graph. The weight is kept as the bit pattern of an
/// IEEE-754 single. Endpoints need not name existing nodes.
pub struct GraphEdge {
    pub tenant_id: String,
    pub source_id: u128,
    pub target_id: u128,
    pub edge_type: String,
    pub weight_bits: u32,
    pub properties: HashMap<String, serde_json::Value>,
}

/// The mathematical value of a [`GraphNode`].
pub struct NodeView {
    pub tenant_id: Seq<char>,
    pub id: u128,
    pub node_type: Seq<char>,
    pub properties: Map<String, serde_json::Value>,
}

/// The mathematical value of a [`GraphEdge`].
pub struct EdgeView {
    pub tenant_id: Seq<char>,
    pub source_id: u128,
    pub target_id: u128,
    pub edge_type: Seq<char>,
    pub weight_bits: u32,
    pub properties: Map<String, serde_json::Value>,
}

impl View for GraphNode {
    type V = NodeView;

    open spec fn view(&self) -> NodeView {
        NodeView {
            tenant_id: self.tenant_id@,
            id: self.id,
            node_type: self.node_type@,
            properties: self.properties@,
        }
    }
}

impl View for GraphEdge {
    type V = EdgeView;

    open spec fn view(&self) -> EdgeView {
        EdgeView {
            tenant_id: self.tenant_id@,
            source_id: self.source_id,
            target_id: self.target_id,
            edge_type: self.edge_type@,
            weight_bits: self.weight_bits,
            properties: self.properties@,
        }
    }
}

impl GraphNode {
    /// A copy of this node that shares nothing with it.
    pub fn duplicate(&self) -> (r: GraphNode)
        ensures
            r@ == self@,
    {
        GraphNode {
            tenant_id: self.tenant_id.clone(),
            id: self.id,
            node_type: self.node_type.clone(),
            properties: self.properties.clone(),
        }
    }
}

impl GraphEdge {
    /// A copy of this edge that shares nothing with it.
    pub fn duplicate(&self) -> (r: GraphEdge)
        ensures
            r@ == self@,
    {
        GraphEdge {
            tenant_id: self.tenant_id.clone(),
            source_id: self.source_id,
            target_id: self.target_id,
            edge_type: self.edge_type.clone(),
            weight_bits: self.weight_bits,
            properties: self.properties.clone(),
        }
    }
}

/// Which endpoints a neighbour query follows.
#[derive(Clone, Copy, Debug, PartialEq, Eq, Structural)]
pub enum Direction {
    /// From a source to its targets.
    Out,
    /// From a target to its sources.
    In,
    /// Either way, as if edges were undirected.
    Both,
}

/// "out" and "in" name the directed queries; every other word is undirected.
pub open spec fn direction_of(s: Seq<char>) -> Direction {
    if s == "out"@ {
        Direction::Out
    } else if s == "in"@ {
        Direction::In
    } else {
        Direction::Both
    }
}

impl Direction {
    pub fn parse(s: &str) -> (r: Direction)
        ensures
            r == direction_of(s@),
    {
        let word = s.to_owned();
        if word == "out".to_owned() {
            Direction::Out
        } else if word == "in".to_owned() {
            Direction::In
        } else {
            Direction::Both
        }
    }
}

/// The endpoint of `e` that a query from `node` in direction `dir` reaches, if any.
pub open spec fn edge_neighbor(e: EdgeView, node: u128, dir: Direction) -> Option<u128> {
    match dir {
        Direction::Out => if e.source_id == node {
            Some(e.target_id)
        } else {
            None
        },
        Direction::In => if e.target_id == node {
            Some(e.source_id)
        } else {
            None
        },
        Direction::Both => if e.source_id == node {
            Some(e.target_id)
        } else if e.target_id == node {
            Some(e.source_id)
        } else {
            None
        },
    }
}

pub open spec fn type_matches(e: EdgeView, edge_type: Option<Seq<char>>) -> bool {
    match edge_type {
        Some(t) => e.edge_type == t,
        None => true,
    }
}

/// `n` is a one-hop neighbour of `node` in tenant `tenant`'s edges.
pub open spec fn is_neighbor(
    edges: Seq<EdgeView>,
    tenant: Seq<char>,
    node: u128,
    edge_type: Option<Seq<char>>,
    dir: Direction,
    n: u128,
) -> bool {
    exists|i: int|
        0 <= i < edges.len() && edges[i].tenant_id == tenant && type_matches(edges[i], edge_type)
            && edge_neighbor(edges[i], node, dir) == Some(n)
}

/// Edge `e` of the tenant joins `a` and `b`, in either direction.
pub open spec fn edge_link(e: EdgeView, tenant: Seq<char>, a: u128, b: u128) -> bool {
    e.tenant_id == tenant && ((e.source_id == a && e.target_id == b) || (e.target_id == a
        && e.source_id == b))
}

/// Some edge of the tenant joins `a` and `b`, in either direction.
pub open spec fn linked(edges: Seq<EdgeView>, tenant: Seq<char>, a: u128, b: u128) -> bool {
    exists|i: int| 0 <= i < edges.len() && #[trigger] edge_link(edges[i], tenant, a, b)
}

/// `p` is a walk of at least one node along the tenant's edges, taken undirected.
pub open spec fn is_walk(edges: Seq<EdgeView>, tenant: Seq<char>, p: Seq<u128>) -> bool {
    &&& p.len() >= 1
    &&& forall|k: int| 0 <= k < p.len() - 1 ==> linked(edges, tenant, p[k], #[trigger] p[k + 1])
}

/// Some walk of at most `n` nodes leads from `source` to `x`.
pub open spec fn reach(edges: Seq<EdgeView>, tenant: Seq<char>, source: u128, x: u128, n: int) -> bool {
    exists|p: Seq<u128>|
        #[trigger] is_walk(edges, tenant, p) && p[0] == source && p.last() == x && p.len() <= n
}

/// The items of `s` that satisfy `keep`, in order.
pub open spec fn kept(s: Seq<EdgeView>, keep: spec_fn(EdgeView) -> bool) -> Seq<EdgeView>
    decreases s.len(),
{
    if s.len() == 0 {
        Seq::empty()
    } else {
        let rest = kept(s.drop_last(), keep);
        if keep(s.last()) {
            rest.push(s.last())
        } else {
            rest
        }
    }
}

pub open spec fn touches(e: EdgeView, tenant: Seq<char>, id: u128) -> bool {
    e.tenant_id == tenant && (e.source_id == id || e.target_id == id)
}

pub open spec fn exact_edge(
    e: EdgeView,
    tenant: Seq<char>,
    source: u128,
    target: u128,
    edge_type: Seq<char>,
) -> bool {
    e.tenant_id == tenant && e.source_id == source && e.target_id == target && e.edge_type
        == edge_type
}

pub open spec fn inside(e: EdgeView, tenant: Seq<char>, ids: Seq<u128>) -> bool {
    e.tenant_id == tenant && ids.contains(e.source_id) && ids.contains(e.target_id)
}

/// The tenant's edges with both endpoints in `ids`, in order.
pub open spec fn induced(edges: Seq<EdgeView>, tenant: Seq<char>, ids: Seq<u128>) -> Seq<EdgeView> {
    kept(edges, |e: EdgeView| inside(e, tenant, ids))
}

pub open spec fn node_at(nodes: Seq<NodeView>, i: int, tenant: Seq<char>, id: u128) -> bool {
    0 <= i < nodes.len() && nodes[i].tenant_id == tenant && nodes[i].id == id
}

pub open spec fn has_node(nodes: Seq<NodeView>, tenant: Seq<char>, id: u128) -> bool {
    exists|i: int| node_at(nodes, i, tenant, id)
}

/// The tenant's node `id`, if it has one.
pub open spec fn lookup(nodes: Seq<NodeView>, tenant: Seq<char>, id: u128) -> Option<NodeView> {
    if has_node(nodes, tenant, id) {
        Some(nodes[choose|i: int| node_at(nodes, i, tenant, id)])
    } else {
        None
    }
}

/// The tenant's nodes named in `ids`, in the order of `ids`, missing ones dropped.
pub open spec fn found_nodes(nodes: Seq<NodeView>, tenant: Seq<char>, ids: Seq<u128>) -> Seq<
    NodeView,
>
    decreases ids.len(),
{
    if ids.len() == 0 {
        Seq::empty()
    } else {
        let rest = found_nodes(nodes, tenant, ids.drop_last());
        match lookup(nodes, tenant, ids.last()) {
            Some(n) => rest.push(n),
            None => rest,
        }
    }
}

pub open spec fn props_view(p: Option<HashMap<String, serde_json::Value>>) -> Map<
    String,
    serde_json::Value,
> {
    match p {
        Some(m) => m@,
        None => Map::empty(),
    }
}

pub open spec fn nodes_view(s: Seq<GraphNode>) -> Seq<NodeView> {
    s.map_values(|n: GraphNode| n@)
}

pub open spec fn edges_view(s: Seq<GraphEdge>) -> Seq<EdgeView> {
    s.map_values(|e: GraphEdge| e@)
}

/// No tenant has two nodes under one identifier.
pub open spec fn node_keys_unique(nodes: Seq<NodeView>) -> bool {
    forall|i: int, j: int|
        0 <= i < nodes.len() && 0 <= j < nodes.len() && nodes[i].tenant_id == nodes[j].tenant_id
            && nodes[i].id == nodes[j].id ==> i == j
}

/// The nodes and edges a subgraph query hands back.
pub struct Subgraph {
    pub nodes: Vec<GraphNode>,
    pub edges: Vec<GraphEdge>,
}

/// The mathematical value of an [`InMemoryGraphStore`]: all nodes and all edges.
pub struct GraphView {
    pub nodes: Seq<NodeView>,
    pub edges: Seq<EdgeView>,
}

/// The in-memory graph store. Nodes and edges of all tenants share two
/// sequences, each item tagged with its tenant; every operation filters by
/// tenant first. Edges keep the order in which they were created.
pub struct InMemoryGraphStore {
    nodes: Vec<GraphNode>,
    edges: Vec<GraphEdge>,
}

impl View for InMemoryGraphStore {
    type V = GraphView;

    closed spec fn view(&self) -> GraphView {
        GraphView { nodes: nodes_view(self.nodes@), edges: edges_view(self.edges@) }
    }
}

pub(crate) fn contains_id(v: &Vec<u128>, x: u128) -> (r: bool)
    ensures
        r == v@.contains(x),
{
    let mut i: usize = 0;
    while i < v.len()
        invariant
            i <= v.len(),
            forall|j: int| 0 <= j < i ==> v@[j] != x,
        decreases v.len() - i,
    {
        if v[i] == x {
            return true;
        }
        i = i + 1;
    }
    false
}

impl InMemoryGraphStore {
    pub open spec fn wf(&self) -> bool {
        node_keys_unique(self@.nodes)
    }

    pub fn new() -> (r: InMemoryGraphStore)
        ensures
            r.wf(),
            r@.nodes == Seq::<NodeView>::empty(),
            r@.edges == Seq::<EdgeView>::empty(),
    {
        let r = InMemoryGraphStore { nodes: Vec::new(), edges: Vec::new() };
        assert(r@.nodes =~= Seq::<NodeView>::empty());
        assert(r@.edges =~= Seq::<EdgeView>::empty());
        r
    }

    fn node_position(&self, id: u128, tenant: &String) -> (r: Option<usize>)
        ensures
            match r {
                Some(i) => node_at(self@.nodes, i as int, tenant@, id),
                None => !has_node(self@.nodes, tenant@, id),
            },
    {
        let mut i: usize = 0;
        while i < self.nodes.len()
            invariant
                i <= self.nodes.len(),
                self@.nodes.len() == self.nodes@.len(),
                forall|j: int| 0 <= j < i ==> !node_at(self@.nodes, j, tenant@, id),
            decreases self.nodes.len() - i,
        {
            proof {
                assert(self@.nodes[i as int] == self.nodes@[i as int]@);
            }
            if self.nodes[i].id == id && self.nodes[i].tenant_id == *tenant {
                return Some(i);
            }
            i = i + 1;
        }
        None
    }
}


impl InMemoryGraphStore {
    /// Inserts node `id` of the tenant, or overwrites the one already there.
    /// Always succeeds; edges are untouched.
    pub fn create_node(
        &mut self,
        node_id: u128,
        node_type: &str,
        tenant_id: &str,
        properties: Option<HashMap<String, serde_json::Value>>,
    ) -> (r: bool)
        requires
            old(self).wf(),
        ensures
            final(self).wf(),
            r,
            final(self)@.edges == old(self)@.edges,
            ({
                let n = NodeView {
                    tenant_id: tenant_id@,
                    id: node_id,
                    node_type: node_type@,
                    properties: props_view(properties),
                };
                if has_node(old(self)@.nodes, tenant_id@, node_id) {
                    exists|i: int|
                        node_at(old(self)@.nodes, i, tenant_id@, node_id) && final(self)@.nodes
                            == old(self)@.nodes.update(i, n)
                } else {
                    final(self)@.nodes == old(self)@.nodes.push(n)
                }
            }),
    {
        let tenant = tenant_id.to_owned();
        let props = match properties {
            Some(p) => p,
            None => HashMap::new(),
        };
        let node = GraphNode { tenant_id: tenant_id.to_owned(), id: node_id, node_type: node_type.to_owned(), properties: props };
        let ghost before = self@.nodes;
        match self.node_position(node_id, &tenant) {
            Some(i) => {
                self.nodes.set(i, node);
                proof {
                    assert(self@.nodes =~= before.update(i as int, node@));
                    assert forall|a: int, b: int|
                        0 <= a < self@.nodes.len() && 0 <= b < self@.nodes.len()
                            && self@.nodes[a].tenant_id == self@.nodes[b].tenant_id
                            && self@.nodes[a].id == self@.nodes[b].id implies a == b by {
                        assert(self@.nodes[a].tenant_id == before[a].tenant_id);
                        assert(self@.nodes[b].tenant_id == before[b].tenant_id);
                    }
                }
            },
            None => {
                self.nodes.push(node);
                proof {
                    assert(self@.nodes =~= before.push(node@));
                    assert forall|a: int, b: int|
                        0 <= a < self@.nodes.len() && 0 <= b < self@.nodes.len()
                            && self@.nodes[a].tenant_id == self@.nodes[b].tenant_id
                            && self@.nodes[a].id == self@.nodes[b].id implies a == b by {
                        if a < before.len() && b == before.len() {
                            assert(node_at(before, a, tenant@, node_id));
                        }
                        if b < before.len() && a == before.len() {
                            assert(node_at(before, b, tenant@, node_id));
                        }
                    }
                }
            },
        }
        true
    }

    /// Appends an edge to the tenant's edges. Endpoints are not checked against
    /// the nodes. Always succeeds.
    pub fn create_edge(
        &mut self,
        source_id: u128,
        target_id: u128,
        edge_type: &str,
        tenant_id: &str,
        weight_bits: u32,
        properties: Option<HashMap<String, serde_json::Value>>,
    ) -> (r: bool)
        requires
            old(self).wf(),
        ensures
            final(self).wf(),
            r,
            final(self)@.nodes == old(self)@.nodes,
            final(self)@.edges == old(self)@.edges.push(
                EdgeView {
                    tenant_id: tenant_id@,
                    source_id,
                    target_id,
                    edge_type: edge_type@,
                    weight_bits,
                    properties: props_view(properties),
                },
            ),
    {
        let props = match properties {
            Some(p) => p,
            None => HashMap::new(),
        };
        let edge = GraphEdge {
            tenant_id: tenant_id.to_owned(),
            source_id,
            target_id,
            edge_type: edge_type.to_owned(),
            weight_bits,
            properties: props,
        };
        let ghost before = self@;
        self.edges.push(edge);
        proof {
            assert(self@.edges =~= before.edges.push(edge@));
            assert(self@.nodes =~= before.nodes);
        }
        true
    }

    /// The distinct one-hop neighbours of `node_id` among the tenant's edges of
    /// type `edge_type` (any type when absent), following `direction`: "out" from
    /// source to target, "in" from target to source, anything else either way.
    /// `max_depth` is not used: the query is one hop.
    pub fn get_neighbors(
        &self,
        node_id: u128,
        tenant_id: &str,
        edge_type: Option<&str>,
        direction: &str,
        max_depth: usize,
    ) -> (r: Vec<u128>)
        ensures
            r@.no_duplicates(),
            forall|n: u128|
                r@.contains(n) <==> is_neighbor(
                    self@.edges,
                    tenant_id@,
                    node_id,
                    opt_str_view(edge_type),
                    direction_of(direction@),
                    n,
                ),
    {
        let dir = Direction::parse(direction);
        let tenant = tenant_id.to_owned();
        let wanted: Option<String> = match edge_type {
            Some(t) => Some(t.to_owned()),
            None => None,
        };
        let ghost ty = opt_str_view(edge_type);
        let ghost edges = self@.edges;
        let mut out: Vec<u128> = Vec::new();
        let mut i: usize = 0;
        while i < self.edges.len()
            invariant
                i <= self.edges.len(),
                edges == self@.edges,
                edges.len() == self.edges@.len(),
                tenant@ == tenant_id@,
                dir == direction_of(direction@),
                ty == match wanted {
                    Some(w) => Some(w@),
                    None => None::<Seq<char>>,
                },
                out@.no_duplicates(),
                forall|n: u128|
                    out@.contains(n) <==> exists|j: int|
                        0 <= j < i && edges[j].tenant_id == tenant@ && type_matches(edges[j], ty)
                            && edge_neighbor(edges[j], node_id, dir) == Some(n),
            decreases self.edges.len() - i,
        {
            let e = &self.edges[i];
            proof {
                assert(edges[i as int] == e@);
            }
            let type_ok = match &wanted {
                Some(w) => e.edge_type == *w,
                None => true,
            };
            let found: Option<u128> = if e.tenant_id == tenant && type_ok {
                match dir {
                    Direction::Out => if e.source_id == node_id {
                        Some(e.target_id)
                    } else {
                        None
                    },
                    Direction::In => if e.target_id == node_id {
                        Some(e.source_id)
                    } else {
                        None
                    },
                    Direction::Both => if e.source_id == node_id {
                        Some(e.target_id)
                    } else if e.target_id == node_id {
                        Some(e.source_id)
                    } else {
                        None
                    },
                }
            } else {
                None
            };
            let ghost before = out@;
            proof {
                assert(found == (if edges[i as int].tenant_id == tenant@ && type_matches(edges[i as int], ty) {
                    edge_neighbor(edges[i as int], node_id, dir)
                } else {
                    None
                }));
            }
            match found {
                Some(n) => {
                    if contains_id(&out, n) {
                        proof {
                            assert forall|m: u128| out@.contains(m) <==> (before.contains(m) || m == n) by {}
                        }
                    } else {
                        out.push(n);
                        proof {
                            assert forall|m: u128| out@.contains(m) <==> (before.contains(m) || m == n) by {
                                if out@.contains(m) {
                                    let k = choose|k: int| 0 <= k < out@.len() && out@[k] == m;
                                    if k < before.len() {
                                        assert(before[k] == m);
                                    }
                                }
                                if before.contains(m) {
                                    let k = choose|k: int| 0 <= k < before.len() && before[k] == m;
                                    assert(out@[k] == m);
                                }
                                if m == n {
                                    assert(out@[before.len() as int] == m);
                                }
                            }
                        }
                    }
                },
                None => {},
            }
            proof {
                assert forall|n: u128|
                    out@.contains(n) <==> exists|j: int|
                        0 <= j < i + 1 && edges[j].tenant_id == tenant@ && type_matches(edges[j], ty)
                            && edge_neighbor(edges[j], node_id, dir) == Some(n) by {
                    assert(out@.contains(n) <==> (before.contains(n) || found == Some(n)));
                    if found == Some(n) {
                        assert(edge_neighbor(edges[i as int], node_id, dir) == Some(n));
                    }
                }
            }
            i = i + 1;
        }
        out
    }
}


impl InMemoryGraphStore {
    /// Removes the tenant's node `id`, if any, and every edge of the tenant that
    /// has it as an endpoint, whether or not the node existed. Returns whether the
    /// node was removed.
    pub fn delete_node(&mut self, node_id: u128, tenant_id: &str) -> (r: bool)
        requires
            old(self).wf(),
        ensures
            final(self).wf(),
            r == has_node(old(self)@.nodes, tenant_id@, node_id),
            r ==> exists|i: int|
                node_at(old(self)@.nodes, i, tenant_id@, node_id) && final(self)@.nodes == old(
                    self,
                )@.nodes.remove(i),
            !r ==> final(self)@.nodes == old(self)@.nodes,
            final(self)@.edges == kept(
                old(self)@.edges,
                |e: EdgeView| !touches(e, tenant_id@, node_id),
            ),
    {
        let tenant = tenant_id.to_owned();
        let ghost before = self@;
        let removed = match self.node_position(node_id, &tenant) {
            Some(i) => {
                let _gone = self.nodes.remove(i);
                proof {
                    assert(self@.nodes =~= before.nodes.remove(i as int));
                    assert forall|a: int, b: int|
                        0 <= a < self@.nodes.len() && 0 <= b < self@.nodes.len()
                            && self@.nodes[a].tenant_id == self@.nodes[b].tenant_id
                            && self@.nodes[a].id == self@.nodes[b].id implies a == b by {
                        let a0 = if a < i { a } else { a + 1 };
                        let b0 = if b < i { b } else { b + 1 };
                        assert(self@.nodes[a] == before.nodes[a0]);
                        assert(self@.nodes[b] == before.nodes[b0]);
                    }
                }
                true
            },
            None => false,
        };
        let ghost keep = |e: EdgeView| !touches(e, tenant_id@, node_id);
        let mut out: Vec<GraphEdge> = Vec::new();
        let mut i: usize = 0;
        while i < self.edges.len()
            invariant
                i <= self.edges.len(),
                self@.edges == before.edges,
                before.edges.len() == self.edges@.len(),
                tenant@ == tenant_id@,
                keep == (|e: EdgeView| !touches(e, tenant_id@, node_id)),
                edges_view(out@) == kept(before.edges.subrange(0, i as int), keep),
            decreases self.edges.len() - i,
        {
            let e = &self.edges[i];
            proof {
                assert(before.edges[i as int] == e@);
                assert(before.edges.subrange(0, i + 1).drop_last() =~= before.edges.subrange(0, i as int));
            }
            if !(e.tenant_id == tenant && (e.source_id == node_id || e.target_id == node_id)) {
                let copy = e.duplicate();
                let ghost prev = out@;
                out.push(copy);
                proof {
                    assert(edges_view(out@) =~= edges_view(prev).push(copy@));
                }
            }
            i = i + 1;
        }
        proof {
            assert(before.edges.subrange(0, before.edges.len() as int) =~= before.edges);
        }
        self.edges = out;
        removed
    }

    /// Removes every edge of the tenant with exactly this source, target and
    /// type; an edge stored the other way round stays. Returns whether any was
    /// removed.
    pub fn delete_edge(&mut self, source_id: u128, target_id: u128, edge_type: &str, tenant_id: &str) -> (r:
        bool)
        requires
            old(self).wf(),
        ensures
            final(self).wf(),
            r == exists|i: int|
                0 <= i < old(self)@.edges.len() && exact_edge(
                    old(self)@.edges[i],
                    tenant_id@,
                    source_id,
                    target_id,
                    edge_type@,
                ),
            final(self)@.nodes == old(self)@.nodes,
            final(self)@.edges == kept(
                old(self)@.edges,
                |e: EdgeView| !exact_edge(e, tenant_id@, source_id, target_id, edge_type@),
            ),
    {
        let tenant = tenant_id.to_owned();
        let ty = edge_type.to_owned();
        let ghost before = self@;
        let ghost keep = |e: EdgeView| !exact_edge(e, tenant_id@, source_id, target_id, edge_type@);
        let mut out: Vec<GraphEdge> = Vec::new();
        let mut removed = false;
        let mut i: usize = 0;
        while i < self.edges.len()
            invariant
                i <= self.edges.len(),
                self@ == before,
                before.edges.len() == self.edges@.len(),
                tenant@ == tenant_id@,
                ty@ == edge_type@,
                keep == (|e: EdgeView| !exact_edge(e, tenant_id@, source_id, target_id, edge_type@)),
                edges_view(out@) == kept(before.edges.subrange(0, i as int), keep),
                removed == exists|j: int|
                    0 <= j < i && exact_edge(before.edges[j], tenant_id@, source_id, target_id, edge_type@),
            decreases self.edges.len() - i,
        {
            let e = &self.edges[i];
            proof {
                assert(before.edges[i as int] == e@);
                assert(before.edges.subrange(0, i + 1).drop_last() =~= before.edges.subrange(0, i as int));
            }
            if e.tenant_id == tenant && e.source_id == source_id && e.target_id == target_id && e.edge_type == ty {
                removed = true;
            } else {
                let copy = e.duplicate();
                let ghost prev = out@;
                out.push(copy);
                proof {
                    assert(edges_view(out@) =~= edges_view(prev).push(copy@));
                }
            }
            i = i + 1;
        }
        proof {
            assert(before.edges.subrange(0, before.edges.len() as int) =~= before.edges);
        }
        self.edges = out;
        proof {
            assert(self@.nodes == before.nodes);
        }
        removed
    }

    /// The tenant's nodes named in `node_ids`, in that order, missing ones left
    /// out; and, when `include_edges` is set, every edge of the tenant whose two
    /// endpoints are both named (the induced subgraph), in store order.
    pub fn get_subgraph(&self, node_ids: Vec<u128>, tenant_id: &str, include_edges: bool) -> (r:
        Subgraph)
        requires
            self.wf(),
        ensures
            nodes_view(r.nodes@) == found_nodes(self@.nodes, tenant_id@, node_ids@),
            edges_view(r.edges@) == (if include_edges {
                induced(self@.edges, tenant_id@, node_ids@)
            } else {
                Seq::<EdgeView>::empty()
            }),
    {
        let tenant = tenant_id.to_owned();
        let ghost all = self@;
        let mut nodes_out: Vec<GraphNode> = Vec::new();
        let mut k: usize = 0;
        while k < node_ids.len()
            invariant
                k <= node_ids.len(),
                self@ == all,
                self.wf(),
                tenant@ == tenant_id@,
                nodes_view(nodes_out@) == found_nodes(all.nodes, tenant@, node_ids@.subrange(0, k as int)),
            decreases node_ids.len() - k,
        {
            let id = node_ids[k];
            proof {
                assert(node_ids@.subrange(0, k + 1).drop_last() =~= node_ids@.subrange(0, k as int));
                assert(node_ids@.subrange(0, k + 1).last() == id);
            }
            match self.node_position(id, &tenant) {
                Some(i) => {
                    let copy = self.nodes[i].duplicate();
                    let ghost prev = nodes_out@;
                    nodes_out.push(copy);
                    proof {
                        assert(all.nodes[i as int] == self.nodes@[i as int]@);
                        let c = choose|j: int| node_at(all.nodes, j, tenant@, id);
                        assert(node_at(all.nodes, c, tenant@, id));
                        assert(c == i);
                        assert(nodes_view(nodes_out@) =~= nodes_view(prev).push(copy@));
                    }
                },
                None => {},
            }
            k = k + 1;
        }
        proof {
            assert(node_ids@.subrange(0, node_ids@.len() as int) =~= node_ids@);
        }
        let mut edges_out: Vec<GraphEdge> = Vec::new();
        if include_edges {
            let ghost keep = |e: EdgeView| inside(e, tenant_id@, node_ids@);
            let mut i: usize = 0;
            while i < self.edges.len()
                invariant
                    i <= self.edges.len(),
                    self@ == all,
                    all.edges.len() == self.edges@.len(),
                    tenant@ == tenant_id@,
                    keep == (|e: EdgeView| inside(e, tenant_id@, node_ids@)),
                    edges_view(edges_out@) == kept(all.edges.subrange(0, i as int), keep),
                decreases self.edges.len() - i,
            {
                let e = &self.edges[i];
                proof {
                    assert(all.edges[i as int] == e@);
                    assert(all.edges.subrange(0, i + 1).drop_last() =~= all.edges.subrange(0, i as int));
                }
                if e.tenant_id == tenant && contains_id(&node_ids, e.source_id) && contains_id(&node_ids, e.target_id) {
                    let copy = e.duplicate();
                    let ghost prev = edges_out@;
                    edges_out.push(copy);
                    proof {
                        assert(edges_view(edges_out@) =~= edges_view(prev).push(copy@));
                    }
                }
                i = i + 1;
            }
            proof {
                assert(all.edges.subrange(0, all.edges.len() as int) =~= all.edges);
            }
        } else {
            proof {
                assert(edges_view(edges_out@) =~= Seq::<EdgeView>::empty());
            }
        }
        Subgraph { nodes: nodes_out, edges: edges_out }
    }
}


/// `p` is a simple walk from `source` whose nodes have all been visited.
pub open spec fn frontier_path(
    edges: Seq<EdgeView>,
    tenant: Seq<char>,
    source: u128,
    p: Seq<u128>,
    visited: Seq<u128>,
) -> bool {
    &&& is_walk(edges, tenant, p)
    &&& p[0] == source
    &&& p.no_duplicates()
    &&& forall|x: u128| p.contains(x) ==> visited.contains(x)
}

proof fn lemma_walk_push(edges: Seq<EdgeView>, tenant: Seq<char>, p: Seq<u128>, n: u128)
    requires
        is_walk(edges, tenant, p),
        linked(edges, tenant, p.last(), n),
    ensures
        is_walk(edges, tenant, p.push(n)),
        p.push(n)[0] == p[0],
        p.push(n).last() == n,
{
    let q = p.push(n);
    assert forall|k: int| 0 <= k < q.len() - 1 implies linked(edges, tenant, q[k], #[trigger] q[k + 1]) by {
        if k < p.len() - 1 {
            assert(q[k] == p[k] && q[k + 1] == p[k + 1]);
        } else {
            assert(q[k] == p.last());
        }
    }
}

proof fn lemma_push_fresh(p: Seq<u128>, n: u128)
    requires
        p.no_duplicates(),
        !p.contains(n),
    ensures
        p.push(n).no_duplicates(),
        forall|x: u128| p.push(n).contains(x) <==> (p.contains(x) || x == n),
{
    let q = p.push(n);
    assert forall|a: int, b: int| 0 <= a < q.len() && 0 <= b < q.len() && a != b implies q[a] != q[b] by {
        if a < p.len() && b == p.len() {
            assert(p.contains(p[a]));
        }
        if b < p.len() && a == p.len() {
            assert(p.contains(p[b]));
        }
    }
    lemma_push_contains(p, n);
}

proof fn lemma_push_contains(p: Seq<u128>, n: u128)
    ensures
        forall|x: u128| p.push(n).contains(x) <==> (p.contains(x) || x == n),
{
    let q = p.push(n);
    assert forall|x: u128| q.contains(x) <==> (p.contains(x) || x == n) by {
        if q.contains(x) {
            let k = choose|k: int| 0 <= k < q.len() && q[k] == x;
            if k < p.len() {
                assert(p[k] == x);
            }
        }
        if p.contains(x) {
            let k = choose|k: int| 0 <= k < p.len() && p[k] == x;
            assert(q[k] == x);
        }
        if x == n {
            assert(q[p.len() as int] == x);
        }
    }
}

fn extend_path(p: &Vec<u128>, n: u128) -> (r: Vec<u128>)
    ensures
        r@ == p@.push(n),
{
    let mut out: Vec<u128> = Vec::new();
    let mut i: usize = 0;
    while i < p.len()
        invariant
            i <= p.len(),
            out@ == p@.subrange(0, i as int),
        decreases p.len() - i,
    {
        out.push(p[i]);
        proof {
            assert(out@ =~= p@.subrange(0, i + 1));
        }
        i = i + 1;
    }
    out.push(n);
    proof {
        assert(out@ =~= p@.push(n));
    }
    out
}

/// Some path of `paths` ends at `x`.
pub open spec fn ends_at(paths: Seq<Vec<u128>>, x: u128) -> bool {
    exists|j: int| 0 <= j < paths.len() && (#[trigger] paths[j])@.last() == x
}

/// Some of the first `k` paths of `paths` ends next to `x`.
pub open spec fn linked_from(
    edges: Seq<EdgeView>,
    tenant: Seq<char>,
    paths: Seq<Vec<u128>>,
    k: int,
    x: u128,
) -> bool {
    exists|j: int| 0 <= j < k && linked(edges, tenant, (#[trigger] paths[j])@.last(), x)
}

/// One of the first `i` edges joins `u` and `x`.
pub open spec fn linked_upto(edges: Seq<EdgeView>, tenant: Seq<char>, u: u128, i: int, x: u128) -> bool {
    exists|e: int| 0 <= e < i && #[trigger] edge_link(edges[e], tenant, u, x)
}

/// A frontier path stays one when more nodes are marked visited.
proof fn lemma_frontier_path_grow(
    edges: Seq<EdgeView>,
    tenant: Seq<char>,
    source: u128,
    p: Seq<u128>,
    v1: Seq<u128>,
    v2: Seq<u128>,
)
    requires
        frontier_path(edges, tenant, source, p, v1),
        forall|x: u128| v1.contains(x) ==> v2.contains(x),
    ensures
        frontier_path(edges, tenant, source, p, v2),
{
}

impl InMemoryGraphStore {
    /// Scans the tenant's edges once from the last node of `path`. Returns `path`
    /// extended by the target as soon as an edge reaches it. Otherwise marks each
    /// unvisited neighbour visited and queues `path` extended by it on `next`.
    #[verifier::spinoff_prover]
    fn expand_from(
        &self,
        tenant: &String,
        source_id: u128,
        target_id: u128,
        path: &Vec<u128>,
        visited: &mut Vec<u128>,
        next: &mut Vec<Vec<u128>>,
    ) -> (r: Option<Vec<u128>>)
        requires
            frontier_path(self@.edges, tenant@, source_id, path@, old(visited)@),
            !old(visited)@.contains(target_id),
            forall|j: int|
                0 <= j < old(next)@.len() ==> #[trigger] old(next)@[j]@.len() == path@.len() + 1
                    && frontier_path(self@.edges, tenant@, source_id, old(next)@[j]@, old(visited)@),
        ensures
            match r {
                Some(found) => {
                    &&& found@ == path@.push(target_id)
                    &&& is_walk(self@.edges, tenant@, found@)
                    &&& found@.no_duplicates()
                },
                None => {
                    &&& !final(visited)@.contains(target_id)
                    &&& forall|x: u128|
                        final(visited)@.contains(x) <==> (old(visited)@.contains(x) || linked(
                            self@.edges,
                            tenant@,
                            path@.last(),
                            x,
                        ))
                    &&& forall|x: u128|
                        ends_at(final(next)@, x) <==> (ends_at(old(next)@, x) || (final(visited)@.contains(x)
                            && !old(visited)@.contains(x)))
                    &&& forall|j: int|
                        0 <= j < final(next)@.len() ==> #[trigger] final(next)@[j]@.len() == path@.len()
                            + 1 && frontier_path(
                            self@.edges,
                            tenant@,
                            source_id,
                            final(next)@[j]@,
                            final(visited)@,
                        )
                },
            },
    {
        let ghost edges = self@.edges;
        let ghost tv = tenant@;
        let ghost v0 = visited@;
        let ghost n0 = next@;
        let current = path[path.len() - 1];
        proof {
            assert(path@.last() == current);
            assert forall|x: u128| !linked_upto(edges, tv, current, 0, x) by {}
        }
        let mut i: usize = 0;
        while i < self.edges.len()
            invariant
                i <= self.edges.len(),
                edges == self@.edges,
                edges.len() == self.edges@.len(),
                tv == tenant@,
                v0 == old(visited)@,
                n0 == old(next)@,
                path@.last() == current,
                frontier_path(edges, tv, source_id, path@, v0),
                forall|x: u128| v0.contains(x) ==> visited@.contains(x),
                !visited@.contains(target_id),
                forall|x: u128|
                    visited@.contains(x) <==> (v0.contains(x) || linked_upto(edges, tv, current, i as int, x)),
                forall|x: u128|
                    ends_at(next@, x) <==> (ends_at(n0, x) || (visited@.contains(x) && !v0.contains(x))),
                forall|j: int|
                    0 <= j < next@.len() ==> #[trigger] next@[j]@.len() == path@.len() + 1
                        && frontier_path(edges, tv, source_id, next@[j]@, visited@),
            decreases self.edges.len() - i,
        {
            let e = &self.edges[i];
            let ghost old_visited = visited@;
            let ghost old_next = next@;
            proof {
                assert(edges[i as int] == e@);
                assert forall|x: u128|
                    #[trigger] linked_upto(edges, tv, current, i + 1, x) <==> (linked_upto(edges, tv, current, i as int, x)
                        || edge_link(edges[i as int], tv, current, x)) by {
                    if linked_upto(edges, tv, current, i + 1, x) {
                        let w = choose|w: int| 0 <= w < i + 1 && #[trigger] edge_link(edges[w], tv, current, x);
                        if w < i {
                            assert(linked_upto(edges, tv, current, i as int, x));
                        }
                    }
                }
            }
            let nb: Option<u128> = if e.tenant_id != *tenant {
                None
            } else if e.source_id == current {
                Some(e.target_id)
            } else if e.target_id == current {
                Some(e.source_id)
            } else {
                None
            };
            proof {
                assert forall|x: u128| edge_link(edges[i as int], tv, current, x) <==> nb == Some(x) by {}
            }
            match nb {
                Some(n) => {
                    proof {
                        assert(edge_link(edges[i as int], tv, current, n));
                        assert(linked(edges, tv, current, n));
                        lemma_walk_push(edges, tv, path@, n);
                    }
                    if n == target_id {
                        let found = extend_path(path, n);
                        proof {
                            assert(!path@.contains(n)) by {
                                if path@.contains(n) {
                                    assert(v0.contains(n));
                                }
                            }
                            lemma_push_fresh(path@, n);
                        }
                        return Some(found);
                    }
                    if !contains_id(visited, n) {
                        visited.push(n);
                        let grown = extend_path(path, n);
                        proof {
                            lemma_push_contains(old_visited, n);
                            assert(!path@.contains(n)) by {
                                if path@.contains(n) {
                                    assert(v0.contains(n));
                                }
                            }
                            lemma_push_fresh(path@, n);
                            assert forall|x: u128| grown@.contains(x) implies visited@.contains(x) by {
                                if path@.contains(x) {
                                    assert(v0.contains(x));
                                }
                            }
                            assert(frontier_path(edges, tv, source_id, grown@, visited@));
                            assert forall|j: int|
                                0 <= j < old_next.len() implies #[trigger] old_next[j]@.len() == path@.len() + 1
                                    && frontier_path(edges, tv, source_id, old_next[j]@, visited@) by {
                                lemma_frontier_path_grow(edges, tv, source_id, old_next[j]@, old_visited, visited@);
                            }
                        }
                        next.push(grown);
                        proof {
                            assert forall|j: int|
                                0 <= j < next@.len() implies #[trigger] next@[j]@.len() == path@.len() + 1
                                    && frontier_path(edges, tv, source_id, next@[j]@, visited@) by {
                                if j < old_next.len() {
                                    assert(next@[j] == old_next[j]);
                                }
                            }
                            assert forall|x: u128| ends_at(next@, x) <==> (ends_at(old_next, x) || x == n) by {
                                if ends_at(next@, x) {
                                    let j = choose|j: int| 0 <= j < next@.len() && (#[trigger] next@[j])@.last() == x;
                                    if j < old_next.len() {
                                        assert(old_next[j] == next@[j]);
                                    }
                                }
                                if ends_at(old_next, x) {
                                    let j = choose|j: int|
                                        0 <= j < old_next.len() && (#[trigger] old_next[j])@.last() == x;
                                    assert(next@[j] == old_next[j]);
                                }
                                if x == n {
                                    assert(next@[old_next.len() as int]@.last() == x);
                                }
                            }
                        }
                    }
                },
                None => {},
            }
            let ghost prev_i = i as int;
            i = i + 1;
            proof {
                assert(i as int == prev_i + 1);
                assert forall|x: u128|
                    visited@.contains(x) <==> (v0.contains(x) || linked_upto(edges, tv, current, i as int, x)) by {
                    assert(old_visited.contains(x) <==> (v0.contains(x) || linked_upto(
                        edges,
                        tv,
                        current,
                        prev_i,
                        x,
                    )));
                    if edge_link(edges[prev_i], tv, current, x) {
                        assert(visited@.contains(x));
                    }
                    if visited@.contains(x) && !old_visited.contains(x) {
                        assert(edge_link(edges[prev_i], tv, current, x));
                    }
                }
            }
        }
        proof {
            assert(i as int == edges.len());
            assert forall|x: u128|
                linked_upto(edges, tv, current, i as int, x) <==> linked(edges, tv, current, x) by {
                if linked(edges, tv, current, x) {
                    let w = choose|w: int| 0 <= w < edges.len() && #[trigger] edge_link(edges[w], tv, current, x);
                }
            }
        }
        None
    }

    /// A shortest walk from `source_id` to `target_id` over the tenant's edges
    /// taken undirected, found breadth first, with ties broken by edge order.
    /// Equal endpoints give the one-node path at once. `max_depth` bounds the
    /// nodes of a path: walks are extended only while they hold fewer than
    /// `max_depth` nodes, so a result holds at most `max_depth` nodes (at most
    /// `max_depth - 1` edges), and no path is returned exactly when no walk
    /// within that bound exists. Every result is a simple walk between the two,
    /// and no walk between them is shorter.
    #[verifier::spinoff_prover]
    pub fn shortest_path(&self, source_id: u128, target_id: u128, tenant_id: &str, max_depth: usize) -> (r:
        Option<Vec<u128>>)
        ensures
            source_id == target_id ==> (r is Some && r->0@ == seq![source_id]),
            match r {
                Some(p) => {
                    &&& is_walk(self@.edges, tenant_id@, p@)
                    &&& p@[0] == source_id
                    &&& p@.last() == target_id
                    &&& p@.no_duplicates()
                    &&& (source_id != target_id ==> p@.len() <= max_depth)
                    &&& !reach(self@.edges, tenant_id@, source_id, target_id, p@.len() - 1)
                },
                None => {
                    &&& source_id != target_id
                    &&& !reach(self@.edges, tenant_id@, source_id, target_id, max_depth as int)
                },
            },
    {
        let ghost edges = self@.edges;
        let ghost tv = tenant_id@;
        if source_id == target_id {
            let mut p: Vec<u128> = Vec::new();
            p.push(source_id);
            proof {
                assert(p@ =~= seq![source_id]);
                assert(is_walk(edges, tv, p@));
                lemma_reach_base(edges, tv, source_id, target_id);
            }
            return Some(p);
        }
        if max_depth <= 1 {
            proof {
                lemma_reach_base(edges, tv, source_id, target_id);
            }
            return None;
        }
        let tenant = tenant_id.to_owned();
        let mut visited: Vec<u128> = Vec::new();
        visited.push(source_id);
        let mut start: Vec<u128> = Vec::new();
        start.push(source_id);
        let mut frontier: Vec<Vec<u128>> = Vec::new();
        frontier.push(start);
        let mut depth: usize = 1;
        proof {
            assert(start@ =~= seq![source_id]);
            assert(visited@ =~= seq![source_id]);
            assert(is_walk(edges, tv, start@));
            assert(frontier@[0]@ == start@);
            assert forall|x: u128| start@.contains(x) implies visited@.contains(x) by {
                assert(visited@[0] == source_id);
            }
            assert forall|x: u128| visited@.contains(x) <==> reach(edges, tv, source_id, x, 1) by {
                lemma_reach_base(edges, tv, source_id, x);
                if x == source_id {
                    assert(visited@[0] == x);
                }
            }
            assert forall|x: u128|
                ends_at(frontier@, x) <==> (reach(edges, tv, source_id, x, 1) && !reach(
                    edges,
                    tv,
                    source_id,
                    x,
                    0,
                )) by {
                lemma_reach_base(edges, tv, source_id, x);
                if x == source_id {
                    assert(frontier@[0]@.last() == x);
                }
            }
            assert(!visited@.contains(target_id));
        }
        while frontier.len() > 0
            invariant
                1 <= depth < max_depth,
                edges == self@.edges,
                tenant@ == tv,
                tv == tenant_id@,
                source_id != target_id,
                !visited@.contains(target_id),
                forall|k: int|
                    0 <= k < frontier@.len() ==> #[trigger] frontier@[k]@.len() == depth
                        && frontier_path(edges, tv, source_id, frontier@[k]@, visited@),
                forall|x: u128| visited@.contains(x) <==> reach(edges, tv, source_id, x, depth as int),
                forall|x: u128|
                    ends_at(frontier@, x) <==> (reach(edges, tv, source_id, x, depth as int) && !reach(
                        edges,
                        tv,
                        source_id,
                        x,
                        depth - 1,
                    )),
            decreases max_depth - depth,
        {
            let ghost v0 = visited@;
            let mut next: Vec<Vec<u128>> = Vec::new();
            let mut k: usize = 0;
            proof {
                assert forall|x: u128| !linked_from(edges, tv, frontier@, 0, x) by {}
            }
            while k < frontier.len()
                invariant
                    k <= frontier.len(),
                    1 <= depth < max_depth,
                    edges == self@.edges,
                    tenant@ == tv,
                    tv == tenant_id@,
                    source_id != target_id,
                    !visited@.contains(target_id),
                    forall|j: int|
                        0 <= j < frontier@.len() ==> #[trigger] frontier@[j]@.len() == depth
                            && frontier_path(edges, tv, source_id, frontier@[j]@, visited@),
                    forall|j: int|
                        0 <= j < next@.len() ==> #[trigger] next@[j]@.len() == depth + 1
                            && frontier_path(edges, tv, source_id, next@[j]@, visited@),
                    forall|x: u128| v0.contains(x) <==> reach(edges, tv, source_id, x, depth as int),
                    forall|x: u128|
                        ends_at(frontier@, x) <==> (reach(edges, tv, source_id, x, depth as int) && !reach(
                            edges,
                            tv,
                            source_id,
                            x,
                            depth - 1,
                        )),
                    forall|x: u128|
                        visited@.contains(x) <==> (v0.contains(x) || linked_from(
                            edges,
                            tv,
                            frontier@,
                            k as int,
                            x,
                        )),
                    forall|x: u128| ends_at(next@, x) <==> (visited@.contains(x) && !v0.contains(x)),
                decreases frontier.len() - k,
            {
                let ghost old_visited = visited@;
                let ghost old_next = next@;
                proof {
                    assert(frontier_path(edges, tv, source_id, frontier@[k as int]@, visited@));
                    assert(frontier@[k as int]@.len() == depth);
                }
                let ghost pv = frontier@[k as int]@;
                let hit = self.expand_from(&tenant, source_id, target_id, &frontier[k], &mut visited, &mut next);
                match hit {
                    Some(found) => {
                        proof {
                            assert(!v0.contains(target_id));
                            assert(found@.len() - 1 == depth);
                            assert(!reach(edges, tv, source_id, target_id, depth as int));
                            assert(found@[0] == source_id);
                            assert(found@.last() == target_id);
                            assert(found@.len() <= max_depth);
                        }
                        return Some(found);
                    },
                    None => {},
                }
                let ghost prev_k = k as int;
                k = k + 1;
                proof {
                    assert(k as int == prev_k + 1);
                    let u = frontier@[prev_k]@.last();
                    assert(pv.last() == u);
                    assert forall|x: u128|
                        #[trigger] visited@.contains(x) <==> (old_visited.contains(x) || linked(edges, tv, u, x)) by {}
                    assert forall|x: u128|
                        #[trigger] linked_from(edges, tv, frontier@, k as int, x) <==> (linked_from(
                            edges,
                            tv,
                            frontier@,
                            prev_k,
                            x,
                        ) || linked(edges, tv, u, x)) by {
                        if linked_from(edges, tv, frontier@, k as int, x) {
                            let j = choose|j: int|
                                0 <= j < prev_k + 1 && linked(edges, tv, (#[trigger] frontier@[j])@.last(), x);
                            if j < prev_k {
                                assert(linked_from(edges, tv, frontier@, prev_k, x));
                            }
                        }
                        if linked(edges, tv, u, x) {
                            assert(linked(edges, tv, frontier@[prev_k]@.last(), x));
                        }
                    }
                    assert forall|x: u128|
                        visited@.contains(x) <==> (v0.contains(x) || linked_from(
                            edges,
                            tv,
                            frontier@,
                            k as int,
                            x,
                        )) by {
                        assert(old_visited.contains(x) <==> (v0.contains(x) || linked_from(
                            edges,
                            tv,
                            frontier@,
                            prev_k,
                            x,
                        )));
                        assert(visited@.contains(x) <==> (old_visited.contains(x) || linked(edges, tv, u, x)));
                        assert(linked_from(edges, tv, frontier@, k as int, x) <==> (linked_from(
                            edges,
                            tv,
                            frontier@,
                            prev_k,
                            x,
                        ) || linked(edges, tv, u, x)));
                    }
                    assert forall|x: u128| ends_at(next@, x) <==> (visited@.contains(x) && !v0.contains(x)) by {
                        assert(ends_at(old_next, x) <==> (old_visited.contains(x) && !v0.contains(x)));
                        if v0.contains(x) {
                            assert(old_visited.contains(x));
                        }
                    }
                    assert forall|j: int|
                        0 <= j < frontier@.len() implies #[trigger] frontier@[j]@.len() == depth
                            && frontier_path(edges, tv, source_id, frontier@[j]@, visited@) by {
                        lemma_frontier_path_grow(edges, tv, source_id, frontier@[j]@, old_visited, visited@);
                    }
                }
            }
            proof {
                let d = depth as int;
                assert(k as int == frontier@.len());
                assert forall|x: u128| visited@.contains(x) <==> reach(edges, tv, source_id, x, d + 1) by {
                    lemma_reach_step(edges, tv, source_id, x, d);
                    assert(visited@.contains(x) <==> (v0.contains(x) || linked_from(edges, tv, frontier@, k as int, x)));
                    assert(v0.contains(x) <==> reach(edges, tv, source_id, x, d));
                    if reach(edges, tv, source_id, x, d + 1) && !reach(edges, tv, source_id, x, d) {
                        let u = choose|u: u128|
                            reach(edges, tv, source_id, u, d) && #[trigger] linked(edges, tv, u, x);
                        if d >= 2 {
                            lemma_reach_step(edges, tv, source_id, x, d - 1);
                            if reach(edges, tv, source_id, u, d - 1) {
                                assert(reach(edges, tv, source_id, x, d));
                            }
                        } else {
                            lemma_reach_base(edges, tv, source_id, u);
                        }
                        assert(!reach(edges, tv, source_id, u, d - 1));
                        assert(ends_at(frontier@, u));
                        let j = choose|j: int| 0 <= j < frontier@.len() && (#[trigger] frontier@[j])@.last() == u;
                        assert(linked(edges, tv, frontier@[j]@.last(), x));
                        assert(linked_from(edges, tv, frontier@, k as int, x));
                        assert(visited@.contains(x));
                    }
                    if reach(edges, tv, source_id, x, d) {
                        assert(visited@.contains(x));
                    }
                    if visited@.contains(x) {
                        if v0.contains(x) {
                            lemma_reach_mono(edges, tv, source_id, x, d, d + 1);
                        } else {
                            assert(linked_from(edges, tv, frontier@, k as int, x));
                            let j = choose|j: int|
                                0 <= j < frontier@.len() && linked(
                                    edges,
                                    tv,
                                    (#[trigger] frontier@[j])@.last(),
                                    x,
                                );
                            let u = frontier@[j]@.last();
                            assert(ends_at(frontier@, u));
                            assert(reach(edges, tv, source_id, u, d));
                            assert(linked(edges, tv, u, x));
                            assert(reach(edges, tv, source_id, x, d + 1));
                        }
                    }
                }
                assert forall|x: u128|
                    ends_at(next@, x) <==> (reach(edges, tv, source_id, x, d + 1) && !reach(
                        edges,
                        tv,
                        source_id,
                        x,
                        d,
                    )) by {
                    assert(visited@.contains(x) <==> reach(edges, tv, source_id, x, d + 1));
                    assert(v0.contains(x) <==> reach(edges, tv, source_id, x, d));
                }
            }
            if depth + 1 == max_depth {
                return None;
            }
            frontier = next;
            depth = depth + 1;
        }
        proof {
            let d = depth as int;
            if d == 1 {
                lemma_reach_base(edges, tv, source_id, source_id);
                assert(ends_at(frontier@, source_id));
            }
            assert forall|y: u128|
                #[trigger] reach(edges, tv, source_id, y, (d - 1) + 1) implies reach(
                    edges,
                    tv,
                    source_id,
                    y,
                    d - 1,
                ) by {
                if !reach(edges, tv, source_id, y, d - 1) {
                    assert(ends_at(frontier@, y));
                }
            }
            lemma_reach_stable(edges, tv, source_id, d - 1, max_depth as int);
            assert(!reach(edges, tv, source_id, target_id, d));
            if reach(edges, tv, source_id, target_id, d - 1) {
                lemma_reach_mono(edges, tv, source_id, target_id, d - 1, d);
            }
        }
        None
    }
}

/// Only `source` is reached by a walk of one node, and nothing by an empty one.
pub proof fn lemma_reach_base(edges: Seq<EdgeView>, tenant: Seq<char>, source: u128, x: u128)
    ensures
        reach(edges, tenant, source, x, 1) <==> x == source,
        !reach(edges, tenant, source, x, 0),
{
    if x == source {
        let p = seq![source];
        assert(is_walk(edges, tenant, p));
    }
}

/// A walk of at most `n + 1` nodes is a walk of at most `n` nodes, or one of them
/// followed by a single edge.
pub proof fn lemma_reach_step(edges: Seq<EdgeView>, tenant: Seq<char>, source: u128, x: u128, n: int)
    requires
        n >= 1,
    ensures
        reach(edges, tenant, source, x, n + 1) <==> (reach(edges, tenant, source, x, n) || exists|
            u: u128,
        | reach(edges, tenant, source, u, n) && #[trigger] linked(edges, tenant, u, x)),
{
    if reach(edges, tenant, source, x, n + 1) && !reach(edges, tenant, source, x, n) {
        let p = choose|p: Seq<u128>|
            #[trigger] is_walk(edges, tenant, p) && p[0] == source && p.last() == x && p.len() <= n
                + 1;
        assert(p.len() == n + 1);
        let q = p.subrange(0, n);
        assert forall|k: int| 0 <= k < q.len() - 1 implies linked(edges, tenant, q[k], #[trigger] q[k + 1]) by {
            assert(q[k] == p[k] && q[k + 1] == p[k + 1]);
        }
        assert(is_walk(edges, tenant, q));
        assert(linked(edges, tenant, p[n - 1], p[(n - 1) + 1]));
        assert(reach(edges, tenant, source, q.last(), n));
        assert(linked(edges, tenant, q.last(), x));
    }
    if exists|u: u128| reach(edges, tenant, source, u, n) && #[trigger] linked(edges, tenant, u, x) {
        let u = choose|u: u128| reach(edges, tenant, source, u, n) && #[trigger] linked(edges, tenant, u, x);
        let p = choose|p: Seq<u128>|
            #[trigger] is_walk(edges, tenant, p) && p[0] == source && p.last() == u && p.len() <= n;
        lemma_walk_push(edges, tenant, p, x);
        assert(is_walk(edges, tenant, p.push(x)));
    }
    if reach(edges, tenant, source, x, n) {
        let p = choose|p: Seq<u128>|
            #[trigger] is_walk(edges, tenant, p) && p[0] == source && p.last() == x && p.len() <= n;
        assert(is_walk(edges, tenant, p));
    }
}

/// Reaching within `n` nodes implies reaching within any larger bound.
pub proof fn lemma_reach_mono(edges: Seq<EdgeView>, tenant: Seq<char>, source: u128, x: u128, n: int, m: int)
    requires
        n <= m,
        reach(edges, tenant, source, x, n),
    ensures
        reach(edges, tenant, source, x, m),
{
    let p = choose|p: Seq<u128>|
        #[trigger] is_walk(edges, tenant, p) && p[0] == source && p.last() == x && p.len() <= n;
    assert(is_walk(edges, tenant, p));
}

/// When one more node reaches nothing new, no larger bound does either.
pub proof fn lemma_reach_stable(edges: Seq<EdgeView>, tenant: Seq<char>, source: u128, n: int, m: int)
    requires
        n >= 1,
        n <= m,
        forall|y: u128|
            #[trigger] reach(edges, tenant, source, y, n + 1) ==> reach(edges, tenant, source, y, n),
    ensures
        forall|y: u128| #[trigger] reach(edges, tenant, source, y, m) ==> reach(edges, tenant, source, y, n),
    decreases m - n,
{
    if m > n {
        lemma_reach_stable(edges, tenant, source, n, m - 1);
        assert forall|y: u128| #[trigger] reach(edges, tenant, source, y, m) implies reach(
            edges,
            tenant,
            source,
            y,
            n,
        ) by {
            lemma_reach_step(edges, tenant, source, y, m - 1);
            if !reach(edges, tenant, source, y, m - 1) {
                let u = choose|u: u128|
                    reach(edges, tenant, source, u, m - 1) && #[trigger] linked(edges, tenant, u, y);
                assert(reach(edges, tenant, source, u, n));
                lemma_reach_step(edges, tenant, source, y, n);
            }
        }
    }
}

} // verus!
