//! Incremental construction of a relational graph under size, density,
//! cycle and connectivity rules.
use vstd::prelude::*;
use vstd::string::*;
use crate::node_id::{NodeId, node_text, default_str_hash};
use crate::topology::Topology;
use crate::reach::{reaches, succ_of, linked, is_route};
use crate::acyclic::{acyclic, law_acyclic_push};
use crate::connectivity::{would_create_cycle, is_connected, connected_from_first};
use crate::error::{GraphError, GraphResult};
use crate::decimal::{decimal, u64_to_decimal, lemma_parse_decimal};

verus! {

/// A density bound as an exact fraction `numerator / denominator`.
#[derive(Debug, Clone, Copy, PartialEq, Eq, Structural)]
pub struct DensityLimit {
    pub numerator: u64,
    pub denominator: u64,
}

/// Limits and rules that a [`GraphBuilder`] enforces.
#[derive(Debug, Clone)]
pub struct GraphBuilderConfig {
    pub max_nodes: usize,
    pub max_edges: usize,
    pub max_density: DensityLimit,
    pub allow_cycles: bool,
    pub require_connected: bool,
    pub validate_attributes: bool,
    pub batch_size: usize,
    pub num_workers: usize,
}

impl Default for GraphBuilderConfig {
    /// A million nodes, ten million edges, the advisory density of one tenth
    /// (not enforced, see [`enforced`]), no
    /// directed cycles, connected result, batches of ten thousand edges.
    fn default() -> (r: Self)
        ensures
            r.max_nodes == 1_000_000,
            r.max_edges == 10_000_000,
            r.max_density == (DensityLimit { numerator: 1, denominator: 10 }),
            !r.allow_cycles,
            r.require_connected,
            r.validate_attributes,
            r.batch_size == 10000,
            r.num_workers == 4,
    {
        GraphBuilderConfig {
            max_nodes: 1_000_000,
            max_edges: 10_000_000,
            max_density: DensityLimit { numerator: 1, denominator: 10 },
            allow_cycles: false,
            require_connected: true,
            validate_attributes: true,
            batch_size: 10000,
            num_workers: 4,
        }
    }
}

/// What identifies a node: its table type and id, as text.
pub open spec fn key(n: NodeId) -> (Seq<char>, Seq<char>) {
    (n.table_type@, n.id@)
}

/// The nodes of `ids` hold pairwise different keys.
pub open spec fn distinct_keys(ids: Seq<NodeId>) -> bool {
    forall|i: int, j: int| 0 <= i < j < ids.len() ==> key(#[trigger] ids[i]) != key(#[trigger] ids[j])
}

/// Some node of `ids` has the key of `id`.
pub open spec fn has_key(ids: Seq<NodeId>, id: NodeId) -> bool {
    exists|i: int| 0 <= i < ids.len() && key(#[trigger] ids[i]) == key(id)
}

/// The position of the node with the key of `id`.
pub open spec fn position(ids: Seq<NodeId>, id: NodeId) -> int {
    choose|i: int| 0 <= i < ids.len() && key(#[trigger] ids[i]) == key(id)
}

/// Number of unordered pairs of `n` nodes.
pub open spec fn node_pairs(n: nat) -> nat {
    (n * (n - 1) / 2) as nat
}

/// Whether a density limit is enforced: every limit but the default one
/// tenth, which is advisory.
pub open spec fn enforced(limit: DensityLimit) -> bool {
    limit.numerator * 10 != limit.denominator
}

/// `edges` edges among `n` nodes are denser than `limit`: with at least two
/// nodes, `edges / node_pairs(n) > numerator / denominator`.
pub open spec fn too_dense(n: nat, edges: nat, limit: DensityLimit) -> bool {
    n > 1 && edges * limit.denominator > limit.numerator * node_pairs(n)
}

/// No two edges join the same nodes in the same direction under the same
/// relation.
pub open spec fn distinct_edges(links: Seq<(usize, usize)>, relations: Seq<usize>) -> bool {
    forall|j: int, k: int| 0 <= j < k < links.len() ==> !(#[trigger] links[j] == #[trigger] links[k] && relations[j] == relations[k])
}

/// Some edge already joins `from` to `to` under `relation`.
pub open spec fn has_edge(links: Seq<(usize, usize)>, relations: Seq<usize>, from: usize, to: usize, relation: usize) -> bool {
    exists|k: int| 0 <= k < links.len() && links[k] == (from, to) && #[trigger] relations[k] == relation
}

/// The message of the edge-limit refusal.
pub open spec fn edge_limit_message(max_edges: usize) -> Seq<char> {
    "Maximum number of edges ("@ + decimal(max_edges as nat) + ") exceeded"@
}

/// A graph under construction. Nodes are kept in insertion order; edges join
/// node positions and carry a relation number. An edge that makes the graph
/// denser than a configured limit is kept and reported; the default limit of
/// one tenth is advisory and not enforced.
pub struct GraphBuilder {
    config: GraphBuilderConfig,
    nodes: Vec<NodeId>,
    topology: Topology,
    relations: Vec<usize>,
}

/// The finished structure: nodes, the edges between their positions, and the
/// relation number of each edge.
pub struct GraphStructure {
    pub nodes: Vec<NodeId>,
    pub topology: Topology,
    pub relations: Vec<usize>,
}

impl GraphBuilder {
    pub closed spec fn config_view(&self) -> GraphBuilderConfig {
        self.config
    }

    /// The nodes, in insertion order.
    pub closed spec fn node_ids(&self) -> Seq<NodeId> {
        self.nodes@
    }

    /// The edges, as pairs of node positions, in insertion order.
    pub closed spec fn links(&self) -> Seq<(usize, usize)> {
        self.topology.edges@
    }

    /// The relation number of each edge.
    pub closed spec fn relation_ids(&self) -> Seq<usize> {
        self.relations@
    }

    /// The builder's invariant: edges join existing nodes, node keys are
    /// distinct, no edge is repeated, the limits hold, and without permission
    /// for cycles the edges form no directed cycle.
    pub closed spec fn wf(&self) -> bool {
        &&& self.topology.num_nodes == self.nodes@.len()
        &&& self.topology.wf()
        &&& self.relations@.len() == self.topology.edges@.len()
        &&& distinct_keys(self.nodes@)
        &&& distinct_edges(self.topology.edges@, self.relations@)
        &&& self.nodes@.len() <= self.config.max_nodes
        &&& self.topology.edges@.len() <= self.config.max_edges
        &&& !self.config.allow_cycles ==> acyclic(self.topology.edges@)
    }

    /// An empty builder under `config`.
    pub fn new(config: GraphBuilderConfig) -> (r: Self)
        ensures
            r.wf(),
            r.config_view() == config,
            r.node_ids().len() == 0,
            r.links().len() == 0,
            r.relation_ids().len() == 0,
    {
        let r = GraphBuilder {
            config,
            nodes: Vec::new(),
            topology: Topology { num_nodes: 0, edges: Vec::new() },
            relations: Vec::new(),
        };
        assert(acyclic(r.topology.edges@));
        r
    }


    /// Whether a node with the table type and id of `id` is present.
    pub fn has_node(&self, id: &NodeId) -> (r: bool)
        requires
            self.wf(),
        ensures
            r == has_key(self.node_ids(), *id),
    {
        self.find_node(id).is_some()
    }

    /// The number of nodes added so far.
    pub fn num_nodes(&self) -> (r: usize)
        ensures
            r == self.node_ids().len(),
    {
        self.nodes.len()
    }

    /// The number of edges added so far.
    pub fn num_edges(&self) -> (r: usize)
        requires
            self.wf(),
        ensures
            r == self.links().len(),
    {
        self.topology.edges.len()
    }

    fn find_node(&self, id: &NodeId) -> (r: Option<usize>)
        requires
            self.wf(),
        ensures
            match r {
                Some(i) => i < self.nodes@.len() && key(self.nodes@[i as int]) == key(*id)
                    && position(self.nodes@, *id) == i,
                None => !has_key(self.nodes@, *id),
            },
    {
        let mut i: usize = 0;
        while i < self.nodes.len()
            invariant
                self.wf(),
                i <= self.nodes@.len(),
                forall|j: int| 0 <= j < i ==> key(#[trigger] self.nodes@[j]) != key(*id),
            decreases self.nodes@.len() - i,
        {
            let same = self.nodes[i].table_type == id.table_type && self.nodes[i].id == id.id;
            if same {
                proof {
                    let p = position(self.nodes@, *id);
                    assert(key(self.nodes@[i as int]) == key(*id));
                    assert(has_key(self.nodes@, *id));
                    if p != i as int {
                        assert(key(self.nodes@[p]) == key(self.nodes@[i as int]));
                        if p < i {
                            assert(key(self.nodes@[p]) != key(self.nodes@[i as int]));
                        } else {
                            assert(key(self.nodes@[i as int]) != key(self.nodes@[p]));
                        }
                    }
                }
                return Some(i);
            }
            i = i + 1;
        }
        None
    }

    fn edge_exists(&self, from: usize, to: usize, relation: usize) -> (r: bool)
        requires
            self.wf(),
        ensures
            r == has_edge(self.topology.edges@, self.relations@, from, to, relation),
    {
        let mut k: usize = 0;
        while k < self.topology.edges.len()
            invariant
                self.relations@.len() == self.topology.edges@.len(),
                k <= self.topology.edges@.len(),
                forall|j: int| 0 <= j < k ==> !(self.topology.edges@[j] == (from, to) && #[trigger] self.relations@[j] == relation),
            decreases self.topology.edges@.len() - k,
        {
            let (a, b) = self.topology.edges[k];
            if a == from && b == to && self.relations[k] == relation {
                return true;
            }
            k = k + 1;
        }
        false
    }

    /// Adds a node. Refused when the node limit is reached or a node with the
    /// same table type and id is present; the builder is then unchanged.
    pub fn add_node(&mut self, id: NodeId) -> (r: GraphResult<()>)
        requires
            old(self).wf(),
            old(self).node_ids().len() < usize::MAX,
        ensures
            final(self).wf(),
            final(self).config_view() == old(self).config_view(),
            final(self).links() == old(self).links(),
            final(self).relation_ids() == old(self).relation_ids(),
            old(self).node_ids().len() >= old(self).config_view().max_nodes ==> {
                &&& r matches Err(GraphError::GraphTooLarge { nodes, max_nodes })
                &&& nodes == old(self).node_ids().len() + 1
                &&& max_nodes == old(self).config_view().max_nodes
                &&& final(self).node_ids() == old(self).node_ids()
            },
            old(self).node_ids().len() < old(self).config_view().max_nodes && has_key(old(self).node_ids(), id) ==> {
                &&& r matches Err(GraphError::DuplicateNode(s))
                &&& s@ == node_text(id.table_type@, id.id@)
                &&& final(self).node_ids() == old(self).node_ids()
            },
            old(self).node_ids().len() < old(self).config_view().max_nodes && !has_key(old(self).node_ids(), id) ==> {
                &&& r is Ok
                &&& final(self).node_ids() == old(self).node_ids().push(id)
            },
    {
        let n = self.nodes.len();
        if n >= self.config.max_nodes {
            return Err(GraphError::GraphTooLarge { nodes: n + 1, max_nodes: self.config.max_nodes });
        }
        match self.find_node(&id) {
            Some(_) => {
                return Err(GraphError::DuplicateNode(id.to_string()));
            },
            None => {},
        }
        let ghost old_nodes = self.nodes@;
        self.nodes.push(id);
        self.topology.num_nodes = self.topology.num_nodes + 1;
        proof {
            let ids = self.nodes@;
            assert forall|i: int, j: int| 0 <= i < j < ids.len() implies key(#[trigger] ids[i]) != key(#[trigger] ids[j]) by {
                if j == ids.len() - 1 {
                    assert(ids[i] == old_nodes[i]);
                    if key(ids[i]) == key(ids[j]) {
                        assert(has_key(old_nodes, id));
                    }
                } else {
                    assert(ids[i] == old_nodes[i] && ids[j] == old_nodes[j]);
                }
            }
        }
        Ok(())
    }

    /// Adds the edge `from -> to` under relation number `relation`;
    /// `relation_label` is how the relation is shown in error messages.
    ///
    /// Checked in this order: the edge limit, that both nodes exist, that no
    /// such edge exists, and, unless cycles are allowed, that `to` does not
    /// already reach `from`. A refusal leaves the builder unchanged. Once these
    /// pass the edge is added; if the configured limit is enforced and the graph
    /// is then denser than it, the edge stays and `GraphTooDense` is returned.
    pub fn add_edge(&mut self, from: NodeId, to: NodeId, relation: usize, relation_label: String) -> (r: GraphResult<()>)
        requires
            old(self).wf(),
        ensures
            final(self).wf(),
            final(self).config_view() == old(self).config_view(),
            final(self).node_ids() == old(self).node_ids(),
            ({
                let cfg = old(self).config_view();
                let ids = old(self).node_ids();
                let links = old(self).links();
                let rels = old(self).relation_ids();
                let full = links.len() >= cfg.max_edges;
                let fi = position(ids, from);
                let ti = position(ids, to);
                let unchanged = final(self).links() == links && final(self).relation_ids() == rels;
                &&& full ==> {
                    &&& r matches Err(GraphError::InvalidOperation(m))
                    &&& m@ == edge_limit_message(cfg.max_edges)
                    &&& unchanged
                }
                &&& !full && !has_key(ids, from) ==> {
                    &&& r matches Err(GraphError::NodeNotFound(s))
                    &&& s@ == node_text(from.table_type@, from.id@)
                    &&& unchanged
                }
                &&& !full && has_key(ids, from) && !has_key(ids, to) ==> {
                    &&& r matches Err(GraphError::NodeNotFound(s))
                    &&& s@ == node_text(to.table_type@, to.id@)
                    &&& unchanged
                }
                &&& !full && has_key(ids, from) && has_key(ids, to)
                    && has_edge(links, rels, fi as usize, ti as usize, relation) ==> {
                    &&& r matches Err(GraphError::DuplicateEdge { from: f, to: t, relation: l })
                    &&& f@ == node_text(from.table_type@, from.id@)
                    &&& t@ == node_text(to.table_type@, to.id@)
                    &&& l@ == relation_label@
                    &&& unchanged
                }
                &&& !full && has_key(ids, from) && has_key(ids, to)
                    && !has_edge(links, rels, fi as usize, ti as usize, relation)
                    && !cfg.allow_cycles && reaches(links, true, ti as usize, fi as usize) ==> {
                    &&& r matches Err(GraphError::CycleDetected)
                    &&& unchanged
                }
                &&& !full && has_key(ids, from) && has_key(ids, to)
                    && !has_edge(links, rels, fi as usize, ti as usize, relation)
                    && !(!cfg.allow_cycles && reaches(links, true, ti as usize, fi as usize)) ==> {
                    &&& final(self).links() == links.push((fi as usize, ti as usize))
                    &&& final(self).relation_ids() == rels.push(relation)
                    &&& enforced(cfg.max_density) && too_dense(ids.len(), links.len() + 1, cfg.max_density) ==> {
                        &&& r matches Err(GraphError::GraphTooDense { edges, node_pairs: pairs, max_density })
                        &&& edges == links.len() + 1
                        &&& pairs == node_pairs(ids.len())
                        &&& max_density == cfg.max_density
                    }
                    &&& !(enforced(cfg.max_density) && too_dense(ids.len(), links.len() + 1, cfg.max_density)) ==> r is Ok
                }
            }),
    {
        if self.topology.edges.len() >= self.config.max_edges {
            let mut m = String::from_str("Maximum number of edges (");
            let count = u64_to_decimal(self.config.max_edges as u64);
            m.append(count.as_str());
            m.append(") exceeded");
            return Err(GraphError::InvalidOperation(m));
        }
        let fi = match self.find_node(&from) {
            Some(i) => i,
            None => {
                return Err(GraphError::NodeNotFound(from.to_string()));
            },
        };
        let ti = match self.find_node(&to) {
            Some(i) => i,
            None => {
                return Err(GraphError::NodeNotFound(to.to_string()));
            },
        };
        if self.edge_exists(fi, ti, relation) {
            return Err(GraphError::DuplicateEdge {
                from: from.to_string(),
                to: to.to_string(),
                relation: relation_label,
            });
        }
        if !self.config.allow_cycles && would_create_cycle(&self.topology, fi, ti) {
            return Err(GraphError::CycleDetected);
        }
        let ghost old_links = self.topology.edges@;
        let ghost old_rels = self.relations@;
        proof {
            if !self.config.allow_cycles {
                law_acyclic_push(old_links, fi, ti);
            }
        }
        self.topology.edges.push((fi, ti));
        self.relations.push(relation);
        proof {
            assert forall|j: int, k: int| 0 <= j < k < self.topology.edges@.len() implies
                !(#[trigger] self.topology.edges@[j] == #[trigger] self.topology.edges@[k] && self.relations@[j] == self.relations@[k]) by {
                if k == old_links.len() {
                    assert(self.topology.edges@[j] == old_links[j]);
                    assert(self.relations@[j] == old_rels[j]);
                    if old_links[j] == (fi, ti) && old_rels[j] == relation {
                        assert(has_edge(old_links, old_rels, fi, ti, relation));
                    }
                } else {
                    assert(self.topology.edges@[j] == old_links[j] && self.topology.edges@[k] == old_links[k]);
                    assert(self.relations@[j] == old_rels[j] && self.relations@[k] == old_rels[k]);
                }
            }
            assert forall|k: int| 0 <= k < self.topology.edges@.len() implies
                (#[trigger] self.topology.edges@[k]).0 < self.topology.num_nodes
                    && self.topology.edges@[k].1 < self.topology.num_nodes by {
                if k < old_links.len() {
                    assert(self.topology.edges@[k] == old_links[k]);
                }
            }
        }
        let n = self.nodes.len();
        let e = self.topology.edges.len();
        let lim = self.config.max_density;
        if n > 1 && (lim.numerator as u128) * 10 != lim.denominator as u128 {
            let n128 = n as u128;
            proof {
                assert(n128 * (n128 - 1) <= u128::MAX) by (nonlinear_arith)
                    requires n128 <= 0xffff_ffff_ffff_ffffu128, n128 >= 1;
                assert((e as u128) * (lim.denominator as u128) <= u128::MAX) by (nonlinear_arith)
                    requires e <= 0xffff_ffff_ffff_ffffu128, lim.denominator <= 0xffff_ffff_ffff_ffffu128;
            }
            let pairs: u128 = n128 * (n128 - 1) / 2;
            let lhs: u128 = (e as u128) * (lim.denominator as u128);
            let num = lim.numerator as u128;
            if num > 0 && pairs > u128::MAX / num {
                proof {
                    assert(num * pairs > u128::MAX) by (nonlinear_arith)
                        requires num > 0, pairs > u128::MAX / num;
                }
                return Ok(());
            }
            proof {
                if num > 0 {
                    assert(num * pairs <= u128::MAX) by (nonlinear_arith)
                        requires num > 0, pairs <= u128::MAX / num;
                }
            }
            let rhs: u128 = num * pairs;
            if lhs > rhs {
                return Err(GraphError::GraphTooDense { edges: e, node_pairs: pairs, max_density: lim });
            }
        }
        Ok(())
    }

    /// Every node is reached from the first one, ignoring direction; an empty
    /// or one-node graph counts as connected.
    pub fn is_connected(&self) -> (r: bool)
        requires
            self.wf(),
        ensures
            r == connected_from_first(self.links(), self.node_ids().len()),
    {
        is_connected(&self.topology)
    }

    /// Checks the finished graph: it has a node, and it is connected when the
    /// configuration asks for it.
    pub fn validate_final_graph(&self) -> (r: GraphResult<()>)
        requires
            self.wf(),
        ensures
            self.node_ids().len() == 0 ==> (r matches Err(GraphError::ValidationError(m)) && m@ == "Graph has no nodes"@),
            self.node_ids().len() > 0 && self.config_view().require_connected
                && !connected_from_first(self.links(), self.node_ids().len()) ==> r matches Err(GraphError::Disconnected),
            self.node_ids().len() > 0 && !(self.config_view().require_connected
                && !connected_from_first(self.links(), self.node_ids().len())) ==> r is Ok,
    {
        if self.nodes.len() == 0 {
            return Err(GraphError::ValidationError(String::from_str("Graph has no nodes")));
        }
        if self.config.require_connected && !self.is_connected() {
            return Err(GraphError::Disconnected);
        }
        Ok(())
    }

    /// The finished structure, after [`GraphBuilder::validate_final_graph`]
    /// accepts it.
    pub fn build(self) -> (r: GraphResult<GraphStructure>)
        requires
            self.wf(),
        ensures
            self.node_ids().len() == 0 ==> (r matches Err(GraphError::ValidationError(m)) && m@ == "Graph has no nodes"@),
            self.node_ids().len() > 0 && self.config_view().require_connected
                && !connected_from_first(self.links(), self.node_ids().len()) ==> r matches Err(GraphError::Disconnected),
            self.node_ids().len() > 0 && !(self.config_view().require_connected
                && !connected_from_first(self.links(), self.node_ids().len())) ==> (r matches Ok(g) && {
                &&& g.nodes@ == self.node_ids()
                &&& g.topology.num_nodes == self.node_ids().len()
                &&& g.topology.edges@ == self.links()
                &&& g.relations@ == self.relation_ids()
                &&& g.topology.wf()
            }),
    {
        match self.validate_final_graph() {
            Err(e) => Err(e),
            Ok(()) => Ok(GraphStructure { nodes: self.nodes, topology: self.topology, relations: self.relations }),
        }
    }
}

/// What every builder keeps through all its operations: each edge joins two
/// of its nodes, no two nodes share a table type and id, no edge is repeated
/// under the same relation, the node and edge limits hold, and a builder that
/// does not allow cycles holds no directed cycle.
pub proof fn law_builder_invariant(b: GraphBuilder)
    requires
        b.wf(),
    ensures
        forall|k: int| 0 <= k < b.links().len() ==> (#[trigger] b.links()[k]).0 < b.node_ids().len()
            && b.links()[k].1 < b.node_ids().len(),
        distinct_keys(b.node_ids()),
        b.node_ids().len() <= b.config_view().max_nodes,
        b.links().len() <= b.config_view().max_edges,
        b.relation_ids().len() == b.links().len(),
        distinct_edges(b.links(), b.relation_ids()),
        !b.config_view().allow_cycles ==> acyclic(b.links()),
{
}

/// The key of the node that the name `s` stands for.
pub open spec fn name_key(s: Seq<char>) -> (Seq<char>, Seq<char>) {
    (decimal((default_str_hash(s) % 1000) as nat), decimal(default_str_hash(s) as nat))
}

/// The key that endpoint `j` of `edges` names: the source of edge `j / 2`
/// for even `j`, its target for odd `j`.
pub open spec fn endpoint_key(edges: Seq<(String, String, usize, String)>, j: int) -> (Seq<char>, Seq<char>) {
    if j % 2 == 0 {
        name_key(edges[j / 2].0@)
    } else {
        name_key(edges[j / 2].1@)
    }
}

/// The keys that the first `i` endpoints name, each once, in order of first
/// mention.
pub open spec fn endpoint_keys(edges: Seq<(String, String, usize, String)>, i: nat) -> Seq<(Seq<char>, Seq<char>)>
    decreases i,
{
    if i == 0 {
        Seq::empty()
    } else {
        let p = endpoint_keys(edges, (i - 1) as nat);
        let k = endpoint_key(edges, i - 1);
        if p.contains(k) {
            p
        } else {
            p.push(k)
        }
    }
}

/// The position of key `k` in `keys`.
pub open spec fn key_position(keys: Seq<(Seq<char>, Seq<char>)>, k: (Seq<char>, Seq<char>)) -> int {
    choose|i: int| 0 <= i < keys.len() && keys[i] == k
}

/// The edges between the positions, in `keys`, of the nodes that each edge
/// names.
pub open spec fn named_links(edges: Seq<(String, String, usize, String)>, keys: Seq<(Seq<char>, Seq<char>)>) -> Seq<(usize, usize)> {
    Seq::new(edges.len(), |k: int| (key_position(keys, name_key(edges[k].0@)) as usize, key_position(keys, name_key(edges[k].1@)) as usize))
}

/// The relation number of each edge.
pub open spec fn edge_relations(edges: Seq<(String, String, usize, String)>) -> Seq<usize> {
    Seq::new(edges.len(), |k: int| edges[k].2)
}

/// The keys of the nodes of `ids`.
pub open spec fn keys_of(ids: Seq<NodeId>) -> Seq<(Seq<char>, Seq<char>)> {
    ids.map_values(|n: NodeId| key(n))
}

/// The named edges make a graph under the default rules: some node and at
/// most a million, at most ten million edges, none repeated under the same
/// relation, no directed cycle, and connected.
pub open spec fn buildable(edges: Seq<(String, String, usize, String)>) -> bool {
    let keys = endpoint_keys(edges, 2 * edges.len());
    let links = named_links(edges, keys);
    &&& 0 < keys.len() <= 1_000_000
    &&& edges.len() <= 10_000_000
    &&& distinct_edges(links, edge_relations(edges))
    &&& acyclic(links)
    &&& connected_from_first(links, keys.len())
}

/// Edge `k` of the named edges is refused when it is added after the edges
/// before it: the edge limit is reached, the same edge under the same
/// relation is already there, or its target already reaches its source.
pub open spec fn edge_refused(edges: Seq<(String, String, usize, String)>, k: int) -> bool {
    let keys = endpoint_keys(edges, 2 * edges.len());
    let links = named_links(edges, keys);
    let rels = edge_relations(edges);
    ||| k >= 10_000_000
    ||| has_edge(links.take(k), rels.take(k), links[k].0, links[k].1, rels[k])
    ||| reaches(links.take(k), true, links[k].1, links[k].0)
}

/// The first refused edge at or after `i`, or the number of edges if none is.
pub open spec fn first_refused(edges: Seq<(String, String, usize, String)>, i: nat) -> nat
    decreases edges.len() - i,
{
    if i >= edges.len() {
        edges.len()
    } else if edge_refused(edges, i as int) {
        i
    } else {
        first_refused(edges, i + 1)
    }
}

/// The error with which building the named edges stops: too many nodes;
/// else the refusal of the first refused edge (edge limit, repeated edge,
/// cycle); else no node at all; else a disconnected graph.
pub open spec fn build_failure(edges: Seq<(String, String, usize, String)>, e: GraphError) -> bool {
    let keys = endpoint_keys(edges, 2 * edges.len());
    let links = named_links(edges, keys);
    let rels = edge_relations(edges);
    let k = first_refused(edges, 0) as int;
    if keys.len() > 1_000_000 {
        e matches GraphError::GraphTooLarge { nodes, max_nodes } && nodes == 1_000_001 && max_nodes == 1_000_000
    } else if k < edges.len() {
        if k >= 10_000_000 {
            e matches GraphError::InvalidOperation(m) && m@ == edge_limit_message(10_000_000)
        } else if has_edge(links.take(k), rels.take(k), links[k].0, links[k].1, rels[k]) {
            &&& e matches GraphError::DuplicateEdge { from, to, relation }
            &&& from@ == node_text(name_key(edges[k].0@).0, name_key(edges[k].0@).1)
            &&& to@ == node_text(name_key(edges[k].1@).0, name_key(edges[k].1@).1)
            &&& relation@ == edges[k].3@
        } else {
            e is CycleDetected
        }
    } else if keys.len() == 0 {
        e matches GraphError::ValidationError(m) && m@ == "Graph has no nodes"@
    } else {
        e is Disconnected
    }
}

proof fn lemma_first_refused(edges: Seq<(String, String, usize, String)>, i: nat)
    requires
        i <= edges.len(),
        forall|j: int| 0 <= j < i ==> !#[trigger] edge_refused(edges, j),
    ensures
        first_refused(edges, 0) == first_refused(edges, i),
    decreases i,
{
    if i > 0 {
        lemma_first_refused(edges, (i - 1) as nat);
        assert(!edge_refused(edges, i - 1));
    }
}

proof fn lemma_endpoint_keys_prefix(edges: Seq<(String, String, usize, String)>, i: nat, i2: nat)
    requires
        i <= i2,
    ensures
        endpoint_keys(edges, i).len() <= endpoint_keys(edges, i2).len(),
        forall|x: int| 0 <= x < endpoint_keys(edges, i).len() ==> #[trigger] endpoint_keys(edges, i)[x] == endpoint_keys(edges, i2)[x],
    decreases i2 - i,
{
    if i < i2 {
        lemma_endpoint_keys_prefix(edges, i, (i2 - 1) as nat);
        let p = endpoint_keys(edges, (i2 - 1) as nat);
        assert forall|x: int| 0 <= x < endpoint_keys(edges, i).len() implies #[trigger] endpoint_keys(edges, i)[x] == endpoint_keys(edges, i2)[x] by {
            assert(endpoint_keys(edges, i)[x] == p[x]);
        }
    }
}

proof fn lemma_endpoint_keys_mentions(edges: Seq<(String, String, usize, String)>, i: nat, j: int)
    requires
        0 <= j < i,
    ensures
        endpoint_keys(edges, i).contains(endpoint_key(edges, j)),
    decreases i,
{
    let p = endpoint_keys(edges, (i - 1) as nat);
    if j < i - 1 {
        lemma_endpoint_keys_mentions(edges, (i - 1) as nat, j);
        let x = choose|x: int| 0 <= x < p.len() && p[x] == endpoint_key(edges, j);
        lemma_endpoint_keys_prefix(edges, (i - 1) as nat, i);
        assert(endpoint_keys(edges, i)[x] == p[x]);
    } else {
        if !p.contains(endpoint_key(edges, j)) {
            assert(endpoint_keys(edges, i)[p.len() as int] == endpoint_key(edges, j));
        }
    }
}

/// The keys of distinct nodes are distinct, and a key has one position.
proof fn lemma_position_agrees(ids: Seq<NodeId>, id: NodeId)
    requires
        distinct_keys(ids),
        has_key(ids, id),
    ensures
        0 <= position(ids, id) < ids.len(),
        key_position(keys_of(ids), key(id)) == position(ids, id),
        keys_of(ids).contains(key(id)),
{
    let keys = keys_of(ids);
    let p = position(ids, id);
    assert(keys[p] == key(ids[p]));
    let q = key_position(keys, key(id));
    assert(keys.contains(key(id)));
    assert(key(ids[q]) == keys[q]);
    if p != q {
        if p < q {
            assert(key(ids[p]) != key(ids[q]));
        } else {
            assert(key(ids[q]) != key(ids[p]));
        }
    }
}

proof fn lemma_has_key_of_keys(ids: Seq<NodeId>, id: NodeId)
    requires
        keys_of(ids).contains(key(id)),
    ensures
        has_key(ids, id),
{
    let keys = keys_of(ids);
    let x = choose|x: int| 0 <= x < keys.len() && keys[x] == key(id);
    assert(key(ids[x]) == key(id));
}

/// Routes of a prefix of an edge list are routes of the whole list.
proof fn lemma_reaches_in_prefix(links: Seq<(usize, usize)>, k: int, x: usize, y: usize)
    requires
        0 <= k <= links.len(),
        reaches(links.take(k), true, x, y),
    ensures
        reaches(links, true, x, y),
{
    let small = links.take(k);
    let p = choose|p: Seq<usize>| #[trigger] is_route(small, true, p) && p[0] == x && p.last() == y;
    assert forall|i: int| 0 <= i < p.len() - 1 implies #[trigger] linked(links, true, p[i], p[i + 1]) by {
        assert(linked(small, true, p[i], p[i + 1]));
        let e = choose|e: int| 0 <= e < small.len() && #[trigger] succ_of(small[e], true, p[i]) == Some(p[i + 1]);
        assert(links[e] == small[e]);
    }
    assert(is_route(links, true, p));
}

fn add_endpoint(
    b: &mut GraphBuilder,
    name: &String,
    Ghost(edges): Ghost<Seq<(String, String, usize, String)>>,
    Ghost(j): Ghost<int>,
) -> (r: GraphResult<()>)
    requires
        old(b).wf(),
        old(b).config_view().max_density == (DensityLimit { numerator: 1, denominator: 10 }),
        old(b).config_view().max_nodes == 1_000_000,
        old(b).links().len() == 0,
        0 <= j < 2 * edges.len(),
        name@ == if j % 2 == 0 { edges[j / 2].0@ } else { edges[j / 2].1@ },
        keys_of(old(b).node_ids()) == endpoint_keys(edges, j as nat),
    ensures
        final(b).wf(),
        final(b).config_view() == old(b).config_view(),
        final(b).links().len() == 0,
        final(b).relation_ids() == old(b).relation_ids(),
        r is Ok ==> keys_of(final(b).node_ids()) == endpoint_keys(edges, (j + 1) as nat),
        r is Err ==> endpoint_keys(edges, (j + 1) as nat).len() > 1_000_000,
        r is Err ==> (r matches Err(GraphError::GraphTooLarge { nodes, max_nodes }) && nodes == 1_000_001 && max_nodes == 1_000_000),
{
    let id = NodeId::from_string(name.as_str());
    assert(key(id) == endpoint_key(edges, j));
    if b.has_node(&id) {
        proof {
            let ids = b.node_ids();
            let x = choose|x: int| 0 <= x < ids.len() && key(#[trigger] ids[x]) == key(id);
            assert(keys_of(ids)[x] == key(id));
            assert(endpoint_keys(edges, j as nat).contains(endpoint_key(edges, j)));
        }
        return Ok(());
    }
    proof {
        if keys_of(b.node_ids()).contains(key(id)) {
            lemma_has_key_of_keys(b.node_ids(), id);
        }
        assert(!endpoint_keys(edges, j as nat).contains(endpoint_key(edges, j)));
        assert(endpoint_keys(edges, (j + 1) as nat) == endpoint_keys(edges, j as nat).push(endpoint_key(edges, j)));
    }
    let ghost before = b.node_ids();
    let r = b.add_node(id);
    proof {
        if r is Ok {
            assert(keys_of(b.node_ids()) =~= keys_of(before).push(key(id)));
        }
    }
    r
}

impl GraphBuilder {
    /// Builds a graph under the default rules from `(from, to, relation,
    /// relation_label)` edges whose ends are node names: every named node is
    /// added once, in order of first mention, then every edge in order. The
    /// result is a graph exactly when the named edges satisfy the rules.
    pub fn build_from_edges(edges: &Vec<(String, String, usize, String)>) -> (r: GraphResult<GraphStructure>)
        ensures
            buildable(edges@) ==> r is Ok,
            r matches Ok(g) ==> {
                let keys = endpoint_keys(edges@, 2 * edges@.len());
                &&& buildable(edges@)
                &&& keys_of(g.nodes@) == keys
                &&& g.topology.edges@ == named_links(edges@, keys)
                &&& g.relations@ == edge_relations(edges@)
            },
            r matches Err(e) ==> build_failure(edges@, e),
    {
        let mut b = GraphBuilder::new(GraphBuilderConfig::default());
        let n = edges.len();
        let ghost es = edges@;
        proof {
            assert(keys_of(b.node_ids()) =~= endpoint_keys(es, 0));
        }
        let mut k: usize = 0;
        while k < n
            invariant
                n == es.len(),
                es == edges@,
                k <= n,
                b.wf(),
                b.config_view().max_density == (DensityLimit { numerator: 1, denominator: 10 }),
                b.config_view().max_nodes == 1_000_000,
                b.config_view().max_edges == 10_000_000,
                !b.config_view().allow_cycles,
                b.config_view().require_connected,
                b.links().len() == 0,
                b.relation_ids().len() == 0,
                keys_of(b.node_ids()) == endpoint_keys(es, 2 * k as nat),
            decreases n - k,
        {
            let r1 = add_endpoint(&mut b, &edges[k].0, Ghost(es), Ghost(2 * k as int));
            match r1 {
                Err(e) => {
                    proof {
                        lemma_endpoint_keys_prefix(es, (2 * k + 1) as nat, 2 * n as nat);
                        assert(build_failure(es, e));
                    }
                    return Err(e);
                },
                Ok(()) => {},
            }
            let r2 = add_endpoint(&mut b, &edges[k].1, Ghost(es), Ghost(2 * k as int + 1));
            match r2 {
                Err(e) => {
                    proof {
                        lemma_endpoint_keys_prefix(es, (2 * k + 2) as nat, 2 * n as nat);
                        assert(build_failure(es, e));
                    }
                    return Err(e);
                },
                Ok(()) => {},
            }
            k = k + 1;
        }
        let ghost keys = endpoint_keys(es, 2 * n as nat);
        let ghost links = named_links(es, keys);
        let ghost rels = edge_relations(es);
        let mut k: usize = 0;
        while k < n
            invariant
                n == es.len(),
                es == edges@,
                k <= n,
                b.wf(),
                b.config_view().max_density == (DensityLimit { numerator: 1, denominator: 10 }),
                b.config_view().max_nodes == 1_000_000,
                b.config_view().max_edges == 10_000_000,
                !b.config_view().allow_cycles,
                b.config_view().require_connected,
                keys == endpoint_keys(es, 2 * n as nat),
                links == named_links(es, keys),
                rels == edge_relations(es),
                keys_of(b.node_ids()) == keys,
                b.links() == links.take(k as int),
                b.relation_ids() == rels.take(k as int),
                forall|j: int| 0 <= j < k ==> !#[trigger] edge_refused(es, j),
            decreases n - k,
        {
            let from = NodeId::from_string(edges[k].0.as_str());
            let to = NodeId::from_string(edges[k].1.as_str());
            let relation = edges[k].2;
            let label = edges[k].3.clone();
            let ghost ids = b.node_ids();
            let ghost prefix = b.links();
            let ghost prefix_rels = b.relation_ids();
            proof {
                lemma_endpoint_keys_mentions(es, 2 * n as nat, 2 * k as int);
                lemma_endpoint_keys_mentions(es, 2 * n as nat, 2 * k as int + 1);
                assert(key(from) == endpoint_key(es, 2 * k as int));
                assert(key(to) == endpoint_key(es, 2 * k as int + 1));
                lemma_has_key_of_keys(ids, from);
                lemma_has_key_of_keys(ids, to);
                lemma_position_agrees(ids, from);
                lemma_position_agrees(ids, to);
                assert(links[k as int] == (position(ids, from) as usize, position(ids, to) as usize));
                assert(rels[k as int] == relation);
            }
            let r = b.add_edge(from, to, relation, label);
            match r {
                Err(e) => {
                    proof {
                        let fi = position(ids, from) as usize;
                        let ti = position(ids, to) as usize;
                        if has_edge(prefix, prefix_rels, fi, ti, relation) {
                            let j = choose|j: int| 0 <= j < prefix.len() && prefix[j] == (fi, ti) && #[trigger] prefix_rels[j] == relation;
                            assert(links[j] == prefix[j]);
                            assert(rels[j] == prefix_rels[j]);
                            assert(!distinct_edges(links, rels));
                        } else if reaches(prefix, true, ti, fi) {
                            lemma_reaches_in_prefix(links, k as int, ti, fi);
                            assert(!acyclic(links));
                        }
                        assert(keys_of(ids).len() == ids.len());
                        assert(prefix.len() == k);
                        assert(edge_refused(es, k as int));
                        lemma_first_refused(es, k as nat);
                        assert(first_refused(es, 0) == k);
                        assert(label@ == es[k as int].3@);
                        assert(build_failure(es, e));
                    }
                    return Err(e);
                },
                Ok(()) => {},
            }
            proof {
                assert(prefix.len() == k);
                assert(!edge_refused(es, k as int));
                assert(b.links() =~= links.take(k + 1));
                assert(b.relation_ids() =~= rels.take(k + 1));
            }
            k = k + 1;
        }
        proof {
            assert(links.take(n as int) =~= links);
            assert(rels.take(n as int) =~= rels);
            law_builder_invariant(b);
        }
        let ghost final_ids = b.node_ids();
        let r = b.build();
        match r {
            Err(e) => {
                proof {
                    lemma_first_refused(es, n as nat);
                    assert(keys_of(final_ids).len() == final_ids.len());
                    assert(build_failure(es, e));
                }
                Err(e)
            },
            Ok(g) => {
                proof {
                    assert(keys_of(final_ids).len() == final_ids.len());
                }
                Ok(g)
            },
        }
    }
}

} // verus!
