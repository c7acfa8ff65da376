//! A graph: a node table and an edge table, each checked against its schema.
use crate::edge::{
    is_edge_schema, lemma_edge_schema_columns, out_targets, out_weighted, stored_weight, Edge,
    EdgeDataError, EdgeRecordBatch,
};
use crate::node::{is_node_schema, lemma_node_schema_columns, Node, NodeDataError, NodeRecordBatch};
use crate::table::{lemma_column_len, read_scalar, schemas_equal, u32_column, RecordBatch};
use crate::types::{NodeId, Scalar, Weight};
use vstd::prelude::*;

verus! {

/// Why a graph could not be made.
#[derive(Debug)]
pub enum GraphError {
    /// The node table's schema is not the node schema.
    InvalidNodeSchema,
    /// The edge table's schema is not the edge schema.
    InvalidEdgeSchema,
    /// No edges were given.
    EmptyGraph { name: String },
}

/// A graph: one node table and one edge table, each with its fixed schema.
pub struct Graph {
    node_record_batch: NodeRecordBatch,
    edge_record_batch: EdgeRecordBatch,
}

/// The pairs (source, target) of the edges, in row order.
pub open spec fn pairs_of(src: Seq<NodeId>, tgt: Seq<NodeId>) -> Seq<(NodeId, NodeId)> {
    Seq::new(src.len(), |i: int| (src[i], tgt[i]))
}

impl Graph {
    #[verifier::type_invariant]
    closed spec fn inv(self) -> bool {
        &&& self.node_record_batch.0.well_formed()
        &&& self.edge_record_batch.0.well_formed()
        &&& is_node_schema(self.node_record_batch.0.spec_fields())
        &&& is_edge_schema(self.edge_record_batch.0.spec_fields())
    }

    /// The node table.
    pub closed spec fn node_table(self) -> NodeRecordBatch {
        self.node_record_batch
    }

    /// The edge table.
    pub closed spec fn edge_table(self) -> EdgeRecordBatch {
        self.edge_record_batch
    }

    /// The node ids, in row order.
    pub open spec fn node_ids(self) -> Seq<NodeId> {
        u32_column(self.node_table().0, "node"@)->0
    }

    /// The edge sources, in row order.
    pub open spec fn sources(self) -> Seq<NodeId> {
        self.edge_table().sources()
    }

    /// The edge targets, in row order.
    pub open spec fn targets(self) -> Seq<NodeId> {
        self.edge_table().targets()
    }

    /// The edge weights, in row order.
    pub open spec fn weights(self) -> Seq<Scalar> {
        self.edge_table().weights()
    }

    /// The edges as (source, target) pairs, in row order.
    pub open spec fn edge_pairs(self) -> Seq<(NodeId, NodeId)> {
        pairs_of(self.sources(), self.targets())
    }

    /// The columns that the accessors read are there, one value per row.
    pub open spec fn columns_valid(self) -> bool {
        &&& u32_column(self.node_table().0, "node"@) is Some
        &&& self.node_ids().len() == self.node_table().0.spec_num_rows()
        &&& self.edge_table().readable()
        &&& self.sources().len() == self.edge_table().0.spec_num_rows()
        &&& self.targets().len() == self.edge_table().0.spec_num_rows()
        &&& self.weights().len() == self.edge_table().0.spec_num_rows()
    }

    /// The graph's columns are valid; for callers' proofs.
    pub fn check_columns(&self)
        ensures
            self.columns_valid(),
    {
        proof {
            use_type_invariant(self);
            lemma_node_schema_columns(self.node_record_batch.0);
            lemma_edge_schema_columns(self.edge_record_batch.0);
            lemma_column_len(self.node_record_batch.0, "node"@);
            lemma_column_len(self.edge_record_batch.0, "source"@);
            lemma_column_len(self.edge_record_batch.0, "target"@);
            lemma_column_len(self.edge_record_batch.0, "weight"@);
        }
    }

    /// A builder with neither edges nor nodes.
    pub fn builder() -> (r: GraphBuilder)
        ensures
            r.edges is None && r.nodes is None,
    {
        GraphBuilder { nodes: None, edges: None }
    }

    /// A graph of the two tables. Fails with `InvalidNodeSchema` where the
    /// node table's schema is not the node schema, else with
    /// `InvalidEdgeSchema` where the edge table's is not the edge schema.
    pub fn from_arrow_record_batches(
        node_record_batch: NodeRecordBatch,
        edge_record_batch: EdgeRecordBatch,
    ) -> (r: Result<Graph, GraphError>)
        ensures
            !is_node_schema(node_record_batch.0.spec_fields()) <==> r matches Err(
                GraphError::InvalidNodeSchema,
            ),
            is_node_schema(node_record_batch.0.spec_fields()) && !is_edge_schema(
                edge_record_batch.0.spec_fields(),
            ) <==> r matches Err(GraphError::InvalidEdgeSchema),
            r is Ok <==> is_node_schema(node_record_batch.0.spec_fields()) && is_edge_schema(
                edge_record_batch.0.spec_fields(),
            ),
            r matches Ok(g) ==> g.node_table() == node_record_batch && g.edge_table()
                == edge_record_batch,
    {
        let ns = NodeRecordBatch::schema();
        if !schemas_equal(&ns, node_record_batch.0.fields()) {
            proof {
                if is_node_schema(node_record_batch.0.spec_fields()) {
                    let f = node_record_batch.0.spec_fields();
                    assert(crate::table::same_field(ns@[0], f[0]));
                    assert(crate::table::same_field(ns@[1], f[1]));
                    assert(crate::table::same_field(ns@[2], f[2]));
                }
            }
            return Err(GraphError::InvalidNodeSchema);
        }
        proof {
            let f = node_record_batch.0.spec_fields();
            assert(crate::table::same_field(ns@[0], f[0]));
            assert(crate::table::same_field(ns@[1], f[1]));
            assert(crate::table::same_field(ns@[2], f[2]));
        }
        let es = EdgeRecordBatch::schema();
        if !schemas_equal(&es, edge_record_batch.0.fields()) {
            proof {
                if is_edge_schema(edge_record_batch.0.spec_fields()) {
                    let f = edge_record_batch.0.spec_fields();
                    assert(crate::table::same_field(es@[0], f[0]));
                    assert(crate::table::same_field(es@[1], f[1]));
                    assert(crate::table::same_field(es@[2], f[2]));
                }
            }
            return Err(GraphError::InvalidEdgeSchema);
        }
        proof {
            let f = edge_record_batch.0.spec_fields();
            assert(crate::table::same_field(es@[0], f[0]));
            assert(crate::table::same_field(es@[1], f[1]));
            assert(crate::table::same_field(es@[2], f[2]));
        }
        node_record_batch.0.check_invariant();
        edge_record_batch.0.check_invariant();
        Ok(Graph { node_record_batch, edge_record_batch })
    }

    /// The node table's data.
    pub fn node_record_batch(&self) -> (r: &RecordBatch)
        ensures
            *r == self.node_table().0,
    {
        &self.node_record_batch.0
    }

    /// The edge table's data.
    pub fn edge_record_batch(&self) -> (r: &RecordBatch)
        ensures
            *r == self.edge_table().0,
    {
        &self.edge_record_batch.0
    }

    /// The number of node rows.
    pub fn num_nodes(&self) -> (r: usize)
        ensures
            r == self.node_ids().len(),
            self.columns_valid(),
    {
        self.check_columns();
        self.node_record_batch.num_nodes()
    }

    /// The id at node row `idx`.
    pub fn node_id(&self, idx: usize) -> (r: Result<NodeId, NodeDataError>)
        ensures
            idx < self.node_ids().len() ==> r == Ok::<NodeId, NodeDataError>(
                self.node_ids()[idx as int],
            ),
            idx >= self.node_ids().len() ==> r matches Err(NodeDataError::IndexOutOfBounds),
    {
        self.check_columns();
        self.node_record_batch.node_id(idx)
    }

    /// The number of edge rows.
    pub fn num_edges(&self) -> (r: usize)
        ensures
            r == self.sources().len(),
            self.columns_valid(),
    {
        self.check_columns();
        self.edge_record_batch.num_edges()
    }

    /// The source at edge row `idx`.
    pub fn source_id(&self, idx: usize) -> (r: Result<NodeId, EdgeDataError>)
        ensures
            idx < self.sources().len() ==> r == Ok::<NodeId, EdgeDataError>(
                self.sources()[idx as int],
            ),
            idx >= self.sources().len() ==> r matches Err(EdgeDataError::IndexOutOfBounds),
    {
        self.check_columns();
        self.edge_record_batch.source_id(idx)
    }

    /// The target at edge row `idx`.
    pub fn target_id(&self, idx: usize) -> (r: Result<NodeId, EdgeDataError>)
        ensures
            idx < self.sources().len() ==> r == Ok::<NodeId, EdgeDataError>(
                self.targets()[idx as int],
            ),
            idx >= self.sources().len() ==> r matches Err(EdgeDataError::IndexOutOfBounds),
    {
        self.check_columns();
        self.edge_record_batch.target_id(idx)
    }

    /// The weight at edge row `idx` (0.0 where the edge had none).
    pub fn weight(&self, idx: usize) -> (r: Result<Option<Weight>, EdgeDataError>)
        ensures
            idx < self.sources().len() ==> r == Ok::<Option<Weight>, EdgeDataError>(
                Some(self.weights()[idx as int]),
            ),
            idx >= self.sources().len() ==> r matches Err(EdgeDataError::IndexOutOfBounds),
    {
        self.check_columns();
        self.edge_record_batch.weight(idx)
    }

    /// The targets of the edges whose source is `node`, in row order.
    pub fn neighbors(&self, node: NodeId) -> (r: Result<Vec<NodeId>, EdgeDataError>)
        ensures
            r matches Ok(v) && v@ == out_targets(
                self.sources(),
                self.targets(),
                node,
                self.sources().len() as int,
            ),
    {
        self.check_columns();
        self.edge_record_batch.neighbors(node)
    }

    /// The targets and weights of the edges whose source is `node`, in row order.
    pub fn neighbors_with_weights(&self, node: NodeId) -> (r: Result<Vec<(NodeId, Weight)>, EdgeDataError>)
        ensures
            r matches Ok(v) && v@ == out_weighted(
                self.sources(),
                self.targets(),
                self.weights(),
                node,
                self.sources().len() as int,
            ),
    {
        self.check_columns();
        self.edge_record_batch.neighbors_with_weights(node)
    }
}

/// The distinct endpoints of the first `n` edges, in the order first seen
/// (each edge's source before its target).
pub open spec fn derived_ids(edges: Seq<Edge>, n: int) -> Seq<NodeId>
    decreases n,
{
    if n <= 0 {
        seq![]
    } else {
        let prev = derived_ids(edges, n - 1);
        let e = edges[n - 1];
        let a = if prev.contains(e.source_id) {
            prev
        } else {
            prev.push(e.source_id)
        };
        if a.contains(e.target_id) {
            a
        } else {
            a.push(e.target_id)
        }
    }
}

/// Builds a [`Graph`] from an edge list and, optionally, a node list.
pub struct GraphBuilder {
    pub nodes: Option<Vec<Node>>,
    pub edges: Option<Vec<Edge>>,
}

/// Whether `ids` holds `id`.
fn contains_id(ids: &Vec<NodeId>, id: NodeId) -> (r: bool)
    ensures
        r == ids@.contains(id),
{
    let mut i: usize = 0;
    while i < ids.len()
        invariant
            0 <= i <= ids@.len(),
            forall|j: int| 0 <= j < i ==> ids@[j] != id,
        decreases ids@.len() - i,
    {
        if ids[i] == id {
            return true;
        }
        i += 1;
    }
    false
}

impl GraphBuilder {
    /// Sets the edges.
    pub fn edges(self, edges: Vec<Edge>) -> (r: GraphBuilder)
        ensures
            r.edges == Some(edges),
            r.nodes == self.nodes,
    {
        GraphBuilder { nodes: self.nodes, edges: Some(edges) }
    }

    /// Sets the nodes.
    pub fn nodes(self, nodes: Vec<Node>) -> (r: GraphBuilder)
        ensures
            r.nodes == Some(nodes),
            r.edges == self.edges,
    {
        GraphBuilder { nodes: Some(nodes), edges: self.edges }
    }

    /// The graph of the edges, and of the nodes where given; where not, of
    /// one node (without weight or position) per distinct endpoint, in the
    /// order first seen. Fails with `EmptyGraph` where no edges were given.
    pub fn build(&self) -> (r: Result<Graph, GraphError>)
        ensures
            self.edges is None ==> r matches Err(GraphError::EmptyGraph { .. }),
            self.edges matches Some(es) ==> (r matches Ok(g) && {
                &&& g.sources() == es@.map_values(|e: Edge| e.source_id)
                &&& g.targets() == es@.map_values(|e: Edge| e.target_id)
                &&& g.weights() == es@.map_values(|e: Edge| stored_weight(e))
                &&& g.node_ids() == match self.nodes {
                    Some(ns) => ns@.map_values(|n: Node| n.id),
                    None => derived_ids(es@, es@.len() as int),
                }
                &&& g.node_table().weights_read() == match self.nodes {
                    Some(ns) => ns@.map_values(|n: Node| read_scalar(n.weight)),
                    None => Seq::new(g.node_ids().len(), |i: int| Scalar { bits: 0 }),
                }
                &&& g.node_table().positions_read() == match self.nodes {
                    Some(ns) => ns@.map_values(|n: Node| read_scalar(n.position)),
                    None => Seq::new(g.node_ids().len(), |i: int| Scalar { bits: 0 }),
                }
            }),
    {
        let edges = match &self.edges {
            None => return Err(GraphError::EmptyGraph { name: "no edges".to_string() }),
            Some(es) => es,
        };
        let node_table = match &self.nodes {
            Some(ns) => NodeRecordBatch::from_nodes(ns),
            None => {
                let mut ids: Vec<NodeId> = Vec::new();
                let mut i: usize = 0;
                while i < edges.len()
                    invariant
                        0 <= i <= edges@.len(),
                        ids@ == derived_ids(edges@, i as int),
                    decreases edges@.len() - i,
                {
                    let e = edges[i];
                    if !contains_id(&ids, e.source_id) {
                        ids.push(e.source_id);
                    }
                    if !contains_id(&ids, e.target_id) {
                        ids.push(e.target_id);
                    }
                    i += 1;
                }
                let mut nodes: Vec<Node> = Vec::new();
                let mut j: usize = 0;
                while j < ids.len()
                    invariant
                        0 <= j <= ids@.len(),
                        nodes@.map_values(|n: Node| n.id) == ids@.take(j as int),
                        forall|k: int| 0 <= k < nodes@.len() ==> (#[trigger] nodes@[k]).weight is None
                            && nodes@[k].position is None,
                    decreases ids@.len() - j,
                {
                    nodes.push(Node { id: ids[j], position: None, weight: None });
                    proof {
                        assert(ids@.take(j + 1) =~= ids@.take(j as int).push(ids@[j as int]));
                        assert(nodes@.map_values(|n: Node| n.id) =~= ids@.take(j + 1));
                    }
                    j += 1;
                }
                proof {
                    assert(ids@.take(ids@.len() as int) =~= ids@);
                }
                let t = NodeRecordBatch::from_nodes(&nodes);
                proof {
                    assert(t.weights_read() =~= Seq::new(t.ids_read().len(), |i: int| Scalar { bits: 0 }));
                    assert(t.positions_read() =~= Seq::new(t.ids_read().len(), |i: int| Scalar { bits: 0 }));
                }
                t
            },
        };
        let edge_table = EdgeRecordBatch::from_edges(edges);
        let ghost nt = node_table;
        node_table.0.check_invariant();
        proof {
            lemma_node_schema_columns(node_table.0);
        }
        let r = Graph::from_arrow_record_batches(node_table, edge_table);
        proof {
            if r is Ok {
                assert(r->Ok_0.node_ids() =~= nt.ids()@);
            }
        }
        r
    }
}

} // verus!
