//! The node table: one row per node, with its id, weight and position.
use crate::table::{
    find_field, find_field_from, lemma_column_len, read_scalar, read_outcome, scalar_column, u32_column, ColumnData, ColumnError, DataType, Field,
    RecordBatch, column_fits, column_len,
};
use crate::types::{BuilderError, NodeId, Position, Scalar, Weight};
use vstd::prelude::*;

verus! {

/// Why a row of the node table could not be read.
#[derive(Debug)]
pub enum NodeDataError {
    IndexOutOfBounds,
    ColumnNotFound,
    ColumnTypeMismatch { data_type: String },
}

/// The columns of the node table.
#[derive(Debug, Clone, Copy, PartialEq, Eq, Structural)]
pub enum Attribute {
    /// The node's id.
    Node,
    /// The node's weight.
    Weight,
    /// The node's position: one scalar.
    Position,
}

/// The column name of an attribute.
pub open spec fn attribute_name(a: Attribute) -> Seq<char> {
    match a {
        Attribute::Node => "node"@,
        Attribute::Weight => "weight"@,
        Attribute::Position => "position"@,
    }
}

impl Attribute {
    /// The column name of this attribute.
    pub fn as_str(&self) -> (r: &'static str)
        ensures
            r@ == attribute_name(*self),
    {
        match self {
            Attribute::Node => "node",
            Attribute::Weight => "weight",
            Attribute::Position => "position",
        }
    }
}

/// A node: an id, and optionally a position and a weight.
#[derive(Debug, Clone, Copy, PartialEq, Eq, Structural)]
pub struct Node {
    pub id: NodeId,
    pub position: Option<Position>,
    pub weight: Option<Weight>,
}

impl Node {
    /// A builder with no field set.
    pub fn builder() -> (r: NodeBuilder)
        ensures
            r.id is None && r.position is None && r.weight is None,
    {
        NodeBuilder { id: None, position: None, weight: None }
    }
}

/// Builds a [`Node`]; the id is required.
#[derive(Debug, Clone, Copy)]
pub struct NodeBuilder {
    pub id: Option<NodeId>,
    pub position: Option<Position>,
    pub weight: Option<Weight>,
}

impl NodeBuilder {
    pub fn id(self, id: NodeId) -> (r: NodeBuilder)
        ensures
            r == (NodeBuilder { id: Some(id), ..self }),
    {
        NodeBuilder { id: Some(id), ..self }
    }

    pub fn position(self, position: Position) -> (r: NodeBuilder)
        ensures
            r == (NodeBuilder { position: Some(position), ..self }),
    {
        NodeBuilder { position: Some(position), ..self }
    }

    pub fn weight(self, weight: Weight) -> (r: NodeBuilder)
        ensures
            r == (NodeBuilder { weight: Some(weight), ..self }),
    {
        NodeBuilder { weight: Some(weight), ..self }
    }

    /// The node, or an error where the id was not set.
    pub fn build(&self) -> (r: Result<Node, BuilderError>)
        ensures
            match self.id {
                Some(id) => r == Ok::<Node, BuilderError>(
                    Node { id, position: self.position, weight: self.weight },
                ),
                None => r is Err,
            },
    {
        match self.id {
            Some(id) => Ok(Node { id, position: self.position, weight: self.weight }),
            None => Err(BuilderError::UninitializedField { field: "id".to_string() }),
        }
    }
}

/// The node table's schema: `node: UInt32` (not null), `weight: Float64`,
/// `position: Float64`.
pub open spec fn is_node_schema(s: Seq<Field>) -> bool {
    &&& s.len() == 3
    &&& s[0].name@ == "node"@ && s[0].data_type is UInt32 && !s[0].nullable
    &&& s[1].name@ == "weight"@ && s[1].data_type is Float64 && s[1].nullable
    &&& s[2].name@ == "position"@ && s[2].data_type is Float64 && s[2].nullable
}

/// Turns a column read error into a node table error.
fn node_error(e: ColumnError) -> (r: NodeDataError)
    ensures
        e is NotFound ==> r is ColumnNotFound,
        e matches ColumnError::TypeMismatch { data_type } ==> (r matches NodeDataError::ColumnTypeMismatch { data_type: d } && d == data_type),
{
    match e {
        ColumnError::NotFound => NodeDataError::ColumnNotFound,
        ColumnError::TypeMismatch { data_type } => NodeDataError::ColumnTypeMismatch { data_type },
    }
}

/// A row read from a column, as a node table gives it: `Ok` as is, and each
/// column error as the node error of the same kind.
pub open spec fn node_outcome<T>(c: Result<T, ColumnError>, r: Result<T, NodeDataError>) -> bool {
    match c {
        Ok(v) => r == Ok::<T, NodeDataError>(v),
        Err(ColumnError::NotFound) => r matches Err(NodeDataError::ColumnNotFound),
        Err(ColumnError::TypeMismatch { data_type }) => r matches Err(
            NodeDataError::ColumnTypeMismatch { data_type: d },
        ) && d@ == data_type@,
    }
}

/// The node table.
pub struct NodeRecordBatch(pub RecordBatch);

impl NodeRecordBatch {
    /// Wraps a table read from elsewhere; it is not checked here.
    pub fn from_record_batch(b: RecordBatch) -> (r: NodeRecordBatch)
        ensures
            r.0 == b,
    {
        NodeRecordBatch(b)
    }

    /// The node table's schema.
    pub fn schema() -> (r: Vec<Field>)
        ensures
            is_node_schema(r@),
    {
        vec![
            Field::new(Attribute::Node.as_str(), DataType::UInt32, false),
            Field::new(Attribute::Weight.as_str(), DataType::Float64, true),
            Field::new(Attribute::Position.as_str(), DataType::Float64, true),
        ]
    }

    /// A table of the given nodes, in order; a missing weight or position is
    /// stored as a missing value.
    pub fn from_nodes(nodes: &Vec<Node>) -> (r: NodeRecordBatch)
        ensures
            is_node_schema(r.0.spec_fields()),
            r.0.spec_num_rows() == nodes@.len(),
            r.0.spec_columns() =~= seq![
                ColumnData::UInt32(r.ids()),
                ColumnData::Float64(r.weights()),
                ColumnData::Float64(r.positions()),
            ],
            r.readable(),
            r.ids_read() == nodes@.map_values(|n: Node| n.id),
            r.weights_read() == nodes@.map_values(|n: Node| read_scalar(n.weight)),
            r.positions_read() == nodes@.map_values(|n: Node| read_scalar(n.position)),
            r.ids()@ == nodes@.map_values(|n: Node| n.id),
            r.weights()@ == nodes@.map_values(|n: Node| n.weight),
            r.positions()@ == nodes@.map_values(|n: Node| n.position),
    {
        let mut ids: Vec<NodeId> = Vec::new();
        let mut weights: Vec<Option<Scalar>> = Vec::new();
        let mut positions: Vec<Option<Scalar>> = Vec::new();
        let mut i: usize = 0;
        while i < nodes.len()
            invariant
                0 <= i <= nodes@.len(),
                ids@ == nodes@.take(i as int).map_values(|n: Node| n.id),
                weights@ == nodes@.take(i as int).map_values(|n: Node| n.weight),
                positions@ == nodes@.take(i as int).map_values(|n: Node| n.position),
            decreases nodes@.len() - i,
        {
            ids.push(nodes[i].id);
            weights.push(nodes[i].weight);
            positions.push(nodes[i].position);
            proof {
                assert(nodes@.take(i + 1) =~= nodes@.take(i as int).push(nodes@[i as int]));
            }
            i += 1;
        }
        proof {
            assert(nodes@.take(nodes@.len() as int) =~= nodes@);
        }
        let fields = Self::schema();
        let columns = vec![
            ColumnData::UInt32(ids),
            ColumnData::Float64(weights),
            ColumnData::Float64(positions),
        ];
        assert(column_fits(fields@[0], columns@[0], column_len(columns@[0])));
        assert(column_fits(fields@[1], columns@[1], column_len(columns@[0])));
        assert(column_fits(fields@[2], columns@[2], column_len(columns@[0])));
        let r = NodeRecordBatch(RecordBatch::new(fields, columns));
        proof {
            lemma_node_schema_columns(r.0);
            assert(r.weights_read() =~= nodes@.map_values(|n: Node| read_scalar(n.weight)));
            assert(r.positions_read() =~= nodes@.map_values(|n: Node| read_scalar(n.position)));
        }
        r
    }

    /// The ids, as read.
    pub open spec fn ids_read(self) -> Seq<NodeId> {
        u32_column(self.0, "node"@)->0
    }

    /// The weights, as read (0.0 where a row holds none).
    pub open spec fn weights_read(self) -> Seq<Scalar> {
        scalar_column(self.0, "weight"@)->0
    }

    /// The positions, as read (0.0 where a row holds none).
    pub open spec fn positions_read(self) -> Seq<Scalar> {
        scalar_column(self.0, "position"@)->0
    }

    /// The table has the three columns, each of its type.
    pub open spec fn readable(self) -> bool {
        &&& u32_column(self.0, "node"@) is Some
        &&& scalar_column(self.0, "weight"@) is Some
        &&& scalar_column(self.0, "position"@) is Some
    }

    /// The row `i` as a node; weight and position as read.
    pub open spec fn row(self, i: int) -> Node {
        Node {
            id: self.ids_read()[i],
            weight: Some(self.weights_read()[i]),
            position: Some(self.positions_read()[i]),
        }
    }

    pub closed spec fn ids(self) -> Vec<NodeId> {
        self.0.spec_columns()[0]->UInt32_0
    }

    pub closed spec fn weights(self) -> Vec<Option<Scalar>> {
        self.0.spec_columns()[1]->Float64_0
    }

    pub closed spec fn positions(self) -> Vec<Option<Scalar>> {
        self.0.spec_columns()[2]->Float64_0
    }

    /// The underlying table.
    pub fn record_batch(&self) -> (r: &RecordBatch)
        ensures
            *r == self.0,
    {
        &self.0
    }

    /// The number of rows.
    pub fn num_nodes(&self) -> (r: usize)
        ensures
            r == self.0.spec_num_rows(),
    {
        self.0.num_rows()
    }

    /// The id at row `idx`.
    pub fn node_id(&self, idx: usize) -> (r: Result<NodeId, NodeDataError>)
        ensures
            idx >= self.0.spec_num_rows() ==> r matches Err(NodeDataError::IndexOutOfBounds),
            idx < self.0.spec_num_rows() ==> exists|c: Result<NodeId, ColumnError>|
                read_outcome(self.0, "node"@, u32_column(self.0, "node"@), idx as int, c)
                    && #[trigger] node_outcome(c, r),
    {
        if idx >= self.num_nodes() {
            return Err(NodeDataError::IndexOutOfBounds);
        }
        let c = self.0.u32_value(Attribute::Node.as_str(), idx);
        let r = match c {
            Ok(v) => Ok(v),
            Err(e) => Err(node_error(e)),
        };
        assert(node_outcome(c, r));
        r
    }

    /// The weight at row `idx`: always present, 0.0 where the row holds none.
    pub fn weight(&self, idx: usize) -> (r: Result<Option<Weight>, NodeDataError>)
        ensures
            idx >= self.0.spec_num_rows() ==> r matches Err(NodeDataError::IndexOutOfBounds),
            idx < self.0.spec_num_rows() ==> exists|c: Result<Scalar, ColumnError>|
                read_outcome(self.0, "weight"@, scalar_column(self.0, "weight"@), idx as int, c)
                    && #[trigger] node_outcome(lift(c), r),
    {
        if idx >= self.num_nodes() {
            return Err(NodeDataError::IndexOutOfBounds);
        }
        let c = self.0.scalar_value(Attribute::Weight.as_str(), idx);
        let r = match c {
            Ok(v) => Ok(Some(v)),
            Err(e) => Err(node_error(e)),
        };
        assert(node_outcome(lift(c), r));
        r
    }

    /// The node at row `idx`.
    pub fn node(&self, idx: usize) -> (r: Result<Node, NodeDataError>)
        ensures
            idx >= self.0.spec_num_rows() ==> r matches Err(NodeDataError::IndexOutOfBounds),
            idx < self.0.spec_num_rows() && self.readable() ==> r == Ok::<Node, NodeDataError>(
                self.row(idx as int),
            ),
            idx < self.0.spec_num_rows() && !self.readable() ==> r is Err && !(r matches Err(
                NodeDataError::IndexOutOfBounds,
            )),
    {
        if idx >= self.num_nodes() {
            return Err(NodeDataError::IndexOutOfBounds);
        }
        self.0.check_invariant();
        proof {
            lemma_column_len(self.0, "node"@);
            lemma_column_len(self.0, "weight"@);
            lemma_column_len(self.0, "position"@);
        }
        let id = match self.node_id(idx) {
            Ok(v) => v,
            Err(e) => return Err(e),
        };
        let weight = match self.weight(idx) {
            Ok(v) => v,
            Err(e) => return Err(e),
        };
        let position = match self.position(idx) {
            Ok(v) => v,
            Err(e) => return Err(e),
        };
        Ok(Node { id, weight, position })
    }

    /// All nodes, in row order.
    pub fn nodes(&self) -> (r: Result<Vec<Node>, NodeDataError>)
        ensures
            self.readable() ==> (r matches Ok(v) && v@ == Seq::new(
                self.0.spec_num_rows(),
                |i: int| self.row(i),
            )),
            !self.readable() && self.0.spec_num_rows() > 0 ==> r is Err,
            self.0.spec_num_rows() == 0 ==> (r matches Ok(v) && v@.len() == 0),
    {
        let n = self.num_nodes();
        let mut out: Vec<Node> = Vec::new();
        let mut i: usize = 0;
        while i < n
            invariant
                n == self.0.spec_num_rows(),
                0 <= i <= n,
                i > 0 ==> self.readable(),
                out@ == Seq::new(i as nat, |j: int| self.row(j)),
            decreases n - i,
        {
            match self.node(i) {
                Err(e) => return Err(e),
                Ok(v) => out.push(v),
            }
            proof {
                assert(out@ =~= Seq::new((i + 1) as nat, |j: int| self.row(j)));
            }
            i += 1;
        }
        Ok(out)
    }

    /// The position at row `idx`: always present, 0.0 where the row holds none.
    pub fn position(&self, idx: usize) -> (r: Result<Option<Position>, NodeDataError>)
        ensures
            idx >= self.0.spec_num_rows() ==> r matches Err(NodeDataError::IndexOutOfBounds),
            idx < self.0.spec_num_rows() ==> exists|c: Result<Scalar, ColumnError>|
                read_outcome(self.0, "position"@, scalar_column(self.0, "position"@), idx as int, c)
                    && #[trigger] node_outcome(lift(c), r),
    {
        if idx >= self.num_nodes() {
            return Err(NodeDataError::IndexOutOfBounds);
        }
        let c = self.0.scalar_value(Attribute::Position.as_str(), idx);
        let r = match c {
            Ok(v) => Ok(Some(v)),
            Err(e) => Err(node_error(e)),
        };
        assert(node_outcome(lift(c), r));
        r
    }
}

/// In a well-formed table with the node schema, the three columns are read
/// from their positions.
pub proof fn lemma_node_schema_columns(b: RecordBatch)
    requires
        b.well_formed(),
        is_node_schema(b.spec_fields()),
    ensures
        find_field(b.spec_fields(), "node"@) == Some(0int),
        find_field(b.spec_fields(), "weight"@) == Some(1int),
        find_field(b.spec_fields(), "position"@) == Some(2int),
        b.spec_columns()[0] is UInt32,
        b.spec_columns()[1] is Float64,
        b.spec_columns()[2] is Float64,
        u32_column(b, "node"@) is Some,
        scalar_column(b, "weight"@) is Some,
        scalar_column(b, "position"@) is Some,
{
    reveal_strlit("node");
    reveal_strlit("weight");
    reveal_strlit("position");
    reveal_with_fuel(find_field_from, 4);
    let f = b.spec_fields();
    assert("node"@.len() != "weight"@.len());
    assert(f[0].name@ != "weight"@);
    assert("node"@.len() != "position"@.len());
    assert(f[0].name@ != "position"@);
    assert("weight"@.len() != "position"@.len());
    assert(f[1].name@ != "position"@);
    assert(column_fits(f[0], b.spec_columns()[0], b.spec_num_rows()));
    assert(column_fits(f[1], b.spec_columns()[1], b.spec_num_rows()));
    assert(column_fits(f[2], b.spec_columns()[2], b.spec_num_rows()));
}

/// A read value, as present.
pub open spec fn lift(c: Result<Scalar, ColumnError>) -> Result<Option<Scalar>, ColumnError> {
    match c {
        Ok(v) => Ok(Some(v)),
        Err(e) => Err(e),
    }
}

} // verus!
