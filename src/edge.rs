//! The edge table: one row per directed edge, with its source, target and
//! weight.
use crate::table::{
    column_fits, column_len, copy_fields, find_field, find_field_from, found_type_name, lemma_column_len, read_outcome,
    read_scalar, scalar_column, u32_column, ColumnData, ColumnError, DataType, Field,
    RecordBatch, TableError, column_data_type,
};
use crate::types::{BuilderError, NodeId, Scalar, Weight};
use vstd::prelude::*;

verus! {

/// Why the edge table could not be read or extended.
#[derive(Debug)]
pub enum EdgeDataError {
    IndexOutOfBounds,
    ColumnNotFound,
    ColumnTypeMismatch { data_type: String },
    /// The extended table could not be made.
    FailedToAddEdges { source: TableError },
}

/// The columns of the edge table.
#[derive(Debug, Clone, Copy, PartialEq, Eq, Structural)]
pub enum Attribute {
    /// The edge's source node.
    Source,
    /// The edge's target node.
    Target,
    /// The edge's weight: positive flows source to target, negative target to source.
    Weight,
}

/// The column name of an attribute.
pub open spec fn attribute_name(a: Attribute) -> Seq<char> {
    match a {
        Attribute::Source => "source"@,
        Attribute::Target => "target"@,
        Attribute::Weight => "weight"@,
    }
}

impl Attribute {
    /// The column name of this attribute.
    pub fn as_str(&self) -> (r: &'static str)
        ensures
            r@ == attribute_name(*self),
    {
        match self {
            Attribute::Source => "source",
            Attribute::Target => "target",
            Attribute::Weight => "weight",
        }
    }
}

/// A directed edge, with an optional weight.
#[derive(Debug, Clone, Copy, PartialEq, Eq, Structural)]
pub struct Edge {
    pub source_id: NodeId,
    pub target_id: NodeId,
    pub weight: Option<Weight>,
}

impl Edge {
    /// A builder with no field set.
    pub fn builder() -> (r: EdgeBuilder)
        ensures
            r.source_id is None && r.target_id is None && r.weight is None,
    {
        EdgeBuilder { source_id: None, target_id: None, weight: None }
    }
}

/// Builds an [`Edge`]; source and target are required.
#[derive(Debug, Clone, Copy)]
pub struct EdgeBuilder {
    pub source_id: Option<NodeId>,
    pub target_id: Option<NodeId>,
    pub weight: Option<Weight>,
}

impl EdgeBuilder {
    pub fn source_id(self, id: NodeId) -> (r: EdgeBuilder)
        ensures
            r == (EdgeBuilder { source_id: Some(id), ..self }),
    {
        EdgeBuilder { source_id: Some(id), ..self }
    }

    pub fn target_id(self, id: NodeId) -> (r: EdgeBuilder)
        ensures
            r == (EdgeBuilder { target_id: Some(id), ..self }),
    {
        EdgeBuilder { target_id: Some(id), ..self }
    }

    pub fn weight(self, weight: Weight) -> (r: EdgeBuilder)
        ensures
            r == (EdgeBuilder { weight: Some(weight), ..self }),
    {
        EdgeBuilder { weight: Some(weight), ..self }
    }

    /// The edge, or an error where source or target was not set.
    pub fn build(&self) -> (r: Result<Edge, BuilderError>)
        ensures
            match (self.source_id, self.target_id) {
                (Some(s), Some(t)) => r == Ok::<Edge, BuilderError>(
                    Edge { source_id: s, target_id: t, weight: self.weight },
                ),
                _ => r is Err,
            },
    {
        match self.source_id {
            None => Err(BuilderError::UninitializedField { field: "source_id".to_string() }),
            Some(s) => match self.target_id {
                None => Err(BuilderError::UninitializedField { field: "target_id".to_string() }),
                Some(t) => Ok(Edge { source_id: s, target_id: t, weight: self.weight }),
            },
        }
    }
}

/// The edge table's schema: `source: UInt32`, `target: UInt32` (both not
/// null), `weight: Float64`.
pub open spec fn is_edge_schema(s: Seq<Field>) -> bool {
    &&& s.len() == 3
    &&& s[0].name@ == "source"@ && s[0].data_type is UInt32 && !s[0].nullable
    &&& s[1].name@ == "target"@ && s[1].data_type is UInt32 && !s[1].nullable
    &&& s[2].name@ == "weight"@ && s[2].data_type is Float64 && s[2].nullable
}

/// The weight an edge is stored with: 0.0 where it has none.
pub open spec fn stored_weight(e: Edge) -> Scalar {
    match e.weight {
        Some(w) => w,
        None => Scalar { bits: 0 },
    }
}

/// The targets of the rows among the first `n` whose source is `node`, in
/// row order.
pub open spec fn out_targets(src: Seq<NodeId>, tgt: Seq<NodeId>, node: NodeId, n: int) -> Seq<NodeId>
    decreases n,
{
    if n <= 0 {
        seq![]
    } else if src[n - 1] == node {
        out_targets(src, tgt, node, n - 1).push(tgt[n - 1])
    } else {
        out_targets(src, tgt, node, n - 1)
    }
}

/// The targets and weights of the rows among the first `n` whose source is
/// `node`, in row order.
pub open spec fn out_weighted(
    src: Seq<NodeId>,
    tgt: Seq<NodeId>,
    w: Seq<Scalar>,
    node: NodeId,
    n: int,
) -> Seq<(NodeId, Scalar)>
    decreases n,
{
    if n <= 0 {
        seq![]
    } else if src[n - 1] == node {
        out_weighted(src, tgt, w, node, n - 1).push((tgt[n - 1], w[n - 1]))
    } else {
        out_weighted(src, tgt, w, node, n - 1)
    }
}

/// A row read from a column, as the edge table gives it.
pub open spec fn edge_outcome<T>(c: Result<T, ColumnError>, r: Result<T, EdgeDataError>) -> bool {
    match c {
        Ok(v) => r == Ok::<T, EdgeDataError>(v),
        Err(ColumnError::NotFound) => r matches Err(EdgeDataError::ColumnNotFound),
        Err(ColumnError::TypeMismatch { data_type }) => r matches Err(
            EdgeDataError::ColumnTypeMismatch { data_type: d },
        ) && d@ == data_type@,
    }
}

/// Turns a column read error into an edge table error.
fn edge_error(e: ColumnError) -> (r: EdgeDataError)
    ensures
        e is NotFound ==> r is ColumnNotFound,
        e matches ColumnError::TypeMismatch { data_type } ==> (r matches EdgeDataError::ColumnTypeMismatch { data_type: d } && d == data_type),
{
    match e {
        ColumnError::NotFound => EdgeDataError::ColumnNotFound,
        ColumnError::TypeMismatch { data_type } => EdgeDataError::ColumnTypeMismatch { data_type },
    }
}

/// The edge table.
pub struct EdgeRecordBatch(pub RecordBatch);

impl EdgeRecordBatch {
    /// The sources, as read.
    pub open spec fn sources(self) -> Seq<NodeId> {
        u32_column(self.0, "source"@)->0
    }

    /// The targets, as read.
    pub open spec fn targets(self) -> Seq<NodeId> {
        u32_column(self.0, "target"@)->0
    }

    /// The weights, as read (0.0 where a row holds none).
    pub open spec fn weights(self) -> Seq<Scalar> {
        scalar_column(self.0, "weight"@)->0
    }

    /// The table has the three columns, each of its type.
    pub open spec fn readable(self) -> bool {
        &&& u32_column(self.0, "source"@) is Some
        &&& u32_column(self.0, "target"@) is Some
        &&& scalar_column(self.0, "weight"@) is Some
    }

    /// The row `i` as an edge; its weight as read.
    pub open spec fn row(self, i: int) -> Edge {
        Edge {
            source_id: self.sources()[i],
            target_id: self.targets()[i],
            weight: Some(self.weights()[i]),
        }
    }

    /// Wraps a table read from elsewhere; it is not checked here.
    pub fn from_record_batch(b: RecordBatch) -> (r: EdgeRecordBatch)
        ensures
            r.0 == b,
    {
        EdgeRecordBatch(b)
    }

    /// The edge table's schema.
    pub fn schema() -> (r: Vec<Field>)
        ensures
            is_edge_schema(r@),
    {
        vec![
            Field::new(Attribute::Source.as_str(), DataType::UInt32, false),
            Field::new(Attribute::Target.as_str(), DataType::UInt32, false),
            Field::new(Attribute::Weight.as_str(), DataType::Float64, true),
        ]
    }

    /// A table of the given edges, in order; a missing weight is stored as 0.0.
    pub fn from_edges(edges: &Vec<Edge>) -> (r: EdgeRecordBatch)
        ensures
            is_edge_schema(r.0.spec_fields()),
            r.0.spec_num_rows() == edges@.len(),
            r.readable(),
            r.sources() == edges@.map_values(|e: Edge| e.source_id),
            r.targets() == edges@.map_values(|e: Edge| e.target_id),
            r.weights() == edges@.map_values(|e: Edge| stored_weight(e)),
    {
        let mut src: Vec<NodeId> = Vec::new();
        let mut tgt: Vec<NodeId> = Vec::new();
        let mut w: Vec<Option<Scalar>> = Vec::new();
        let mut i: usize = 0;
        while i < edges.len()
            invariant
                0 <= i <= edges@.len(),
                src@ == edges@.take(i as int).map_values(|e: Edge| e.source_id),
                tgt@ == edges@.take(i as int).map_values(|e: Edge| e.target_id),
                w@ == edges@.take(i as int).map_values(|e: Edge| Some(stored_weight(e))),
            decreases edges@.len() - i,
        {
            let e = edges[i];
            src.push(e.source_id);
            tgt.push(e.target_id);
            w.push(Some(match e.weight { Some(x) => x, None => Scalar::zero() }));
            proof {
                assert(edges@.take(i + 1) =~= edges@.take(i as int).push(edges@[i as int]));
            }
            i += 1;
        }
        proof {
            assert(edges@.take(edges@.len() as int) =~= edges@);
        }
        let fields = Self::schema();
        let ghost wv = w@;
        let columns = vec![ColumnData::UInt32(src), ColumnData::UInt32(tgt), ColumnData::Float64(w)];
        assert(column_fits(fields@[0], columns@[0], column_len(columns@[0])));
        assert(column_fits(fields@[1], columns@[1], column_len(columns@[0])));
        assert(column_fits(fields@[2], columns@[2], column_len(columns@[0])));
        let r = EdgeRecordBatch(RecordBatch::new(fields, columns));
        proof {
            lemma_edge_schema_columns(r.0);
            assert(r.weights() =~= edges@.map_values(|e: Edge| stored_weight(e)));
        }
        r
    }

    /// The underlying table.
    pub fn record_batch(&self) -> (r: &RecordBatch)
        ensures
            *r == self.0,
    {
        &self.0
    }

    /// The number of rows.
    pub fn num_edges(&self) -> (r: usize)
        ensures
            r == self.0.spec_num_rows(),
    {
        self.0.num_rows()
    }

    /// The source at row `idx`.
    pub fn source_id(&self, idx: usize) -> (r: Result<NodeId, EdgeDataError>)
        ensures
            idx >= self.0.spec_num_rows() ==> r matches Err(EdgeDataError::IndexOutOfBounds),
            idx < self.0.spec_num_rows() ==> exists|c: Result<NodeId, ColumnError>|
                read_outcome(self.0, "source"@, u32_column(self.0, "source"@), idx as int, c)
                    && #[trigger] edge_outcome(c, r),
    {
        if idx >= self.num_edges() {
            return Err(EdgeDataError::IndexOutOfBounds);
        }
        let c = self.0.u32_value(Attribute::Source.as_str(), idx);
        let r = match c {
            Ok(v) => Ok(v),
            Err(e) => Err(edge_error(e)),
        };
        assert(edge_outcome(c, r));
        r
    }

    /// The target at row `idx`.
    pub fn target_id(&self, idx: usize) -> (r: Result<NodeId, EdgeDataError>)
        ensures
            idx >= self.0.spec_num_rows() ==> r matches Err(EdgeDataError::IndexOutOfBounds),
            idx < self.0.spec_num_rows() ==> exists|c: Result<NodeId, ColumnError>|
                read_outcome(self.0, "target"@, u32_column(self.0, "target"@), idx as int, c)
                    && #[trigger] edge_outcome(c, r),
    {
        if idx >= self.num_edges() {
            return Err(EdgeDataError::IndexOutOfBounds);
        }
        let c = self.0.u32_value(Attribute::Target.as_str(), idx);
        let r = match c {
            Ok(v) => Ok(v),
            Err(e) => Err(edge_error(e)),
        };
        assert(edge_outcome(c, r));
        r
    }

    /// The weight at row `idx`: always present, 0.0 where the row holds none.
    pub fn weight(&self, idx: usize) -> (r: Result<Option<Weight>, EdgeDataError>)
        ensures
            idx >= self.0.spec_num_rows() ==> r matches Err(EdgeDataError::IndexOutOfBounds),
            idx < self.0.spec_num_rows() ==> exists|c: Result<Scalar, ColumnError>|
                read_outcome(self.0, "weight"@, scalar_column(self.0, "weight"@), idx as int, c)
                    && #[trigger] edge_outcome(lift(c), r),
    {
        if idx >= self.num_edges() {
            return Err(EdgeDataError::IndexOutOfBounds);
        }
        let c = self.0.scalar_value(Attribute::Weight.as_str(), idx);
        let r = match c {
            Ok(v) => Ok(Some(v)),
            Err(e) => Err(edge_error(e)),
        };
        assert(edge_outcome(lift(c), r));
        r
    }

    /// The edge at row `idx`.
    pub fn edge(&self, idx: usize) -> (r: Result<Edge, EdgeDataError>)
        ensures
            idx >= self.0.spec_num_rows() ==> r matches Err(EdgeDataError::IndexOutOfBounds),
            idx < self.0.spec_num_rows() && self.readable() ==> r == Ok::<Edge, EdgeDataError>(
                self.row(idx as int),
            ),
            idx < self.0.spec_num_rows() && !self.readable() ==> r is Err && !(r matches Err(
                EdgeDataError::IndexOutOfBounds,
            )),
    {
        if idx >= self.num_edges() {
            return Err(EdgeDataError::IndexOutOfBounds);
        }
        self.0.check_invariant();
        proof {
            lemma_column_len(self.0, "source"@);
            lemma_column_len(self.0, "target"@);
            lemma_column_len(self.0, "weight"@);
        }
        let source_id = match self.source_id(idx) {
            Ok(v) => v,
            Err(e) => return Err(e),
        };
        let target_id = match self.target_id(idx) {
            Ok(v) => v,
            Err(e) => return Err(e),
        };
        let weight = match self.weight(idx) {
            Ok(v) => v,
            Err(e) => return Err(e),
        };
        Ok(Edge { source_id, target_id, weight })
    }

    /// All edges, in row order.
    pub fn edges(&self) -> (r: Result<Vec<Edge>, EdgeDataError>)
        ensures
            self.readable() ==> (r matches Ok(v) && v@ == Seq::new(
                self.0.spec_num_rows(),
                |i: int| self.row(i),
            )),
            !self.readable() && self.0.spec_num_rows() > 0 ==> r is Err,
            self.0.spec_num_rows() == 0 ==> (r matches Ok(v) && v@.len() == 0),
    {
        let n = self.num_edges();
        let mut out: Vec<Edge> = Vec::new();
        let mut i: usize = 0;
        while i < n
            invariant
                n == self.0.spec_num_rows(),
                0 <= i <= n,
                i > 0 ==> self.readable(),
                out@ == Seq::new(i as nat, |j: int| self.row(j)),
            decreases n - i,
        {
            match self.edge(i) {
                Err(e) => return Err(e),
                Ok(e) => out.push(e),
            }
            proof {
                assert(out@ =~= Seq::new((i + 1) as nat, |j: int| self.row(j)));
            }
            i += 1;
        }
        Ok(out)
    }

    /// The targets of the edges whose source is `node`, in row order.
    pub fn neighbors(&self, node: NodeId) -> (r: Result<Vec<NodeId>, EdgeDataError>)
        ensures
            self.readable() ==> (r matches Ok(v) && v@ == out_targets(
                self.sources(),
                self.targets(),
                node,
                self.0.spec_num_rows() as int,
            )),
            !self.readable() && self.0.spec_num_rows() > 0 ==> r is Err,
            self.0.spec_num_rows() == 0 ==> (r matches Ok(v) && v@.len() == 0),
    {
        let n = self.num_edges();
        let mut out: Vec<NodeId> = Vec::new();
        let mut i: usize = 0;
        while i < n
            invariant
                n == self.0.spec_num_rows(),
                0 <= i <= n,
                i > 0 ==> self.readable(),
                self.readable() ==> out@ == out_targets(self.sources(), self.targets(), node, i as int),
                i == 0 ==> out@.len() == 0,
            decreases n - i,
        {
            match self.edge(i) {
                Err(e) => return Err(e),
                Ok(e) => {
                    if e.source_id == node {
                        out.push(e.target_id);
                    }
                },
            }
            i += 1;
        }
        Ok(out)
    }

    /// The targets and weights (0.0 where absent) of the edges whose source
    /// is `node`, in row order.
    pub fn neighbors_with_weights(&self, node: NodeId) -> (r: Result<Vec<(NodeId, Weight)>, EdgeDataError>)
        ensures
            self.readable() ==> (r matches Ok(v) && v@ == out_weighted(
                self.sources(),
                self.targets(),
                self.weights(),
                node,
                self.0.spec_num_rows() as int,
            )),
            !self.readable() && self.0.spec_num_rows() > 0 ==> r is Err,
            self.0.spec_num_rows() == 0 ==> (r matches Ok(v) && v@.len() == 0),
    {
        let n = self.num_edges();
        let mut out: Vec<(NodeId, Weight)> = Vec::new();
        let mut i: usize = 0;
        while i < n
            invariant
                n == self.0.spec_num_rows(),
                0 <= i <= n,
                i > 0 ==> self.readable(),
                self.readable() ==> out@ == out_weighted(
                    self.sources(),
                    self.targets(),
                    self.weights(),
                    node,
                    i as int,
                ),
                i == 0 ==> out@.len() == 0,
            decreases n - i,
        {
            match self.edge(i) {
                Err(e) => return Err(e),
                Ok(e) => {
                    if e.source_id == node {
                        let w = match e.weight { Some(x) => x, None => Scalar::zero() };
                        out.push((e.target_id, w));
                    }
                },
            }
            i += 1;
        }
        Ok(out)
    }

    /// Appends `edges` after the existing rows, keeping the schema; a missing
    /// weight is stored as 0.0. On failure the table is left as it was.
    pub fn add_edges(&mut self, edges: &Vec<Edge>) -> (r: Result<(), EdgeDataError>)
        ensures
            r is Err ==> *final(self) == *old(self),
            r is Ok ==> final(self).0.spec_fields() == old(self).0.spec_fields()
                && final(self).0.spec_num_rows() == old(self).0.spec_num_rows() + edges@.len(),
            r is Ok && is_edge_schema(old(self).0.spec_fields()) ==> {
                &&& final(self).readable()
                &&& final(self).sources() == old(self).sources() + edges@.map_values(
                    |e: Edge| e.source_id,
                )
                &&& final(self).targets() == old(self).targets() + edges@.map_values(
                    |e: Edge| e.target_id,
                )
                &&& final(self).weights() == old(self).weights() + edges@.map_values(
                    |e: Edge| stored_weight(e),
                )
            },
            is_edge_schema(old(self).0.spec_fields()) ==> r is Ok,
            !old(self).readable() ==> r is Err,
            find_field(old(self).0.spec_fields(), "source"@) is None ==> r matches Err(
                EdgeDataError::ColumnNotFound,
            ),
            find_field(old(self).0.spec_fields(), "source"@) is Some && find_field(
                old(self).0.spec_fields(),
                "target"@,
            ) is None ==> r matches Err(EdgeDataError::ColumnNotFound),
            find_field(old(self).0.spec_fields(), "source"@) is Some && find_field(
                old(self).0.spec_fields(),
                "target"@,
            ) is Some && find_field(old(self).0.spec_fields(), "weight"@) is None ==> r matches Err(
                EdgeDataError::ColumnNotFound,
            ),
            all_found(old(self).0) && u32_column(old(self).0, "source"@) is None ==> (r matches Err(
                EdgeDataError::ColumnTypeMismatch { data_type },
            ) && data_type@ == found_type_name(old(self).0, "source"@)),
            all_found(old(self).0) && u32_column(old(self).0, "source"@) is Some && u32_column(
                old(self).0,
                "target"@,
            ) is None ==> (r matches Err(EdgeDataError::ColumnTypeMismatch { data_type }) && data_type@
                == found_type_name(old(self).0, "target"@)),
            all_found(old(self).0) && u32_column(old(self).0, "source"@) is Some && u32_column(
                old(self).0,
                "target"@,
            ) is Some && scalar_column(old(self).0, "weight"@) is None ==> (r matches Err(
                EdgeDataError::ColumnTypeMismatch { data_type },
            ) && data_type@ == found_type_name(old(self).0, "weight"@)),
            old(self).readable() && r is Err ==> r matches Err(EdgeDataError::FailedToAddEdges { .. }),
    {
        self.0.check_invariant();
        proof {
            lemma_column_len(self.0, "source"@);
            lemma_column_len(self.0, "target"@);
            lemma_column_len(self.0, "weight"@);
            if is_edge_schema(self.0.spec_fields()) {
                lemma_edge_schema_columns(self.0);
            }
        }
        let si = match self.0.column_index(Attribute::Source.as_str()) {
            None => return Err(EdgeDataError::ColumnNotFound),
            Some(i) => i,
        };
        let ti = match self.0.column_index(Attribute::Target.as_str()) {
            None => return Err(EdgeDataError::ColumnNotFound),
            Some(i) => i,
        };
        let wi = match self.0.column_index(Attribute::Weight.as_str()) {
            None => return Err(EdgeDataError::ColumnNotFound),
            Some(i) => i,
        };
        let columns = self.0.columns();
        let new_source = match &columns[si] {
            ColumnData::UInt32(v) => append_ids(v, edges, true),
            c => return Err(EdgeDataError::ColumnTypeMismatch { data_type: column_data_type(c).name() }),
        };
        let new_target = match &columns[ti] {
            ColumnData::UInt32(v) => append_ids(v, edges, false),
            c => return Err(EdgeDataError::ColumnTypeMismatch { data_type: column_data_type(c).name() }),
        };
        let new_weight = match &columns[wi] {
            ColumnData::Float64(v) => append_weights(v, edges),
            c => return Err(EdgeDataError::ColumnTypeMismatch { data_type: column_data_type(c).name() }),
        };
        let fields = copy_fields(self.0.fields());
        let new_columns = vec![
            ColumnData::UInt32(new_source),
            ColumnData::UInt32(new_target),
            ColumnData::Float64(new_weight),
        ];
        proof {
            if is_edge_schema(fields@) {
                assert(column_fits(fields@[0], new_columns@[0], column_len(new_columns@[0])));
                assert(column_fits(fields@[1], new_columns@[1], column_len(new_columns@[0])));
                assert(column_fits(fields@[2], new_columns@[2], column_len(new_columns@[0])));
            }
        }
        match RecordBatch::try_new(fields, new_columns) {
            Err(e) => Err(EdgeDataError::FailedToAddEdges { source: e }),
            Ok(b) => {
                b.check_invariant();
                proof {
                    if is_edge_schema(b.spec_fields()) {
                        lemma_edge_schema_columns(b);
                    }
                }
                self.0 = b;
                Ok(())
            },
        }
    }
}

/// The table has columns named `source`, `target` and `weight`.
pub open spec fn all_found(b: RecordBatch) -> bool {
    &&& find_field(b.spec_fields(), "source"@) is Some
    &&& find_field(b.spec_fields(), "target"@) is Some
    &&& find_field(b.spec_fields(), "weight"@) is Some
}

/// `old` followed by the source (or target) ids of `edges`.
fn append_ids(old: &Vec<NodeId>, edges: &Vec<Edge>, sources: bool) -> (r: Vec<NodeId>)
    ensures
        r@ == old@ + edges@.map_values(|e: Edge| if sources { e.source_id } else { e.target_id }),
{
    let mut r: Vec<NodeId> = Vec::new();
    let mut i: usize = 0;
    while i < old.len()
        invariant
            0 <= i <= old@.len(),
            r@ == old@.take(i as int),
        decreases old@.len() - i,
    {
        r.push(old[i]);
        proof {
            assert(old@.take(i + 1) =~= old@.take(i as int).push(old@[i as int]));
        }
        i += 1;
    }
    let ghost tail = edges@.map_values(|e: Edge| if sources { e.source_id } else { e.target_id });
    let mut j: usize = 0;
    while j < edges.len()
        invariant
            0 <= j <= edges@.len(),
            tail == edges@.map_values(|e: Edge| if sources { e.source_id } else { e.target_id }),
            r@ == old@ + tail.take(j as int),
        decreases edges@.len() - j,
    {
        let e = edges[j];
        r.push(if sources { e.source_id } else { e.target_id });
        proof {
            assert(tail.take(j + 1) =~= tail.take(j as int).push(tail[j as int]));
            assert(old@ + tail.take(j + 1) =~= (old@ + tail.take(j as int)).push(tail[j as int]));
        }
        j += 1;
    }
    proof {
        assert(old@.take(old@.len() as int) =~= old@);
        assert(tail.take(edges@.len() as int) =~= tail);
    }
    r
}

/// The values of `old` as read, followed by the stored weights of `edges`;
/// none of them missing.
fn append_weights(old: &Vec<Option<Scalar>>, edges: &Vec<Edge>) -> (r: Vec<Option<Scalar>>)
    ensures
        r@.map_values(|o: Option<Scalar>| read_scalar(o)) == old@.map_values(
            |o: Option<Scalar>| read_scalar(o),
        ) + edges@.map_values(|e: Edge| stored_weight(e)),
        forall|i: int| 0 <= i < r@.len() ==> (#[trigger] r@[i]) is Some,
        r@.len() == old@.len() + edges@.len(),
{
    let ghost want = old@.map_values(|o: Option<Scalar>| read_scalar(o)) + edges@.map_values(
        |e: Edge| stored_weight(e),
    );
    let mut r: Vec<Option<Scalar>> = Vec::new();
    let mut i: usize = 0;
    while i < old.len()
        invariant
            0 <= i <= old@.len(),
            want == old@.map_values(|o: Option<Scalar>| read_scalar(o)) + edges@.map_values(
                |e: Edge| stored_weight(e),
            ),
            r@.len() == i,
            forall|k: int| 0 <= k < i ==> (#[trigger] r@[k]) == Some(want[k]),
        decreases old@.len() - i,
    {
        let v = match old[i] { Some(x) => x, None => Scalar::zero() };
        r.push(Some(v));
        i += 1;
    }
    let mut j: usize = 0;
    while j < edges.len()
        invariant
            0 <= j <= edges@.len(),
            want == old@.map_values(|o: Option<Scalar>| read_scalar(o)) + edges@.map_values(
                |e: Edge| stored_weight(e),
            ),
            r@.len() == old@.len() + j,
            forall|k: int| 0 <= k < r@.len() ==> (#[trigger] r@[k]) == Some(want[k]),
        decreases edges@.len() - j,
    {
        let e = edges[j];
        r.push(Some(match e.weight { Some(x) => x, None => Scalar::zero() }));
        j += 1;
    }
    proof {
        assert(r@.map_values(|o: Option<Scalar>| read_scalar(o)) =~= want);
    }
    r
}

/// A read value, as present.
pub open spec fn lift(c: Result<Scalar, ColumnError>) -> Result<Option<Scalar>, ColumnError> {
    match c {
        Ok(v) => Ok(Some(v)),
        Err(e) => Err(e),
    }
}

/// In a well-formed table with the edge schema, the three columns are read
/// from their positions.
pub proof fn lemma_edge_schema_columns(b: RecordBatch)
    requires
        b.well_formed(),
        is_edge_schema(b.spec_fields()),
    ensures
        find_field(b.spec_fields(), "source"@) == Some(0int),
        find_field(b.spec_fields(), "target"@) == Some(1int),
        find_field(b.spec_fields(), "weight"@) == Some(2int),
        b.spec_columns()[0] is UInt32,
        b.spec_columns()[1] is UInt32,
        b.spec_columns()[2] is Float64,
        u32_column(b, "source"@) is Some,
        u32_column(b, "target"@) is Some,
        scalar_column(b, "weight"@) is Some,
{
    reveal_strlit("source");
    reveal_strlit("target");
    reveal_strlit("weight");
    let f = b.spec_fields();
    reveal_with_fuel(find_field_from, 4);
    assert("source"@[0] != "target"@[0]);
    assert(f[0].name@ != "target"@);
    assert("source"@[0] != "weight"@[0]);
    assert(f[0].name@ != "weight"@);
    assert("target"@[0] != "weight"@[0]);
    assert(f[1].name@ != "weight"@);
    assert(column_fits(f[0], b.spec_columns()[0], b.spec_num_rows()));
    assert(column_fits(f[1], b.spec_columns()[1], b.spec_num_rows()));
    assert(column_fits(f[2], b.spec_columns()[2], b.spec_num_rows()));
}

} // verus!
