//! A column-oriented table: named, typed columns of equal length, checked
//! against a list of fields when the table is made.
use crate::types::{NodeId, Scalar};
use vstd::prelude::*;

verus! {

/// The primitive type of a column.
pub enum DataType {
    UInt32,
    Float64,
    /// Any other type, by its name.
    Other { name: String },
}

/// The name of a data type, as it is printed.
pub open spec fn data_type_name(d: DataType) -> Seq<char> {
    match d {
        DataType::UInt32 => "UInt32"@,
        DataType::Float64 => "Float64"@,
        DataType::Other { name } => name@,
    }
}

/// Two data types are the same type.
pub open spec fn same_type(a: DataType, b: DataType) -> bool {
    match (a, b) {
        (DataType::UInt32, DataType::UInt32) => true,
        (DataType::Float64, DataType::Float64) => true,
        (DataType::Other { name: x }, DataType::Other { name: y }) => x@ == y@,
        _ => false,
    }
}

impl DataType {
    /// The name of this type.
    pub fn name(&self) -> (r: String)
        ensures
            r@ == data_type_name(*self),
    {
        match self {
            DataType::UInt32 => "UInt32".to_string(),
            DataType::Float64 => "Float64".to_string(),
            DataType::Other { name } => name.clone(),
        }
    }

    /// Whether `self` and `other` are the same type.
    pub fn same_as(&self, other: &DataType) -> (r: bool)
        ensures
            r == same_type(*self, *other),
    {
        match (self, other) {
            (DataType::UInt32, DataType::UInt32) => true,
            (DataType::Float64, DataType::Float64) => true,
            (DataType::Other { name: x }, DataType::Other { name: y }) => *x == *y,
            _ => false,
        }
    }
}

/// A named, typed column of a schema.
pub struct Field {
    pub name: String,
    pub data_type: DataType,
    pub nullable: bool,
}

impl Field {
    /// A field with the given name, type and nullability.
    pub fn new(name: &str, data_type: DataType, nullable: bool) -> (r: Field)
        ensures
            r.name@ == name@,
            r.data_type == data_type,
            r.nullable == nullable,
    {
        Field { name: name.to_string(), data_type, nullable }
    }
}

/// Two fields agree in name, type and nullability.
pub open spec fn same_field(a: Field, b: Field) -> bool {
    a.name@ == b.name@ && same_type(a.data_type, b.data_type) && a.nullable == b.nullable
}

/// Two schemas agree field by field, in order.
pub open spec fn same_schema(a: Seq<Field>, b: Seq<Field>) -> bool {
    a.len() == b.len() && forall|i: int| 0 <= i < a.len() ==> #[trigger] same_field(a[i], b[i])
}

/// Compares two schemas structurally: names, types and nullability, in order.
pub fn schemas_equal(a: &Vec<Field>, b: &Vec<Field>) -> (r: bool)
    ensures
        r == same_schema(a@, b@),
{
    if a.len() != b.len() {
        return false;
    }
    let mut i: usize = 0;
    while i < a.len()
        invariant
            a@.len() == b@.len(),
            0 <= i <= a@.len(),
            forall|j: int| 0 <= j < i ==> #[trigger] same_field(a@[j], b@[j]),
        decreases a@.len() - i,
    {
        let fa = &a[i];
        let fb = &b[i];
        if !(fa.name == fb.name && fa.data_type.same_as(&fb.data_type) && fa.nullable == fb.nullable) {
            assert(!same_field(a@[i as int], b@[i as int]));
            return false;
        }
        i += 1;
    }
    true
}

/// The values of one column. A missing float is held as `None`.
pub enum ColumnData {
    UInt32(Vec<NodeId>),
    Float64(Vec<Option<Scalar>>),
    /// A column of a type that this library does not read: its type and length.
    Other { data_type: String, len: usize },
}

/// The data type of a column.
pub open spec fn column_type(c: ColumnData) -> DataType {
    match c {
        ColumnData::UInt32(_) => DataType::UInt32,
        ColumnData::Float64(_) => DataType::Float64,
        ColumnData::Other { data_type, .. } => DataType::Other { name: data_type },
    }
}

/// The number of values in a column.
pub open spec fn column_len(c: ColumnData) -> nat {
    match c {
        ColumnData::UInt32(v) => v@.len(),
        ColumnData::Float64(v) => v@.len(),
        ColumnData::Other { len, .. } => len as nat,
    }
}

/// The column holds no missing value.
pub open spec fn no_nulls(c: ColumnData) -> bool {
    match c {
        ColumnData::Float64(v) => forall|i: int| 0 <= i < v@.len() ==> (#[trigger] v@[i]) is Some,
        _ => true,
    }
}

/// The float value read at a row of a float column: a missing value reads as 0.0.
pub open spec fn read_scalar(o: Option<Scalar>) -> Scalar {
    match o {
        Some(s) => s,
        None => Scalar { bits: 0 },
    }
}

/// Why a table could not be made from a schema and columns.
#[derive(Debug, PartialEq, Eq, Structural)]
pub enum TableError {
    /// No column was given, so the number of rows is unknown.
    NoColumns,
    /// The number of columns differs from the number of fields.
    ColumnCountMismatch,
    /// A column's type differs from its field's type.
    TypeMismatch { index: usize },
    /// A column's length differs from the first column's.
    LengthMismatch { index: usize },
    /// A column of a non-nullable field holds a missing value.
    NullInNonNullable { index: usize },
}

/// Why a column could not be read.
#[derive(Debug)]
pub enum ColumnError {
    /// No field of that name.
    NotFound,
    /// The column exists but has another type, named here.
    TypeMismatch { data_type: String },
}

/// The index of the first field named `name`, from index `i` on.
pub open spec fn find_field_from(fields: Seq<Field>, name: Seq<char>, i: int) -> Option<int>
    decreases fields.len() - i,
{
    if i < 0 || i >= fields.len() {
        None
    } else if fields[i].name@ == name {
        Some(i)
    } else {
        find_field_from(fields, name, i + 1)
    }
}

/// A field found from index `i` on lies in `i..fields.len()` and has that name.
pub proof fn lemma_find_field_from(fields: Seq<Field>, name: Seq<char>, i: int)
    requires
        0 <= i,
    ensures
        match find_field_from(fields, name, i) {
            Some(j) => i <= j < fields.len() && fields[j].name@ == name,
            None => true,
        },
    decreases fields.len() - i,
{
    if i < fields.len() && fields[i].name@ != name {
        lemma_find_field_from(fields, name, i + 1);
    }
}

/// The index of the first field named `name`.
pub open spec fn find_field(fields: Seq<Field>, name: Seq<char>) -> Option<int> {
    find_field_from(fields, name, 0)
}

/// The unsigned column named `name`, if the table has one of that type.
pub open spec fn u32_column(b: RecordBatch, name: Seq<char>) -> Option<Seq<NodeId>> {
    match find_field(b.spec_fields(), name) {
        Some(i) => match b.spec_columns()[i] {
            ColumnData::UInt32(v) => Some(v@),
            _ => None,
        },
        None => None,
    }
}

/// The float column named `name`, as read (a missing value reads as 0.0),
/// if the table has one of that type.
pub open spec fn scalar_column(b: RecordBatch, name: Seq<char>) -> Option<Seq<Scalar>> {
    match find_field(b.spec_fields(), name) {
        Some(i) => match b.spec_columns()[i] {
            ColumnData::Float64(v) => Some(v@.map_values(|o: Option<Scalar>| read_scalar(o))),
            _ => None,
        },
        None => None,
    }
}

/// The name of the type of the column named `name` (meaningful where it exists).
pub open spec fn found_type_name(b: RecordBatch, name: Seq<char>) -> Seq<char> {
    data_type_name(column_type(b.spec_columns()[find_field(b.spec_fields(), name)->0]))
}

/// What reading row `idx` of a column gives: the value where the column has
/// the expected type, else which of the two column errors.
pub open spec fn read_outcome<T>(
    b: RecordBatch,
    name: Seq<char>,
    col: Option<Seq<T>>,
    idx: int,
    r: Result<T, ColumnError>,
) -> bool {
    match col {
        Some(v) => r == Ok::<T, ColumnError>(v[idx]),
        None => if find_field(b.spec_fields(), name) is None {
            r matches Err(ColumnError::NotFound)
        } else {
            r matches Err(ColumnError::TypeMismatch { data_type }) && data_type@ == found_type_name(
                b,
                name,
            )
        },
    }
}

/// In a well-formed table, a column read by name has one value per row.
pub proof fn lemma_column_len(b: RecordBatch, name: Seq<char>)
    requires
        b.well_formed(),
    ensures
        u32_column(b, name) matches Some(v) ==> v.len() == b.spec_num_rows(),
        scalar_column(b, name) matches Some(v) ==> v.len() == b.spec_num_rows(),
        find_field(b.spec_fields(), name) matches Some(i) ==> 0 <= i < b.spec_fields().len(),
{
    lemma_find_field_from(b.spec_fields(), name, 0);
    if let Some(i) = find_field(b.spec_fields(), name) {
        assert(column_fits(b.spec_fields()[i], b.spec_columns()[i], b.spec_num_rows()));
    }
}

/// A copy of a data type.
pub fn copy_data_type(d: &DataType) -> (r: DataType)
    ensures
        r == *d,
{
    match d {
        DataType::UInt32 => DataType::UInt32,
        DataType::Float64 => DataType::Float64,
        DataType::Other { name } => DataType::Other { name: name.clone() },
    }
}

/// A copy of a schema.
pub fn copy_fields(fields: &Vec<Field>) -> (r: Vec<Field>)
    ensures
        r@ == fields@,
{
    let mut r: Vec<Field> = Vec::new();
    let mut i: usize = 0;
    while i < fields.len()
        invariant
            0 <= i <= fields@.len(),
            r@ == fields@.take(i as int),
        decreases fields@.len() - i,
    {
        let f = &fields[i];
        r.push(Field { name: f.name.clone(), data_type: copy_data_type(&f.data_type), nullable: f.nullable });
        proof {
            assert(fields@.take(i + 1) =~= fields@.take(i as int).push(fields@[i as int]));
        }
        i += 1;
    }
    proof {
        assert(fields@.take(fields@.len() as int) =~= fields@);
    }
    r
}

/// Column `i` is well formed for a table of `num_rows` rows.
pub open spec fn column_fits(f: Field, c: ColumnData, num_rows: nat) -> bool {
    &&& column_len(c) == num_rows
    &&& same_type(f.data_type, column_type(c))
    &&& (!f.nullable ==> no_nulls(c))
}

/// A table: a schema, and one column per field, all of one length.
pub struct RecordBatch {
    fields: Vec<Field>,
    columns: Vec<ColumnData>,
    num_rows: usize,
}

impl RecordBatch {
    #[verifier::type_invariant]
    closed spec fn inv(self) -> bool {
        self.well_formed()
    }

    pub closed spec fn spec_fields(self) -> Seq<Field> {
        self.fields@
    }

    pub closed spec fn spec_columns(self) -> Seq<ColumnData> {
        self.columns@
    }

    pub closed spec fn spec_num_rows(self) -> nat {
        self.num_rows as nat
    }

    /// Every column fits its field and the number of rows.
    pub open spec fn well_formed(self) -> bool {
        &&& self.spec_fields().len() == self.spec_columns().len()
        &&& forall|i: int|
            0 <= i < self.spec_fields().len() ==> #[trigger] column_fits(
                self.spec_fields()[i],
                self.spec_columns()[i],
                self.spec_num_rows(),
            )
    }

    /// A table from a schema and columns that fit it.
    pub fn new(fields: Vec<Field>, columns: Vec<ColumnData>) -> (b: RecordBatch)
        requires
            columns@.len() > 0,
            fields@.len() == columns@.len(),
            forall|i: int|
                0 <= i < fields@.len() ==> #[trigger] column_fits(
                    fields@[i],
                    columns@[i],
                    column_len(columns@[0]),
                ),
        ensures
            b.spec_fields() == fields@,
            b.spec_columns() == columns@,
            b.spec_num_rows() == column_len(columns@[0]),
    {
        let num_rows = column_length(&columns[0]);
        RecordBatch { fields, columns, num_rows }
    }

    /// The table's invariant, for callers' proofs.
    pub fn check_invariant(&self)
        ensures
            self.well_formed(),
    {
        proof {
            use_type_invariant(self);
        }
    }

    /// Makes a table from a schema and its columns. The number of rows is the
    /// first column's length; every column must have it, must have its
    /// field's type, and must hold no missing value where its field is not
    /// nullable.
    pub fn try_new(fields: Vec<Field>, columns: Vec<ColumnData>) -> (r: Result<RecordBatch, TableError>)
        ensures
            match r {
                Ok(b) => {
                    &&& b.spec_fields() == fields@
                    &&& b.spec_columns() == columns@
                    &&& columns@.len() > 0
                    &&& b.spec_num_rows() == column_len(columns@[0])
                },
                Err(e) => {
                    ||| columns@.len() == 0 && e == TableError::NoColumns
                    ||| columns@.len() > 0 && fields@.len() != columns@.len()
                        && e == TableError::ColumnCountMismatch
                    ||| columns@.len() > 0 && fields@.len() == columns@.len()
                        && exists|i: int|
                        0 <= i < fields@.len() && !column_fits(
                            fields@[i],
                            columns@[i],
                            column_len(columns@[0]),
                        )
                },
            },
            (columns@.len() > 0 && fields@.len() == columns@.len() && forall|i: int|
                0 <= i < fields@.len() ==> #[trigger] column_fits(
                    fields@[i],
                    columns@[i],
                    column_len(columns@[0]),
                )) ==> r is Ok,
    {
        if columns.len() == 0 {
            return Err(TableError::NoColumns);
        }
        if fields.len() != columns.len() {
            return Err(TableError::ColumnCountMismatch);
        }
        let num_rows = column_length(&columns[0]);
        let mut i: usize = 0;
        while i < columns.len()
            invariant
                fields@.len() == columns@.len(),
                columns@.len() > 0,
                num_rows == column_len(columns@[0]),
                0 <= i <= columns@.len(),
                forall|j: int|
                    0 <= j < i ==> #[trigger] column_fits(fields@[j], columns@[j], num_rows as nat),
            decreases columns@.len() - i,
        {
            let c = &columns[i];
            let f = &fields[i];
            if column_length(c) != num_rows {
                assert(!column_fits(fields@[i as int], columns@[i as int], num_rows as nat));
                return Err(TableError::LengthMismatch { index: i });
            }
            let t = column_data_type(c);
            if !f.data_type.same_as(&t) {
                assert(!column_fits(fields@[i as int], columns@[i as int], num_rows as nat));
                return Err(TableError::TypeMismatch { index: i });
            }
            if !f.nullable && !column_has_no_nulls(c) {
                assert(!column_fits(fields@[i as int], columns@[i as int], num_rows as nat));
                return Err(TableError::NullInNonNullable { index: i });
            }
            assert(column_fits(fields@[i as int], columns@[i as int], num_rows as nat));
            i += 1;
        }
        Ok(RecordBatch::new(fields, columns))
    }

    /// The schema.
    pub fn fields(&self) -> (r: &Vec<Field>)
        ensures
            r@ == self.spec_fields(),
    {
        &self.fields
    }

    /// The columns, in schema order.
    pub fn columns(&self) -> (r: &Vec<ColumnData>)
        ensures
            r@ == self.spec_columns(),
    {
        &self.columns
    }

    /// The number of rows.
    pub fn num_rows(&self) -> (r: usize)
        ensures
            r == self.spec_num_rows(),
    {
        self.num_rows
    }

    /// The index of the first column named `name`.
    pub fn column_index(&self, name: &str) -> (r: Option<usize>)
        ensures
            r is None <==> find_field(self.spec_fields(), name@) is None,
            r matches Some(j) ==> find_field(self.spec_fields(), name@) == Some(j as int),
    {
        let ghost fields = self.fields@;
        let target = name.to_string();
        let mut i: usize = 0;
        while i < self.fields.len()
            invariant
                fields == self.fields@,
                target@ == name@,
                0 <= i <= fields.len(),
                find_field(fields, name@) == find_field_from(fields, name@, i as int),
            decreases fields.len() - i,
        {
            if self.fields[i].name == target {
                return Some(i);
            }
            i += 1;
        }
        None
    }

    /// The unsigned value at row `idx` of the column named `name`.
    pub fn u32_value(&self, name: &str, idx: usize) -> (r: Result<NodeId, ColumnError>)
        requires
            idx < self.spec_num_rows(),
        ensures
            read_outcome(*self, name@, u32_column(*self, name@), idx as int, r),
    {
        proof {
            use_type_invariant(self);
            lemma_find_field_from(self.fields@, name@, 0);
        }
        match self.column_index(name) {
            None => Err(ColumnError::NotFound),
            Some(i) => {
                assert(column_fits(self.fields@[i as int], self.columns@[i as int], self.num_rows as nat));
                match &self.columns[i] {
                    ColumnData::UInt32(v) => {
                        assert(column_len(self.columns@[i as int]) == self.num_rows);
                        Ok(v[idx])
                    },
                    c => Err(ColumnError::TypeMismatch { data_type: column_data_type(c).name() }),
                }
            },
        }
    }

    /// The float value at row `idx` of the column named `name`; a missing
    /// value reads as 0.0.
    pub fn scalar_value(&self, name: &str, idx: usize) -> (r: Result<Scalar, ColumnError>)
        requires
            idx < self.spec_num_rows(),
        ensures
            read_outcome(*self, name@, scalar_column(*self, name@), idx as int, r),
    {
        proof {
            use_type_invariant(self);
            lemma_find_field_from(self.fields@, name@, 0);
        }
        match self.column_index(name) {
            None => Err(ColumnError::NotFound),
            Some(i) => {
                assert(column_fits(self.fields@[i as int], self.columns@[i as int], self.num_rows as nat));
                match &self.columns[i] {
                    ColumnData::Float64(v) => {
                        assert(column_len(self.columns@[i as int]) == self.num_rows);
                        match v[idx] {
                            Some(s) => Ok(s),
                            None => Ok(Scalar::zero()),
                        }
                    },
                    c => Err(ColumnError::TypeMismatch { data_type: column_data_type(c).name() }),
                }
            },
        }
    }
}

/// The number of values in a column.
pub fn column_length(c: &ColumnData) -> (r: usize)
    ensures
        r == column_len(*c),
{
    match c {
        ColumnData::UInt32(v) => v.len(),
        ColumnData::Float64(v) => v.len(),
        ColumnData::Other { len, .. } => *len,
    }
}

/// The data type of a column.
pub fn column_data_type(c: &ColumnData) -> (r: DataType)
    ensures
        same_type(r, column_type(*c)),
        data_type_name(r) == data_type_name(column_type(*c)),
        r is UInt32 <==> (*c) is UInt32,
        r is Float64 <==> (*c) is Float64,
{
    match c {
        ColumnData::UInt32(_) => DataType::UInt32,
        ColumnData::Float64(_) => DataType::Float64,
        ColumnData::Other { data_type, .. } => DataType::Other { name: data_type.clone() },
    }
}

/// Whether a column holds no missing value.
pub fn column_has_no_nulls(c: &ColumnData) -> (r: bool)
    ensures
        r == no_nulls(*c),
{
    match c {
        ColumnData::Float64(v) => {
            let mut i: usize = 0;
            while i < v.len()
                invariant
                    *c == ColumnData::Float64(*v),
                    0 <= i <= v@.len(),
                    forall|j: int| 0 <= j < i ==> (#[trigger] v@[j]) is Some,
                decreases v@.len() - i,
            {
                if v[i].is_none() {
                    assert(!(v@[i as int] is Some));
                    return false;
                }
                i += 1;
            }
            true
        },
        _ => true,
    }
}

} // verus!
