//! Declared table schemas and typed row values, with their mathematical views.
use vstd::prelude::*;
use vstd::string::*;

use crate::text::{
    lemma_insert_sorted, lemma_text_lt_irreflexive, lemma_text_lt_total, str_eq, strictly_sorted,
    text_less, text_lt,
};

verus! {

/// Declared scalar type of one column.
#[derive(Clone, Copy, Debug, PartialEq, Eq, Structural)]
pub enum ColumnType {
    Text,
    Boolean,
    Integer,
    UnsignedInteger,
    Float,
    Json,
}

/// Whether a table holds a read model or framework-operational state.
#[derive(Clone, Copy, Debug, PartialEq, Eq, Structural)]
pub enum TableKind {
    ReadModel,
    Operational,
}

impl TableKind {
    pub fn is_read_model(&self) -> (r: bool)
        ensures
            r == (*self == TableKind::ReadModel),
    {
        match self {
            TableKind::ReadModel => true,
            TableKind::Operational => false,
        }
    }
}

/// One typed scalar value of a row or of an equality filter.
#[derive(Clone, Debug)]
pub enum RowValue {
    Null,
    Bool(bool),
    I64(i64),
    U64(u64),
    String(String),
}

/// The value a `RowValue` stands for.
pub enum RowValueView {
    Null,
    Bool(bool),
    I64(i64),
    U64(u64),
    String(Seq<char>),
}

impl View for RowValue {
    type V = RowValueView;

    open spec fn view(&self) -> RowValueView {
        match self {
            RowValue::Null => RowValueView::Null,
            RowValue::Bool(b) => RowValueView::Bool(*b),
            RowValue::I64(v) => RowValueView::I64(*v),
            RowValue::U64(v) => RowValueView::U64(*v),
            RowValue::String(s) => RowValueView::String(s@),
        }
    }
}

impl RowValue {
    /// A copy with the same value.
    pub fn duplicate(&self) -> (r: RowValue)
        ensures
            r@ == self@,
    {
        match self {
            RowValue::Null => RowValue::Null,
            RowValue::Bool(b) => RowValue::Bool(*b),
            RowValue::I64(v) => RowValue::I64(*v),
            RowValue::U64(v) => RowValue::U64(*v),
            RowValue::String(s) => RowValue::String(s.clone()),
        }
    }

    /// Exact equality of variant and payload.
    pub fn same_as(&self, other: &RowValue) -> (r: bool)
        ensures
            r == (self@ == other@),
    {
        match (self, other) {
            (RowValue::Null, RowValue::Null) => true,
            (RowValue::Bool(a), RowValue::Bool(b)) => *a == *b,
            (RowValue::I64(a), RowValue::I64(b)) => *a == *b,
            (RowValue::U64(a), RowValue::U64(b)) => *a == *b,
            (RowValue::String(a), RowValue::String(b)) => *a == *b,
            _ => false,
        }
    }
}

/// Spec-level view of a list of names.
pub open spec fn names_view(v: Seq<String>) -> Seq<Seq<char>> {
    v.map_values(|s: String| s@)
}

/// A copy of a list of names.
pub fn copy_names(v: &Vec<String>) -> (r: Vec<String>)
    ensures
        names_view(r@) == names_view(v@),
{
    let mut r: Vec<String> = Vec::new();
    let mut i: usize = 0;
    while i < v.len()
        invariant
            i <= v.len(),
            r@.len() == i,
            forall|j: int| 0 <= j < i ==> #[trigger] r@[j]@ == v@[j]@,
        decreases v.len() - i,
    {
        r.push(v[i].clone());
        i = i + 1;
    }
    assert(names_view(r@) =~= names_view(v@));
    r
}

/// Whether two lists of names are equal, entry by entry.
pub fn same_names(a: &Vec<String>, b: &Vec<String>) -> (r: bool)
    ensures
        r == (names_view(a@) == names_view(b@)),
{
    if a.len() != b.len() {
        assert(names_view(a@).len() != names_view(b@).len());
        return false;
    }
    let mut i: usize = 0;
    while i < a.len()
        invariant
            a.len() == b.len(),
            i <= a.len(),
            forall|j: int| 0 <= j < i ==> #[trigger] a@[j]@ == b@[j]@,
        decreases a.len() - i,
    {
        if a[i] != b[i] {
            assert(names_view(a@)[i as int] != names_view(b@)[i as int]);
            return false;
        }
        i = i + 1;
    }
    assert(names_view(a@) =~= names_view(b@));
    true
}

/// One declared column: storage name, model field name, scalar type and nullability.
#[derive(Clone, Debug)]
pub struct TableColumn {
    pub column_name: String,
    pub field_name: String,
    pub column_type: ColumnType,
    pub nullable: bool,
}

pub struct ColumnView {
    pub column_name: Seq<char>,
    pub field_name: Seq<char>,
    pub column_type: ColumnType,
    pub nullable: bool,
}

impl View for TableColumn {
    type V = ColumnView;

    open spec fn view(&self) -> ColumnView {
        ColumnView {
            column_name: self.column_name@,
            field_name: self.field_name@,
            column_type: self.column_type,
            nullable: self.nullable,
        }
    }
}

impl TableColumn {
    /// A non-nullable column.
    pub fn new(column_name: &str, field_name: &str, column_type: ColumnType) -> (r: TableColumn)
        ensures
            r@ == (ColumnView {
                column_name: column_name@,
                field_name: field_name@,
                column_type,
                nullable: false,
            }),
    {
        TableColumn {
            column_name: String::from_str(column_name),
            field_name: String::from_str(field_name),
            column_type,
            nullable: false,
        }
    }

    pub fn duplicate(&self) -> (r: TableColumn)
        ensures
            r@ == self@,
    {
        TableColumn {
            column_name: self.column_name.clone(),
            field_name: self.field_name.clone(),
            column_type: self.column_type,
            nullable: self.nullable,
        }
    }

    pub fn same_as(&self, other: &TableColumn) -> (r: bool)
        ensures
            r == (self@ == other@),
    {
        self.column_name == other.column_name && self.field_name == other.field_name
            && self.column_type == other.column_type && self.nullable == other.nullable
    }
}

pub open spec fn columns_view(v: Seq<TableColumn>) -> Seq<ColumnView> {
    v.map_values(|c: TableColumn| c@)
}

/// Ordered primary-key column names.
#[derive(Clone, Debug)]
pub struct PrimaryKey {
    pub columns: Vec<String>,
}

impl PrimaryKey {
    pub fn new<const N: usize>(columns: [&str; N]) -> (r: PrimaryKey)
        ensures
            r.columns@.len() == N,
            forall|i: int| 0 <= i < N ==> #[trigger] r.columns@[i]@ == columns@[i]@,
    {
        let mut out: Vec<String> = Vec::new();
        let mut i: usize = 0;
        while i < N
            invariant
                i <= N,
                out@.len() == i,
                forall|j: int| 0 <= j < i ==> #[trigger] out@[j]@ == columns@[j]@,
            decreases N - i,
        {
            out.push(String::from_str(columns[i]));
            i = i + 1;
        }
        PrimaryKey { columns: out }
    }
}

/// The declared shape of one table.
#[derive(Clone, Debug)]
pub struct TableSchema {
    pub model_name: String,
    pub table_name: String,
    pub columns: Vec<TableColumn>,
    pub primary_key: PrimaryKey,
    pub relationships: Vec<String>,
    pub indexes: Vec<String>,
    pub foreign_keys: Vec<String>,
    pub version_column: Option<String>,
    pub kind: TableKind,
}

pub struct TableSchemaView {
    pub model_name: Seq<char>,
    pub table_name: Seq<char>,
    pub columns: Seq<ColumnView>,
    pub primary_key: Seq<Seq<char>>,
    pub relationships: Seq<Seq<char>>,
    pub indexes: Seq<Seq<char>>,
    pub foreign_keys: Seq<Seq<char>>,
    pub version_column: Option<Seq<char>>,
    pub kind: TableKind,
}

pub open spec fn option_name_view(o: Option<String>) -> Option<Seq<char>> {
    match o {
        Some(s) => Some(s@),
        None => None,
    }
}

impl View for TableSchema {
    type V = TableSchemaView;

    open spec fn view(&self) -> TableSchemaView {
        TableSchemaView {
            model_name: self.model_name@,
            table_name: self.table_name@,
            columns: columns_view(self.columns@),
            primary_key: names_view(self.primary_key.columns@),
            relationships: names_view(self.relationships@),
            indexes: names_view(self.indexes@),
            foreign_keys: names_view(self.foreign_keys@),
            version_column: option_name_view(self.version_column),
            kind: self.kind,
        }
    }
}

/// Why a declared schema is unusable.
#[derive(Clone, Copy, Debug, PartialEq, Eq, Structural)]
pub enum SchemaError {
    EmptyName,
    NoColumns,
    DuplicateColumn,
    EmptyPrimaryKey,
    UnknownPrimaryKeyColumn,
}

/// Why a keyset scan request, page or typed decode is refused.
#[derive(Clone, Copy, Debug, PartialEq, Eq, Structural)]
pub enum ScanRejection {
    OperationalTable,
    LimitOrFilterCount,
    CompositeKey,
    MissingPrimaryKey,
    PrimaryKeyNotText,
    UnknownFilterColumn,
    MismatchedFilter,
    CursorScope,
    InvalidPageKey,
    PageKeyTooLong,
    OtherModel,
    /// The request's schema differs from the one registered for its model.
    UnregisteredSchema,
}

/// The words of a scan refusal, as the metadata error of a store states it.
pub open spec fn scan_message(r: ScanRejection) -> Seq<char> {
    match r {
        ScanRejection::OperationalTable => "read-model keyset scan: operational tables are not read models"@,
        ScanRejection::LimitOrFilterCount => "read-model keyset scan: limit must be 1..=100; at most 16 equality predicates"@,
        ScanRejection::CompositeKey => "read-model keyset scan: single text primary key required"@,
        ScanRejection::MissingPrimaryKey => "read-model keyset scan: missing primary key"@,
        ScanRejection::PrimaryKeyNotText => "read-model keyset scan: nonnullable text primary key required"@,
        ScanRejection::UnknownFilterColumn => "read-model keyset scan: unknown filter column"@,
        ScanRejection::MismatchedFilter => "read-model keyset scan: unsupported or mismatched scalar filter"@,
        ScanRejection::CursorScope => "read-model keyset scan: cursor does not match schema/filter scope"@,
        ScanRejection::InvalidPageKey => "scan returned invalid primary key"@,
        ScanRejection::PageKeyTooLong => "scan primary key exceeds cursor bound"@,
        ScanRejection::OtherModel => "scan page belongs to another model"@,
        ScanRejection::UnregisteredSchema => "scan schema differs from registered model"@,
    }
}

impl ScanRejection {
    /// The refusal in words.
    pub fn message(&self) -> (r: &'static str)
        ensures
            r@ == scan_message(*self),
    {
        match self {
            ScanRejection::OperationalTable => "read-model keyset scan: operational tables are not read models",
            ScanRejection::LimitOrFilterCount => "read-model keyset scan: limit must be 1..=100; at most 16 equality predicates",
            ScanRejection::CompositeKey => "read-model keyset scan: single text primary key required",
            ScanRejection::MissingPrimaryKey => "read-model keyset scan: missing primary key",
            ScanRejection::PrimaryKeyNotText => "read-model keyset scan: nonnullable text primary key required",
            ScanRejection::UnknownFilterColumn => "read-model keyset scan: unknown filter column",
            ScanRejection::MismatchedFilter => "read-model keyset scan: unsupported or mismatched scalar filter",
            ScanRejection::CursorScope => "read-model keyset scan: cursor does not match schema/filter scope",
            ScanRejection::InvalidPageKey => "scan returned invalid primary key",
            ScanRejection::PageKeyTooLong => "scan primary key exceeds cursor bound",
            ScanRejection::OtherModel => "scan page belongs to another model",
            ScanRejection::UnregisteredSchema => "scan schema differs from registered model",
        }
    }
}

/// Errors of the table layer.
#[derive(Clone, Debug)]
pub enum TableStoreError {
    Schema(SchemaError),
    Scan(ScanRejection),
    /// A row could not be decoded into a model.
    Decode(String),
}

/// Index of the first column named `name`, if any.
pub open spec fn is_first_column(cols: Seq<ColumnView>, name: Seq<char>, i: int) -> bool {
    &&& 0 <= i < cols.len()
    &&& cols[i].column_name == name
    &&& forall|j: int| 0 <= j < i ==> (#[trigger] cols[j]).column_name != name
}

pub open spec fn find_column(cols: Seq<ColumnView>, name: Seq<char>) -> Option<ColumnView> {
    if exists|i: int| is_first_column(cols, name, i) {
        Some(cols[choose|i: int| is_first_column(cols, name, i)])
    } else {
        None
    }
}

pub proof fn lemma_first_column_unique(cols: Seq<ColumnView>, name: Seq<char>, i: int, k: int)
    requires
        is_first_column(cols, name, i),
        is_first_column(cols, name, k),
    ensures
        i == k,
{
    if i < k {
        assert(cols[i].column_name == name);
    } else if k < i {
        assert(cols[k].column_name == name);
    }
}

/// Position of the first column named `name`, as `Iterator::find` would pick it.
pub fn find_column_index(cols: &Vec<TableColumn>, name: &str) -> (r: Option<usize>)
    ensures
        match r {
            Some(i) => is_first_column(columns_view(cols@), name@, i as int) && find_column(
                columns_view(cols@),
                name@,
            ) == Some(columns_view(cols@)[i as int]),
            None => find_column(columns_view(cols@), name@) is None && forall|j: int|
                0 <= j < cols@.len() ==> (#[trigger] cols@[j]).column_name@ != name@,
        },
{
    let ghost cv = columns_view(cols@);
    let mut i: usize = 0;
    while i < cols.len()
        invariant
            i <= cols.len(),
            cv == columns_view(cols@),
            forall|j: int| 0 <= j < i ==> (#[trigger] cols@[j]).column_name@ != name@,
        decreases cols.len() - i,
    {
        if str_eq(cols[i].column_name.as_str(), name) {
            proof {
                assert(is_first_column(cv, name@, i as int));
                let k = choose|k: int| is_first_column(cv, name@, k);
                lemma_first_column_unique(cv, name@, i as int, k);
            }
            return Some(i);
        }
        i = i + 1;
    }
    proof {
        assert forall|k: int| !is_first_column(cv, name@, k) by {
            if 0 <= k < cv.len() {
                assert(cols@[k].column_name@ != name@);
            }
        }
    }
    None
}

/// Spec of `TableSchema::validate`.
pub open spec fn schema_error(s: TableSchemaView) -> Option<SchemaError> {
    if s.model_name.len() == 0 || s.table_name.len() == 0 {
        Some(SchemaError::EmptyName)
    } else if s.columns.len() == 0 {
        Some(SchemaError::NoColumns)
    } else if exists|i: int, j: int|
        0 <= i < j < s.columns.len() && (#[trigger] s.columns[i]).column_name == (
        #[trigger] s.columns[j]).column_name {
        Some(SchemaError::DuplicateColumn)
    } else if s.primary_key.len() == 0 {
        Some(SchemaError::EmptyPrimaryKey)
    } else if exists|k: int|
        0 <= k < s.primary_key.len() && find_column(s.columns, #[trigger] s.primary_key[k])
            is None {
        Some(SchemaError::UnknownPrimaryKeyColumn)
    } else {
        None
    }
}

impl TableSchema {
    /// Structural checks: names present, at least one column, unique column
    /// names, and a primary key made of declared columns.
    pub fn validate(&self) -> (r: Result<(), TableStoreError>)
        ensures
            match schema_error(self@) {
                None => r is Ok,
                Some(e) => r == Err::<(), TableStoreError>(TableStoreError::Schema(e)),
            },
    {
        let ghost s = self@;
        if self.model_name.as_str().is_empty() || self.table_name.as_str().is_empty() {
            return Err(TableStoreError::Schema(SchemaError::EmptyName));
        }
        if self.columns.len() == 0 {
            return Err(TableStoreError::Schema(SchemaError::NoColumns));
        }
        let n = self.columns.len();
        let mut i: usize = 0;
        while i < n
            invariant
                n == self.columns@.len(),
                s == self@,
                i <= n,
                schema_error(s) != Some(SchemaError::EmptyName),
                schema_error(s) != Some(SchemaError::NoColumns),
                forall|a: int, b: int|
                    0 <= a < b < n && a < i ==> (#[trigger] s.columns[a]).column_name != (
                    #[trigger] s.columns[b]).column_name,
            decreases n - i,
        {
            let mut j: usize = i + 1;
            while j < n
                invariant
                    n == self.columns@.len(),
                    s == self@,
                    i < n,
                    schema_error(s) != Some(SchemaError::EmptyName),
                    schema_error(s) != Some(SchemaError::NoColumns),
                    i + 1 <= j <= n,
                    forall|a: int, b: int|
                        0 <= a < b < n && a < i ==> (#[trigger] s.columns[a]).column_name != (
                        #[trigger] s.columns[b]).column_name,
                    forall|b: int| i < b < j ==> s.columns[i as int].column_name != (
                    #[trigger] s.columns[b]).column_name,
                decreases n - j,
            {
                if self.columns[i].column_name == self.columns[j].column_name {
                    assert(s.columns[i as int].column_name == s.columns[j as int].column_name);
                    return Err(TableStoreError::Schema(SchemaError::DuplicateColumn));
                }
                j = j + 1;
            }
            i = i + 1;
        }
        if self.primary_key.columns.len() == 0 {
            return Err(TableStoreError::Schema(SchemaError::EmptyPrimaryKey));
        }
        let m = self.primary_key.columns.len();
        let mut k: usize = 0;
        while k < m
            invariant
                m == self.primary_key.columns@.len(),
                s == self@,
                k <= m,
                m > 0,
                s.model_name.len() != 0 && s.table_name.len() != 0 && s.columns.len() != 0,
                forall|a: int, b: int|
                    0 <= a < b < s.columns.len() ==> (#[trigger] s.columns[a]).column_name != (
                    #[trigger] s.columns[b]).column_name,
                forall|q: int| 0 <= q < k ==> find_column(s.columns, #[trigger] s.primary_key[q]) is Some,
            decreases m - k,
        {
            let found = find_column_index(&self.columns, self.primary_key.columns[k].as_str());
            if found.is_none() {
                assert(find_column(s.columns, s.primary_key[k as int]) is None);
                return Err(TableStoreError::Schema(SchemaError::UnknownPrimaryKeyColumn));
            }
            k = k + 1;
        }
        Ok(())
    }

    pub fn duplicate(&self) -> (r: TableSchema)
        ensures
            r@ == self@,
    {
        let mut columns: Vec<TableColumn> = Vec::new();
        let mut i: usize = 0;
        while i < self.columns.len()
            invariant
                i <= self.columns.len(),
                columns@.len() == i,
                forall|j: int| 0 <= j < i ==> #[trigger] columns@[j]@ == self.columns@[j]@,
            decreases self.columns.len() - i,
        {
            columns.push(self.columns[i].duplicate());
            i = i + 1;
        }
        assert(columns_view(columns@) =~= columns_view(self.columns@));
        let version_column = match &self.version_column {
            Some(v) => Some(v.clone()),
            None => None,
        };
        TableSchema {
            model_name: self.model_name.clone(),
            table_name: self.table_name.clone(),
            columns,
            primary_key: PrimaryKey { columns: copy_names(&self.primary_key.columns) },
            relationships: copy_names(&self.relationships),
            indexes: copy_names(&self.indexes),
            foreign_keys: copy_names(&self.foreign_keys),
            version_column,
            kind: self.kind,
        }
    }

    /// Whether two schemas declare exactly the same table.
    pub fn same_as(&self, other: &TableSchema) -> (r: bool)
        ensures
            r == (self@ == other@),
    {
        if self.model_name != other.model_name || self.table_name != other.table_name {
            return false;
        }
        if self.kind != other.kind {
            return false;
        }
        let same_version = match (&self.version_column, &other.version_column) {
            (Some(a), Some(b)) => *a == *b,
            (None, None) => true,
            _ => false,
        };
        if !same_version {
            return false;
        }
        if !same_names(&self.primary_key.columns, &other.primary_key.columns) || !same_names(
            &self.relationships,
            &other.relationships,
        ) || !same_names(&self.indexes, &other.indexes) || !same_names(
            &self.foreign_keys,
            &other.foreign_keys,
        ) {
            return false;
        }
        if self.columns.len() != other.columns.len() {
            assert(self@.columns.len() != other@.columns.len());
            return false;
        }
        let mut i: usize = 0;
        while i < self.columns.len()
            invariant
                self.columns.len() == other.columns.len(),
                i <= self.columns.len(),
                forall|j: int| 0 <= j < i ==> #[trigger] self.columns@[j]@ == other.columns@[j]@,
            decreases self.columns.len() - i,
        {
            if !self.columns[i].same_as(&other.columns[i]) {
                assert(self@.columns[i as int] != other@.columns[i as int]);
                return false;
            }
            i = i + 1;
        }
        assert(self@.columns =~= other@.columns);
        true
    }
}

/// Named values of one row or of an equality scope, kept in byte order of
/// their names. Each name occurs once; inserting an existing name replaces
/// its value.
#[derive(Debug)]
pub struct RowValues {
    entries: Vec<(String, RowValue)>,
}

/// Spec view of named entries, in insertion order.
pub open spec fn entries_view(v: Seq<(String, RowValue)>) -> Seq<(Seq<char>, RowValueView)> {
    v.map_values(|e: (String, RowValue)| (e.0@, e.1@))
}

/// No name occurs twice.
pub open spec fn distinct_names(es: Seq<(Seq<char>, RowValueView)>) -> bool {
    forall|i: int, j: int| 0 <= i < j < es.len() ==> (#[trigger] es[i]).0 != (#[trigger] es[j]).0
}

/// The names of the entries, in order.
pub open spec fn entry_names(es: Seq<(Seq<char>, RowValueView)>) -> Seq<Seq<char>> {
    es.map_values(|e: (Seq<char>, RowValueView)| e.0)
}

/// Entries kept in byte order of their names hold each name once.
pub proof fn lemma_sorted_names_distinct(es: Seq<(Seq<char>, RowValueView)>)
    requires
        strictly_sorted(entry_names(es)),
    ensures
        distinct_names(es),
{
    assert forall|i: int, j: int| 0 <= i < j < es.len() implies (#[trigger] es[i]).0 != (#[trigger] es[j]).0 by {
        assert(text_lt(entry_names(es)[i], entry_names(es)[j]));
        lemma_text_lt_irreflexive(es[i].0);
    }
}

/// The value stored under `name`, if any.
pub open spec fn lookup(es: Seq<(Seq<char>, RowValueView)>, name: Seq<char>) -> Option<
    RowValueView,
> {
    if exists|i: int| 0 <= i < es.len() && (#[trigger] es[i]).0 == name {
        Some(es[choose|i: int| 0 <= i < es.len() && (#[trigger] es[i]).0 == name].1)
    } else {
        None
    }
}

/// Two scopes hold the same name/value pairs, whatever their order.
pub open spec fn same_scope(a: Seq<(Seq<char>, RowValueView)>, b: Seq<(Seq<char>, RowValueView)>) -> bool {
    forall|name: Seq<char>| #[trigger] lookup(a, name) == lookup(b, name)
}

pub proof fn lemma_lookup_at(es: Seq<(Seq<char>, RowValueView)>, i: int)
    requires
        distinct_names(es),
        0 <= i < es.len(),
    ensures
        lookup(es, es[i].0) == Some(es[i].1),
{
    let name = es[i].0;
    assert(0 <= i < es.len() && es[i].0 == name);
    let k = choose|k: int| 0 <= k < es.len() && (#[trigger] es[k]).0 == name;
    if k < i {
        assert(es[k].0 != es[i].0);
    } else if i < k {
        assert(es[i].0 != es[k].0);
    }
}

impl View for RowValues {
    type V = Seq<(Seq<char>, RowValueView)>;

    closed spec fn view(&self) -> Seq<(Seq<char>, RowValueView)> {
        entries_view(self.entries@)
    }
}

impl RowValues {
    #[verifier::type_invariant]
    closed spec fn names_are_sorted(&self) -> bool {
        strictly_sorted(entry_names(entries_view(self.entries@)))
    }

    pub fn new() -> (r: RowValues)
        ensures
            r@ == Seq::<(Seq<char>, RowValueView)>::empty(),
    {
        let r = RowValues { entries: Vec::new() };
        assert(entries_view(r.entries@) =~= Seq::<(Seq<char>, RowValueView)>::empty());
        r
    }

    pub fn len(&self) -> (r: usize)
        ensures
            r == self@.len(),
    {
        self.entries.len()
    }

    pub fn name_at(&self, i: usize) -> (r: &str)
        requires
            i < self@.len(),
        ensures
            r@ == self@[i as int].0,
            i > 0 ==> text_lt(self@[i - 1].0, r@),
    {
        proof {
            use_type_invariant(self);
            if i > 0 {
                assert(text_lt(entry_names(self@)[i - 1], entry_names(self@)[i as int]));
            }
        }
        self.entries[i].0.as_str()
    }

    pub fn value_at(&self, i: usize) -> (r: &RowValue)
        requires
            i < self@.len(),
        ensures
            r@ == self@[i as int].1,
    {
        &self.entries[i].1
    }

    /// Position of `name`, if stored.
    fn index_of(&self, name: &str) -> (r: Option<usize>)
        ensures
            match r {
                Some(i) => i < self@.len() && self@[i as int].0 == name@ && lookup(self@, name@)
                    == Some(self@[i as int].1),
                None => lookup(self@, name@) is None,
            },
    {
        proof {
            use_type_invariant(self);
            lemma_sorted_names_distinct(self@);
        }
        let mut i: usize = 0;
        while i < self.entries.len()
            invariant
                i <= self.entries@.len(),
                forall|j: int| 0 <= j < i ==> (#[trigger] entries_view(self.entries@)[j]).0 != name@,
            decreases self.entries.len() - i,
        {
            if str_eq(self.entries[i].0.as_str(), name) {
                proof {
                    use_type_invariant(self);
                    lemma_sorted_names_distinct(self@);
                    lemma_lookup_at(self@, i as int);
                }
                return Some(i);
            }
            i = i + 1;
        }
        None
    }

    /// The value stored under `name`.
    pub fn get(&self, name: &str) -> (r: Option<&RowValue>)
        ensures
            match r {
                Some(v) => lookup(self@, name@) == Some(v@),
                None => lookup(self@, name@) is None,
            },
    {
        match self.index_of(name) {
            Some(i) => Some(&self.entries[i].1),
            None => None,
        }
    }

    /// Store `value` under `name`, replacing and returning a previous value.
    pub fn insert(&mut self, name: &str, value: RowValue) -> (r: Option<RowValue>)
        ensures
            lookup(final(self)@, name@) == Some(value@),
            forall|other: Seq<char>|
                other != name@ ==> #[trigger] lookup(final(self)@, other) == lookup(old(self)@, other),
            match r {
                Some(v) => lookup(old(self)@, name@) == Some(v@),
                None => lookup(old(self)@, name@) is None,
            },
    {
        proof {
            use_type_invariant(&*self);
            lemma_sorted_names_distinct(self@);
        }
        let ghost before = self@;
        let ghost value_view = value@;
        match self.index_of(name) {
            Some(i) => {
                let mut entries = Vec::new();
                std::mem::swap(&mut entries, &mut self.entries);
                let ghost es = entries@;
                let old_value = entries[i].1.duplicate();
                let key = entries[i].0.clone();
                entries.set(i, (key, value));
                let ghost after = entries_view(entries@);
                proof {
                    assert(after =~= before.update(i as int, (name@, value_view)));
                    assert(entry_names(after) =~= entry_names(before));
                    assert forall|a: int, b: int| 0 <= a < b < after.len() implies (#[trigger] after[a]).0 != (#[trigger] after[b]).0 by {
                        assert(before[a].0 != before[b].0);
                    }
                    lemma_lookup_at(after, i as int);
                    assert forall|other: Seq<char>| other != name@ implies #[trigger] lookup(after, other) == lookup(before, other) by {
                        if exists|k: int| 0 <= k < before.len() && (#[trigger] before[k]).0 == other {
                            let k = choose|k: int| 0 <= k < before.len() && (#[trigger] before[k]).0 == other;
                            lemma_lookup_at(before, k);
                            lemma_lookup_at(after, k);
                        } else {
                            assert forall|k: int| 0 <= k < after.len() implies (#[trigger] after[k]).0 != other by {
                                if k != i { assert(before[k].0 != other); }
                            }
                        }
                    }
                }
                self.entries = entries;
                Some(old_value)
            },
            None => {
                let mut entries = Vec::new();
                std::mem::swap(&mut entries, &mut self.entries);
                let mut p: usize = 0;
                while p < entries.len() && text_less(entries[p].0.as_str(), name)
                    invariant
                        p <= entries@.len(),
                        before == entries_view(entries@),
                        forall|q: int| 0 <= q < p ==> text_lt((#[trigger] before[q]).0, name@),
                    decreases entries.len() - p,
                {
                    p = p + 1;
                }
                entries.insert(p, (String::from_str(name), value));
                let ghost after = entries_view(entries@);
                proof {
                    assert(after =~= before.insert(p as int, (name@, value_view)));
                    before.insert_ensures(p as int, (name@, value_view));
                    let bn = entry_names(before);
                    assert(entry_names(after) =~= bn.insert(p as int, name@));
                    if p < before.len() {
                        assert(bn[p as int] != name@) by {
                            if bn[p as int] == name@ {
                                assert(0 <= p < before.len() && before[p as int].0 == name@);
                            }
                        }
                        lemma_text_lt_total(bn[p as int], name@);
                    }
                    assert forall|q: int| 0 <= q < p implies text_lt(#[trigger] bn[q], name@) by {
                        assert(text_lt(before[q].0, name@));
                    }
                    lemma_insert_sorted(bn, p as int, name@);
                    lemma_sorted_names_distinct(after);
                    lemma_lookup_at(after, p as int);
                    assert forall|other: Seq<char>| other != name@ implies #[trigger] lookup(after, other) == lookup(before, other) by {
                        if exists|k: int| 0 <= k < before.len() && (#[trigger] before[k]).0 == other {
                            let k = choose|k: int| 0 <= k < before.len() && (#[trigger] before[k]).0 == other;
                            lemma_lookup_at(before, k);
                            if k < p {
                                lemma_lookup_at(after, k);
                            } else {
                                lemma_lookup_at(after, k + 1);
                            }
                        } else {
                            assert forall|k: int| 0 <= k < after.len() implies (#[trigger] after[k]).0 != other by {
                                if k < p {
                                    assert(before[k].0 != other);
                                } else if k > p {
                                    assert(before[k - 1].0 != other);
                                }
                            }
                        }
                    }
                }
                self.entries = entries;
                None
            },
        }
    }

    /// A copy with the same entries in the same order.
    pub fn duplicate(&self) -> (r: RowValues)
        ensures
            r@ == self@,
    {
        proof {
            use_type_invariant(self);
            lemma_sorted_names_distinct(self@);
        }
        let mut entries: Vec<(String, RowValue)> = Vec::new();
        let mut i: usize = 0;
        while i < self.entries.len()
            invariant
                i <= self.entries@.len(),
                entries@.len() == i,
                forall|j: int| 0 <= j < i ==> (#[trigger] entries@[j]).0@ == self.entries@[j].0@ && entries@[j].1@ == self.entries@[j].1@,
            decreases self.entries.len() - i,
        {
            entries.push((self.entries[i].0.clone(), self.entries[i].1.duplicate()));
            i = i + 1;
        }
        assert(entries_view(entries@) =~= entries_view(self.entries@));
        RowValues { entries }
    }

    /// Whether both hold the same name/value pairs, whatever their order.
    pub fn same_scope_as(&self, other: &RowValues) -> (r: bool)
        ensures
            r == same_scope(self@, other@),
    {
        proof {
            use_type_invariant(self);
            use_type_invariant(other);
            lemma_sorted_names_distinct(self@);
            lemma_sorted_names_distinct(other@);
        }
        let ok = self.contained_in(other) && other.contained_in(self);
        proof {
            if ok {
                assert forall|name: Seq<char>| #[trigger] lookup(self@, name) == lookup(other@, name) by {
                    if exists|k: int| 0 <= k < self@.len() && (#[trigger] self@[k]).0 == name {
                        let k = choose|k: int| 0 <= k < self@.len() && (#[trigger] self@[k]).0 == name;
                        lemma_lookup_at(self@, k);
                    } else if exists|k: int| 0 <= k < other@.len() && (#[trigger] other@[k]).0 == name {
                        let k = choose|k: int| 0 <= k < other@.len() && (#[trigger] other@[k]).0 == name;
                        lemma_lookup_at(other@, k);
                    }
                }
            }
        }
        ok
    }

    /// Every entry of `self` is stored with the same value in `other`.
    fn contained_in(&self, other: &RowValues) -> (r: bool)
        ensures
            r == (forall|k: int| 0 <= k < self@.len() ==> lookup(other@, (#[trigger] self@[k]).0) == Some(self@[k].1)),
            !r ==> !same_scope(self@, other@),
    {
        proof {
            use_type_invariant(self);
            lemma_sorted_names_distinct(self@);
        }
        let mut i: usize = 0;
        while i < self.entries.len()
            invariant
                i <= self@.len(),
                self@.len() == self.entries@.len(),
                distinct_names(self@),
                forall|k: int| 0 <= k < i ==> lookup(other@, (#[trigger] self@[k]).0) == Some(self@[k].1),
            decreases self.entries.len() - i,
        {
            let found = other.get(self.entries[i].0.as_str());
            let ok = match found {
                Some(v) => v.same_as(&self.entries[i].1),
                None => false,
            };
            if !ok {
                proof {
                    lemma_lookup_at(self@, i as int);
                    assert(lookup(self@, self@[i as int].0) != lookup(other@, self@[i as int].0));
                }
                return false;
            }
            i = i + 1;
        }
        true
    }
}

impl Clone for RowValues {
    fn clone(&self) -> (r: Self)
        ensures
            r@ == self@,
    {
        self.duplicate()
    }
}

/// A row or model value with the row version stored beside it.
#[derive(Clone, Debug)]
pub struct Versioned<T> {
    pub data: T,
    pub version: u64,
}

} // verus!
