//! Bounded read-only equality/keyset selection. A row is not authorization.
use vstd::prelude::*;

use crate::table::{
    find_column, find_column_index, lookup, same_scope, schema_error, ColumnType, ColumnView,
    RowValue, RowValueView, RowValues, ScanRejection, TableColumn, TableKind, TableSchema,
    TableSchemaView, TableStoreError, Versioned,
};
use crate::text::{bounded_text, is_bounded_text, text_lt};

verus! {

/// A model with one declared table schema whose rows decode into it.
/// Implemented by applications (usually through a derive); the library
/// relies on nothing but the values these methods return.
pub trait RelationalReadModel: Sized {
    fn schema() -> TableSchema;

    fn from_row(row: RowValues) -> Result<Self, TableStoreError>;
}

/// Opaque continuation tied to exactly one declared schema and equality scope.
/// Pages are current reads, not a cross-page database snapshot.
#[derive(Clone, Debug)]
pub struct ReadModelScanCursor {
    pub schema: TableSchema,
    pub equals: RowValues,
    pub after: String,
}

pub struct CursorView {
    pub schema: TableSchemaView,
    pub equals: Seq<(Seq<char>, RowValueView)>,
    pub after: Seq<char>,
}

impl View for ReadModelScanCursor {
    type V = CursorView;

    open spec fn view(&self) -> CursorView {
        CursorView { schema: self.schema@, equals: self.equals@, after: self.after@ }
    }
}

impl ReadModelScanCursor {
    /// The primary key after which the next page starts.
    pub fn after(&self) -> (r: &str)
        ensures
            r@ == self.after@,
    {
        self.after.as_str()
    }

    pub fn duplicate(&self) -> (r: ReadModelScanCursor)
        ensures
            r@ == self@,
    {
        ReadModelScanCursor {
            schema: self.schema.duplicate(),
            equals: self.equals.duplicate(),
            after: self.after.clone(),
        }
    }
}

pub open spec fn option_cursor_view(c: Option<ReadModelScanCursor>) -> Option<CursorView> {
    match c {
        Some(c) => Some(c@),
        None => None,
    }
}

/// One bounded keyset scan: a read-model schema, equality filters, an
/// optional continuation and a page size.
#[derive(Clone, Debug)]
pub struct ReadModelScanRequest {
    pub schema: TableSchema,
    pub equals: RowValues,
    pub cursor: Option<ReadModelScanCursor>,
    pub limit: u16,
}

pub struct ScanRequestView {
    pub schema: TableSchemaView,
    pub equals: Seq<(Seq<char>, RowValueView)>,
    pub cursor: Option<CursorView>,
    pub limit: u16,
}

impl View for ReadModelScanRequest {
    type V = ScanRequestView;

    open spec fn view(&self) -> ScanRequestView {
        ScanRequestView {
            schema: self.schema@,
            equals: self.equals@,
            cursor: option_cursor_view(self.cursor),
            limit: self.limit,
        }
    }
}

/// Whether a filter value is accepted for a column: NULL only where
/// nullable, bounded NUL-free text, booleans, signed integers, and unsigned
/// integers within the SQL signed range.
pub open spec fn filter_value_ok(col: ColumnView, v: RowValueView) -> bool {
    match (col.column_type, v) {
        (_, RowValueView::Null) => col.nullable,
        (ColumnType::Text, RowValueView::String(s)) => is_bounded_text(s),
        (ColumnType::Boolean, RowValueView::Bool(_)) => true,
        (ColumnType::Integer, RowValueView::I64(_)) => true,
        (ColumnType::UnsignedInteger, RowValueView::U64(x)) => x <= i64::MAX,
        (ColumnType::UnsignedInteger, RowValueView::I64(x)) => x >= 0,
        _ => false,
    }
}

/// Why one filter entry is refused, if it is.
pub open spec fn entry_rejection(cols: Seq<ColumnView>, e: (Seq<char>, RowValueView)) -> Option<
    ScanRejection,
> {
    match find_column(cols, e.0) {
        None => Some(ScanRejection::UnknownFilterColumn),
        Some(c) => if filter_value_ok(c, e.1) {
            None
        } else {
            Some(ScanRejection::MismatchedFilter)
        },
    }
}

pub open spec fn is_first_bad_filter(
    cols: Seq<ColumnView>,
    es: Seq<(Seq<char>, RowValueView)>,
    i: int,
) -> bool {
    &&& 0 <= i < es.len()
    &&& entry_rejection(cols, es[i]) is Some
    &&& forall|j: int| 0 <= j < i ==> entry_rejection(cols, #[trigger] es[j]) is None
}

/// The rejection of the first refused filter entry, in scope order.
pub open spec fn filter_rejection(cols: Seq<ColumnView>, es: Seq<(Seq<char>, RowValueView)>) -> Option<
    ScanRejection,
> {
    if exists|i: int| is_first_bad_filter(cols, es, i) {
        entry_rejection(cols, es[choose|i: int| is_first_bad_filter(cols, es, i)])
    } else {
        None
    }
}

pub proof fn lemma_first_bad_filter_unique(
    cols: Seq<ColumnView>,
    es: Seq<(Seq<char>, RowValueView)>,
    i: int,
    k: int,
)
    requires
        is_first_bad_filter(cols, es, i),
        is_first_bad_filter(cols, es, k),
    ensures
        i == k,
{
    if i < k {
        assert(entry_rejection(cols, es[i]) is None);
    } else if k < i {
        assert(entry_rejection(cols, es[k]) is None);
    }
}

/// The cursor continues exactly this schema and equality scope with a
/// bounded key.
pub open spec fn cursor_in_scope(
    schema: TableSchemaView,
    equals: Seq<(Seq<char>, RowValueView)>,
    c: CursorView,
) -> bool {
    &&& c.schema == schema
    &&& same_scope(c.equals, equals)
    &&& is_bounded_text(c.after)
}

/// Why a scan request is refused, checked in this order; `None` when the
/// request is accepted.
pub open spec fn request_rejection(r: ScanRequestView) -> Option<TableStoreError> {
    if schema_error(r.schema) is Some {
        Some(TableStoreError::Schema(schema_error(r.schema)->0))
    } else if r.schema.kind != TableKind::ReadModel {
        Some(TableStoreError::Scan(ScanRejection::OperationalTable))
    } else if !(1 <= r.limit && r.limit <= 100) || r.equals.len() > 16 {
        Some(TableStoreError::Scan(ScanRejection::LimitOrFilterCount))
    } else if r.schema.primary_key.len() != 1 {
        Some(TableStoreError::Scan(ScanRejection::CompositeKey))
    } else if find_column(r.schema.columns, r.schema.primary_key[0]) is None {
        Some(TableStoreError::Scan(ScanRejection::MissingPrimaryKey))
    } else if find_column(r.schema.columns, r.schema.primary_key[0])->0.column_type
        != ColumnType::Text || find_column(r.schema.columns, r.schema.primary_key[0])->0.nullable {
        Some(TableStoreError::Scan(ScanRejection::PrimaryKeyNotText))
    } else if filter_rejection(r.schema.columns, r.equals) is Some {
        Some(TableStoreError::Scan(filter_rejection(r.schema.columns, r.equals)->0))
    } else if r.cursor is Some && !cursor_in_scope(r.schema, r.equals, r.cursor->0) {
        Some(TableStoreError::Scan(ScanRejection::CursorScope))
    } else {
        None
    }
}

/// Whether a stored value satisfies one equality filter. Signed and unsigned
/// integers compare by numeric value.
pub open spec fn value_matches(actual: Option<RowValueView>, expected: RowValueView) -> bool {
    match (actual, expected) {
        (Some(RowValueView::I64(a)), RowValueView::U64(e)) => a >= 0 && a == e,
        (Some(RowValueView::U64(a)), RowValueView::I64(e)) => e >= 0 && a == e,
        (Some(a), e) => a == e,
        (None, _) => false,
    }
}

/// The row satisfies every equality filter of the scope.
pub open spec fn row_matches(
    equals: Seq<(Seq<char>, RowValueView)>,
    row: Seq<(Seq<char>, RowValueView)>,
) -> bool {
    forall|k: int|
        0 <= k < equals.len() ==> value_matches(
            lookup(row, (#[trigger] equals[k]).0),
            equals[k].1,
        )
}

pub open spec fn rows_view(rows: Seq<Versioned<RowValues>>) -> Seq<
    (Seq<(Seq<char>, RowValueView)>, u64),
> {
    rows.map_values(|r: Versioned<RowValues>| (r.data@, r.version))
}

/// The page a scan yields from the rows the store selected: at most `limit`
/// rows, and a cursor after the last kept key when more rows were selected.
pub open spec fn scan_page(
    r: ScanRequestView,
    rows: Seq<(Seq<(Seq<char>, RowValueView)>, u64)>,
) -> Result<(Seq<(Seq<(Seq<char>, RowValueView)>, u64)>, Option<CursorView>), TableStoreError> {
    let more = rows.len() > r.limit;
    let kept = if more {
        rows.take(r.limit as int)
    } else {
        rows
    };
    if !more {
        Ok((kept, None))
    } else if kept.len() == 0 {
        Err(TableStoreError::Scan(ScanRejection::InvalidPageKey))
    } else {
        match lookup(kept.last().0, r.schema.primary_key[0]) {
            Some(RowValueView::String(after)) => if is_bounded_text(after) {
                Ok((kept, Some(CursorView { schema: r.schema, equals: r.equals, after })))
            } else {
                Err(TableStoreError::Scan(ScanRejection::PageKeyTooLong))
            },
            _ => Err(TableStoreError::Scan(ScanRejection::InvalidPageKey)),
        }
    }
}

impl ReadModelScanRequest {
    /// Single nonnullable text PK, at most 16 scalar equality predicates and
    /// 1..=100 rows. No offsets, joins, includes, raw SQL or aggregate reads.
    /// The schema is the one model `M` declares; `for_schema` states the
    /// outcome for each schema.
    pub fn new<M: RelationalReadModel>(
        equals: RowValues,
        limit: u16,
        cursor: Option<ReadModelScanCursor>,
    ) -> (r: Result<Self, TableStoreError>)
        ensures
            exists|declared: TableSchema|
                #![trigger call_ensures(M::schema, (), declared)]
                call_ensures(M::schema, (), declared) && {
                    let v = ScanRequestView {
                        schema: declared@,
                        equals: equals@,
                        cursor: option_cursor_view(cursor),
                        limit,
                    };
                    match request_rejection(v) {
                        None => r is Ok && r->Ok_0@ == v && r->Ok_0.cursor == cursor,
                        Some(e) => r == Err::<Self, TableStoreError>(e),
                    }
                },
            !(1 <= limit && limit <= 100) || equals@.len() > 16 ==> r is Err,
    {
        Self::for_schema(M::schema(), equals, limit, cursor)
    }

    /// The request for `schema`, if it is accepted.
    pub fn for_schema(
        schema: TableSchema,
        equals: RowValues,
        limit: u16,
        cursor: Option<ReadModelScanCursor>,
    ) -> (r: Result<Self, TableStoreError>)
        ensures
            ({
                let v = ScanRequestView {
                    schema: schema@,
                    equals: equals@,
                    cursor: option_cursor_view(cursor),
                    limit,
                };
                match request_rejection(v) {
                    None => r is Ok && r->Ok_0@ == v && r->Ok_0.cursor == cursor,
                    Some(e) => r == Err::<Self, TableStoreError>(e),
                }
            }),
    {
        let request = Self { schema, equals, cursor, limit };
        match request.validate() {
            Ok(()) => Ok(request),
            Err(e) => Err(e),
        }
    }

    /// Check the request before any storage access.
    pub fn validate(&self) -> (r: Result<(), TableStoreError>)
        ensures
            match request_rejection(self@) {
                None => r is Ok,
                Some(e) => r == Err::<(), TableStoreError>(e),
            },
    {
        let ghost v = self@;
        match self.schema.validate() {
            Ok(()) => {},
            Err(e) => {
                return Err(e);
            },
        }
        if !self.schema.kind.is_read_model() {
            return Err(TableStoreError::Scan(ScanRejection::OperationalTable));
        }
        if !(1 <= self.limit && self.limit <= 100) || self.equals.len() > 16 {
            return Err(TableStoreError::Scan(ScanRejection::LimitOrFilterCount));
        }
        if self.schema.primary_key.columns.len() != 1 {
            return Err(TableStoreError::Scan(ScanRejection::CompositeKey));
        }
        let primary = match find_column_index(&self.schema.columns, self.key_column()) {
            Some(i) => &self.schema.columns[i],
            None => {
                return Err(TableStoreError::Scan(ScanRejection::MissingPrimaryKey));
            },
        };
        if primary.column_type != ColumnType::Text || primary.nullable {
            return Err(TableStoreError::Scan(ScanRejection::PrimaryKeyNotText));
        }
        match self.check_filters() {
            Some(e) => {
                return Err(TableStoreError::Scan(e));
            },
            None => {},
        }
        match &self.cursor {
            Some(cursor) => {
                if !cursor.schema.same_as(&self.schema) || !cursor.equals.same_scope_as(
                    &self.equals,
                ) || !bounded_text(cursor.after.as_str()) {
                    return Err(TableStoreError::Scan(ScanRejection::CursorScope));
                }
            },
            None => {},
        }
        Ok(())
    }

    /// The first refused filter entry's rejection, in scope order.
    fn check_filters(&self) -> (r: Option<ScanRejection>)
        ensures
            r == filter_rejection(self.schema@.columns, self.equals@),
    {
        let ghost cols = self.schema@.columns;
        let ghost es = self.equals@;
        let n = self.equals.len();
        let mut i: usize = 0;
        while i < n
            invariant
                n == es.len(),
                cols == self.schema@.columns,
                es == self.equals@,
                i <= n,
                forall|j: int| 0 <= j < i ==> entry_rejection(cols, #[trigger] es[j]) is None,
            decreases n - i,
        {
            let name = self.equals.name_at(i);
            let value = self.equals.value_at(i);
            let rejection = match find_column_index(&self.schema.columns, name) {
                None => Some(ScanRejection::UnknownFilterColumn),
                Some(c) => {
                    if filter_value_accepted(&self.schema.columns[c], value) {
                        None
                    } else {
                        Some(ScanRejection::MismatchedFilter)
                    }
                },
            };
            if rejection.is_some() {
                proof {
                    assert(is_first_bad_filter(cols, es, i as int));
                    let k = choose|k: int| is_first_bad_filter(cols, es, k);
                    lemma_first_bad_filter_unique(cols, es, i as int, k);
                }
                return rejection;
            }
            i = i + 1;
        }
        proof {
            assert forall|k: int| !is_first_bad_filter(cols, es, k) by {
                if 0 <= k < es.len() {
                    assert(entry_rejection(cols, es[k]) is None);
                }
            }
        }
        None
    }

    /// The single primary-key column.
    pub fn key_column(&self) -> (r: &str)
        requires
            self.schema@.primary_key.len() > 0,
        ensures
            r@ == self.schema@.primary_key[0],
    {
        self.schema.primary_key.columns[0].as_str()
    }

    /// The key after which this page starts, if continuing.
    pub fn after(&self) -> (r: Option<&str>)
        ensures
            match r {
                Some(a) => self.cursor is Some && a@ == self.cursor->0.after@,
                None => self.cursor is None,
            },
    {
        match &self.cursor {
            Some(c) => Some(c.after.as_str()),
            None => None,
        }
    }

    /// Whether `row` satisfies every equality filter.
    pub fn matches(&self, row: &RowValues) -> (r: bool)
        ensures
            r == row_matches(self.equals@, row@),
    {
        let ghost es = self.equals@;
        let n = self.equals.len();
        let mut i: usize = 0;
        while i < n
            invariant
                n == es.len(),
                es == self.equals@,
                i <= n,
                forall|k: int|
                    0 <= k < i ==> value_matches(lookup(row@, (#[trigger] es[k]).0), es[k].1),
            decreases n - i,
        {
            let expected = self.equals.value_at(i);
            let actual = row.get(self.equals.name_at(i));
            let ok = match (actual, expected) {
                (Some(RowValue::I64(a)), RowValue::U64(e)) => *a >= 0 && *a as u64 == *e,
                (Some(RowValue::U64(a)), RowValue::I64(e)) => *e >= 0 && *a == *e as u64,
                (Some(a), e) => a.same_as(e),
                (None, _) => false,
            };
            if !ok {
                assert(!value_matches(lookup(row@, es[i as int].0), es[i as int].1));
                return false;
            }
            i = i + 1;
        }
        true
    }

    /// Build the page from rows the store selected in ascending key order,
    /// at most one more than the limit.
    pub fn finish(&self, rows: Vec<Versioned<RowValues>>) -> (r: Result<
        ReadModelScanPage,
        TableStoreError,
    >)
        requires
            rows@.len() > self.limit ==> self.schema@.primary_key.len() > 0,
        ensures
            match scan_page(self@, rows_view(rows@)) {
                Ok((kept, next)) => r is Ok && rows_view(r->Ok_0.rows@) == kept
                    && option_cursor_view(r->Ok_0.next) == next && r->Ok_0.schema@
                    == self.schema@,
                Err(e) => r == Err::<ReadModelScanPage, TableStoreError>(e),
            },
    {
        let ghost all = rows_view(rows@);
        let mut rows = rows;
        let limit = self.limit as usize;
        let more = rows.len() > limit;
        rows.truncate(limit);
        assert(rows_view(rows@) =~= if more {
            all.take(self.limit as int)
        } else {
            all
        });
        let next = if more {
            if rows.len() == 0 {
                return Err(TableStoreError::Scan(ScanRejection::InvalidPageKey));
            }
            let last = rows.len() - 1;
            assert(rows_view(rows@).last().0 == rows@[last as int].data@);
            let after = match rows[last].data.get(self.key_column()) {
                Some(RowValue::String(after)) => after,
                _ => {
                    return Err(TableStoreError::Scan(ScanRejection::InvalidPageKey));
                },
            };
            if !bounded_text(after.as_str()) {
                return Err(TableStoreError::Scan(ScanRejection::PageKeyTooLong));
            }
            Some(
                ReadModelScanCursor {
                    schema: self.schema.duplicate(),
                    equals: self.equals.duplicate(),
                    after: after.clone(),
                },
            )
        } else {
            None
        };
        Ok(ReadModelScanPage { rows, next, schema: self.schema.duplicate() })
    }
}

/// Whether one filter value is accepted for its column.
pub fn filter_value_accepted(col: &TableColumn, v: &RowValue) -> (r: bool)
    ensures
        r == filter_value_ok(col@, v@),
{
    match (&col.column_type, v) {
        (_, RowValue::Null) => col.nullable,
        (ColumnType::Text, RowValue::String(s)) => bounded_text(s.as_str()),
        (ColumnType::Boolean, RowValue::Bool(_)) => true,
        (ColumnType::Integer, RowValue::I64(_)) => true,
        (ColumnType::UnsignedInteger, RowValue::U64(x)) => *x <= 0x7fff_ffff_ffff_ffffu64,
        (ColumnType::UnsignedInteger, RowValue::I64(x)) => *x >= 0,
        _ => false,
    }
}

/// `out` is a result that `M::from_row` gave for a row holding `row`.
pub open spec fn decodes_to<M: RelationalReadModel>(
    row: Seq<(Seq<char>, RowValueView)>,
    out: Result<M, TableStoreError>,
) -> bool {
    exists|x: RowValues| #[trigger] call_ensures(M::from_row, (x,), out) && x@ == row
}

/// `M::from_row` gave some value of `M` for a row holding `row`.
pub open spec fn decodes_ok<M: RelationalReadModel>(row: Seq<(Seq<char>, RowValueView)>) -> bool {
    exists|d: M| #[trigger] decodes_to::<M>(row, Ok(d))
}

/// Every row before `k` decoded into some value of `M`.
pub open spec fn rows_decode_before<M: RelationalReadModel>(
    rows: Seq<Versioned<RowValues>>,
    k: int,
) -> bool {
    forall|j: int| 0 <= j < k ==> #[trigger] decodes_ok::<M>(rows[j].data@)
}

/// `r` is what decoding `rows` in order gives: every row decoded, with its
/// version kept, or the error of the first row that failed.
pub open spec fn typed_rows<M: RelationalReadModel>(
    rows: Seq<Versioned<RowValues>>,
    r: Result<Vec<Versioned<M>>, TableStoreError>,
) -> bool {
    match r {
        Ok(out) => out@.len() == rows.len() && forall|i: int|
            0 <= i < rows.len() ==> (#[trigger] out@[i]).version == rows[i].version
                && decodes_to::<M>(rows[i].data@, Ok(out@[i].data)),
        Err(e) => exists|k: int|
            0 <= k < rows.len() && rows_decode_before::<M>(rows, k) && #[trigger] decodes_to::<M>(
                rows[k].data@,
                Err(e),
            ),
    }
}

/// One page of a keyset scan and the continuation after it.
#[derive(Clone, Debug)]
pub struct ReadModelScanPage {
    pub rows: Vec<Versioned<RowValues>>,
    pub next: Option<ReadModelScanCursor>,
    pub schema: TableSchema,
}

impl ReadModelScanPage {
    /// Whether this page was read with exactly `schema`.
    pub fn belongs_to(&self, schema: &TableSchema) -> (r: bool)
        ensures
            r == (schema@ == self.schema@),
    {
        schema.same_as(&self.schema)
    }

    /// Decode every row into model `M`, keeping row versions. Refused when the
    /// page belongs to another model (`belongs_to` on `M::schema()`);
    /// otherwise the first row that fails to decode gives the error.
    /// What the schema and each decoded value are is up to `M`: the contract
    /// speaks of what `M::schema` and `M::from_row` returned here.
    pub fn typed<M: RelationalReadModel>(&self) -> (r: Result<Vec<Versioned<M>>, TableStoreError>)
        ensures
            exists|declared: TableSchema|
                #![trigger call_ensures(M::schema, (), declared)]
                call_ensures(M::schema, (), declared) && if declared@ == self.schema@ {
                    typed_rows::<M>(self.rows@, r)
                } else {
                    r == Err::<Vec<Versioned<M>>, TableStoreError>(
                        TableStoreError::Scan(ScanRejection::OtherModel),
                    )
                },
    {
        let declared = M::schema();
        if !self.belongs_to(&declared) {
            return Err(TableStoreError::Scan(ScanRejection::OtherModel));
        }
        let mut out: Vec<Versioned<M>> = Vec::new();
        let mut i: usize = 0;
        while i < self.rows.len()
            invariant
                call_ensures(M::schema, (), declared),
                declared@ == self.schema@,
                i <= self.rows@.len(),
                out@.len() == i,
                forall|j: int|
                    0 <= j < i ==> (#[trigger] out@[j]).version == self.rows@[j].version
                        && decodes_to::<M>(self.rows@[j].data@, Ok(out@[j].data)),
            decreases self.rows.len() - i,
        {
            let row = self.rows[i].data.duplicate();
            let decoded = M::from_row(row);
            proof {
                assert(decodes_to::<M>(self.rows@[i as int].data@, decoded));
            }
            match decoded {
                Ok(data) => {
                    out.push(Versioned { data, version: self.rows[i].version });
                },
                Err(e) => {
                    proof {
                        assert forall|j: int| 0 <= j < i implies #[trigger] decodes_ok::<M>(
                            self.rows@[j].data@,
                        ) by {
                            assert(decodes_to::<M>(self.rows@[j].data@, Ok(out@[j].data)));
                        }
                    }
                    return Err(e);
                },
            }
            i = i + 1;
        }
        Ok(out)
    }
}

/// A page never holds more rows than the request's limit.
pub proof fn lemma_page_within_limit(
    r: ScanRequestView,
    rows: Seq<(Seq<(Seq<char>, RowValueView)>, u64)>,
)
    requires
        scan_page(r, rows) is Ok,
    ensures
        scan_page(r, rows)->Ok_0.0.len() <= r.limit,
        scan_page(r, rows)->Ok_0.0.len() <= rows.len(),
{
}

/// A page has a continuation exactly when the store selected more rows
/// than the limit.
pub proof fn lemma_next_iff_more_rows(
    r: ScanRequestView,
    rows: Seq<(Seq<(Seq<char>, RowValueView)>, u64)>,
)
    requires
        scan_page(r, rows) is Ok,
    ensures
        (scan_page(r, rows)->Ok_0.1 is Some) == (rows.len() > r.limit),
{
}

/// The cursor of an accepted request's page continues that request: the
/// same schema and scope with the cursor is accepted for any page size in
/// 1..=100. Only the page size may change.
pub proof fn lemma_cursor_continues_request(
    r: ScanRequestView,
    rows: Seq<(Seq<(Seq<char>, RowValueView)>, u64)>,
    limit: u16,
)
    requires
        request_rejection(r) is None,
        scan_page(r, rows) is Ok,
        scan_page(r, rows)->Ok_0.1 is Some,
        1 <= limit <= 100,
    ensures
        request_rejection(
            ScanRequestView { cursor: scan_page(r, rows)->Ok_0.1, limit, ..r },
        ) is None,
{
    let c = scan_page(r, rows)->Ok_0.1->0;
    assert(same_scope(c.equals, r.equals));
}

/// The cursor of a page is refused by a request with another equality scope
/// or another schema.
pub proof fn lemma_cursor_bound_to_scope(
    r: ScanRequestView,
    rows: Seq<(Seq<(Seq<char>, RowValueView)>, u64)>,
    other: ScanRequestView,
)
    requires
        scan_page(r, rows) is Ok,
        scan_page(r, rows)->Ok_0.1 is Some,
        other.cursor == scan_page(r, rows)->Ok_0.1,
        !same_scope(other.equals, r.equals) || other.schema != r.schema,
    ensures
        request_rejection(other) is Some,
{
    let c = scan_page(r, rows)->Ok_0.1->0;
    if !same_scope(other.equals, r.equals) {
        let name = choose|name: Seq<char>| lookup(other.equals, name) != lookup(r.equals, name);
        assert(lookup(c.equals, name) != lookup(other.equals, name));
        assert(!same_scope(c.equals, other.equals));
    }
}

/// A stored row: its values and its version.
pub type StoredRow = (Seq<(Seq<char>, RowValueView)>, u64);

/// The text key row `row` holds in column `pk`.
pub open spec fn row_key(row: StoredRow, pk: Seq<char>) -> Seq<char> {
    lookup(row.0, pk)->0->String_0
}

/// Every stored row has a text key in `pk`, and the key identifies the row.
pub open spec fn store_keyed(store: Seq<StoredRow>, pk: Seq<char>) -> bool {
    &&& forall|i: int|
        0 <= i < store.len() ==> #[trigger] lookup(store[i].0, pk) is Some && lookup(
            store[i].0,
            pk,
        )->0 is String
    &&& forall|i: int, j: int|
        0 <= i < store.len() && 0 <= j < store.len() && row_key(#[trigger] store[i], pk) == row_key(
            #[trigger] store[j],
            pk,
        ) ==> store[i] == store[j]
}

/// A stored row the scan's filters select: it is in scope and its key comes
/// after the cursor, if there is one.
pub open spec fn selected(store: Seq<StoredRow>, r: ScanRequestView, row: StoredRow) -> bool {
    &&& store.contains(row)
    &&& row_matches(r.equals, row.0)
    &&& match r.cursor {
        Some(c) => text_lt(c.after, row_key(row, r.schema.primary_key[0])),
        None => true,
    }
}

/// `sel` is what the keyset query selects from `store` before its limit:
/// every selected row once, in ascending byte order of the key.
pub open spec fn is_selection(sel: Seq<StoredRow>, store: Seq<StoredRow>, r: ScanRequestView) -> bool {
    let pk = r.schema.primary_key[0];
    &&& forall|i: int, j: int|
        0 <= i < j < sel.len() ==> text_lt(row_key(#[trigger] sel[i], pk), row_key(#[trigger] sel[j], pk))
    &&& forall|i: int| 0 <= i < sel.len() ==> #[trigger] selected(store, r, sel[i])
    &&& forall|row: StoredRow| #[trigger] selected(store, r, row) ==> sel.contains(row)
}

/// The rows the store returns for one page: the selection up to one row
/// past the limit.
pub open spec fn fetched(sel: Seq<StoredRow>, limit: u16) -> Seq<StoredRow> {
    if sel.len() > limit + 1 {
        sel.take(limit + 1)
    } else {
        sel
    }
}

pub open spec fn keys_of(sel: Seq<StoredRow>, pk: Seq<char>) -> Seq<Seq<char>> {
    Seq::new(sel.len(), |i: int| row_key(sel[i], pk))
}

/// A store holds one selection for a request.
pub proof fn lemma_selection_unique(
    store: Seq<StoredRow>,
    r: ScanRequestView,
    s1: Seq<StoredRow>,
    s2: Seq<StoredRow>,
)
    requires
        store_keyed(store, r.schema.primary_key[0]),
        is_selection(s1, store, r),
        is_selection(s2, store, r),
    ensures
        s1 == s2,
{
    let pk = r.schema.primary_key[0];
    let k1 = keys_of(s1, pk);
    let k2 = keys_of(s2, pk);
    assert forall|i: int, j: int| 0 <= i < j < k1.len() implies text_lt(#[trigger] k1[i], #[trigger] k1[j]) by {
        assert(text_lt(row_key(s1[i], pk), row_key(s1[j], pk)));
    }
    assert forall|i: int, j: int| 0 <= i < j < k2.len() implies text_lt(#[trigger] k2[i], #[trigger] k2[j]) by {
        assert(text_lt(row_key(s2[i], pk), row_key(s2[j], pk)));
    }
    assert forall|x: Seq<char>| k1.contains(x) <==> k2.contains(x) by {
        if k1.contains(x) {
            let i = choose|i: int| 0 <= i < k1.len() && k1[i] == x;
            assert(selected(store, r, s1[i]));
            let j = choose|j: int| 0 <= j < s2.len() && s2[j] == s1[i];
            assert(k2[j] == x);
        }
        if k2.contains(x) {
            let i = choose|i: int| 0 <= i < k2.len() && k2[i] == x;
            assert(selected(store, r, s2[i]));
            let j = choose|j: int| 0 <= j < s1.len() && s1[j] == s2[i];
            assert(k1[j] == x);
        }
    }
    crate::projection_contract::lemma_sorted_tables_equal(k1, k2);
    assert forall|i: int| 0 <= i < s1.len() implies s1[i] == s2[i] by {
        assert(k1[i] == k2[i]);
        assert(selected(store, r, s1[i]));
        assert(selected(store, r, s2[i]));
        let a = choose|a: int| 0 <= a < store.len() && store[a] == s1[i];
        let b = choose|b: int| 0 <= b < store.len() && store[b] == s2[i];
        assert(row_key(store[a], pk) == row_key(store[b], pk));
    }
    assert(s1 =~= s2);
}

/// A page holds the first `limit` rows of the selection, or all of it when
/// it is not longer, and has a cursor exactly when rows remain.
pub proof fn lemma_page_is_selection_prefix(store: Seq<StoredRow>, r: ScanRequestView, sel: Seq<StoredRow>)
    requires
        is_selection(sel, store, r),
        scan_page(r, fetched(sel, r.limit)) is Ok,
    ensures
        scan_page(r, fetched(sel, r.limit))->Ok_0.0 == (if sel.len() > r.limit {
            sel.take(r.limit as int)
        } else {
            sel
        }),
        (scan_page(r, fetched(sel, r.limit))->Ok_0.1 is Some) == (sel.len() > r.limit),
{
    if sel.len() > r.limit {
        assert(fetched(sel, r.limit).take(r.limit as int) =~= sel.take(r.limit as int));
    }
}

/// Keyset paging resumes exactly where a page stopped: on a store that does
/// not change between pages, the rows the next page's request selects (any
/// page size) are exactly the selection's rows after the ones the page kept.
/// With `lemma_page_is_selection_prefix`, the pages of a scan hold every
/// selected row once, in ascending key order.
pub proof fn lemma_next_page_resumes(
    store: Seq<StoredRow>,
    r: ScanRequestView,
    sel: Seq<StoredRow>,
    limit: u16,
    next_sel: Seq<StoredRow>,
)
    requires
        r.schema.primary_key.len() > 0,
        store_keyed(store, r.schema.primary_key[0]),
        is_selection(sel, store, r),
        scan_page(r, fetched(sel, r.limit)) is Ok,
        scan_page(r, fetched(sel, r.limit))->Ok_0.1 is Some,
        is_selection(
            next_sel,
            store,
            ScanRequestView { cursor: scan_page(r, fetched(sel, r.limit))->Ok_0.1, limit, ..r },
        ),
    ensures
        next_sel == sel.skip(r.limit as int),
{
    let pk = r.schema.primary_key[0];
    let n = r.limit as int;
    let c = scan_page(r, fetched(sel, r.limit))->Ok_0.1->0;
    let r2 = ScanRequestView { cursor: Some(c), limit, ..r };
    let rest = sel.skip(n);
    assert(sel.len() > n);
    assert(fetched(sel, r.limit).take(n).last() == sel[n - 1]);
    assert(c.after == row_key(sel[n - 1], pk));
    assert(c.equals == r.equals);
    assert forall|i: int, j: int| 0 <= i < j < rest.len() implies text_lt(
        row_key(#[trigger] rest[i], pk),
        row_key(#[trigger] rest[j], pk),
    ) by {
        assert(rest[i] == sel[i + n] && rest[j] == sel[j + n]);
    }
    assert forall|i: int| 0 <= i < rest.len() implies #[trigger] selected(store, r2, rest[i]) by {
        assert(rest[i] == sel[i + n]);
        assert(selected(store, r, sel[i + n]));
        assert(text_lt(row_key(sel[n - 1], pk), row_key(sel[i + n], pk)));
    }
    assert forall|row: StoredRow| #[trigger] selected(store, r2, row) implies rest.contains(row) by {
        assert(selected(store, r, sel[n - 1]));
        if let Some(c0) = r.cursor {
            crate::text::lemma_text_lt_transitive(c0.after, row_key(sel[n - 1], pk), row_key(row, pk));
        }
        assert(selected(store, r, row));
        let j = choose|j: int| 0 <= j < sel.len() && sel[j] == row;
        if j < n {
            if j < n - 1 {
                assert(text_lt(row_key(sel[j], pk), row_key(sel[n - 1], pk)));
                crate::text::lemma_text_lt_transitive(
                    row_key(sel[n - 1], pk),
                    row_key(sel[j], pk),
                    row_key(sel[n - 1], pk),
                );
            }
            crate::text::lemma_text_lt_irreflexive(row_key(sel[n - 1], pk));
        }
        assert(rest[j - n] == row);
    }
    lemma_selection_unique(store, r2, next_sel, rest);
}

/// Later pages are current reads resumed strictly after the cursor: whatever
/// the store holds when the next page is read, every row it selects is in
/// the same scope and has a key after the last key the previous page kept.
pub proof fn lemma_next_page_after_cursor(
    r: ScanRequestView,
    rows: Seq<StoredRow>,
    limit: u16,
    store: Seq<StoredRow>,
    next_sel: Seq<StoredRow>,
)
    requires
        scan_page(r, rows) is Ok,
        scan_page(r, rows)->Ok_0.1 is Some,
        is_selection(
            next_sel,
            store,
            ScanRequestView { cursor: scan_page(r, rows)->Ok_0.1, limit, ..r },
        ),
    ensures
        forall|i: int|
            0 <= i < next_sel.len() ==> store.contains(#[trigger] next_sel[i]) && row_matches(
                r.equals,
                next_sel[i].0,
            ) && text_lt(
                row_key(scan_page(r, rows)->Ok_0.0.last(), r.schema.primary_key[0]),
                row_key(next_sel[i], r.schema.primary_key[0]),
            ),
{
    let r2 = ScanRequestView { cursor: scan_page(r, rows)->Ok_0.1, limit, ..r };
    assert forall|i: int| 0 <= i < next_sel.len() implies store.contains(#[trigger] next_sel[i])
        && row_matches(r.equals, next_sel[i].0) && text_lt(
        row_key(scan_page(r, rows)->Ok_0.0.last(), r.schema.primary_key[0]),
        row_key(next_sel[i], r.schema.primary_key[0]),
    ) by {
        assert(selected(store, r2, next_sel[i]));
    }
}

/// A stored value satisfies a filter exactly when it is the filter's value,
/// or when a signed and an unsigned integer hold the same number. Values of
/// different kinds never match, and a missing value matches nothing.
pub proof fn lemma_value_matches_is_equality(actual: Option<RowValueView>, expected: RowValueView)
    ensures
        value_matches(actual, expected) <==> (actual == Some(expected) || (exists|a: i64, u: u64|
            actual == Some(RowValueView::I64(a)) && expected == RowValueView::U64(u) && a >= 0
                && a as int == u as int) || (exists|u: u64, a: i64|
            actual == Some(RowValueView::U64(u)) && expected == RowValueView::I64(a) && a >= 0
                && a as int == u as int)),
        forall|x: bool, y: bool|
            value_matches(Some(RowValueView::Bool(x)), RowValueView::Bool(y)) <==> x == y,
        forall|x: Seq<char>, y: Seq<char>|
            value_matches(Some(RowValueView::String(x)), RowValueView::String(y)) <==> x == y,
        forall|x: i64, y: i64| value_matches(Some(RowValueView::I64(x)), RowValueView::I64(y)) <==> x == y,
        forall|x: u64, y: u64| value_matches(Some(RowValueView::U64(x)), RowValueView::U64(y)) <==> x == y,
        !value_matches(None, expected),
{
    match (actual, expected) {
        (Some(RowValueView::I64(a)), RowValueView::U64(u)) => {
            if a >= 0 && a == u {
                assert(actual == Some(RowValueView::I64(a)) && expected == RowValueView::U64(u));
            }
        },
        (Some(RowValueView::U64(u)), RowValueView::I64(a)) => {
            if a >= 0 && a == u {
                assert(actual == Some(RowValueView::U64(u)) && expected == RowValueView::I64(a));
            }
        },
        _ => {},
    }
}

/// A row is in the scope exactly when, for every filter, the row holds the
/// filtered column and its value is the filter's value (a signed and an
/// unsigned integer compare by number).
pub proof fn lemma_row_matches_means_equal(
    equals: Seq<(Seq<char>, RowValueView)>,
    row: Seq<(Seq<char>, RowValueView)>,
)
    ensures
        row_matches(equals, row) <==> forall|k: int|
            0 <= k < equals.len() ==> lookup(row, (#[trigger] equals[k]).0) == Some(equals[k].1) || (
            exists|a: i64, u: u64|
                lookup(row, equals[k].0) == Some(RowValueView::I64(a)) && equals[k].1
                    == RowValueView::U64(u) && a >= 0 && a as int == u as int) || (exists|
                u: u64,
                a: i64,
            |
                lookup(row, equals[k].0) == Some(RowValueView::U64(u)) && equals[k].1
                    == RowValueView::I64(a) && a >= 0 && a as int == u as int),
{
    assert forall|k: int| 0 <= k < equals.len() implies value_matches(
        lookup(row, (#[trigger] equals[k]).0),
        equals[k].1,
    ) <==> (lookup(row, equals[k].0) == Some(equals[k].1) || (exists|a: i64, u: u64|
        lookup(row, equals[k].0) == Some(RowValueView::I64(a)) && equals[k].1 == RowValueView::U64(u)
            && a >= 0 && a as int == u as int) || (exists|u: u64, a: i64|
        lookup(row, equals[k].0) == Some(RowValueView::U64(u)) && equals[k].1 == RowValueView::I64(a)
            && a >= 0 && a as int == u as int)) by {
        lemma_value_matches_is_equality(lookup(row, equals[k].0), equals[k].1);
    }
}

/// Every filter whose value has the scalar kind of its column is accepted:
/// any signed integer on an `Integer` column, any boolean on a `Boolean`
/// column, bounded NUL-free text on a `Text` column, an unsigned integer up
/// to `i64::MAX` (or a non-negative signed one) on an `UnsignedInteger`
/// column, and NULL exactly on a nullable column. A value of another kind is
/// refused.
pub proof fn lemma_filter_kinds_accepted(col: ColumnView, v: RowValueView)
    ensures
        col.column_type == ColumnType::Integer && v is I64 ==> filter_value_ok(col, v),
        col.column_type == ColumnType::Boolean && v is Bool ==> filter_value_ok(col, v),
        col.column_type == ColumnType::Text && v is String && is_bounded_text(v->String_0)
            ==> filter_value_ok(col, v),
        col.column_type == ColumnType::UnsignedInteger && v is U64 && v->U64_0 <= i64::MAX
            ==> filter_value_ok(col, v),
        col.column_type == ColumnType::UnsignedInteger && v is I64 && v->I64_0 >= 0 ==> filter_value_ok(
            col,
            v,
        ),
        v is Null ==> (filter_value_ok(col, v) <==> col.nullable),
        filter_value_ok(col, v) <==> ({
            ||| v is Null && col.nullable
            ||| col.column_type == ColumnType::Integer && v is I64
            ||| col.column_type == ColumnType::Boolean && v is Bool
            ||| col.column_type == ColumnType::Text && v is String && is_bounded_text(v->String_0)
            ||| col.column_type == ColumnType::UnsignedInteger && v is U64 && v->U64_0 <= i64::MAX
            ||| col.column_type == ColumnType::UnsignedInteger && v is I64 && v->I64_0 >= 0
        }),
{
}

/// Filters that all name columns of the schema, each with a value of its
/// column's kind, are never what refuses a scan request.
pub proof fn lemma_well_typed_filters_pass(cols: Seq<ColumnView>, es: Seq<(Seq<char>, RowValueView)>)
    requires
        forall|k: int|
            0 <= k < es.len() ==> find_column(cols, (#[trigger] es[k]).0) is Some && ({
                let c = find_column(cols, es[k].0)->0;
                let v = es[k].1;
                ||| c.column_type == ColumnType::Integer && v is I64
                ||| c.column_type == ColumnType::Boolean && v is Bool
                ||| c.column_type == ColumnType::Text && v is String && is_bounded_text(v->String_0)
                ||| c.column_type == ColumnType::UnsignedInteger && v is U64 && v->U64_0 <= i64::MAX
                ||| c.nullable && v is Null
            }),
    ensures
        filter_rejection(cols, es) is None,
{
    assert forall|k: int| 0 <= k < es.len() implies entry_rejection(cols, #[trigger] es[k]) is None by {
        lemma_filter_kinds_accepted(find_column(cols, es[k].0)->0, es[k].1);
    }
}

} // verus!
