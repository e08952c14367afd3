use distributed::read_model::scan::{
    ReadModelScanCursor, ReadModelScanPage, ReadModelScanRequest, RelationalReadModel,
};
use distributed::table::{
    ColumnType, PrimaryKey, RowValue, RowValues, ScanRejection, SchemaError, TableColumn,
    TableKind, TableSchema, TableStoreError, Versioned,
};

fn request() -> ReadModelScanRequest {
    let schema = TableSchema {
        model_name: "Page".into(),
        table_name: "pages".into(),
        columns: vec![TableColumn::new("id", "id", ColumnType::Text)],
        primary_key: PrimaryKey::new(["id"]),
        relationships: vec![],
        indexes: vec![],
        foreign_keys: vec![],
        version_column: Some("_sourced_version".into()),
        kind: TableKind::ReadModel,
    };
    ReadModelScanRequest {
        schema,
        equals: RowValues::new(),
        cursor: None,
        limit: 10,
    }
}

fn filter() -> RowValues {
    let mut values = RowValues::new();
    values.insert("id", RowValue::String("key".into()));
    values
}

#[test]
fn malformed_schemas_and_cursor_scopes_fail_before_io() {
    let good = request();
    good.validate().unwrap();
    let mut bad = good.clone();
    bad.schema.kind = TableKind::Operational;
    assert!(bad.validate().is_err());
    let mut bad = good.clone();
    bad.schema.primary_key.columns.push("extra".into());
    assert!(bad.validate().is_err());
    let mut bad = good.clone();
    bad.schema.columns[0].column_type = ColumnType::Integer;
    assert!(bad.validate().is_err());
    let mut bad = good.clone();
    bad.schema.columns[0].nullable = true;
    assert!(bad.validate().is_err());
    let mut bad = good.clone();
    bad.cursor = Some(ReadModelScanCursor {
        schema: good.schema.clone(),
        equals: filter(),
        after: "key".into(),
    });
    assert!(bad.validate().is_err());
    let mut bad = good.clone();
    bad.cursor = Some(ReadModelScanCursor {
        schema: good.schema.clone(),
        equals: RowValues::new(),
        after: "x".repeat(4097),
    });
    assert!(bad.validate().is_err());
}

/// The read model of the keyset scenario: text key, scope, optional source,
/// flag and unsigned generation.
#[derive(Clone, Debug, PartialEq)]
struct ScanCandidate {
    id: String,
    scope: String,
    source: Option<String>,
    enabled: bool,
    generation: u64,
}

fn candidate_schema() -> TableSchema {
    let mut source = TableColumn::new("source", "source", ColumnType::Text);
    source.nullable = true;
    TableSchema {
        model_name: "ScanCandidate".into(),
        table_name: "scan_candidates".into(),
        columns: vec![
            TableColumn::new("id", "id", ColumnType::Text),
            TableColumn::new("scope", "scope", ColumnType::Text),
            source,
            TableColumn::new("enabled", "enabled", ColumnType::Boolean),
            TableColumn::new("generation", "generation", ColumnType::UnsignedInteger),
        ],
        primary_key: PrimaryKey::new(["id"]),
        relationships: vec![],
        indexes: vec![],
        foreign_keys: vec![],
        version_column: Some("_sourced_version".into()),
        kind: TableKind::ReadModel,
    }
}

fn text(row: &RowValues, name: &str) -> Result<String, TableStoreError> {
    match row.get(name) {
        Some(RowValue::String(s)) => Ok(s.clone()),
        _ => Err(TableStoreError::Decode(format!("{name} is not text"))),
    }
}

impl RelationalReadModel for ScanCandidate {
    fn schema() -> TableSchema {
        candidate_schema()
    }

    fn from_row(row: RowValues) -> Result<Self, TableStoreError> {
        let source = match row.get("source") {
            Some(RowValue::String(s)) => Some(s.clone()),
            Some(RowValue::Null) | None => None,
            _ => return Err(TableStoreError::Decode("source".into())),
        };
        let enabled = match row.get("enabled") {
            Some(RowValue::Bool(b)) => *b,
            _ => return Err(TableStoreError::Decode("enabled".into())),
        };
        let generation = match row.get("generation") {
            Some(RowValue::U64(g)) => *g,
            Some(RowValue::I64(g)) if *g >= 0 => *g as u64,
            _ => return Err(TableStoreError::Decode("generation".into())),
        };
        Ok(ScanCandidate {
            id: text(&row, "id")?,
            scope: text(&row, "scope")?,
            source,
            enabled,
            generation,
        })
    }
}

fn to_row(c: &ScanCandidate) -> RowValues {
    let mut row = RowValues::new();
    row.insert("id", RowValue::String(c.id.clone()));
    row.insert("scope", RowValue::String(c.scope.clone()));
    row.insert(
        "source",
        match &c.source {
            Some(s) => RowValue::String(s.clone()),
            None => RowValue::Null,
        },
    );
    row.insert("enabled", RowValue::Bool(c.enabled));
    row.insert("generation", RowValue::U64(c.generation));
    row
}

/// A small in-memory store: rows keyed by id, each with a version.
struct Store {
    rows: Vec<(ScanCandidate, u64)>,
}

impl Store {
    fn upsert(&mut self, c: ScanCandidate) {
        if let Some(slot) = self.rows.iter_mut().find(|(r, _)| r.id == c.id) {
            slot.1 += 1;
            slot.0 = c;
        } else {
            self.rows.push((c, 1));
        }
    }

    fn scan(&self, request: ReadModelScanRequest) -> Result<ReadModelScanPage, TableStoreError> {
        request.validate()?;
        let mut selected: Vec<(String, Versioned<RowValues>)> = self
            .rows
            .iter()
            .map(|(c, v)| {
                (
                    c.id.clone(),
                    Versioned {
                        data: to_row(c),
                        version: *v,
                    },
                )
            })
            .filter(|(_, row)| request.matches(&row.data))
            .filter(|(id, _)| match request.after() {
                Some(after) => id.as_bytes() > after.as_bytes(),
                None => true,
            })
            .collect();
        selected.sort_by(|a, b| a.0.as_bytes().cmp(b.0.as_bytes()));
        selected.truncate(usize::from(request.limit) + 1);
        request.finish(selected.into_iter().map(|(_, r)| r).collect())
    }
}

fn scope_filter(scope: &str) -> RowValues {
    let mut values = RowValues::new();
    values.insert("scope", RowValue::String(scope.into()));
    values
}

fn candidate(index: usize, scope: &str, generation: u64) -> ScanCandidate {
    ScanCandidate {
        id: format!("candidate-{index:03}"),
        scope: scope.into(),
        source: if index % 2 == 0 {
            Some("storage".into())
        } else {
            None
        },
        enabled: index % 2 == 0,
        generation,
    }
}

#[test]
fn keyset_pages_follow_cursor_scope_and_row_versions() {
    let mut store = Store { rows: Vec::new() };
    for index in 0..230 {
        store.upsert(candidate(
            index,
            if index < 205 { "repo" } else { "foreign" },
            1,
        ));
    }
    let mut cursor = None;
    let mut ids = Vec::new();
    loop {
        let page = store
            .scan(
                ReadModelScanRequest::new::<ScanCandidate>(scope_filter("repo"), 100, cursor)
                    .unwrap(),
            )
            .unwrap();
        assert!(page.rows.len() <= 100);
        assert!(page.rows.iter().all(|r| r.version == 1));
        ids.extend(
            page.typed::<ScanCandidate>()
                .unwrap()
                .into_iter()
                .map(|r| r.data.id),
        );
        cursor = page.next;
        if cursor.is_none() {
            break;
        }
    }
    assert_eq!(
        ids,
        (0..205)
            .map(|i| format!("candidate-{i:03}"))
            .collect::<Vec<_>>()
    );
    let first = store
        .scan(ReadModelScanRequest::new::<ScanCandidate>(scope_filter("repo"), 100, None).unwrap())
        .unwrap();
    let cursor = first.next.unwrap();
    assert_eq!(cursor.after(), "candidate-099");
    assert!(ReadModelScanRequest::new::<ScanCandidate>(
        scope_filter("foreign"),
        100,
        Some(cursor.clone())
    )
    .is_err());
    let mut changed = candidate(100, "repo", 2);
    changed.source = None;
    changed.enabled = false;
    store.upsert(changed);
    store.upsert(ScanCandidate {
        id: "candidate-099-new".into(),
        scope: "repo".into(),
        source: None,
        enabled: false,
        generation: 2,
    });
    let second = store
        .scan(ReadModelScanRequest::new::<ScanCandidate>(scope_filter("repo"), 2, Some(cursor)).unwrap())
        .unwrap();
    let rows = second.typed::<ScanCandidate>().unwrap();
    assert_eq!(rows[0].data.id, "candidate-099-new");
    assert_eq!(rows[1].data.id, "candidate-100");
    assert_eq!(rows[1].version, 2);
    let mut null = scope_filter("repo");
    null.insert("source", RowValue::Null);
    null.insert("generation", RowValue::U64(2));
    let page = store
        .scan(ReadModelScanRequest::new::<ScanCandidate>(null, 100, None).unwrap())
        .unwrap();
    assert_eq!(page.rows.len(), 2);
    assert!(page.next.is_none());
    let empty = store
        .scan(ReadModelScanRequest::new::<ScanCandidate>(scope_filter("absent"), 100, None).unwrap())
        .unwrap();
    assert!(empty.rows.is_empty());
    assert!(empty.next.is_none());
}

#[test]
fn limits_and_mismatched_filters_are_refused() {
    for limit in [0, 101, u16::MAX] {
        assert!(matches!(
            ReadModelScanRequest::new::<ScanCandidate>(scope_filter("repo"), limit, None),
            Err(TableStoreError::Scan(ScanRejection::LimitOrFilterCount))
        ));
    }
    for limit in [1, 100] {
        assert!(ReadModelScanRequest::new::<ScanCandidate>(scope_filter("repo"), limit, None).is_ok());
    }
    let cases = [
        ("missing", RowValue::String("x".into()), ScanRejection::UnknownFilterColumn),
        ("generation", RowValue::String("1".into()), ScanRejection::MismatchedFilter),
        ("scope", RowValue::Null, ScanRejection::MismatchedFilter),
        ("generation", RowValue::U64(u64::MAX), ScanRejection::MismatchedFilter),
        ("enabled", RowValue::I64(1), ScanRejection::MismatchedFilter),
        ("generation", RowValue::I64(-1), ScanRejection::MismatchedFilter),
    ];
    for (name, value, expected) in cases {
        let mut bad = RowValues::new();
        bad.insert(name, value);
        match ReadModelScanRequest::new::<ScanCandidate>(bad, 1, None) {
            Err(TableStoreError::Scan(rejection)) => assert_eq!(rejection, expected),
            other => panic!("unexpected {other:?}"),
        }
    }
    let mut ok = RowValues::new();
    ok.insert("generation", RowValue::U64(i64::MAX as u64));
    ok.insert("enabled", RowValue::Bool(true));
    ok.insert("source", RowValue::Null);
    assert!(ReadModelScanRequest::new::<ScanCandidate>(ok, 1, None).is_ok());
    let mut long = RowValues::new();
    long.insert("scope", RowValue::String("y".repeat(4097)));
    assert!(ReadModelScanRequest::new::<ScanCandidate>(long, 1, None).is_err());
    let mut nul = RowValues::new();
    nul.insert("scope", RowValue::String("a\0b".into()));
    assert!(ReadModelScanRequest::new::<ScanCandidate>(nul, 1, None).is_err());
    let mut many = RowValues::new();
    for i in 0..17 {
        many.insert(&format!("f{i}"), RowValue::Null);
    }
    assert!(matches!(
        ReadModelScanRequest::new::<ScanCandidate>(many, 1, None),
        Err(TableStoreError::Scan(ScanRejection::LimitOrFilterCount))
    ));
}

#[test]
fn schema_errors_come_before_scan_rules() {
    let mut bad = request();
    bad.schema.columns.push(TableColumn::new("id", "other", ColumnType::Text));
    assert!(matches!(
        bad.validate(),
        Err(TableStoreError::Schema(SchemaError::DuplicateColumn))
    ));
    let mut bad = request();
    bad.schema.primary_key = PrimaryKey::new(["nope"]);
    assert!(matches!(
        bad.validate(),
        Err(TableStoreError::Schema(SchemaError::UnknownPrimaryKeyColumn))
    ));
    let mut bad = request();
    bad.schema.table_name = String::new();
    assert!(matches!(
        bad.validate(),
        Err(TableStoreError::Schema(SchemaError::EmptyName))
    ));
    let mut bad = request();
    bad.schema.columns[0].column_type = ColumnType::Integer;
    assert!(matches!(
        bad.validate(),
        Err(TableStoreError::Scan(ScanRejection::PrimaryKeyNotText))
    ));
}

#[test]
fn matching_compares_signed_and_unsigned_by_value() {
    let mut request = request();
    request.equals.insert("n", RowValue::U64(7));
    let mut row = RowValues::new();
    row.insert("n", RowValue::I64(7));
    assert!(request.matches(&row));
    row.insert("n", RowValue::I64(-7));
    assert!(!request.matches(&row));
    row.insert("n", RowValue::U64(7));
    assert!(request.matches(&row));
    let mut request2 = self::request();
    request2.equals.insert("n", RowValue::I64(-1));
    row.insert("n", RowValue::U64(u64::MAX));
    assert!(!request2.matches(&row));
    assert!(!request2.matches(&RowValues::new()));
    assert!(self::request().matches(&RowValues::new()));
}

fn keyed(id: &str) -> Versioned<RowValues> {
    let mut row = RowValues::new();
    row.insert("id", RowValue::String(id.into()));
    Versioned { data: row, version: 3 }
}

#[test]
fn finish_keeps_limit_rows_and_continues_after_last_key() {
    let mut request = request();
    request.limit = 2;
    let page = request
        .finish(vec![keyed("a"), keyed("b"), keyed("c")])
        .unwrap();
    assert_eq!(page.rows.len(), 2);
    assert_eq!(page.next.as_ref().unwrap().after(), "b");
    let page = request.finish(vec![keyed("a"), keyed("b")]).unwrap();
    assert!(page.next.is_none());
    let mut unkeyed = RowValues::new();
    unkeyed.insert("id", RowValue::I64(1));
    let rows = vec![
        keyed("a"),
        Versioned {
            data: unkeyed,
            version: 1,
        },
        keyed("c"),
    ];
    assert!(matches!(
        request.finish(rows),
        Err(TableStoreError::Scan(ScanRejection::InvalidPageKey))
    ));
    let rows = vec![keyed("a"), keyed(&"k".repeat(4097)), keyed("z")];
    assert!(matches!(
        request.finish(rows),
        Err(TableStoreError::Scan(ScanRejection::PageKeyTooLong))
    ));
}

#[test]
fn typed_refuses_pages_of_another_model() {
    let page = request().finish(vec![keyed("a")]).unwrap();
    assert!(matches!(
        page.typed::<ScanCandidate>(),
        Err(TableStoreError::Scan(ScanRejection::OtherModel))
    ));
}

#[test]
fn typed_reports_the_first_undecodable_row() {
    let mut request = ReadModelScanRequest::new::<ScanCandidate>(RowValues::new(), 10, None).unwrap();
    request.limit = 10;
    let good = to_row(&candidate(1, "repo", 1));
    let mut bad = good.clone();
    bad.insert("enabled", RowValue::String("yes".into()));
    let page = request
        .finish(vec![
            Versioned { data: good.clone(), version: 1 },
            Versioned { data: bad, version: 2 },
        ])
        .unwrap();
    match page.typed::<ScanCandidate>() {
        Err(TableStoreError::Decode(field)) => assert_eq!(field, "enabled"),
        other => panic!("unexpected {other:?}"),
    }
    let page = request
        .finish(vec![Versioned { data: good, version: 9 }])
        .unwrap();
    let typed = page.typed::<ScanCandidate>().unwrap();
    assert_eq!(typed[0].version, 9);
    assert_eq!(typed[0].data, candidate(1, "repo", 1));
}

#[test]
fn row_values_insert_replaces_and_scopes_ignore_order() {
    let mut a = RowValues::new();
    assert_eq!(a.len(), 0);
    assert!(a.insert("x", RowValue::I64(1)).is_none());
    assert!(matches!(a.insert("x", RowValue::I64(2)), Some(RowValue::I64(1))));
    a.insert("y", RowValue::Bool(true));
    assert_eq!(a.len(), 2);
    let mut b = RowValues::new();
    b.insert("y", RowValue::Bool(true));
    b.insert("x", RowValue::I64(2));
    assert!(a.same_scope_as(&b));
    assert_eq!(b.name_at(0), "x");
    assert_eq!(b.name_at(1), "y");
    b.insert("x", RowValue::U64(2));
    assert!(!a.same_scope_as(&b));
}

use distributed::read_model::sql::{check_registered_schema, scan_query, SqlBackend, SqlPiece};

fn render(pieces: &[SqlPiece]) -> String {
    let mut out = String::new();
    for p in pieces {
        match p {
            SqlPiece::Text(t) => out.push_str(t),
            SqlPiece::Bind(v) => out.push_str(&format!("<{v:?}>")),
            SqlPiece::Limit(n) => out.push_str(&format!("<limit {n}>")),
        }
    }
    out
}

#[test]
fn scan_sql_binds_filters_orders_bytewise_and_reads_one_extra_row() {
    let mut null = scope_filter("repo");
    null.insert("source", RowValue::Null);
    null.insert("generation", RowValue::U64(2));
    let request = ReadModelScanRequest::new::<ScanCandidate>(null, 100, None).unwrap();
    assert_eq!(
        render(&scan_query(&request, SqlBackend::Postgres).unwrap()),
        " WHERE 1=1 AND \"generation\" = <U64(2)> AND \"scope\" COLLATE \"C\" = <String(\"repo\")> AND \"source\" COLLATE \"C\" IS NULL ORDER BY \"id\" COLLATE \"C\" ASC LIMIT <limit 101>"
    );
    let mut cursor_request = request.clone();
    cursor_request.equals = scope_filter("repo");
    cursor_request.cursor = Some(ReadModelScanCursor {
        schema: candidate_schema(),
        equals: scope_filter("repo"),
        after: "candidate-099".into(),
    });
    cursor_request.limit = 2;
    assert_eq!(
        render(&scan_query(&cursor_request, SqlBackend::Sqlite).unwrap()),
        " WHERE 1=1 AND \"scope\" COLLATE BINARY = <String(\"repo\")> AND \"id\" COLLATE BINARY > <String(\"candidate-099\")> ORDER BY \"id\" COLLATE BINARY ASC LIMIT <limit 3>"
    );
    let mut bad = cursor_request.clone();
    bad.limit = 0;
    assert!(matches!(
        scan_query(&bad, SqlBackend::Sqlite),
        Err(TableStoreError::Scan(ScanRejection::LimitOrFilterCount))
    ));
}

#[test]
fn identifiers_are_quoted_with_doubled_quotes() {
    let mut schema = candidate_schema();
    schema.columns.push(TableColumn::new("we\"ird", "weird", ColumnType::Boolean));
    let mut f = RowValues::new();
    f.insert("we\"ird", RowValue::Bool(true));
    let request = ReadModelScanRequest::for_schema(schema, f, 5, None).unwrap();
    assert_eq!(
        render(&scan_query(&request, SqlBackend::Sqlite).unwrap()),
        " WHERE 1=1 AND \"we\"\"ird\" = <Bool(true)> ORDER BY \"id\" COLLATE BINARY ASC LIMIT <limit 6>"
    );
}

#[test]
fn scans_must_use_the_registered_schema() {
    let request = ReadModelScanRequest::new::<ScanCandidate>(scope_filter("repo"), 10, None).unwrap();
    assert!(check_registered_schema(&request, None).is_ok());
    assert!(check_registered_schema(&request, Some(&candidate_schema())).is_ok());
    let mut other = candidate_schema();
    other.table_name = "renamed".into();
    assert!(matches!(
        check_registered_schema(&request, Some(&other)),
        Err(TableStoreError::Scan(ScanRejection::UnregisteredSchema))
    ));
}

#[test]
fn scan_refusals_are_worded_as_the_store_reports_them() {
    assert_eq!(
        ScanRejection::CursorScope.message(),
        "read-model keyset scan: cursor does not match schema/filter scope"
    );
    assert_eq!(
        ScanRejection::LimitOrFilterCount.message(),
        "read-model keyset scan: limit must be 1..=100; at most 16 equality predicates"
    );
    assert_eq!(ScanRejection::OtherModel.message(), "scan page belongs to another model");
}
