//! The SQL text and binds of a bounded keyset scan, for relational stores.
//! Identifiers are quoted, values are always bound, and text compares
//! bytewise so key order matches Rust on every database locale.
use vstd::prelude::*;
use vstd::string::*;

use super::scan::{request_rejection, ReadModelScanRequest};
use crate::table::{
    find_column, find_column_index, ColumnType, ColumnView, RowValue, RowValueView,
    ScanRejection, TableSchema, TableStoreError,
};
use crate::text::push_str;

verus! {

/// The relational database a scan runs on.
#[derive(Clone, Copy, Debug, PartialEq, Eq, Structural)]
pub enum SqlBackend {
    Postgres,
    Sqlite,
}

/// Bytewise text collation of each backend.
pub open spec fn collation(b: SqlBackend) -> Seq<char> {
    match b {
        SqlBackend::Postgres => " COLLATE \"C\""@,
        SqlBackend::Sqlite => " COLLATE BINARY"@,
    }
}

/// The characters of `s` with each double quote doubled.
pub open spec fn escape_quotes(s: Seq<char>) -> Seq<char>
    decreases s.len(),
{
    if s.len() == 0 {
        Seq::<char>::empty()
    } else {
        (if s[0] == '"' {
            seq!['"', '"']
        } else {
            seq![s[0]]
        }) + escape_quotes(s.drop_first())
    }
}

/// A quoted SQL identifier.
pub open spec fn quoted(name: Seq<char>) -> Seq<char> {
    seq!['"'] + escape_quotes(name) + seq!['"']
}

/// One piece of a scan query: literal SQL text, a bound filter value, or the
/// bound row limit.
#[derive(Debug)]
pub enum SqlPiece {
    Text(String),
    Bind(RowValue),
    Limit(i64),
}

pub enum SqlPieceView {
    Text(Seq<char>),
    Bind(RowValueView),
    Limit(i64),
}

impl View for SqlPiece {
    type V = SqlPieceView;

    open spec fn view(&self) -> SqlPieceView {
        match self {
            SqlPiece::Text(s) => SqlPieceView::Text(s@),
            SqlPiece::Bind(v) => SqlPieceView::Bind(v@),
            SqlPiece::Limit(n) => SqlPieceView::Limit(*n),
        }
    }
}

pub open spec fn pieces_view(p: Seq<SqlPiece>) -> Seq<SqlPieceView> {
    p.map_values(|x: SqlPiece| x@)
}

/// The pieces of one equality filter.
pub open spec fn filter_pieces(
    cols: Seq<ColumnView>,
    e: (Seq<char>, RowValueView),
    b: SqlBackend,
) -> Seq<SqlPieceView> {
    let head = " AND "@ + quoted(e.0) + if find_column(cols, e.0)->0.column_type == ColumnType::Text {
        collation(b)
    } else {
        Seq::<char>::empty()
    };
    if e.1 is Null {
        seq![SqlPieceView::Text(head + " IS NULL"@)]
    } else {
        seq![SqlPieceView::Text(head + " = "@), SqlPieceView::Bind(e.1)]
    }
}

/// The pieces of the first `n` filters, in scope order.
pub open spec fn filters_pieces(
    cols: Seq<ColumnView>,
    es: Seq<(Seq<char>, RowValueView)>,
    b: SqlBackend,
    n: nat,
) -> Seq<SqlPieceView>
    decreases n,
{
    if n == 0 {
        Seq::<SqlPieceView>::empty()
    } else {
        filters_pieces(cols, es, b, (n - 1) as nat) + filter_pieces(cols, es[n - 1], b)
    }
}

/// The query after the row selection: every filter, the continuation after
/// the cursor key, bytewise key order, and one row beyond the limit so the
/// page knows whether more rows follow.
pub open spec fn scan_query_spec(
    r: super::scan::ScanRequestView,
    b: SqlBackend,
) -> Seq<SqlPieceView> {
    let key = quoted(r.schema.primary_key[0]) + collation(b);
    seq![SqlPieceView::Text(" WHERE 1=1"@)] + filters_pieces(
        r.schema.columns,
        r.equals,
        b,
        r.equals.len(),
    ) + match r.cursor {
        Some(c) => seq![
            SqlPieceView::Text(" AND "@ + key + " > "@),
            SqlPieceView::Bind(RowValueView::String(c.after)),
        ],
        None => Seq::<SqlPieceView>::empty(),
    } + seq![
        SqlPieceView::Text(" ORDER BY "@ + key + " ASC LIMIT "@),
        SqlPieceView::Limit((r.limit + 1) as i64),
    ]
}

pub fn push_collation(s: &mut String, b: SqlBackend)
    ensures
        final(s)@ == old(s)@ + collation(b),
{
    match b {
        SqlBackend::Postgres => push_str(s, " COLLATE \"C\""),
        SqlBackend::Sqlite => push_str(s, " COLLATE BINARY"),
    }
}

/// Append `name` as a quoted identifier.
pub fn push_quoted(s: &mut String, name: &str)
    ensures
        final(s)@ == old(s)@ + quoted(name@),
{
    proof {
        reveal_strlit("\"");
        reveal_strlit("\"\"");
    }
    let ghost start = s@;
    push_str(s, "\"");
    let n = name.unicode_len();
    let mut i: usize = 0;
    while i < n
        invariant
            n == name@.len(),
            i <= n,
            s@ == start + seq!['"'] + escape_quotes(name@.take(i as int)),
        decreases n - i,
    {
        let c = name.get_char(i);
        let ghost before = name@.take(i as int);
        let ghost prev = s@;
        proof {
            reveal_strlit("\"\"");
        }
        if c == '"' {
            push_str(s, "\"\"");
        } else {
            let one = name.substring_char(i, i + 1);
            assert(one@ =~= seq![c]);
            push_str(s, one);
        }
        proof {
            lemma_escape_quotes_push(before, c);
            assert(name@.take(i + 1) =~= before.push(c));
            let h = if c == '"' {
                seq!['"', '"']
            } else {
                seq![c]
            };
            assert(s@ == prev + h);
            assert(s@ =~= start + seq!['"'] + escape_quotes(before) + h);
            assert(s@ =~= start + seq!['"'] + escape_quotes(name@.take(i + 1)));
        }
        i = i + 1;
    }
    push_str(s, "\"");
    assert(name@.take(n as int) =~= name@);
}

pub proof fn lemma_escape_quotes_push(s: Seq<char>, c: char)
    ensures
        escape_quotes(s.push(c)) == escape_quotes(s) + (if c == '"' {
            seq!['"', '"']
        } else {
            seq![c]
        }),
    decreases s.len(),
{
    let h = if c == '"' {
        seq!['"', '"']
    } else {
        seq![c]
    };
    if s.len() == 0 {
        assert(s.push(c).drop_first() =~= Seq::<char>::empty());
        assert(escape_quotes(Seq::<char>::empty()) =~= Seq::<char>::empty());
        assert(s.push(c)[0] == c);
        assert(escape_quotes(s.push(c)) =~= h + escape_quotes(s.push(c).drop_first()));
        assert(escape_quotes(s) =~= Seq::<char>::empty());
        assert(escape_quotes(s.push(c)) =~= escape_quotes(s) + h);
    } else {
        assert(s.push(c).drop_first() =~= s.drop_first().push(c));
        lemma_escape_quotes_push(s.drop_first(), c);
        let h0 = if s[0] == '"' {
            seq!['"', '"']
        } else {
            seq![s[0]]
        };
        assert(s.push(c)[0] == s[0]);
        assert(escape_quotes(s.push(c)) == h0 + escape_quotes(s.drop_first().push(c)));
        assert(escape_quotes(s) == h0 + escape_quotes(s.drop_first()));
        assert(escape_quotes(s.push(c)) =~= escape_quotes(s) + h);
    }
}

/// The SQL after the row selection of an accepted scan request, with its
/// binds. A refused request gives the refusal before any SQL is built.
pub fn scan_query(request: &ReadModelScanRequest, backend: SqlBackend) -> (r: Result<
    Vec<SqlPiece>,
    TableStoreError,
>)
    ensures
        match request_rejection(request@) {
            Some(e) => r == Err::<Vec<SqlPiece>, TableStoreError>(e),
            None => r is Ok && pieces_view(r->Ok_0@) == scan_query_spec(request@, backend),
        },
{
    match request.validate() {
        Ok(()) => {},
        Err(e) => {
            return Err(e);
        },
    }
    let ghost rv = request@;
    let mut pieces: Vec<SqlPiece> = Vec::new();
    pieces.push(SqlPiece::Text(String::from_str(" WHERE 1=1")));
    let n = request.equals.len();
    let mut k: usize = 0;
    while k < n
        invariant
            rv == request@,
            request_rejection(rv) is None,
            n == rv.equals.len(),
            k <= n,
            pieces_view(pieces@) == seq![SqlPieceView::Text(" WHERE 1=1"@)] + filters_pieces(
                rv.schema.columns,
                rv.equals,
                backend,
                k as nat,
            ),
        decreases n - k,
    {
        let name = request.equals.name_at(k);
        let value = request.equals.value_at(k);
        let ghost before = pieces_view(pieces@);
        proof {
            assert(super::scan::entry_rejection(rv.schema.columns, rv.equals[k as int]) is None) by {
                if super::scan::entry_rejection(rv.schema.columns, rv.equals[k as int]) is Some {
                    let i = choose|i: int| 0 <= i <= k && super::scan::entry_rejection(rv.schema.columns, rv.equals[i]) is Some
                        && forall|j: int| 0 <= j < i ==> super::scan::entry_rejection(rv.schema.columns, #[trigger] rv.equals[j]) is None;
                    assert(super::scan::is_first_bad_filter(rv.schema.columns, rv.equals, i));
                    let c = choose|c: int| super::scan::is_first_bad_filter(rv.schema.columns, rv.equals, c);
                    super::scan::lemma_first_bad_filter_unique(rv.schema.columns, rv.equals, i, c);
                }
            }
        }
        let is_text = match find_column_index(&request.schema.columns, name) {
            Some(c) => request.schema.columns[c].column_type == ColumnType::Text,
            None => false,
        };
        let mut head = String::from_str(" AND ");
        push_quoted(&mut head, name);
        if is_text {
            push_collation(&mut head, backend);
        }
        match value {
            RowValue::Null => {
                push_str(&mut head, " IS NULL");
                pieces.push(SqlPiece::Text(head));
            },
            _ => {
                push_str(&mut head, " = ");
                pieces.push(SqlPiece::Text(head));
                pieces.push(SqlPiece::Bind(value.duplicate()));
            },
        }
        proof {
            assert(pieces_view(pieces@) =~= before + filter_pieces(
                rv.schema.columns,
                rv.equals[k as int],
                backend,
            ));
        }
        k = k + 1;
    }
    let ghost before = pieces_view(pieces@);
    let ghost key = quoted(rv.schema.primary_key[0]) + collation(backend);
    match &request.cursor {
        Some(c) => {
            let mut t = String::from_str(" AND ");
            push_quoted(&mut t, request.key_column());
            push_collation(&mut t, backend);
            push_str(&mut t, " > ");
            assert(t@ =~= " AND "@ + key + " > "@);
            pieces.push(SqlPiece::Text(t));
            pieces.push(SqlPiece::Bind(RowValue::String(c.after.clone())));
            assert(rv.cursor->0.after == c.after@);
            assert(pieces_view(pieces@) =~= before + seq![
                SqlPieceView::Text(" AND "@ + key + " > "@),
                SqlPieceView::Bind(RowValueView::String(rv.cursor->0.after)),
            ]);
        },
        None => {},
    }
    let ghost before2 = pieces_view(pieces@);
    let mut t = String::from_str(" ORDER BY ");
    push_quoted(&mut t, request.key_column());
    push_collation(&mut t, backend);
    push_str(&mut t, " ASC LIMIT ");
    assert(t@ =~= " ORDER BY "@ + key + " ASC LIMIT "@);
    pieces.push(SqlPiece::Text(t));
    pieces.push(SqlPiece::Limit(request.limit as i64 + 1));
    proof {
        assert(pieces_view(pieces@) =~= before2 + seq![
            SqlPieceView::Text(" ORDER BY "@ + key + " ASC LIMIT "@),
            SqlPieceView::Limit((rv.limit + 1) as i64),
        ]);
        let mid = match rv.cursor {
            Some(c) => seq![
                SqlPieceView::Text(" AND "@ + key + " > "@),
                SqlPieceView::Bind(RowValueView::String(c.after)),
            ],
            None => Seq::<SqlPieceView>::empty(),
        };
        assert(pieces_view(pieces@) =~= before + mid + seq![
            SqlPieceView::Text(" ORDER BY "@ + key + " ASC LIMIT "@),
            SqlPieceView::Limit((rv.limit + 1) as i64),
        ]);
        assert(pieces_view(pieces@) =~= scan_query_spec(rv, backend));
    }
    Ok(pieces)
}

/// A scan through a repository that registered a schema for the model:
/// the request must be accepted and use exactly the registered schema.
pub fn check_registered_schema(
    request: &ReadModelScanRequest,
    registered: Option<&TableSchema>,
) -> (r: Result<(), TableStoreError>)
    ensures
        match request_rejection(request@) {
            Some(e) => r == Err::<(), TableStoreError>(e),
            None => match registered {
                Some(s) => if s@ != request@.schema {
                    r == Err::<(), TableStoreError>(
                        TableStoreError::Scan(ScanRejection::UnregisteredSchema),
                    )
                } else {
                    r is Ok
                },
                None => r is Ok,
            },
        },
{
    match request.validate() {
        Ok(()) => {},
        Err(e) => {
            return Err(e);
        },
    }
    match registered {
        Some(s) => {
            if !s.same_as(&request.schema) {
                return Err(TableStoreError::Scan(ScanRejection::UnregisteredSchema));
            }
        },
        None => {},
    }
    Ok(())
}

/// On every backend a scan resumes strictly after its cursor: the query for a
/// request with a cursor ends with the condition that the key column, in
/// bytewise collation, is greater than (never equal to) the cursor's key,
/// bound as text, then the key order and the limit.
pub proof fn lemma_scan_resumes_strictly_after_cursor(
    r: super::scan::ScanRequestView,
    b: SqlBackend,
)
    ensures
        ({
            let q = scan_query_spec(r, b);
            let key = quoted(r.schema.primary_key[0]) + collation(b);
            &&& q.len() >= 3
            &&& q[q.len() - 2] == SqlPieceView::Text(" ORDER BY "@ + key + " ASC LIMIT "@)
            &&& q[q.len() - 1] == SqlPieceView::Limit((r.limit + 1) as i64)
            &&& r.cursor is Some ==> q.len() >= 5 && q[q.len() - 4] == SqlPieceView::Text(
                " AND "@ + key + " > "@,
            ) && q[q.len() - 3] == SqlPieceView::Bind(RowValueView::String(r.cursor->0.after))
        }),
{
    let key = quoted(r.schema.primary_key[0]) + collation(b);
    let head = seq![SqlPieceView::Text(" WHERE 1=1"@)] + filters_pieces(
        r.schema.columns,
        r.equals,
        b,
        r.equals.len(),
    );
    let tail = seq![
        SqlPieceView::Text(" ORDER BY "@ + key + " ASC LIMIT "@),
        SqlPieceView::Limit((r.limit + 1) as i64),
    ];
    match r.cursor {
        Some(c) => {
            let mid = seq![
                SqlPieceView::Text(" AND "@ + key + " > "@),
                SqlPieceView::Bind(RowValueView::String(c.after)),
            ];
            assert(scan_query_spec(r, b) =~= head + mid + tail);
        },
        None => {
            assert(scan_query_spec(r, b) =~= head + Seq::<SqlPieceView>::empty() + tail);
        },
    }
}

} // verus!
