use distributed::projection_contract::{
    compact_tables, decimal_len, intern_sorted, is_canonical, plan_expansion, ArmRefs,
    ExpandError,
};
use distributed::text::text_less;

fn strings(v: &[&str]) -> Vec<String> {
    v.iter().map(|s| s.to_string()).collect()
}

/// A history program: 32 arms over 16 event names,
/// two state versions, one shared operation list.
fn history_arms() -> (Vec<String>, Vec<String>) {
    let operations = "[{\"kind\":\"upsert\",\"operation_id\":\"save\"}]".to_string();
    let ops = (0..32).map(|_| operations.clone()).collect();
    let schemas = (0..32)
        .map(|index| format!("state:v{}:{}", index / 16 + 1, "fields;".repeat(100)))
        .collect();
    (ops, schemas)
}

#[test]
fn history_program_shares_one_operation_list_and_two_schemas() {
    let (ops, schemas) = history_arms();
    let c = compact_tables(&ops, &schemas);
    assert_eq!(c.operation_keys.len(), 1);
    assert_eq!(c.body_schemas.len(), 2);
    assert_eq!(c.refs.len(), 32);
    assert_eq!(c.operation_sources, vec![31]);
    for (i, (o, s)) in c.refs.iter().enumerate() {
        assert_eq!(*o, 0);
        assert_eq!(*s, i / 16);
        assert_eq!(c.operation_keys[*o], ops[i]);
        assert_eq!(c.body_schemas[*s], schemas[i]);
    }
    assert!(is_canonical(&c.operation_keys, &c.body_schemas, &c.refs));
}

#[test]
fn tables_are_sorted_by_bytes_and_refs_point_at_each_arms_material() {
    let ops = strings(&["b", "a", "b", "é", "z"]);
    let schemas = strings(&["s2", "s1", "s1", "s2", "s0"]);
    let c = compact_tables(&ops, &schemas);
    assert_eq!(c.operation_keys, strings(&["a", "b", "z", "é"]));
    assert_eq!(c.body_schemas, strings(&["s0", "s1", "s2"]));
    assert_eq!(c.refs, vec![(1, 2), (0, 1), (1, 1), (3, 2), (2, 0)]);
    assert_eq!(c.operation_sources, vec![1, 2, 4, 3]);
    assert!(is_canonical(&c.operation_keys, &c.body_schemas, &c.refs));
    assert_eq!(intern_sorted(&strings(&[])), Vec::<String>::new());
    assert!(text_less("ab", "b"));
    assert!(text_less("a", "ab"));
    assert!(!text_less("ab", "ab"));
    assert!(text_less("z", "é"));
}

#[test]
fn noncanonical_tables_and_refs_are_refused() {
    let ops = strings(&["a", "b"]);
    let schemas = strings(&["s0", "s1"]);
    assert!(is_canonical(&ops, &schemas, &vec![(0, 0), (1, 1)]));
    assert!(!is_canonical(&ops, &schemas, &vec![(0, 0), (0, 1)]));
    assert!(!is_canonical(&strings(&["b", "a"]), &schemas, &vec![(1, 0), (0, 1)]));
    assert!(!is_canonical(&strings(&["a", "a"]), &schemas, &vec![(0, 0), (1, 1)]));
    assert!(!is_canonical(&ops, &strings(&["s1", "s0"]), &vec![(0, 1), (1, 0)]));
}

fn arm(o: Option<u64>, s: Option<u64>) -> ArmRefs {
    ArmRefs {
        operations_ref: o,
        body_schema_ref: s,
        has_inline: false,
    }
}

#[test]
fn expansion_resolves_refs_in_order_and_checks_bounds() {
    let lens = vec![10usize];
    let slens = vec![5usize, 6];
    let arms = vec![arm(Some(0), Some(1)), arm(Some(0), Some(0))];
    assert_eq!(plan_expansion(100, &arms, &lens, &slens).unwrap(), vec![(0, 1), (0, 0)]);
    let cases = [
        (arm(None, Some(0)), ExpandError::InvalidOperationsReference),
        (arm(Some(0), None), ExpandError::InvalidBodySchemaReference),
        (arm(Some(999999), Some(0)), ExpandError::OperationsReferenceOutOfBounds),
        (arm(Some(0), Some(999)), ExpandError::BodySchemaReferenceOutOfBounds),
        (
            ArmRefs {
                operations_ref: Some(0),
                body_schema_ref: Some(0),
                has_inline: true,
            },
            ExpandError::ReferenceAndInlineMaterial,
        ),
    ];
    for (bad, expected) in cases {
        let arms = vec![arm(Some(0), Some(0)), bad];
        assert_eq!(plan_expansion(100, &arms, &lens, &slens), Err(expected));
    }
}

#[test]
fn expansion_is_bounded_before_copying() {
    let arms: Vec<ArmRefs> = (0..32).map(|_| arm(Some(0), Some(0))).collect();
    let big = vec![40_010usize];
    assert_eq!(
        plan_expansion(20_000, &arms, &big, &vec![700]),
        Err(ExpandError::ExpandedProgramExceedsBudget)
    );
    let small = vec![1_000usize];
    assert!(plan_expansion(20_000, &arms, &small, &vec![700]).is_ok());
    // Exactly at the budget is accepted; one byte more is refused.
    let one = vec![arm(Some(0), Some(0))];
    let exact = 1_048_576 - 100 - 3 + 1 + 1 + 8;
    assert!(plan_expansion(100, &one, &vec![exact], &vec![3]).is_ok());
    assert_eq!(
        plan_expansion(100, &one, &vec![exact + 1], &vec![3]),
        Err(ExpandError::ExpandedProgramExceedsBudget)
    );
    assert_eq!(decimal_len(0), 1);
    assert_eq!(decimal_len(999_999), 6);
    assert_eq!(decimal_len(u64::MAX), 20);
}

use distributed::json::{json_eq, Json};
use distributed::projection_contract::{
    compact_projection_program_contract, expand_projection_program_contract, json_len,
    ProgramError, MAX_MANIFEST_JSON_BYTES,
};

const ENCODING: &str = "shared_projection_program_v1";

fn s(t: &str) -> Json {
    Json::Str(t.to_string())
}

fn n(v: i64) -> Json {
    Json::Number(v.to_string())
}

/// An object with its keys in byte order, as a serde_json map holds them.
fn obj(mut entries: Vec<(&str, Json)>) -> Json {
    entries.sort_by(|a, b| a.0.cmp(b.0));
    Json::Object(entries.into_iter().map(|(k, v)| (k.to_string(), v)).collect())
}

fn member<'a>(v: &'a Json, k: &str) -> &'a Json {
    match v {
        Json::Object(entries) => &entries.iter().find(|(key, _)| key == k).unwrap().1,
        _ => panic!("not an object"),
    }
}

fn member_mut<'a>(v: &'a mut Json, k: &str) -> &'a mut Json {
    match v {
        Json::Object(entries) => &mut entries.iter_mut().find(|(key, _)| key == k).unwrap().1,
        _ => panic!("not an object"),
    }
}

fn items(v: &Json) -> &Vec<Json> {
    match v {
        Json::Array(a) => a,
        _ => panic!("not an array"),
    }
}

fn items_mut(v: &mut Json) -> &mut Vec<Json> {
    match v {
        Json::Array(a) => a,
        _ => panic!("not an array"),
    }
}

fn history_program() -> Json {
    let fields: Vec<Json> = (0..40)
        .map(|index| {
            obj(vec![
                ("name", s(&format!("field_{index}"))),
                (
                    "expression",
                    obj(vec![
                        ("kind", s("body_path")),
                        ("value_type", s("string")),
                        ("path", Json::Array(vec![s(&format!("field_{index}"))])),
                    ]),
                ),
            ])
        })
        .collect();
    let operations = || {
        Json::Array(vec![obj(vec![
            ("operation_id", s("save")),
            ("staging_ordinal", n(0)),
            ("kind", s("upsert")),
            ("model", s("Repository")),
            ("storage", s("repositories")),
            ("fields", Json::Array(fields.iter().map(|f| distributed::json::duplicate(f)).collect())),
        ])])
    };
    let arms: Vec<Json> = (0..32)
        .map(|index: i64| {
            obj(vec![
                ("arm_id", s(&format!("fact-{}", index % 16))),
                (
                    "selector",
                    obj(vec![
                        ("occurrence_version", n(1)),
                        ("event_name", s(&format!("repository.fact_{}", index % 16))),
                        ("event_version", n(index / 16 + 1)),
                        ("body_kind", s("state")),
                        ("body_type_name", s("RepositoryState")),
                        ("body_version", n(index / 16 + 1)),
                        (
                            "body_schema",
                            s(&format!("state:v{}:{}", index / 16 + 1, "fields;".repeat(100))),
                        ),
                        ("body_fingerprint", s(&format!("sha256:{:064x}", index / 16 + 1))),
                        ("body_codec", s("json")),
                        ("body_codec_version", n(1)),
                    ]),
                ),
                ("operations", operations()),
            ])
        })
        .collect();
    obj(vec![
        ("ir_version", n(1)),
        ("name", s("repository")),
        ("version", n(2)),
        ("source_snapshots", Json::Bool(true)),
        ("arms", Json::Array(arms)),
    ])
}

#[test]
fn shared_program_round_trip_preserves_all_current_and_retained_selectors() {
    let original = history_program();
    let compact =
        compact_projection_program_contract(distributed::json::duplicate(&original)).unwrap();
    assert!(json_eq(member(&compact, "encoding"), &s(ENCODING)));
    assert_eq!(items(member(&compact, "operation_sets")).len(), 1);
    assert_eq!(items(member(&compact, "body_schemas")).len(), 2);
    assert_eq!(items(member(member(&compact, "program"), "arms")).len(), 32);
    assert!(json_len(&compact).unwrap() * 4 < json_len(&original).unwrap());
    assert!(json_eq(
        &expand_projection_program_contract(&compact).unwrap(),
        &original
    ));
    assert!(json_eq(
        &compact_projection_program_contract(distributed::json::duplicate(&original)).unwrap(),
        &compact
    ));
    assert!(json_eq(
        &expand_projection_program_contract(&original).unwrap(),
        &original
    ));
}

#[test]
fn single_arm_keeps_existing_expanded_encoding() {
    let mut original = history_program();
    items_mut(member_mut(&mut original, "arms")).truncate(1);
    let compact =
        compact_projection_program_contract(distributed::json::duplicate(&original)).unwrap();
    assert!(json_eq(&compact, &original));
}

#[test]
fn shared_program_rejects_invalid_ambiguous_and_noncanonical_references() {
    let compact = compact_projection_program_contract(history_program()).unwrap();
    let dup = |v: &Json| distributed::json::duplicate(v);
    let mut variants = Vec::new();
    for bad_ref in [
        Json::Number("-1".to_string()),
        Json::Number("0.5".to_string()),
        s("0"),
        Json::Null,
        n(999999),
    ] {
        let mut invalid = dup(&compact);
        let arm = &mut items_mut(member_mut(member_mut(&mut invalid, "program"), "arms"))[0];
        *member_mut(arm, "operations_ref") = bad_ref;
        variants.push(invalid);
    }
    let mut invalid = dup(&compact);
    let arm = &mut items_mut(member_mut(member_mut(&mut invalid, "program"), "arms"))[0];
    *member_mut(member_mut(arm, "selector"), "body_schema_ref") = n(999);
    variants.push(invalid);
    let mut invalid = dup(&compact);
    let arm = &mut items_mut(member_mut(member_mut(&mut invalid, "program"), "arms"))[0];
    if let Json::Object(entries) = arm {
        entries.push(("operations".to_string(), Json::Array(vec![])));
        entries.sort_by(|a, b| a.0.cmp(&b.0));
    }
    variants.push(invalid);
    let mut invalid = dup(&compact);
    items_mut(member_mut(&mut invalid, "operation_sets")).push(Json::Array(vec![]));
    variants.push(invalid);
    let mut invalid = dup(&compact);
    items_mut(member_mut(&mut invalid, "body_schemas")).reverse();
    for arm in items_mut(member_mut(member_mut(&mut invalid, "program"), "arms")) {
        let r = member_mut(member_mut(arm, "selector"), "body_schema_ref");
        let flipped = match r {
            Json::Number(t) => 1 - t.parse::<i64>().unwrap(),
            _ => panic!("not a number"),
        };
        *r = n(flipped);
    }
    variants.push(invalid);
    let mut invalid = dup(&compact);
    *member_mut(&mut invalid, "encoding") = s("future_encoding");
    variants.push(invalid);
    let mut invalid = compact;
    if let Json::Object(entries) = &mut invalid {
        entries.push(("extra".to_string(), Json::Bool(true)));
    }
    variants.push(invalid);
    for invalid in variants {
        assert!(expand_projection_program_contract(&invalid).is_err());
    }
}

#[test]
fn shared_program_rejects_expansion_beyond_existing_opaque_budget() {
    let mut compact = compact_projection_program_contract(history_program()).unwrap();
    items_mut(member_mut(&mut compact, "operation_sets"))[0] =
        Json::Array(vec![obj(vec![("fields", s(&"x".repeat(40_000)))])]);
    assert!(json_len(&compact).unwrap() < MAX_MANIFEST_JSON_BYTES);
    let error = expand_projection_program_contract(&compact).unwrap_err();
    assert!(error.reason().contains("expanded program exceeds"));
    assert_eq!(
        error,
        ProgramError::Expand(ExpandError::ExpandedProgramExceedsBudget)
    );
}

#[test]
fn program_refusals_name_the_first_missing_material() {
    assert_eq!(
        compact_projection_program_contract(obj(vec![("name", s("x"))])).unwrap_err(),
        ProgramError::MissingArms
    );
    let no_ops = obj(vec![(
        "arms",
        Json::Array(vec![obj(vec![("selector", obj(vec![("body_schema", s("a"))]))])]),
    )]);
    assert_eq!(
        compact_projection_program_contract(no_ops).unwrap_err(),
        ProgramError::MissingOperations
    );
    let no_schema = obj(vec![(
        "arms",
        Json::Array(vec![obj(vec![("operations", Json::Array(vec![]))])]),
    )]);
    assert_eq!(
        compact_projection_program_contract(no_schema).unwrap_err(),
        ProgramError::MissingBodySchema
    );
    let big = s(&"y".repeat(MAX_MANIFEST_JSON_BYTES));
    assert_eq!(
        compact_projection_program_contract(big).unwrap_err(),
        ProgramError::ExceedsBudget
    );
    let wrapper = obj(vec![("encoding", s(ENCODING))]);
    assert_eq!(
        expand_projection_program_contract(&wrapper).unwrap_err(),
        ProgramError::MalformedShared
    );
}

#[test]
fn json_text_escapes_like_serde_json() {
    let v = obj(vec![
        ("a", s("q\"b\\\n\u{1}é")),
        ("b", Json::Array(vec![Json::Null, Json::Bool(false), n(-3)])),
    ]);
    let text = distributed::json::json_string(&v);
    let expected = "{\"a\":\"q\\\"b\\\\\\n\\u0001é\",\"b\":[null,false,-3]}";
    assert_eq!(text, expected);
    assert_eq!(json_len(&v), Some(expected.len()));
}

#[test]
fn round_trip_does_not_hold_for_arms_that_already_hold_a_reference() {
    let mut original = history_program();
    for arm in items_mut(member_mut(&mut original, "arms")) {
        if let Json::Object(entries) = arm {
            entries.push(("operations_ref".to_string(), n(7)));
            entries.sort_by(|a, b| a.0.cmp(&b.0));
        }
    }
    let compact =
        compact_projection_program_contract(distributed::json::duplicate(&original)).unwrap();
    match expand_projection_program_contract(&compact) {
        Ok(expanded) => assert!(!json_eq(&expanded, &original)),
        Err(_) => {}
    }
}
