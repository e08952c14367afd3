//! Lossless sharing in application artifacts: identical operation lists and
//! selector body schemas of a modeled projection program are stored once, in
//! canonical tables addressed by zero-based references.
//!
//! The library decides the tables, the references, the expansion budget and
//! canonicity over the texts that identify each arm's operations (their
//! canonical JSON) and its body schema; the JSON plumbing stands around it.
use vstd::prelude::*;
use vstd::string::*;

use vstd::utf8::encode_utf8;

use crate::json::{
    field, keys_sorted, lemma_set_field, lemma_sorted_fields_equal, lemma_without,
    as_index, duplicate, index_number, json_eq, json_string, json_text, member, member_of,
    read_index, set_field, set_member, without, without_member, Json, JsonView,
};
use crate::table::names_view;
use crate::text::{
    decimal, lemma_insert_sorted, lemma_text_lt_irreflexive, lemma_text_lt_total,
    lemma_text_lt_transitive, sorted_position, str_eq, strictly_sorted, text_lt,
};

verus! {

/// Budget of one opaque modeled value, in JSON bytes.
pub const MAX_MANIFEST_JSON_BYTES: usize = 1_048_576;

/// `t` is the canonical table of `keys`: their distinct texts in byte order.
pub open spec fn is_table_of(t: Seq<Seq<char>>, keys: Seq<Seq<char>>) -> bool {
    &&& strictly_sorted(t)
    &&& forall|i: int| 0 <= i < keys.len() ==> t.contains(#[trigger] keys[i])
    &&& forall|j: int| 0 <= j < t.len() ==> keys.contains(#[trigger] t[j])
}

/// Two sorted tables with the same texts are the same table.
pub proof fn lemma_sorted_tables_equal(t1: Seq<Seq<char>>, t2: Seq<Seq<char>>)
    requires
        strictly_sorted(t1),
        strictly_sorted(t2),
        forall|x: Seq<char>| t1.contains(x) <==> t2.contains(x),
    ensures
        t1 == t2,
    decreases t1.len(),
{
    if t1.len() == 0 {
        if t2.len() > 0 {
            assert(t2.contains(t2[0]));
        }
        assert(t1 =~= t2);
    } else {
        assert(t1.contains(t1[0]));
        assert(t2.len() > 0);
        assert(t2.contains(t2[0]));
        let k = choose|k: int| 0 <= k < t2.len() && t2[k] == t1[0];
        let m = choose|m: int| 0 <= m < t1.len() && t1[m] == t2[0];
        if k > 0 {
            assert(text_lt(t2[0], t2[k]));
            if m > 0 {
                assert(text_lt(t1[0], t1[m]));
                lemma_text_lt_transitive(t1[0], t2[0], t1[0]);
                lemma_text_lt_irreflexive(t1[0]);
            } else {
                lemma_text_lt_irreflexive(t1[0]);
            }
        }
        assert(t1[0] == t2[0]);
        let r1 = t1.drop_first();
        let r2 = t2.drop_first();
        assert forall|x: Seq<char>| r1.contains(x) <==> r2.contains(x) by {
            if r1.contains(x) {
                let i = choose|i: int| 0 <= i < r1.len() && r1[i] == x;
                assert(t1[i + 1] == x);
                assert(text_lt(t1[0], t1[i + 1]));
                lemma_text_lt_irreflexive(x);
                assert(t2.contains(x));
                let j = choose|j: int| 0 <= j < t2.len() && t2[j] == x;
                assert(j != 0);
                assert(r2[j - 1] == x);
            }
            if r2.contains(x) {
                let i = choose|i: int| 0 <= i < r2.len() && r2[i] == x;
                assert(t2[i + 1] == x);
                assert(text_lt(t2[0], t2[i + 1]));
                lemma_text_lt_irreflexive(x);
                assert(t1.contains(x));
                let j = choose|j: int| 0 <= j < t1.len() && t1[j] == x;
                assert(j != 0);
                assert(r1[j - 1] == x);
            }
        }
        assert forall|i: int, j: int| 0 <= i < j < r1.len() implies text_lt(#[trigger] r1[i], #[trigger] r1[j]) by {
            assert(text_lt(t1[i + 1], t1[j + 1]));
        }
        assert forall|i: int, j: int| 0 <= i < j < r2.len() implies text_lt(#[trigger] r2[i], #[trigger] r2[j]) by {
            assert(text_lt(t2[i + 1], t2[j + 1]));
        }
        lemma_sorted_tables_equal(r1, r2);
        assert(t1 =~= seq![t1[0]] + r1);
        assert(t2 =~= seq![t2[0]] + r2);
    }
}

/// The canonical table of a list of texts is unique.
pub proof fn lemma_table_unique(t1: Seq<Seq<char>>, t2: Seq<Seq<char>>, keys: Seq<Seq<char>>)
    requires
        is_table_of(t1, keys),
        is_table_of(t2, keys),
    ensures
        t1 == t2,
{
    assert forall|x: Seq<char>| t1.contains(x) <==> t2.contains(x) by {
        if t1.contains(x) {
            let j = choose|j: int| 0 <= j < t1.len() && t1[j] == x;
            assert(keys.contains(t1[j]));
            let i = choose|i: int| 0 <= i < keys.len() && keys[i] == x;
            assert(t2.contains(keys[i]));
        }
        if t2.contains(x) {
            let j = choose|j: int| 0 <= j < t2.len() && t2[j] == x;
            assert(keys.contains(t2[j]));
            let i = choose|i: int| 0 <= i < keys.len() && keys[i] == x;
            assert(t1.contains(keys[i]));
        }
    }
    lemma_sorted_tables_equal(t1, t2);
}

/// The canonical table of `keys`.
pub fn intern_sorted(keys: &Vec<String>) -> (t: Vec<String>)
    ensures
        is_table_of(names_view(t@), names_view(keys@)),
{
    let ghost ks = names_view(keys@);
    let mut t: Vec<String> = Vec::new();
    let mut i: usize = 0;
    while i < keys.len()
        invariant
            i <= keys@.len(),
            ks == names_view(keys@),
            strictly_sorted(names_view(t@)),
            forall|q: int| 0 <= q < i ==> names_view(t@).contains(#[trigger] ks[q]),
            forall|j: int| 0 <= j < t@.len() ==> ks.take(i as int).contains(#[trigger] names_view(t@)[j]),
        decreases keys.len() - i,
    {
        let key = keys[i].as_str();
        let p = sorted_position(&t, key);
        let present = p < t.len() && str_eq(t[p].as_str(), key);
        if !present {
            let ghost old_t = names_view(t@);
            t.insert(p, keys[i].clone());
            proof {
                let nt = names_view(t@);
                assert(nt =~= old_t.insert(p as int, key@));
                old_t.insert_ensures(p as int, key@);
                if p < old_t.len() {
                    lemma_text_lt_total(old_t[p as int], key@);
                }
                assert forall|q: int| 0 <= q < p implies text_lt(#[trigger] old_t[q], key@) by {
                    assert(text_lt(old_t[q], key@));
                }
                lemma_insert_sorted(old_t, p as int, key@);
                assert forall|q: int| 0 <= q < i + 1 implies nt.contains(#[trigger] ks[q]) by {
                    if q < i {
                        assert(old_t.contains(ks[q]));
                        let w = choose|w: int| 0 <= w < old_t.len() && old_t[w] == ks[q];
                        if w < p {
                            assert(nt[w] == ks[q]);
                        } else {
                            assert(nt[w + 1] == ks[q]);
                        }
                    } else {
                        assert(nt[p as int] == ks[q]);
                    }
                }
                assert forall|j: int| 0 <= j < nt.len() implies ks.take(i + 1).contains(#[trigger] nt[j]) by {
                    if j == p {
                        assert(ks.take(i + 1)[i as int] == key@);
                    } else {
                        let w = if j < p { j } else { j - 1 };
                        assert(nt[j] == old_t[w]);
                        assert(ks.take(i as int).contains(old_t[w]));
                        let z = choose|z: int| 0 <= z < i && ks.take(i as int)[z] == old_t[w];
                        assert(ks.take(i + 1)[z] == old_t[w]);
                    }
                }
            }
        } else {
            proof {
                let nt = names_view(t@);
                assert forall|q: int| 0 <= q < i + 1 implies nt.contains(#[trigger] ks[q]) by {
                    if q == i {
                        assert(nt[p as int] == ks[q]);
                    }
                }
                assert forall|j: int| 0 <= j < nt.len() implies ks.take(i + 1).contains(#[trigger] nt[j]) by {
                    assert(ks.take(i as int).contains(nt[j]));
                    let z = choose|z: int| 0 <= z < i && ks.take(i as int)[z] == nt[j];
                    assert(ks.take(i + 1)[z] == nt[j]);
                }
            }
        }
        i = i + 1;
    }
    proof {
        assert(ks.take(keys@.len() as int) =~= ks);
    }
    t
}

/// Position of `key` in `t`.
pub fn position_of(t: &Vec<String>, key: &str) -> (r: usize)
    requires
        names_view(t@).contains(key@),
    ensures
        r < t@.len(),
        t@[r as int]@ == key@,
{
    let mut i: usize = 0;
    while i < t.len()
        invariant
            i <= t@.len(),
            names_view(t@).contains(key@),
            forall|q: int| 0 <= q < i ==> (#[trigger] t@[q])@ != key@,
        decreases t.len() - i,
    {
        if str_eq(t[i].as_str(), key) {
            return i;
        }
        i = i + 1;
    }
    proof {
        let w = choose|w: int| 0 <= w < t@.len() && names_view(t@)[w] == key@;
        assert(t@[w]@ == key@);
    }
    0
}

/// Position of the last arm whose text is `key`.
pub fn last_position_of(keys: &Vec<String>, key: &str) -> (r: usize)
    requires
        names_view(keys@).contains(key@),
    ensures
        r < keys@.len(),
        keys@[r as int]@ == key@,
        forall|q: int| r < q < keys@.len() ==> (#[trigger] keys@[q])@ != key@,
{
    let mut i: usize = keys.len();
    while i > 0
        invariant
            i <= keys@.len(),
            names_view(keys@).contains(key@),
            forall|q: int| i <= q < keys@.len() ==> (#[trigger] keys@[q])@ != key@,
        decreases i,
    {
        if str_eq(keys[i - 1].as_str(), key) {
            return i - 1;
        }
        i = i - 1;
    }
    proof {
        let w = choose|w: int| 0 <= w < keys@.len() && names_view(keys@)[w] == key@;
        assert(keys@[w]@ == key@);
    }
    0
}

/// Shared tables and per-arm references of one program.
#[derive(Debug)]
pub struct CompactTables {
    /// Canonical operation texts, in byte order.
    pub operation_keys: Vec<String>,
    /// For each operation table entry, the arm whose operation list is stored
    /// there: the last arm with that canonical text.
    pub operation_sources: Vec<usize>,
    /// Distinct body schemas, in byte order.
    pub body_schemas: Vec<String>,
    /// For each arm, its (operations, body schema) references.
    pub refs: Vec<(usize, usize)>,
}

/// The exact result of compaction for arms with these operation texts and schemas.
pub open spec fn is_compaction_of(
    c: CompactTables,
    operations: Seq<Seq<char>>,
    schemas: Seq<Seq<char>>,
) -> bool {
    let ops = names_view(c.operation_keys@);
    let sch = names_view(c.body_schemas@);
    &&& is_table_of(ops, operations)
    &&& is_table_of(sch, schemas)
    &&& c.refs@.len() == operations.len()
    &&& forall|i: int|
        0 <= i < operations.len() ==> (#[trigger] c.refs@[i]).0 < ops.len() && c.refs@[i].1
            < sch.len() && ops[c.refs@[i].0 as int] == operations[i] && sch[c.refs@[i].1 as int]
            == schemas[i]
    &&& c.operation_sources@.len() == ops.len()
    &&& forall|t: int|
        0 <= t < ops.len() ==> (#[trigger] c.operation_sources@[t]) < operations.len()
            && operations[c.operation_sources@[t] as int] == ops[t] && forall|q: int|
            c.operation_sources@[t] < q < operations.len() ==> operations[q] != ops[t]
}

/// Intern each arm's operations and body schema into canonical tables and
/// replace them by references.
pub fn compact_tables(operations: &Vec<String>, schemas: &Vec<String>) -> (r: CompactTables)
    requires
        operations@.len() == schemas@.len(),
    ensures
        is_compaction_of(r, names_view(operations@), names_view(schemas@)),
{
    let operation_keys = intern_sorted(operations);
    let body_schemas = intern_sorted(schemas);
    let ghost ops = names_view(operation_keys@);
    let ghost sch = names_view(body_schemas@);
    let ghost ov = names_view(operations@);
    let ghost sv = names_view(schemas@);
    let mut refs: Vec<(usize, usize)> = Vec::new();
    let mut i: usize = 0;
    while i < operations.len()
        invariant
            operations@.len() == schemas@.len(),
            i <= operations@.len(),
            refs@.len() == i,
            ops == names_view(operation_keys@),
            sch == names_view(body_schemas@),
            ov == names_view(operations@),
            sv == names_view(schemas@),
            is_table_of(ops, ov),
            is_table_of(sch, sv),
            forall|q: int|
                0 <= q < i ==> (#[trigger] refs@[q]).0 < ops.len() && refs@[q].1 < sch.len()
                    && ops[refs@[q].0 as int] == ov[q] && sch[refs@[q].1 as int] == sv[q],
        decreases operations.len() - i,
    {
        assert(ops.contains(ov[i as int]));
        assert(sch.contains(sv[i as int]));
        let o = position_of(&operation_keys, operations[i].as_str());
        let s = position_of(&body_schemas, schemas[i].as_str());
        refs.push((o, s));
        i = i + 1;
    }
    let mut operation_sources: Vec<usize> = Vec::new();
    let mut t: usize = 0;
    while t < operation_keys.len()
        invariant
            t <= ops.len(),
            ops == names_view(operation_keys@),
            ov == names_view(operations@),
            is_table_of(ops, ov),
            operation_sources@.len() == t,
            forall|k: int|
                0 <= k < t ==> (#[trigger] operation_sources@[k]) < ov.len() && ov[operation_sources@[k] as int]
                    == ops[k] && forall|q: int|
                    operation_sources@[k] < q < ov.len() ==> ov[q] != ops[k],
        decreases operation_keys.len() - t,
    {
        assert(ov.contains(ops[t as int]));
        let src = last_position_of(operations, operation_keys[t].as_str());
        operation_sources.push(src);
        t = t + 1;
    }
    CompactTables { operation_keys, operation_sources, body_schemas, refs }
}

/// Why a shared program cannot be expanded.
#[derive(Clone, Copy, Debug, PartialEq, Eq, Structural)]
pub enum ExpandError {
    InvalidOperationsReference,
    InvalidBodySchemaReference,
    OperationsReferenceOutOfBounds,
    BodySchemaReferenceOutOfBounds,
    ReferenceAndInlineMaterial,
    ExpandedProgramExceedsBudget,
    Noncanonical,
}

/// What one compact arm holds, as far as expansion reads it.
#[derive(Clone, Copy, Debug)]
pub struct ArmRefs {
    /// `operations_ref`, when it is an unsigned integer.
    pub operations_ref: Option<u64>,
    /// `selector.body_schema_ref`, when it is an unsigned integer.
    pub body_schema_ref: Option<u64>,
    /// The arm also holds `operations` or `selector.body_schema`.
    pub has_inline: bool,
}

/// JSON length of a reference index: its decimal digits.
pub open spec fn index_len(n: nat) -> int {
    decimal(n).len() as int
}

/// The error arm `a` raises, given the table sizes; `None` when it resolves.
pub open spec fn arm_error(a: ArmRefs, operation_count: nat, schema_count: nat) -> Option<ExpandError> {
    if a.operations_ref is None || a.operations_ref->0 > usize::MAX {
        Some(ExpandError::InvalidOperationsReference)
    } else if a.body_schema_ref is None || a.body_schema_ref->0 > usize::MAX {
        Some(ExpandError::InvalidBodySchemaReference)
    } else if a.operations_ref->0 >= operation_count {
        Some(ExpandError::OperationsReferenceOutOfBounds)
    } else if a.body_schema_ref->0 >= schema_count {
        Some(ExpandError::BodySchemaReferenceOutOfBounds)
    } else if a.has_inline {
        Some(ExpandError::ReferenceAndInlineMaterial)
    } else {
        None
    }
}

/// Change of the program's JSON length when arm `a` is expanded in place:
/// each reference key and index is replaced by the referenced material.
pub open spec fn arm_growth(a: ArmRefs, operation_lens: Seq<usize>, schema_lens: Seq<usize>) -> int {
    operation_lens[a.operations_ref->0 as int] + schema_lens[a.body_schema_ref->0 as int]
        - index_len(a.operations_ref->0 as nat) - index_len(a.body_schema_ref->0 as nat) - 8
}

/// JSON length after expanding the first `n` arms.
pub open spec fn expanded_len(
    program_len: nat,
    arms: Seq<ArmRefs>,
    operation_lens: Seq<usize>,
    schema_lens: Seq<usize>,
    n: nat,
) -> int
    decreases n,
{
    if n == 0 {
        program_len as int
    } else {
        expanded_len(program_len, arms, operation_lens, schema_lens, (n - 1) as nat) + arm_growth(
            arms[n - 1],
            operation_lens,
            schema_lens,
        )
    }
}

/// Arms `0..n` resolve and stay within budget while expanding.
pub open spec fn arms_ok(
    program_len: nat,
    arms: Seq<ArmRefs>,
    operation_lens: Seq<usize>,
    schema_lens: Seq<usize>,
    n: nat,
) -> bool {
    forall|k: int|
        0 <= k < n ==> arm_error(#[trigger] arms[k], operation_lens.len(), schema_lens.len()) is None
            && expanded_len(program_len, arms, operation_lens, schema_lens, (k + 1) as nat)
            <= MAX_MANIFEST_JSON_BYTES
}

/// The error that stops expansion at arm `n`, which all earlier arms passed.
pub open spec fn stop_error(
    program_len: nat,
    arms: Seq<ArmRefs>,
    operation_lens: Seq<usize>,
    schema_lens: Seq<usize>,
    n: nat,
) -> Option<ExpandError> {
    if arm_error(arms[n as int], operation_lens.len(), schema_lens.len()) is Some {
        arm_error(arms[n as int], operation_lens.len(), schema_lens.len())
    } else if expanded_len(program_len, arms, operation_lens, schema_lens, n + 1)
        > MAX_MANIFEST_JSON_BYTES {
        Some(ExpandError::ExpandedProgramExceedsBudget)
    } else {
        None
    }
}

pub open spec fn pow10(k: nat) -> nat
    decreases k,
{
    if k == 0 {
        1
    } else {
        10 * pow10((k - 1) as nat)
    }
}

pub proof fn lemma_decimal_len_bound(n: nat, k: nat)
    requires
        n < pow10(k),
        k >= 1,
    ensures
        decimal(n).len() <= k,
    decreases k,
{
    if n >= 10 {
        let p = pow10((k - 1) as nat);
        if k == 1 {
            assert(pow10(1) == 10 * pow10(0));
        } else {
            assert(n / 10 < p) by (nonlinear_arith)
                requires
                    n < 10 * p,
            ;
            lemma_decimal_len_bound(n / 10, (k - 1) as nat);
        }
    }
}

/// Number of decimal digits of `n`.
pub fn decimal_len(n: u64) -> (r: u64)
    ensures
        r == decimal(n as nat).len(),
        1 <= r <= 20,
    decreases n,
{
    proof {
        reveal_with_fuel(pow10, 21);
        assert(pow10(20) == 100_000_000_000_000_000_000nat);
        lemma_decimal_len_bound(n as nat, 20);
    }
    if n < 10 {
        1
    } else {
        let r = decimal_len(n / 10);
        proof {
            assert(decimal(n as nat) == decimal((n / 10) as nat).push(
                crate::text::digit_char((n % 10) as nat),
            ));
        }
        r + 1
    }
}

/// Resolve every arm's references, in order, accounting the expanded JSON
/// length before anything is copied. The first unresolved reference or the
/// first arm that takes the program over budget stops expansion.
pub fn plan_expansion(
    program_len: usize,
    arms: &Vec<ArmRefs>,
    operation_lens: &Vec<usize>,
    schema_lens: &Vec<usize>,
) -> (r: Result<Vec<(usize, usize)>, ExpandError>)
    ensures
        match r {
            Ok(refs) => arms_ok(
                program_len as nat,
                arms@,
                operation_lens@,
                schema_lens@,
                arms@.len(),
            ) && refs@.len() == arms@.len() && forall|k: int|
                0 <= k < arms@.len() ==> (#[trigger] refs@[k]).0 == arms@[k].operations_ref->0
                    && refs@[k].1 == arms@[k].body_schema_ref->0,
            Err(e) => exists|n: nat|
                n < arms@.len() && arms_ok(
                    program_len as nat,
                    arms@,
                    operation_lens@,
                    schema_lens@,
                    n,
                ) && stop_error(program_len as nat, arms@, operation_lens@, schema_lens@, n)
                    == Some(e),
        },
{
    let ghost pl = program_len as nat;
    let mut total: i128 = program_len as i128;
    let mut refs: Vec<(usize, usize)> = Vec::new();
    let mut i: usize = 0;
    while i < arms.len()
        invariant
            i <= arms@.len(),
            refs@.len() == i,
            total == expanded_len(pl, arms@, operation_lens@, schema_lens@, i as nat),
            total <= MAX_MANIFEST_JSON_BYTES || i == 0,
            total <= usize::MAX,
            total >= -48 * (i as int),
            pl == program_len,
            arms_ok(pl, arms@, operation_lens@, schema_lens@, i as nat),
            forall|k: int|
                0 <= k < i ==> (#[trigger] refs@[k]).0 == arms@[k].operations_ref->0 && refs@[k].1
                    == arms@[k].body_schema_ref->0,
        decreases arms.len() - i,
    {
        let arm = arms[i];
        let operation_ref = match arm.operations_ref {
            Some(v) if v <= usize::MAX as u64 => v as usize,
            _ => {
                assert(stop_error(pl, arms@, operation_lens@, schema_lens@, i as nat) == Some(
                    ExpandError::InvalidOperationsReference,
                ));
                return Err(ExpandError::InvalidOperationsReference);
            },
        };
        let schema_ref = match arm.body_schema_ref {
            Some(v) if v <= usize::MAX as u64 => v as usize,
            _ => {
                assert(stop_error(pl, arms@, operation_lens@, schema_lens@, i as nat) == Some(
                    ExpandError::InvalidBodySchemaReference,
                ));
                return Err(ExpandError::InvalidBodySchemaReference);
            },
        };
        if operation_ref >= operation_lens.len() {
            assert(stop_error(pl, arms@, operation_lens@, schema_lens@, i as nat) == Some(
                ExpandError::OperationsReferenceOutOfBounds,
            ));
            return Err(ExpandError::OperationsReferenceOutOfBounds);
        }
        if schema_ref >= schema_lens.len() {
            assert(stop_error(pl, arms@, operation_lens@, schema_lens@, i as nat) == Some(
                ExpandError::BodySchemaReferenceOutOfBounds,
            ));
            return Err(ExpandError::BodySchemaReferenceOutOfBounds);
        }
        if arm.has_inline {
            assert(stop_error(pl, arms@, operation_lens@, schema_lens@, i as nat) == Some(
                ExpandError::ReferenceAndInlineMaterial,
            ));
            return Err(ExpandError::ReferenceAndInlineMaterial);
        }
        let op_digits = decimal_len(operation_ref as u64);
        let schema_digits = decimal_len(schema_ref as u64);
        let growth: i128 = operation_lens[operation_ref] as i128 + schema_lens[schema_ref] as i128
            - op_digits as i128 - schema_digits as i128 - 8;
        assert(growth == arm_growth(arms@[i as int], operation_lens@, schema_lens@));
        total = total + growth;
        if total > MAX_MANIFEST_JSON_BYTES as i128 {
            assert(stop_error(pl, arms@, operation_lens@, schema_lens@, i as nat) == Some(
                ExpandError::ExpandedProgramExceedsBudget,
            ));
            return Err(ExpandError::ExpandedProgramExceedsBudget);
        }
        refs.push((operation_ref, schema_ref));
        proof {
            assert forall|k: int|
                0 <= k < i + 1 implies arm_error(
                #[trigger] arms@[k],
                operation_lens@.len(),
                schema_lens@.len(),
            ) is None && expanded_len(pl, arms@, operation_lens@, schema_lens@, (k + 1) as nat)
                <= MAX_MANIFEST_JSON_BYTES by {
                if k < i {
                    assert(arms_ok(pl, arms@, operation_lens@, schema_lens@, i as nat));
                }
            }
        }
        i = i + 1;
    }
    Ok(refs)
}

/// Whether the shared tables and references are exactly what compacting
/// the expanded arms would write: tables sorted without repeats, every entry
/// used, and each arm referring to the position of its own material.
/// `operation_keys` are the canonical texts of the stored operation lists.
pub fn is_canonical(
    operation_keys: &Vec<String>,
    body_schemas: &Vec<String>,
    refs: &Vec<(usize, usize)>,
) -> (r: bool)
    requires
        forall|k: int|
            0 <= k < refs@.len() ==> (#[trigger] refs@[k]).0 < operation_keys@.len() && refs@[k].1
                < body_schemas@.len(),
    ensures
        r == ({
            let ops = Seq::new(refs@.len(), |k: int| operation_keys@[refs@[k].0 as int]@);
            let sch = Seq::new(refs@.len(), |k: int| body_schemas@[refs@[k].1 as int]@);
            &&& is_table_of(names_view(operation_keys@), ops)
            &&& is_table_of(names_view(body_schemas@), sch)
        }),
{
    let mut ops: Vec<String> = Vec::new();
    let mut sch: Vec<String> = Vec::new();
    let mut k: usize = 0;
    while k < refs.len()
        invariant
            k <= refs@.len(),
            ops@.len() == k,
            sch@.len() == k,
            forall|q: int|
                0 <= q < refs@.len() ==> (#[trigger] refs@[q]).0 < operation_keys@.len() && refs@[q].1
                    < body_schemas@.len(),
            forall|q: int| 0 <= q < k ==> (#[trigger] ops@[q])@ == operation_keys@[refs@[q].0 as int]@,
            forall|q: int| 0 <= q < k ==> (#[trigger] sch@[q])@ == body_schemas@[refs@[q].1 as int]@,
        decreases refs.len() - k,
    {
        ops.push(operation_keys[refs[k].0].clone());
        sch.push(body_schemas[refs[k].1].clone());
        k = k + 1;
    }
    let ghost ops_expected = Seq::new(refs@.len(), |q: int| operation_keys@[refs@[q].0 as int]@);
    let ghost sch_expected = Seq::new(refs@.len(), |q: int| body_schemas@[refs@[q].1 as int]@);
    assert(names_view(ops@) =~= ops_expected);
    assert(names_view(sch@) =~= sch_expected);
    let op_table = intern_sorted(&ops);
    let schema_table = intern_sorted(&sch);
    let same_ops = crate::table::same_names(&op_table, operation_keys);
    let same_schemas = crate::table::same_names(&schema_table, body_schemas);
    proof {
        if is_table_of(names_view(operation_keys@), ops_expected) {
            lemma_table_unique(names_view(op_table@), names_view(operation_keys@), ops_expected);
        }
        if is_table_of(names_view(body_schemas@), sch_expected) {
            lemma_table_unique(names_view(schema_table@), names_view(body_schemas@), sch_expected);
        }
    }
    same_ops && same_schemas
}

/// Compaction followed by expansion restores every arm's operations and
/// schema, and the compacted tables pass the canonicity check.
pub proof fn lemma_compaction_round_trip(
    c: CompactTables,
    operations: Seq<Seq<char>>,
    schemas: Seq<Seq<char>>,
)
    requires
        operations.len() == schemas.len(),
        is_compaction_of(c, operations, schemas),
    ensures
        forall|i: int|
            0 <= i < operations.len() ==> names_view(c.operation_keys@)[(
            #[trigger] c.refs@[i]).0 as int] == operations[i] && names_view(c.body_schemas@)[c.refs@[i].1 as int]
                == schemas[i],
        ({
            let ops = Seq::new(c.refs@.len(), |k: int| c.operation_keys@[c.refs@[k].0 as int]@);
            let sch = Seq::new(c.refs@.len(), |k: int| c.body_schemas@[c.refs@[k].1 as int]@);
            &&& is_table_of(names_view(c.operation_keys@), ops)
            &&& is_table_of(names_view(c.body_schemas@), sch)
        }),
{
    let ops = Seq::new(c.refs@.len(), |k: int| c.operation_keys@[c.refs@[k].0 as int]@);
    let sch = Seq::new(c.refs@.len(), |k: int| c.body_schemas@[c.refs@[k].1 as int]@);
    assert forall|k: int| 0 <= k < ops.len() implies ops[k] == operations[k] by {
        assert(names_view(c.operation_keys@)[c.refs@[k].0 as int] == operations[k]);
    }
    assert(ops =~= operations);
    assert forall|k: int| 0 <= k < sch.len() implies sch[k] == schemas[k] by {
        assert(names_view(c.body_schemas@)[c.refs@[k].1 as int] == schemas[k]);
    }
    assert(sch =~= schemas);
}

/// Why a modeled projection program is refused.
#[derive(Clone, Copy, Debug, PartialEq, Eq, Structural)]
pub enum ProgramError {
    /// The value's JSON text is over `MAX_MANIFEST_JSON_BYTES`.
    ExceedsBudget,
    MissingArms,
    MissingOperations,
    MissingBodySchema,
    /// The shared wrapper lacks a field, holds an unknown one, or a field
    /// of the wrong kind.
    MalformedShared,
    UnsupportedEncoding,
    OperationSetNotArray,
    Expand(ExpandError),
}

/// Length in bytes of the JSON text of `v`.
pub open spec fn json_byte_len(v: JsonView) -> nat {
    encode_utf8(json_text(v)).len()
}

/// That length, when it is within the opaque-value budget.
pub open spec fn budget_len(v: JsonView) -> Option<usize> {
    if json_byte_len(v) <= MAX_MANIFEST_JSON_BYTES {
        Some(json_byte_len(v) as usize)
    } else {
        None
    }
}

/// JSON length of `value`, refused once it exceeds the opaque-value budget.
/// The count stops at the first piece of text past the budget, before an
/// oversized value is written out.
pub fn json_len(value: &Json) -> (r: Option<usize>)
    ensures
        r == budget_len(value@),
{
    crate::json::text_len_within(value, 0, MAX_MANIFEST_JSON_BYTES)
}

pub open spec fn key_arms() -> Seq<char> {
    "arms"@
}

pub open spec fn key_operations() -> Seq<char> {
    "operations"@
}

pub open spec fn key_operations_ref() -> Seq<char> {
    "operations_ref"@
}

pub open spec fn key_selector() -> Seq<char> {
    "selector"@
}

pub open spec fn key_body_schema() -> Seq<char> {
    "body_schema"@
}

pub open spec fn key_body_schema_ref() -> Seq<char> {
    "body_schema_ref"@
}

pub open spec fn key_encoding() -> Seq<char> {
    "encoding"@
}

pub open spec fn key_program() -> Seq<char> {
    "program"@
}

pub open spec fn key_operation_sets() -> Seq<char> {
    "operation_sets"@
}

pub open spec fn key_body_schemas() -> Seq<char> {
    "body_schemas"@
}

pub open spec fn shared_encoding() -> Seq<char> {
    "shared_projection_program_v1"@
}

/// An arm's inline operation list, when it is an array.
pub open spec fn arm_operations(arm: JsonView) -> Option<JsonView> {
    match member(arm, key_operations()) {
        Some(JsonView::Array(xs)) => Some(JsonView::Array(xs)),
        _ => None,
    }
}

/// `selector.body_schema` of an arm, when it is a string.
pub open spec fn arm_schema(arm: JsonView) -> Option<Seq<char>> {
    match member(arm, key_selector()) {
        Some(sel) => match member(sel, key_body_schema()) {
            Some(JsonView::Str(t)) => Some(t),
            _ => None,
        },
        None => None,
    }
}

/// Why an expanded arm cannot be compacted.
pub open spec fn arm_refusal(arm: JsonView) -> Option<ProgramError> {
    if arm_operations(arm) is None {
        Some(ProgramError::MissingOperations)
    } else if arm_schema(arm) is None {
        Some(ProgramError::MissingBodySchema)
    } else {
        None
    }
}

/// The refusal of the first arm that has one.
pub open spec fn arms_refusal(arms: Seq<JsonView>) -> Option<ProgramError>
    decreases arms.len(),
{
    if arms.len() == 0 {
        None
    } else if arm_refusal(arms[0]) is Some {
        arm_refusal(arms[0])
    } else {
        arms_refusal(arms.drop_first())
    }
}

/// Canonical texts of the arms' operation lists.
pub open spec fn operation_texts(arms: Seq<JsonView>) -> Seq<Seq<char>> {
    Seq::new(arms.len(), |i: int| json_text(arm_operations(arms[i])->0))
}

/// The arms' body schemas.
pub open spec fn schema_texts(arms: Seq<JsonView>) -> Seq<Seq<char>> {
    Seq::new(arms.len(), |i: int| arm_schema(arms[i])->0)
}

/// The canonical table of `keys`.
pub open spec fn table_of(keys: Seq<Seq<char>>) -> Seq<Seq<char>> {
    choose|t: Seq<Seq<char>>| is_table_of(t, keys)
}

/// Position of `x` in table `t`.
pub open spec fn index_in(t: Seq<Seq<char>>, x: Seq<char>) -> int {
    choose|i: int| 0 <= i < t.len() && t[i] == x
}

/// Position of the last of `keys` equal to `x`.
pub open spec fn last_index(keys: Seq<Seq<char>>, x: Seq<char>) -> int {
    choose|i: int|
        0 <= i < keys.len() && keys[i] == x && forall|q: int| i < q < keys.len() ==> keys[q] != x
}

/// The number `n` as a JSON value.
pub open spec fn index_json(n: int) -> JsonView {
    JsonView::Number(decimal(n as nat))
}

/// An arm with its material replaced by references.
pub open spec fn compact_arm(arm: JsonView, operations_ref: int, schema_ref: int) -> JsonView {
    match arm {
        JsonView::Object(fs) => {
            let fs1 = set_field(
                without(fs, key_operations()),
                key_operations_ref(),
                index_json(operations_ref),
            );
            match member(arm, key_selector()) {
                Some(JsonView::Object(sf)) => JsonView::Object(
                    set_field(
                        fs1,
                        key_selector(),
                        JsonView::Object(
                            set_field(
                                without(sf, key_body_schema()),
                                key_body_schema_ref(),
                                index_json(schema_ref),
                            ),
                        ),
                    ),
                ),
                _ => JsonView::Object(fs1),
            }
        },
        _ => arm,
    }
}

/// `v` with member `k` set to `x`; other values are left as they are.
pub open spec fn with_member(v: JsonView, k: Seq<char>, x: JsonView) -> JsonView {
    match v {
        JsonView::Object(fs) => JsonView::Object(set_field(fs, k, x)),
        _ => v,
    }
}

/// The shared wrapper, with its fields in byte order.
pub open spec fn shared_value(
    program: JsonView,
    operation_sets: Seq<JsonView>,
    body_schemas: Seq<Seq<char>>,
) -> JsonView {
    JsonView::Object(
        seq![
            (key_body_schemas(), JsonView::Array(str_values(body_schemas))),
            (key_encoding(), JsonView::Str(shared_encoding())),
            (key_operation_sets(), JsonView::Array(operation_sets)),
            (key_program(), program),
        ],
    )
}

/// The shared encoding of a program whose arms all hold their material.
pub open spec fn shared_of(value: JsonView, arms: Seq<JsonView>) -> JsonView {
    let ops = operation_texts(arms);
    let sch = schema_texts(arms);
    let ot = table_of(ops);
    let st = table_of(sch);
    let new_arms = Seq::new(
        arms.len(),
        |i: int| compact_arm(arms[i], index_in(ot, ops[i]), index_in(st, sch[i])),
    );
    let sets = Seq::new(ot.len(), |t: int| arm_operations(arms[last_index(ops, ot[t])])->0);
    shared_value(with_member(value, key_arms(), JsonView::Array(new_arms)), sets, st)
}

/// What compaction gives for `value`: the shared encoding when its JSON is
/// shorter than the value's, else the value itself.
pub open spec fn compact_spec(value: JsonView) -> Result<JsonView, ProgramError> {
    match budget_len(value) {
        None => Err(ProgramError::ExceedsBudget),
        Some(len) => match member(value, key_arms()) {
            Some(JsonView::Array(arms)) => match arms_refusal(arms) {
                Some(e) => Err(e),
                None => {
                    let shared = shared_of(value, arms);
                    if json_byte_len(shared) < len {
                        Ok(shared)
                    } else {
                        Ok(value)
                    }
                },
            },
            _ => Err(ProgramError::MissingArms),
        },
    }
}

pub open spec fn result_view(r: Result<Json, ProgramError>) -> Result<JsonView, ProgramError> {
    match r {
        Ok(j) => Ok(j@),
        Err(e) => Err(e),
    }
}

/// A text stands at one position of a sorted table.
pub proof fn lemma_sorted_position_unique(t: Seq<Seq<char>>, i: int, j: int)
    requires
        strictly_sorted(t),
        0 <= i < t.len(),
        0 <= j < t.len(),
        t[i] == t[j],
    ensures
        i == j,
{
    if i < j {
        assert(text_lt(t[i], t[j]));
        lemma_text_lt_irreflexive(t[i]);
    } else if j < i {
        assert(text_lt(t[j], t[i]));
        lemma_text_lt_irreflexive(t[i]);
    }
}

/// The tables and references `compact_tables` computed are the canonical ones.
proof fn lemma_compaction_is_canonical(c: CompactTables, ops: Seq<Seq<char>>, sch: Seq<Seq<char>>)
    requires
        is_compaction_of(c, ops, sch),
    ensures
        names_view(c.operation_keys@) == table_of(ops),
        names_view(c.body_schemas@) == table_of(sch),
        forall|i: int|
            0 <= i < ops.len() ==> (#[trigger] c.refs@[i]).0 == index_in(table_of(ops), ops[i])
                && c.refs@[i].1 == index_in(table_of(sch), sch[i]),
        forall|t: int|
            0 <= t < c.operation_sources@.len() ==> #[trigger] c.operation_sources@[t] == last_index(
                ops,
                table_of(ops)[t],
            ),
{
    let ot = names_view(c.operation_keys@);
    let st = names_view(c.body_schemas@);
    lemma_table_unique(table_of(ops), ot, ops);
    lemma_table_unique(table_of(sch), st, sch);
    assert forall|i: int| 0 <= i < ops.len() implies (#[trigger] c.refs@[i]).0 == index_in(
        table_of(ops),
        ops[i],
    ) && c.refs@[i].1 == index_in(table_of(sch), sch[i]) by {
        let a = c.refs@[i].0 as int;
        let b = c.refs@[i].1 as int;
        let a2 = index_in(ot, ops[i]);
        let b2 = index_in(st, sch[i]);
        lemma_sorted_position_unique(ot, a, a2);
        lemma_sorted_position_unique(st, b, b2);
    }
    assert forall|t: int| 0 <= t < c.operation_sources@.len() implies #[trigger] c.operation_sources@[t]
        == last_index(ops, table_of(ops)[t]) by {
        let x = ot[t];
        let a = c.operation_sources@[t] as int;
        let b = last_index(ops, x);
        assert(0 <= a < ops.len() && ops[a] == x && forall|q: int| a < q < ops.len() ==> ops[q] != x);
        if a < b {
            assert(ops[b] != x);
        }
        if b < a {
            assert(ops[a] != x);
        }
    }
}

/// The arms' operation texts and body schemas, or the first arm's refusal.
fn scan_arms(arms: &Vec<Json>) -> (r: Result<(Vec<String>, Vec<String>), ProgramError>)
    ensures
        ({
            let a = crate::json::items_view(arms@);
            match r {
                Ok(p) => arms_refusal(a) is None && names_view(p.0@) == operation_texts(a)
                    && names_view(p.1@) == schema_texts(a),
                Err(e) => arms_refusal(a) == Some(e),
            }
        }),
{
    let ghost a = crate::json::items_view(arms@);
    proof {
        crate::json::lemma_items_view(arms@);
        assert(a.skip(0) =~= a);
    }
    let mut ops: Vec<String> = Vec::new();
    let mut sch: Vec<String> = Vec::new();
    let mut i: usize = 0;
    while i < arms.len()
        invariant
            i <= arms@.len(),
            a == crate::json::items_view(arms@),
            a.len() == arms@.len(),
            forall|q: int| 0 <= q < arms@.len() ==> #[trigger] a[q] == arms@[q]@,
            arms_refusal(a) == arms_refusal(a.skip(i as int)),
            ops@.len() == i,
            sch@.len() == i,
            forall|q: int|
                0 <= q < i ==> arm_refusal(#[trigger] a[q]) is None && ops@[q]@ == json_text(
                    arm_operations(a[q])->0,
                ) && sch@[q]@ == arm_schema(a[q])->0,
        decreases arms.len() - i,
    {
        let arm = &arms[i];
        let ghost av = a[i as int];
        assert(a.skip(i as int)[0] == av);
        assert(a.skip(i as int).drop_first() =~= a.skip(i + 1));
        let text = match member_of(arm, "operations") {
            Some(x) => match x {
                Json::Array(_) => json_string(x),
                _ => {
                    return Err(ProgramError::MissingOperations);
                },
            },
            None => {
                return Err(ProgramError::MissingOperations);
            },
        };
        let schema = match member_of(arm, "selector") {
            Some(sel) => match member_of(sel, "body_schema") {
                Some(Json::Str(t)) => t.clone(),
                _ => {
                    return Err(ProgramError::MissingBodySchema);
                },
            },
            None => {
                return Err(ProgramError::MissingBodySchema);
            },
        };
        ops.push(text);
        sch.push(schema);
        i = i + 1;
    }
    proof {
        assert(a.skip(i as int) =~= Seq::<JsonView>::empty());
        assert(names_view(ops@) =~= operation_texts(a));
        assert(names_view(sch@) =~= schema_texts(a));
    }
    Ok((ops, sch))
}

/// One arm with its material replaced by the given references.
fn compact_arm_json(arm: &Json, operations_ref: usize, schema_ref: usize) -> (r: Json)
    ensures
        r@ == compact_arm(arm@, operations_ref as int, schema_ref as int),
{
    match arm {
        Json::Object(fs) => {
            let fs0 = without_member(fs, "operations");
            let fs1 = set_member(&fs0, "operations_ref", &index_number(operations_ref as u64));
            match member_of(arm, "selector") {
                Some(Json::Object(sf)) => {
                    let sf0 = without_member(sf, "body_schema");
                    let sf1 = set_member(&sf0, "body_schema_ref", &index_number(schema_ref as u64));
                    let sel = Json::Object(sf1);
                    Json::Object(set_member(&fs1, "selector", &sel))
                },
                _ => Json::Object(fs1),
            }
        },
        _ => duplicate(arm),
    }
}

fn text_json(t: &'static str) -> (r: Json)
    ensures
        r@ == JsonView::Str(t@),
{
    Json::Str(t.to_owned())
}

/// Share identical operation lists and body schemas when that is smaller:
/// the shared encoding keeps every field and arm of the program, replacing
/// each arm's `operations` by `operations_ref` and its selector's
/// `body_schema` by `body_schema_ref`, zero-based positions in the canonical
/// `operation_sets` and `body_schemas` tables. A program whose shared form is
/// not shorter keeps its exact expanded form.
#[verifier::spinoff_prover]
#[verifier::rlimit(60)]
pub fn compact_projection_program_contract(value: Json) -> (r: Result<Json, ProgramError>)
    ensures
        result_view(r) == compact_spec(value@),
{
    let expanded_len = match json_len(&value) {
        Some(n) => n,
        None => {
            return Err(ProgramError::ExceedsBudget);
        },
    };
    let shared = {
        let arms = match member_of(&value, "arms") {
            Some(Json::Array(a)) => a,
            _ => {
                return Err(ProgramError::MissingArms);
            },
        };
        let ghost a = crate::json::items_view(arms@);
        proof {
            crate::json::lemma_items_view(arms@);
        }
        let (ops, sch) = match scan_arms(arms) {
            Ok(p) => p,
            Err(e) => {
                return Err(e);
            },
        };
        assert(names_view(ops@).len() == ops@.len());
        assert(names_view(sch@).len() == sch@.len());
        let tables = compact_tables(&ops, &sch);
        let ghost ov = operation_texts(a);
        let ghost sv = schema_texts(a);
        let ghost ot = table_of(ov);
        let ghost st = table_of(sv);
        proof {
            lemma_compaction_is_canonical(tables, ov, sv);
        }
        let mut new_arms: Vec<Json> = Vec::new();
        let mut i: usize = 0;
        while i < arms.len()
            invariant
                i <= arms@.len(),
                a == crate::json::items_view(arms@),
                a.len() == arms@.len(),
                forall|q: int| 0 <= q < arms@.len() ==> #[trigger] a[q] == arms@[q]@,
                is_compaction_of(tables, ov, sv),
                ov.len() == arms@.len(),
                forall|q: int|
                    0 <= q < ov.len() ==> (#[trigger] tables.refs@[q]).0 == index_in(ot, ov[q])
                        && tables.refs@[q].1 == index_in(st, sv[q]),
                new_arms@.len() == i,
                forall|q: int|
                    0 <= q < i ==> (#[trigger] new_arms@[q])@ == compact_arm(
                        a[q],
                        index_in(ot, ov[q]),
                        index_in(st, sv[q]),
                    ),
            decreases arms.len() - i,
        {
            let (o, t) = tables.refs[i];
            new_arms.push(compact_arm_json(&arms[i], o, t));
            i = i + 1;
        }
        let mut sets: Vec<Json> = Vec::new();
        let mut k: usize = 0;
        while k < tables.operation_sources.len()
            invariant
                k <= tables.operation_sources@.len(),
                a == crate::json::items_view(arms@),
                a.len() == arms@.len(),
                forall|q: int| 0 <= q < arms@.len() ==> #[trigger] a[q] == arms@[q]@,
                is_compaction_of(tables, ov, sv),
                arms_refusal(a) is None,
                ov == operation_texts(a),
                forall|t: int|
                    0 <= t < tables.operation_sources@.len() ==> #[trigger] tables.operation_sources@[t]
                        == last_index(ov, ot[t]),
                sets@.len() == k,
                forall|q: int|
                    0 <= q < k ==> (#[trigger] sets@[q])@ == arm_operations(a[last_index(ov, ot[q])])->0,
            decreases tables.operation_sources.len() - k,
        {
            let src = tables.operation_sources[k];
            proof {
                lemma_no_refusal_at(a, src as int);
            }
            match member_of(&arms[src], "operations") {
                Some(x) => {
                    sets.push(duplicate(x));
                },
                None => {
                    proof {
                        assert(arm_operations(a[src as int]) is None);
                    }
                },
            }
            k = k + 1;
        }
        let mut schemas: Vec<Json> = Vec::new();
        let mut k: usize = 0;
        while k < tables.body_schemas.len()
            invariant
                k <= tables.body_schemas@.len(),
                schemas@.len() == k,
                forall|q: int| 0 <= q < k ==> (#[trigger] schemas@[q])@ == JsonView::Str(tables.body_schemas@[q]@),
            decreases tables.body_schemas.len() - k,
        {
            schemas.push(Json::Str(tables.body_schemas[k].clone()));
            k = k + 1;
        }
        let arms_json = Json::Array(new_arms);
        let program = match &value {
            Json::Object(fs) => Json::Object(set_member(fs, "arms", &arms_json)),
            _ => duplicate(&value),
        };
        let ghost new_view = Seq::new(
            a.len(),
            |q: int| compact_arm(a[q], index_in(ot, ov[q]), index_in(st, sv[q])),
        );
        let ghost sets_view = Seq::new(ot.len(), |t: int| arm_operations(a[last_index(ov, ot[t])])->0);
        proof {
            crate::json::lemma_items_view(new_arms@);
            assert(crate::json::items_view(new_arms@) =~= new_view);
            crate::json::lemma_items_view(sets@);
            assert(crate::json::items_view(sets@) =~= sets_view);
            crate::json::lemma_items_view(schemas@);
            assert(crate::json::items_view(schemas@) =~= str_values(st));
            assert(program@ == with_member(value@, key_arms(), JsonView::Array(new_view)));
        }
        let mut fields: Vec<(String, Json)> = Vec::new();
        fields.push(("body_schemas".to_owned(), Json::Array(schemas)));
        fields.push(("encoding".to_owned(), text_json("shared_projection_program_v1")));
        fields.push(("operation_sets".to_owned(), Json::Array(sets)));
        fields.push(("program".to_owned(), program));
        proof {
            crate::json::lemma_fields_view(fields@);
            assert(crate::json::fields_view(fields@) =~= shared_value(
                with_member(value@, key_arms(), JsonView::Array(new_view)),
                sets_view,
                st,
            )->Object_0);
        }
        Json::Object(fields)
    };
    match json_len(&shared) {
        Some(n) => {
            if n < expanded_len {
                Ok(shared)
            } else {
                Ok(value)
            }
        },
        None => Ok(value),
    }
}

/// An arm of a program with no refused arm holds its material.
proof fn lemma_no_refusal_at(arms: Seq<JsonView>, i: int)
    requires
        arms_refusal(arms) is None,
        0 <= i < arms.len(),
    ensures
        arm_refusal(arms[i]) is None,
    decreases i,
{
    if i > 0 {
        assert(arms.drop_first()[i - 1] == arms[i]);
        lemma_no_refusal_at(arms.drop_first(), i - 1);
    }
}

/// What expansion reads of each arm.
pub open spec fn refs_of_arms(arms: Seq<JsonView>) -> Seq<ArmRefs> {
    arms.map_values(|arm: JsonView| arm_refs_of(arm))
}

/// Texts as JSON strings.
pub open spec fn str_values(ts: Seq<Seq<char>>) -> Seq<JsonView> {
    ts.map_values(|t: Seq<char>| JsonView::Str(t))
}

/// The contents of JSON strings.
pub open spec fn str_contents(xs: Seq<JsonView>) -> Seq<Seq<char>> {
    xs.map_values(|x: JsonView| x->Str_0)
}

/// The compact texts of values.
pub open spec fn texts_of(xs: Seq<JsonView>) -> Seq<Seq<char>> {
    xs.map_values(|x: JsonView| json_text(x))
}

/// A field name of the shared wrapper.
pub open spec fn is_shared_key(k: Seq<char>) -> bool {
    k == key_body_schemas() || k == key_encoding() || k == key_operation_sets() || k == key_program()
}

/// The shared wrapper's encoding, program, operation sets and body schemas:
/// an object with exactly those fields, the encoding a string, the sets an
/// array and the schemas an array of strings.
pub open spec fn shared_parts(v: JsonView) -> Option<
    (Seq<char>, JsonView, Seq<JsonView>, Seq<Seq<char>>),
> {
    match v {
        JsonView::Object(fs) => if forall|i: int| 0 <= i < fs.len() ==> #[trigger] is_shared_key(fs[i].0) {
            match (
                crate::json::field(fs, key_encoding()),
                crate::json::field(fs, key_program()),
                crate::json::field(fs, key_operation_sets()),
                crate::json::field(fs, key_body_schemas()),
            ) {
                (
                    Some(JsonView::Str(e)),
                    Some(p),
                    Some(JsonView::Array(os)),
                    Some(JsonView::Array(ss)),
                ) => if forall|j: int| 0 <= j < ss.len() ==> #[trigger] ss[j] is Str {
                    Some((e, p, os, str_contents(ss)))
                } else {
                    None
                },
                _ => None,
            }
        } else {
            None
        },
        _ => None,
    }
}

/// What expansion reads of one compact arm.
pub open spec fn arm_refs_of(arm: JsonView) -> ArmRefs {
    let sel = member(arm, key_selector());
    ArmRefs {
        operations_ref: match member(arm, key_operations_ref()) {
            Some(x) => as_index(x),
            None => None,
        },
        body_schema_ref: match sel {
            Some(s) => match member(s, key_body_schema_ref()) {
                Some(x) => as_index(x),
                None => None,
            },
            None => None,
        },
        has_inline: member(arm, key_operations()) is Some || (sel is Some && member(
            sel->0,
            key_body_schema(),
        ) is Some),
    }
}

/// The budgeted JSON lengths of `xs`, when every one is within budget.
pub open spec fn lens_of(xs: Seq<JsonView>) -> Option<Seq<usize>> {
    if forall|i: int| 0 <= i < xs.len() ==> #[trigger] budget_len(xs[i]) is Some {
        Some(Seq::new(xs.len(), |i: int| budget_len(xs[i])->0))
    } else {
        None
    }
}

/// What `plan_expansion` gives: every arm's references, or the error of the
/// first arm that does not resolve or takes the program over budget.
pub open spec fn plan_spec(
    program_len: nat,
    arms: Seq<ArmRefs>,
    operation_lens: Seq<usize>,
    schema_lens: Seq<usize>,
) -> Result<Seq<(usize, usize)>, ExpandError> {
    if arms_ok(program_len, arms, operation_lens, schema_lens, arms.len()) {
        Ok(
            Seq::new(
                arms.len(),
                |k: int| (arms[k].operations_ref->0 as usize, arms[k].body_schema_ref->0 as usize),
            ),
        )
    } else {
        let n = choose|n: nat|
            n < arms.len() && arms_ok(program_len, arms, operation_lens, schema_lens, n)
                && stop_error(program_len, arms, operation_lens, schema_lens, n) is Some;
        Err(stop_error(program_len, arms, operation_lens, schema_lens, n)->0)
    }
}

/// Tables and references are exactly what compaction would write.
pub open spec fn canonical_refs(
    keys: Seq<Seq<char>>,
    schemas: Seq<Seq<char>>,
    refs: Seq<(usize, usize)>,
) -> bool {
    &&& is_table_of(keys, Seq::new(refs.len(), |k: int| keys[refs[k].0 as int]))
    &&& is_table_of(schemas, Seq::new(refs.len(), |k: int| schemas[refs[k].1 as int]))
}

/// A compact arm with its references replaced by the referenced material.
pub open spec fn expand_arm(arm: JsonView, operations: JsonView, schema: Seq<char>) -> JsonView {
    match arm {
        JsonView::Object(fs) => {
            let fs1 = set_field(without(fs, key_operations_ref()), key_operations(), operations);
            match member(arm, key_selector()) {
                Some(JsonView::Object(sf)) => JsonView::Object(
                    set_field(
                        fs1,
                        key_selector(),
                        JsonView::Object(
                            set_field(
                                without(sf, key_body_schema_ref()),
                                key_body_schema(),
                                JsonView::Str(schema),
                            ),
                        ),
                    ),
                ),
                _ => JsonView::Object(fs1),
            }
        },
        _ => arm,
    }
}

/// Expansion of a shared wrapper whose parts were read.
#[verifier::opaque]
pub open spec fn expand_shared(
    value: JsonView,
    program: JsonView,
    arms: Seq<JsonView>,
    sets: Seq<JsonView>,
    schemas: Seq<Seq<char>>,
) -> Result<JsonView, ProgramError> {
    match (
        budget_len(program),
        lens_of(sets),
        lens_of(str_values(schemas)),
    ) {
        (Some(pl), Some(ol), Some(sl)) => match plan_spec(
            pl as nat,
            refs_of_arms(arms),
            ol,
            sl,
        ) {
            Err(e) => Err(ProgramError::Expand(e)),
            Ok(refs) => if !canonical_refs(
                texts_of(sets),
                schemas,
                refs,
            ) {
                Err(ProgramError::Expand(ExpandError::Noncanonical))
            } else {
                let expanded = with_member(
                    program,
                    key_arms(),
                    JsonView::Array(
                        Seq::new(
                            arms.len(),
                            |k: int|
                                expand_arm(arms[k], sets[refs[k].0 as int], schemas[refs[k].1 as int]),
                        ),
                    ),
                );
                match compact_spec(expanded) {
                    Err(e) => Err(e),
                    Ok(c) => if c == value {
                        Ok(expanded)
                    } else {
                        Err(ProgramError::Expand(ExpandError::Noncanonical))
                    },
                }
            },
        },
        _ => Err(ProgramError::ExceedsBudget),
    }
}

/// What expansion gives for `value`: an expanded value as it is, or the
/// original program of a shared wrapper.
pub open spec fn expand_spec(value: JsonView) -> Result<JsonView, ProgramError> {
    if budget_len(value) is None {
        Err(ProgramError::ExceedsBudget)
    } else if member(value, key_encoding()) is None {
        Ok(value)
    } else {
        match shared_parts(value) {
            None => Err(ProgramError::MalformedShared),
            Some(parts) => if parts.0 != shared_encoding() {
                Err(ProgramError::UnsupportedEncoding)
            } else if exists|i: int| 0 <= i < parts.2.len() && !(#[trigger] parts.2[i] is Array) {
                Err(ProgramError::OperationSetNotArray)
            } else {
                match member(parts.1, key_arms()) {
                    Some(JsonView::Array(arms)) => expand_shared(value, parts.1, arms, parts.2, parts.3),
                    _ => Err(ProgramError::MissingArms),
                }
            },
        }
    }
}

fn is_shared_name(k: &str) -> (r: bool)
    ensures
        r == is_shared_key(k@),
{
    str_eq(k, "body_schemas") || str_eq(k, "encoding") || str_eq(k, "operation_sets") || str_eq(
        k,
        "program",
    )
}

/// The parts of a shared wrapper (see `shared_parts`).
fn shared_fields(value: &Json) -> (r: Option<(&String, &Json, &Vec<Json>, Vec<String>)>)
    ensures
        match r {
            Some(p) => shared_parts(value@) == Some(
                (p.0@, p.1@, crate::json::items_view(p.2@), names_view(p.3@)),
            ),
            None => shared_parts(value@) is None,
        },
{
    let fs = match value {
        Json::Object(fs) => fs,
        _ => {
            return None;
        },
    };
    let ghost f = crate::json::fields_view(fs@);
    proof {
        crate::json::lemma_fields_view(fs@);
    }
    let mut i: usize = 0;
    while i < fs.len()
        invariant
            i <= fs@.len(),
            value@ == JsonView::Object(f),
            f == crate::json::fields_view(fs@),
            f.len() == fs@.len(),
            forall|q: int|
                0 <= q < fs@.len() ==> #[trigger] f[q] == (fs@[q].0@, crate::json::json_view(fs@[q].1)),
            forall|q: int| 0 <= q < i ==> #[trigger] is_shared_key(f[q].0),
        decreases fs.len() - i,
    {
        if !is_shared_name(fs[i].0.as_str()) {
            assert(!is_shared_key(f[i as int].0));
            return None;
        }
        i = i + 1;
    }
    let encoding = match member_of(value, "encoding") {
        Some(Json::Str(e)) => e,
        _ => {
            return None;
        },
    };
    let program = match member_of(value, "program") {
        Some(p) => p,
        None => {
            return None;
        },
    };
    let sets = match member_of(value, "operation_sets") {
        Some(Json::Array(a)) => a,
        _ => {
            return None;
        },
    };
    let ss = match member_of(value, "body_schemas") {
        Some(Json::Array(a)) => a,
        _ => {
            return None;
        },
    };
    let ghost sv = crate::json::items_view(ss@);
    proof {
        crate::json::lemma_items_view(ss@);
        assert(forall|q: int| 0 <= q < f.len() ==> #[trigger] is_shared_key(f[q].0));
    }
    let mut schemas: Vec<String> = Vec::new();
    let mut j: usize = 0;
    while j < ss.len()
        invariant
            j <= ss@.len(),
            (exists|q: int| 0 <= q < sv.len() && !(#[trigger] sv[q] is Str)) ==> shared_parts(value@) is None,
            (forall|q: int| 0 <= q < sv.len() ==> #[trigger] sv[q] is Str) ==> shared_parts(value@) == Some(
                (encoding@, program@, crate::json::items_view(sets@), str_contents(sv)),
            ),
            sv == crate::json::items_view(ss@),
            sv.len() == ss@.len(),
            forall|q: int| 0 <= q < ss@.len() ==> #[trigger] sv[q] == ss@[q]@,
            schemas@.len() == j,
            forall|q: int| 0 <= q < j ==> #[trigger] sv[q] is Str && schemas@[q]@ == sv[q]->Str_0,
        decreases ss.len() - j,
    {
        match &ss[j] {
            Json::Str(t) => {
                schemas.push(t.clone());
            },
            _ => {
                assert(!(sv[j as int] is Str));
                return None;
            },
        }
        j = j + 1;
    }
    proof {
        assert(names_view(schemas@) =~= str_contents(sv));
    }
    Some((encoding, program, sets, schemas))
}

/// What expansion reads of one compact arm.
fn arm_refs_json(arm: &Json) -> (r: ArmRefs)
    ensures
        r == arm_refs_of(arm@),
{
    let operations_ref = match member_of(arm, "operations_ref") {
        Some(x) => read_index(x),
        None => None,
    };
    let sel = member_of(arm, "selector");
    let body_schema_ref = match sel {
        Some(s) => match member_of(s, "body_schema_ref") {
            Some(x) => read_index(x),
            None => None,
        },
        None => None,
    };
    let has_inline = member_of(arm, "operations").is_some() || match sel {
        Some(s) => member_of(s, "body_schema").is_some(),
        None => false,
    };
    ArmRefs { operations_ref, body_schema_ref, has_inline }
}

/// Budgeted JSON lengths of `xs` (see `lens_of`).
fn lens_json(xs: &Vec<Json>) -> (r: Option<Vec<usize>>)
    ensures
        match r {
            Some(v) => lens_of(crate::json::items_view(xs@)) == Some(v@),
            None => lens_of(crate::json::items_view(xs@)) is None,
        },
{
    let ghost a = crate::json::items_view(xs@);
    proof {
        crate::json::lemma_items_view(xs@);
    }
    let mut out: Vec<usize> = Vec::new();
    let mut i: usize = 0;
    while i < xs.len()
        invariant
            i <= xs@.len(),
            a == crate::json::items_view(xs@),
            a.len() == xs@.len(),
            forall|q: int| 0 <= q < xs@.len() ==> #[trigger] a[q] == xs@[q]@,
            out@.len() == i,
            forall|q: int| 0 <= q < i ==> #[trigger] budget_len(a[q]) == Some(out@[q]),
        decreases xs.len() - i,
    {
        match json_len(&xs[i]) {
            Some(n) => {
                out.push(n);
            },
            None => {
                assert(budget_len(a[i as int]) is None);
                return None;
            },
        }
        i = i + 1;
    }
    proof {
        assert(out@ =~= Seq::new(a.len(), |q: int| budget_len(a[q])->0));
    }
    Some(out)
}

/// The first arm that stops expansion is unique.
proof fn lemma_stop_unique(
    program_len: nat,
    arms: Seq<ArmRefs>,
    operation_lens: Seq<usize>,
    schema_lens: Seq<usize>,
    n1: nat,
    n2: nat,
)
    requires
        n1 < arms.len(),
        n2 < arms.len(),
        arms_ok(program_len, arms, operation_lens, schema_lens, n1),
        arms_ok(program_len, arms, operation_lens, schema_lens, n2),
        stop_error(program_len, arms, operation_lens, schema_lens, n1) is Some,
        stop_error(program_len, arms, operation_lens, schema_lens, n2) is Some,
    ensures
        n1 == n2,
{
    if n1 < n2 {
        assert(arm_error(arms[n1 as int], operation_lens.len(), schema_lens.len()) is None);
    }
    if n2 < n1 {
        assert(arm_error(arms[n2 as int], operation_lens.len(), schema_lens.len()) is None);
    }
}

/// A compact arm with its references replaced by the given material.
fn expand_arm_json(arm: &Json, operations: &Json, schema: &String) -> (r: Json)
    ensures
        r@ == expand_arm(arm@, operations@, schema@),
{
    match arm {
        Json::Object(fs) => {
            let fs0 = without_member(fs, "operations_ref");
            let fs1 = set_member(&fs0, "operations", operations);
            match member_of(arm, "selector") {
                Some(Json::Object(sf)) => {
                    let sf0 = without_member(sf, "body_schema_ref");
                    let sf1 = set_member(&sf0, "body_schema", &Json::Str(schema.clone()));
                    let sel = Json::Object(sf1);
                    Json::Object(set_member(&fs1, "selector", &sel))
                },
                _ => Json::Object(fs1),
            }
        },
        _ => duplicate(arm),
    }
}

/// Expand a modeled program: a value without `encoding` is an expanded
/// program and comes back as it is. A shared wrapper is read, its references
/// resolved within the budget before any material is copied, its tables
/// checked for canonical order, and the expansion accepted only when
/// compacting it gives back the wrapper. For a well-formed program,
/// `lemma_program_round_trip` shows that expanding what compaction returns
/// gives back exactly the program.
#[verifier::spinoff_prover]
#[verifier::rlimit(60)]
pub fn expand_projection_program_contract(value: &Json) -> (r: Result<Json, ProgramError>)
    ensures
        result_view(r) == expand_spec(value@),
        r is Ok && member(value@, key_encoding()) is Some ==> compact_spec(r->Ok_0@) == Ok::<
            JsonView,
            ProgramError,
        >(value@),
{
    proof {
        reveal(expand_shared);
    }
    if json_len(value).is_none() {
        return Err(ProgramError::ExceedsBudget);
    }
    if member_of(value, "encoding").is_none() {
        return Ok(duplicate(value));
    }
    let (encoding, program, sets, schemas) = match shared_fields(value) {
        Some(p) => p,
        None => {
            return Err(ProgramError::MalformedShared);
        },
    };
    let ghost sv = crate::json::items_view(sets@);
    let ghost schv = names_view(schemas@);
    proof {
        crate::json::lemma_items_view(sets@);
    }
    if !str_eq(encoding.as_str(), "shared_projection_program_v1") {
        return Err(ProgramError::UnsupportedEncoding);
    }
    let mut i: usize = 0;
    while i < sets.len()
        invariant
            i <= sets@.len(),
            (exists|q: int| 0 <= q < sv.len() && !(#[trigger] sv[q] is Array)) ==> expand_spec(value@)
                == Err::<JsonView, ProgramError>(ProgramError::OperationSetNotArray),
            sv == crate::json::items_view(sets@),
            sv.len() == sets@.len(),
            forall|q: int| 0 <= q < sets@.len() ==> #[trigger] sv[q] == sets@[q]@,
            forall|q: int| 0 <= q < i ==> #[trigger] sv[q] is Array,
        decreases sets.len() - i,
    {
        match &sets[i] {
            Json::Array(_) => {},
            _ => {
                assert(!(sv[i as int] is Array));
                return Err(ProgramError::OperationSetNotArray);
            },
        }
        i = i + 1;
    }
    let arms = match member_of(program, "arms") {
        Some(Json::Array(a)) => a,
        _ => {
            return Err(ProgramError::MissingArms);
        },
    };
    let ghost av = crate::json::items_view(arms@);
    proof {
        crate::json::lemma_items_view(arms@);
    }
    let program_len = match json_len(program) {
        Some(n) => n,
        None => {
            return Err(ProgramError::ExceedsBudget);
        },
    };
    let operation_lens = match lens_json(sets) {
        Some(v) => v,
        None => {
            return Err(ProgramError::ExceedsBudget);
        },
    };
    let mut schema_values: Vec<Json> = Vec::new();
    let mut k: usize = 0;
    while k < schemas.len()
        invariant
            k <= schemas@.len(),
            schema_values@.len() == k,
            forall|q: int| 0 <= q < k ==> (#[trigger] schema_values@[q])@ == JsonView::Str(schemas@[q]@),
        decreases schemas.len() - k,
    {
        schema_values.push(Json::Str(schemas[k].clone()));
        k = k + 1;
    }
    proof {
        crate::json::lemma_items_view(schema_values@);
        assert(crate::json::items_view(schema_values@) =~= schv.map_values(
            |t: Seq<char>| JsonView::Str(t),
        ));
    }
    let schema_lens = match lens_json(&schema_values) {
        Some(v) => v,
        None => {
            return Err(ProgramError::ExceedsBudget);
        },
    };
    let mut arm_refs: Vec<ArmRefs> = Vec::new();
    let mut k: usize = 0;
    while k < arms.len()
        invariant
            k <= arms@.len(),
            av == crate::json::items_view(arms@),
            av.len() == arms@.len(),
            forall|q: int| 0 <= q < arms@.len() ==> #[trigger] av[q] == arms@[q]@,
            arm_refs@.len() == k,
            forall|q: int| 0 <= q < k ==> #[trigger] arm_refs@[q] == arm_refs_of(av[q]),
        decreases arms.len() - k,
    {
        arm_refs.push(arm_refs_json(&arms[k]));
        k = k + 1;
    }
    let ghost rv = refs_of_arms(av);
    proof {
        assert(arm_refs@ =~= rv);
    }
    let refs = match plan_expansion(program_len, &arm_refs, &operation_lens, &schema_lens) {
        Ok(refs) => refs,
        Err(e) => {
            proof {
                if arms_ok(program_len as nat, rv, operation_lens@, schema_lens@, rv.len()) {
                    let n = choose|n: nat|
                        n < rv.len() && arms_ok(program_len as nat, rv, operation_lens@, schema_lens@, n)
                            && stop_error(program_len as nat, rv, operation_lens@, schema_lens@, n)
                            == Some(e);
                    assert(arm_error(rv[n as int], operation_lens@.len(), schema_lens@.len()) is None);
                }
                let n = choose|n: nat|
                    n < rv.len() && arms_ok(program_len as nat, rv, operation_lens@, schema_lens@, n)
                        && stop_error(program_len as nat, rv, operation_lens@, schema_lens@, n)
                        == Some(e);
                let m = choose|n: nat|
                    n < rv.len() && arms_ok(program_len as nat, rv, operation_lens@, schema_lens@, n)
                        && stop_error(program_len as nat, rv, operation_lens@, schema_lens@, n) is Some;
                lemma_stop_unique(program_len as nat, rv, operation_lens@, schema_lens@, n, m);
            }
            return Err(ProgramError::Expand(e));
        },
    };
    proof {
        assert(refs@ =~= plan_spec(program_len as nat, rv, operation_lens@, schema_lens@)->Ok_0);
    }
    let mut keys: Vec<String> = Vec::new();
    let mut k: usize = 0;
    while k < sets.len()
        invariant
            k <= sets@.len(),
            keys@.len() == k,
            forall|q: int| 0 <= q < k ==> (#[trigger] keys@[q])@ == json_text(sets@[q]@),
        decreases sets.len() - k,
    {
        keys.push(json_string(&sets[k]));
        k = k + 1;
    }
    proof {
        assert(names_view(keys@) =~= texts_of(sv));
        assert forall|q: int| 0 <= q < refs@.len() implies (#[trigger] refs@[q]).0 < keys@.len()
            && refs@[q].1 < schemas@.len() by {
            assert(arm_error(rv[q], operation_lens@.len(), schema_lens@.len()) is None);
        }
    }
    let canonical = is_canonical(&keys, &schemas, &refs);
    proof {
        let kv = names_view(keys@);
        assert(Seq::new(refs@.len(), |q: int| keys@[refs@[q].0 as int]@) =~= Seq::new(
            refs@.len(),
            |q: int| kv[refs@[q].0 as int],
        ));
        assert(Seq::new(refs@.len(), |q: int| schemas@[refs@[q].1 as int]@) =~= Seq::new(
            refs@.len(),
            |q: int| schv[refs@[q].1 as int],
        ));
    }
    if !canonical {
        return Err(ProgramError::Expand(ExpandError::Noncanonical));
    }
    let mut new_arms: Vec<Json> = Vec::new();
    let mut k: usize = 0;
    while k < arms.len()
        invariant
            k <= arms@.len(),
            av == crate::json::items_view(arms@),
            av.len() == arms@.len(),
            forall|q: int| 0 <= q < arms@.len() ==> #[trigger] av[q] == arms@[q]@,
            refs@.len() == arms@.len(),
            forall|q: int|
                0 <= q < refs@.len() ==> (#[trigger] refs@[q]).0 < sets@.len() && refs@[q].1
                    < schemas@.len(),
            new_arms@.len() == k,
            forall|q: int|
                0 <= q < k ==> (#[trigger] new_arms@[q])@ == expand_arm(
                    av[q],
                    sv[refs@[q].0 as int],
                    schv[refs@[q].1 as int],
                ),
            sv == crate::json::items_view(sets@),
            forall|q: int| 0 <= q < sets@.len() ==> #[trigger] sv[q] == sets@[q]@,
            schv == names_view(schemas@),
        decreases arms.len() - k,
    {
        let (o, t) = refs[k];
        new_arms.push(expand_arm_json(&arms[k], &sets[o], &schemas[t]));
        k = k + 1;
    }
    let ghost new_view = Seq::new(
        av.len(),
        |q: int| expand_arm(av[q], sv[refs@[q].0 as int], schv[refs@[q].1 as int]),
    );
    proof {
        crate::json::lemma_items_view(new_arms@);
        assert(crate::json::items_view(new_arms@) =~= new_view);
    }
    let arms_json = Json::Array(new_arms);
    let expanded = match program {
        Json::Object(fs) => Json::Object(set_member(fs, "arms", &arms_json)),
        _ => duplicate(program),
    };
    let again = match compact_projection_program_contract(duplicate(&expanded)) {
        Ok(c) => c,
        Err(e) => {
            return Err(e);
        },
    };
    if !json_eq(&again, value) {
        return Err(ProgramError::Expand(ExpandError::Noncanonical));
    }
    Ok(expanded)
}

/// Expansion inverts compaction on shared values: when a shared wrapper
/// expands, compacting the expansion gives back exactly that wrapper, and a
/// value without an encoding expands to itself.
pub proof fn lemma_expansion_inverts_compaction(value: JsonView)
    requires
        expand_spec(value) is Ok,
    ensures
        member(value, key_encoding()) is Some ==> compact_spec(expand_spec(value)->Ok_0) == Ok::<
            JsonView,
            ProgramError,
        >(value),
        member(value, key_encoding()) is None ==> expand_spec(value) == Ok::<JsonView, ProgramError>(
            value,
        ),
{
    reveal(expand_shared);
}

impl ExpandError {
    /// Why expansion stopped, in words.
    pub fn reason(&self) -> (r: &'static str)
        ensures
            r@ == expand_reason(*self),
    {
        match self {
            ExpandError::InvalidOperationsReference => "invalid operations reference",
            ExpandError::InvalidBodySchemaReference => "invalid body schema reference",
            ExpandError::OperationsReferenceOutOfBounds => "operations reference out of bounds",
            ExpandError::BodySchemaReferenceOutOfBounds => "body schema reference out of bounds",
            ExpandError::ReferenceAndInlineMaterial => "reference and inline material cannot coexist",
            ExpandError::ExpandedProgramExceedsBudget => "expanded program exceeds JSON byte budget",
            ExpandError::Noncanonical => "noncanonical tables or references",
        }
    }
}

pub open spec fn expand_reason(e: ExpandError) -> Seq<char> {
    match e {
        ExpandError::InvalidOperationsReference => "invalid operations reference"@,
        ExpandError::InvalidBodySchemaReference => "invalid body schema reference"@,
        ExpandError::OperationsReferenceOutOfBounds => "operations reference out of bounds"@,
        ExpandError::BodySchemaReferenceOutOfBounds => "body schema reference out of bounds"@,
        ExpandError::ReferenceAndInlineMaterial => "reference and inline material cannot coexist"@,
        ExpandError::ExpandedProgramExceedsBudget => "expanded program exceeds JSON byte budget"@,
        ExpandError::Noncanonical => "noncanonical tables or references"@,
    }
}

pub open spec fn program_reason(e: ProgramError) -> Seq<char> {
    match e {
        ProgramError::ExceedsBudget => "projection program exceeds JSON byte budget"@,
        ProgramError::MissingArms => "missing arms"@,
        ProgramError::MissingOperations => "missing operations"@,
        ProgramError::MissingBodySchema => "missing selector body schema"@,
        ProgramError::MalformedShared => "malformed shared program wrapper"@,
        ProgramError::UnsupportedEncoding => "unsupported encoding"@,
        ProgramError::OperationSetNotArray => "operation sets must be arrays"@,
        ProgramError::Expand(x) => expand_reason(x),
    }
}

impl ProgramError {
    /// Why the program was refused, in words.
    pub fn reason(&self) -> (r: &'static str)
        ensures
            r@ == program_reason(*self),
    {
        match self {
            ProgramError::ExceedsBudget => "projection program exceeds JSON byte budget",
            ProgramError::MissingArms => "missing arms",
            ProgramError::MissingOperations => "missing operations",
            ProgramError::MissingBodySchema => "missing selector body schema",
            ProgramError::MalformedShared => "malformed shared program wrapper",
            ProgramError::UnsupportedEncoding => "unsupported encoding",
            ProgramError::OperationSetNotArray => "operation sets must be arrays",
            ProgramError::Expand(x) => x.reason(),
        }
    }
}

spec fn lt_prefix(t: Seq<Seq<char>>, x: Seq<char>) -> nat
    decreases t.len(),
{
    if t.len() == 0 {
        0
    } else if text_lt(t[0], x) {
        1 + lt_prefix(t.drop_first(), x)
    } else {
        0
    }
}

proof fn lemma_lt_prefix(t: Seq<Seq<char>>, x: Seq<char>)
    ensures
        lt_prefix(t, x) <= t.len(),
        forall|q: int| 0 <= q < lt_prefix(t, x) ==> text_lt(#[trigger] t[q], x),
        lt_prefix(t, x) < t.len() ==> !text_lt(t[lt_prefix(t, x) as int], x),
    decreases t.len(),
{
    if t.len() > 0 && text_lt(t[0], x) {
        let r = t.drop_first();
        lemma_lt_prefix(r, x);
        assert forall|q: int| 0 <= q < lt_prefix(t, x) implies text_lt(#[trigger] t[q], x) by {
            if q > 0 {
                assert(t[q] == r[q - 1]);
            }
        }
        if lt_prefix(t, x) < t.len() {
            assert(t[lt_prefix(t, x) as int] == r[lt_prefix(r, x) as int]);
        }
    }
}

/// Every list of texts has a canonical table.
pub proof fn lemma_table_exists(keys: Seq<Seq<char>>)
    ensures
        is_table_of(table_of(keys), keys),
    decreases keys.len(),
{
    if keys.len() == 0 {
        assert(is_table_of(Seq::<Seq<char>>::empty(), keys));
    } else {
        let init = keys.drop_last();
        let x = keys.last();
        lemma_table_exists(init);
        let t = table_of(init);
        if t.contains(x) {
            assert forall|i: int| 0 <= i < keys.len() implies t.contains(#[trigger] keys[i]) by {
                if i < keys.len() - 1 {
                    assert(keys[i] == init[i]);
                }
            }
            assert forall|j: int| 0 <= j < t.len() implies keys.contains(#[trigger] t[j]) by {
                assert(init.contains(t[j]));
                let i = choose|i: int| 0 <= i < init.len() && init[i] == t[j];
                assert(keys[i] == t[j]);
            }
            assert(is_table_of(t, keys));
        } else {
            lemma_lt_prefix(t, x);
            let p = lt_prefix(t, x) as int;
            if p < t.len() {
                assert(t[p] != x);
                lemma_text_lt_total(t[p], x);
            }
            lemma_insert_sorted(t, p, x);
            let t2 = t.insert(p, x);
            t.insert_ensures(p, x);
            assert forall|i: int| 0 <= i < keys.len() implies t2.contains(#[trigger] keys[i]) by {
                if i < keys.len() - 1 {
                    assert(keys[i] == init[i]);
                    assert(t.contains(init[i]));
                    let j = choose|j: int| 0 <= j < t.len() && t[j] == init[i];
                    if j < p {
                        assert(t2[j] == keys[i]);
                    } else {
                        assert(t2[j + 1] == keys[i]);
                    }
                } else {
                    assert(t2[p] == x);
                }
            }
            assert forall|j: int| 0 <= j < t2.len() implies keys.contains(#[trigger] t2[j]) by {
                if j == p {
                    assert(keys[keys.len() - 1] == x);
                } else {
                    let w = if j < p { j } else { j - 1 };
                    assert(t2[j] == t[w]);
                    assert(init.contains(t[w]));
                    let i = choose|i: int| 0 <= i < init.len() && init[i] == t[w];
                    assert(keys[i] == t[w]);
                }
            }
            assert(is_table_of(t2, keys));
        }
    }
}

/// A canonical table is no longer than the list it was made from.
pub proof fn lemma_table_len(t: Seq<Seq<char>>, keys: Seq<Seq<char>>)
    requires
        is_table_of(t, keys),
    ensures
        t.len() <= keys.len(),
{
    assert(t.no_duplicates()) by {
        assert forall|i: int, j: int| 0 <= i < t.len() && 0 <= j < t.len() && i != j implies t[i]
            != t[j] by {
            if i < j {
                assert(text_lt(t[i], t[j]));
            } else {
                assert(text_lt(t[j], t[i]));
            }
            lemma_text_lt_irreflexive(t[i]);
        }
    }
    t.unique_seq_to_set();
    vstd::seq_lib::seq_to_set_is_finite(keys);
    assert(t.to_set().subset_of(keys.to_set())) by {
        assert forall|x: Seq<char>| t.to_set().contains(x) implies keys.to_set().contains(x) by {
            let j = choose|j: int| 0 <= j < t.len() && t[j] == x;
            assert(keys.contains(t[j]));
        }
    }
    vstd::set_lib::lemma_len_subset(t.to_set(), keys.to_set());
    keys.lemma_cardinality_of_set();
}

/// The member names compaction reads and writes are distinct.
pub proof fn lemma_program_keys_distinct()
    ensures
        key_arms() != key_selector(),
        key_arms() != key_operations(),
        key_arms() != key_operations_ref(),
        key_selector() != key_operations(),
        key_selector() != key_operations_ref(),
        key_operations() != key_operations_ref(),
        key_body_schema() != key_body_schema_ref(),
        key_body_schemas() != key_encoding(),
        key_body_schemas() != key_operation_sets(),
        key_body_schemas() != key_program(),
        key_encoding() != key_operation_sets(),
        key_encoding() != key_program(),
        key_operation_sets() != key_program(),
{
    reveal_strlit("arms");
    reveal_strlit("selector");
    reveal_strlit("operations");
    reveal_strlit("operations_ref");
    reveal_strlit("body_schema");
    reveal_strlit("body_schema_ref");
    reveal_strlit("body_schemas");
    reveal_strlit("encoding");
    reveal_strlit("operation_sets");
    reveal_strlit("program");
    assert(key_arms().len() == 4);
    assert(key_selector().len() == 8);
    assert(key_operations().len() == 10);
    assert(key_operations_ref().len() == 14);
    assert(key_body_schema().len() == 11);
    assert(key_body_schema_ref().len() == 15);
    assert(key_body_schemas().len() == 12);
    assert(key_encoding().len() == 8);
    assert(key_operation_sets().len() == 14);
    assert(key_program().len() == 7);
    assert(key_operation_sets()[0] != key_program()[0]);
}

/// An arm the round trip holds for: an object with names in byte order and
/// no `operations_ref`, whose selector is an object with names in byte
/// order and no `body_schema_ref`.
pub open spec fn arm_well_formed(arm: JsonView) -> bool {
    &&& arm is Object
    &&& keys_sorted(arm->Object_0)
    &&& member(arm, key_operations_ref()) is None
    &&& member(arm, key_selector()) is Some
    &&& member(arm, key_selector())->0 is Object
    &&& keys_sorted(member(arm, key_selector())->0->Object_0)
    &&& member(member(arm, key_selector())->0, key_body_schema_ref()) is None
}

/// Expanding a compacted arm with its own material gives the arm back.
pub proof fn lemma_arm_round_trip(arm: JsonView, operations_ref: int, schema_ref: int)
    requires
        arm_well_formed(arm),
        arm_refusal(arm) is None,
    ensures
        expand_arm(
            compact_arm(arm, operations_ref, schema_ref),
            arm_operations(arm)->0,
            arm_schema(arm)->0,
        ) == arm,
{
    lemma_program_keys_distinct();
    let afs = arm->Object_0;
    let sel = member(arm, key_selector())->0;
    let sfs = sel->Object_0;
    let ops = key_operations();
    let oref = key_operations_ref();
    let sk = key_selector();
    let bs = key_body_schema();
    let bsref = key_body_schema_ref();
    let n_o = index_json(operations_ref);
    let n_s = index_json(schema_ref);
    // compaction
    let a0 = without(afs, ops);
    let fs1 = set_field(a0, oref, n_o);
    let s0 = without(sfs, bs);
    let sf1 = set_field(s0, bsref, n_s);
    let sel1 = JsonView::Object(sf1);
    let bfs = set_field(fs1, sk, sel1);
    lemma_without(afs, ops);
    lemma_set_field(a0, oref, n_o);
    lemma_without(sfs, bs);
    lemma_set_field(s0, bsref, n_s);
    lemma_set_field(fs1, sk, sel1);
    assert(member(arm, sk) == Some(JsonView::Object(sfs)));
    assert(compact_arm(arm, operations_ref, schema_ref) == JsonView::Object(bfs));
    // expansion
    let v = arm_operations(arm)->0;
    let t = arm_schema(arm)->0;
    let c0 = without(bfs, oref);
    let c1 = set_field(c0, ops, v);
    let e0 = without(sf1, bsref);
    let e1 = set_field(e0, bs, JsonView::Str(t));
    let sel2 = JsonView::Object(e1);
    let d = set_field(c1, sk, sel2);
    lemma_without(bfs, oref);
    lemma_set_field(c0, ops, v);
    lemma_without(sf1, bsref);
    lemma_set_field(e0, bs, JsonView::Str(t));
    lemma_set_field(c1, sk, sel2);
    assert(member(JsonView::Object(bfs), sk) == Some(sel1));
    assert(expand_arm(JsonView::Object(bfs), v, t) == JsonView::Object(d));
    // the selector comes back
    assert forall|k: Seq<char>| field(e1, k) == field(sfs, k) by {
        if k == bs {
            assert(field(sfs, bs) == Some(JsonView::Str(t)));
        } else if k == bsref {
        } else {
            assert(field(e1, k) == field(e0, k));
            assert(field(e0, k) == field(sf1, k));
            assert(field(sf1, k) == field(s0, k));
        }
    }
    lemma_sorted_fields_equal(e1, sfs);
    // the arm comes back
    assert forall|k: Seq<char>| field(d, k) == field(afs, k) by {
        if k == sk {
            assert(field(afs, sk) == Some(sel));
        } else if k == ops {
            assert(field(afs, ops) == Some(v));
        } else if k == oref {
            assert(field(d, k) == field(c1, k));
            assert(field(c1, k) == field(c0, k));
        } else {
            assert(field(d, k) == field(c1, k));
            assert(field(c1, k) == field(c0, k));
            assert(field(c0, k) == field(bfs, k));
            assert(field(bfs, k) == field(fs1, k));
            assert(field(fs1, k) == field(a0, k));
        }
    }
    lemma_sorted_fields_equal(d, afs);
}

/// A program the round trip holds for: an object with names in byte order
/// and no `encoding`, whose arms are well formed, and whose arms with the
/// same operation text hold the same operation list (as values read from
/// serde_json, whose maps keep names in byte order, do).
pub open spec fn program_well_formed(p: JsonView) -> bool {
    &&& p is Object
    &&& keys_sorted(p->Object_0)
    &&& member(p, key_encoding()) is None
    &&& member(p, key_arms()) is Some
    &&& member(p, key_arms())->0 is Array
    &&& forall|k: int|
        0 <= k < member(p, key_arms())->0->Array_0.len() ==> arm_well_formed(
            #[trigger] member(p, key_arms())->0->Array_0[k],
        )
    &&& forall|i: int, j: int|
        #![trigger member(p, key_arms())->0->Array_0[i], member(p, key_arms())->0->Array_0[j]]
        0 <= i < member(p, key_arms())->0->Array_0.len() && 0 <= j < member(
            p,
            key_arms(),
        )->0->Array_0.len() && arm_operations(member(p, key_arms())->0->Array_0[i]) is Some
            && arm_operations(member(p, key_arms())->0->Array_0[j]) is Some && json_text(
            arm_operations(member(p, key_arms())->0->Array_0[i])->0,
        ) == json_text(arm_operations(member(p, key_arms())->0->Array_0[j])->0) ==> arm_operations(
            member(p, key_arms())->0->Array_0[i],
        ) == arm_operations(member(p, key_arms())->0->Array_0[j])
}

/// The JSON length after expanding arms `0..=k` is within the budget.
pub open spec fn prefix_within_budget(
    program_len: nat,
    arms: Seq<ArmRefs>,
    operation_lens: Seq<usize>,
    schema_lens: Seq<usize>,
    k: int,
) -> bool {
    expanded_len(program_len, arms, operation_lens, schema_lens, (k + 1) as nat)
        <= MAX_MANIFEST_JSON_BYTES
}

/// Expanding shared value `c` arm by arm keeps the running JSON length, as
/// expansion counts it, within the budget.
pub open spec fn expansion_within_budget(c: JsonView) -> bool {
    let parts = shared_parts(c)->0;
    let arms = member(parts.1, key_arms())->0->Array_0;
    let pl = budget_len(parts.1)->0 as nat;
    let ol = lens_of(parts.2)->0;
    let sl = lens_of(str_values(parts.3))->0;
    shared_parts(c) is Some && member(parts.1, key_arms()) is Some && member(
        parts.1,
        key_arms(),
    )->0 is Array && budget_len(parts.1) is Some && lens_of(parts.2) is Some && lens_of(
        str_values(parts.3),
    ) is Some ==> forall|k: int|
        0 <= k < arms.len() ==> #[trigger] prefix_within_budget(pl, refs_of_arms(arms), ol, sl, k)
}

/// The shared wrapper reads back as the program, tables and schemas it was
/// written from.
proof fn lemma_shared_value_parts(program: JsonView, sets: Seq<JsonView>, st: Seq<Seq<char>>)
    ensures
        member(shared_value(program, sets, st), key_encoding()) is Some,
        shared_parts(shared_value(program, sets, st)) == Some(
            (shared_encoding(), program, sets, st),
        ),
        member(shared_value(program, sets, st), key_program()) == Some(program),
        member(shared_value(program, sets, st), key_operation_sets()) == Some(JsonView::Array(sets)),
        member(shared_value(program, sets, st), key_body_schemas()) == Some(
            JsonView::Array(str_values(st)),
        ),
{
    lemma_program_keys_distinct();
    let strs = str_values(st);
    let fs = shared_value(program, sets, st)->Object_0;
    let f1 = fs.drop_first();
    let f2 = f1.drop_first();
    let f3 = f2.drop_first();
    assert(f1 =~= seq![fs[1], fs[2], fs[3]]);
    assert(f2 =~= seq![fs[2], fs[3]]);
    assert(f3 =~= seq![fs[3]]);
    assert(f3.drop_first() =~= Seq::<(Seq<char>, JsonView)>::empty());
    assert(field(fs, key_encoding()) == field(f1, key_encoding()));
    assert(field(fs, key_encoding()) == Some(JsonView::Str(shared_encoding())));
    assert(field(fs, key_program()) == field(f1, key_program()));
    assert(field(f1, key_program()) == field(f2, key_program()));
    assert(field(f2, key_program()) == field(f3, key_program()));
    assert(field(fs, key_program()) == Some(program));
    assert(field(fs, key_operation_sets()) == field(f1, key_operation_sets()));
    assert(field(f1, key_operation_sets()) == field(f2, key_operation_sets()));
    assert(field(fs, key_operation_sets()) == Some(JsonView::Array(sets)));
    assert(field(fs, key_body_schemas()) == Some(JsonView::Array(strs)));
    assert forall|i: int| 0 <= i < fs.len() implies #[trigger] is_shared_key(fs[i].0) by {}
    assert forall|j: int| 0 <= j < strs.len() implies #[trigger] strs[j] is Str by {}
    assert(str_contents(strs) =~= st);
}

/// A text of the list has a last position in it.
proof fn lemma_last_index_exists(keys: Seq<Seq<char>>, x: Seq<char>)
    requires
        keys.contains(x),
    ensures
        0 <= last_index(keys, x) < keys.len(),
        keys[last_index(keys, x)] == x,
        forall|q: int| last_index(keys, x) < q < keys.len() ==> keys[q] != x,
    decreases keys.len(),
{
    if keys.last() == x {
        let i = keys.len() - 1;
        assert(0 <= i < keys.len() && keys[i] == x && forall|q: int| i < q < keys.len() ==> keys[q] != x);
    } else {
        let init = keys.drop_last();
        let w = choose|w: int| 0 <= w < keys.len() && keys[w] == x;
        assert(init[w] == x);
        lemma_last_index_exists(init, x);
        let i = last_index(init, x);
        assert(keys[i] == x);
        assert forall|q: int| i < q < keys.len() implies keys[q] != x by {
            if q < keys.len() - 1 {
                assert(keys[q] == init[q]);
            }
        }
        assert(0 <= i < keys.len() && keys[i] == x && forall|q: int| i < q < keys.len() ==> keys[q] != x);
    }
}

/// What expansion reads of a compacted arm: both references, and no inline
/// material.
proof fn lemma_compact_arm_refs(arm: JsonView, o: nat, s: nat)
    requires
        arm_well_formed(arm),
        o <= u64::MAX,
        s <= u64::MAX,
    ensures
        arm_refs_of(compact_arm(arm, o as int, s as int)) == (ArmRefs {
            operations_ref: Some(o as u64),
            body_schema_ref: Some(s as u64),
            has_inline: false,
        }),
{
    lemma_program_keys_distinct();
    let afs = arm->Object_0;
    let sfs = member(arm, key_selector())->0->Object_0;
    let n_o = index_json(o as int);
    let n_s = index_json(s as int);
    let a0 = without(afs, key_operations());
    let fs1 = set_field(a0, key_operations_ref(), n_o);
    let s0 = without(sfs, key_body_schema());
    let sf1 = set_field(s0, key_body_schema_ref(), n_s);
    let sel1 = JsonView::Object(sf1);
    let bfs = set_field(fs1, key_selector(), sel1);
    lemma_without(afs, key_operations());
    lemma_set_field(a0, key_operations_ref(), n_o);
    lemma_without(sfs, key_body_schema());
    lemma_set_field(s0, key_body_schema_ref(), n_s);
    lemma_set_field(fs1, key_selector(), sel1);
    assert(compact_arm(arm, o as int, s as int) == JsonView::Object(bfs));
    crate::json::lemma_decimal_reads_back(o);
    crate::json::lemma_decimal_reads_back(s);
    assert(field(bfs, key_operations_ref()) == field(fs1, key_operations_ref()));
    assert(field(bfs, key_operations()) == field(fs1, key_operations()));
    assert(field(fs1, key_operations()) == field(a0, key_operations()));
    assert(field(sf1, key_body_schema()) == field(s0, key_body_schema()));
}

/// A program within budget has fewer arms than its budget has bytes.
proof fn lemma_arm_count(p: JsonView, arms: Seq<JsonView>)
    requires
        member(p, key_arms()) == Some(JsonView::Array(arms)),
        budget_len(p) is Some,
        forall|k: int| 0 <= k < arms.len() ==> (#[trigger] arms[k]) is Object,
    ensures
        arms.len() <= MAX_MANIFEST_JSON_BYTES,
{
    assert forall|i: int| 0 <= i < arms.len() implies (#[trigger] json_text(arms[i])).len() > 0 by {
        assert(arms[i] is Object);
    }
    crate::json::lemma_items_text_len(arms);
    crate::json::lemma_blen_at_least_len(crate::json::items_text(arms));
    crate::json::lemma_blen_append(seq!['['] + crate::json::items_text(arms), seq![']']);
    crate::json::lemma_blen_append(seq!['['], crate::json::items_text(arms));
    crate::json::lemma_member_text_within(p, key_arms());
}

spec fn rt_arms(p: JsonView) -> Seq<JsonView> {
    member(p, key_arms())->0->Array_0
}

spec fn rt_ops(p: JsonView) -> Seq<Seq<char>> {
    operation_texts(rt_arms(p))
}

spec fn rt_sch(p: JsonView) -> Seq<Seq<char>> {
    schema_texts(rt_arms(p))
}

spec fn rt_o(p: JsonView, i: int) -> int {
    index_in(table_of(rt_ops(p)), rt_ops(p)[i])
}

spec fn rt_s(p: JsonView, i: int) -> int {
    index_in(table_of(rt_sch(p)), rt_sch(p)[i])
}

spec fn rt_b(p: JsonView) -> Seq<JsonView> {
    Seq::new(rt_arms(p).len(), |i: int| compact_arm(rt_arms(p)[i], rt_o(p, i), rt_s(p, i)))
}

spec fn rt_sets(p: JsonView) -> Seq<JsonView> {
    Seq::new(
        table_of(rt_ops(p)).len(),
        |t: int| arm_operations(rt_arms(p)[last_index(rt_ops(p), table_of(rt_ops(p))[t])])->0,
    )
}

spec fn rt_prog(p: JsonView) -> JsonView {
    with_member(p, key_arms(), JsonView::Array(rt_b(p)))
}

spec fn rt_strs(p: JsonView) -> Seq<JsonView> {
    str_values(table_of(rt_sch(p)))
}

proof fn lemma_rt_shared(p: JsonView)
    ensures
        shared_of(p, rt_arms(p)) == shared_value(rt_prog(p), rt_sets(p), table_of(rt_sch(p))),
{
    let arms = rt_arms(p);
    let ops = operation_texts(arms);
    let sch = schema_texts(arms);
    let ot = table_of(ops);
    let st = table_of(sch);
    assert(Seq::new(
        arms.len(),
        |i: int| compact_arm(arms[i], index_in(ot, ops[i]), index_in(st, sch[i])),
    ) =~= rt_b(p));
    assert(Seq::new(ot.len(), |t: int| arm_operations(arms[last_index(ops, ot[t])])->0)
        =~= rt_sets(p));
}

/// Tables, positions and sources of a well-formed program's compaction.
proof fn lemma_rt_tables(p: JsonView)
    requires
        program_well_formed(p),
        budget_len(p) is Some,
        arms_refusal(rt_arms(p)) is None,
    ensures
        is_table_of(table_of(rt_ops(p)), rt_ops(p)),
        is_table_of(table_of(rt_sch(p)), rt_sch(p)),
        rt_arms(p).len() <= MAX_MANIFEST_JSON_BYTES,
        table_of(rt_ops(p)).len() <= rt_arms(p).len(),
        table_of(rt_sch(p)).len() <= rt_arms(p).len(),
        forall|i: int|
            0 <= i < rt_arms(p).len() ==> arm_refusal(#[trigger] rt_arms(p)[i]) is None
                && 0 <= rt_o(p, i) < table_of(rt_ops(p)).len() && table_of(rt_ops(p))[rt_o(p, i)]
                == rt_ops(p)[i] && 0 <= rt_s(p, i) < table_of(rt_sch(p)).len() && table_of(
                rt_sch(p),
            )[rt_s(p, i)] == rt_sch(p)[i],
        forall|t: int|
            0 <= t < table_of(rt_ops(p)).len() ==> #[trigger] rt_sets(p)[t] is Array && 0
                <= last_index(rt_ops(p), table_of(rt_ops(p))[t]) < rt_arms(p).len() && rt_ops(p)[last_index(
                rt_ops(p),
                table_of(rt_ops(p))[t],
            )] == table_of(rt_ops(p))[t],
{
    let arms = rt_arms(p);
    let ops = rt_ops(p);
    let sch = rt_sch(p);
    let ot = table_of(ops);
    let st = table_of(sch);
    lemma_table_exists(ops);
    lemma_table_exists(sch);
    lemma_table_len(ot, ops);
    lemma_table_len(st, sch);
    assert forall|k: int| 0 <= k < arms.len() implies (#[trigger] arms[k]) is Object by {
        assert(arm_well_formed(arms[k]));
    }
    lemma_arm_count(p, arms);
    assert forall|i: int| 0 <= i < arms.len() implies arm_refusal(#[trigger] arms[i]) is None && 0
        <= rt_o(p, i) < ot.len() && ot[rt_o(p, i)] == ops[i] && 0 <= rt_s(p, i) < st.len()
        && st[rt_s(p, i)] == sch[i] by {
        lemma_no_refusal_at(arms, i);
        assert(ot.contains(ops[i]));
        assert(st.contains(sch[i]));
    }
    assert forall|t: int| 0 <= t < ot.len() implies #[trigger] rt_sets(p)[t] is Array && 0
        <= last_index(ops, ot[t]) < arms.len() && ops[last_index(ops, ot[t])] == ot[t] by {
        assert(ops.contains(ot[t]));
        lemma_last_index_exists(ops, ot[t]);
        lemma_no_refusal_at(arms, last_index(ops, ot[t]));
    }
}

/// The parts of the shared wrapper are within budget.
proof fn lemma_rt_lengths(p: JsonView)
    requires
        budget_len(shared_value(rt_prog(p), rt_sets(p), table_of(rt_sch(p)))) is Some,
    ensures
        budget_len(rt_prog(p)) is Some,
        lens_of(rt_sets(p)) is Some,
        lens_of(rt_strs(p)) is Some,
{
    let c = shared_value(rt_prog(p), rt_sets(p), table_of(rt_sch(p)));
    lemma_shared_value_parts(rt_prog(p), rt_sets(p), table_of(rt_sch(p)));
    crate::json::lemma_member_text_within(c, key_program());
    crate::json::lemma_member_text_within(c, key_operation_sets());
    crate::json::lemma_member_text_within(c, key_body_schemas());
    let sets = rt_sets(p);
    let strs = rt_strs(p);
    assert forall|t: int| 0 <= t < sets.len() implies #[trigger] budget_len(sets[t]) is Some by {
        crate::json::lemma_array_item_within(sets, t);
    }
    assert forall|t: int| 0 <= t < strs.len() implies #[trigger] budget_len(strs[t]) is Some by {
        crate::json::lemma_array_item_within(strs, t);
    }
}

proof fn lemma_rt_prog_arms(p: JsonView)
    requires
        program_well_formed(p),
    ensures
        member(rt_prog(p), key_arms()) == Some(JsonView::Array(rt_b(p))),
{
    lemma_set_field(p->Object_0, key_arms(), JsonView::Array(rt_b(p)));
}

spec fn rt_refs(p: JsonView) -> Seq<ArmRefs> {
    refs_of_arms(rt_b(p))
}

proof fn lemma_rt_budget(p: JsonView)
    requires
        program_well_formed(p),
        budget_len(shared_value(rt_prog(p), rt_sets(p), table_of(rt_sch(p)))) is Some,
        expansion_within_budget(shared_value(rt_prog(p), rt_sets(p), table_of(rt_sch(p)))),
    ensures
        budget_len(rt_prog(p)) is Some,
        lens_of(rt_sets(p)) is Some,
        lens_of(rt_strs(p)) is Some,
        forall|k: int|
            0 <= k < rt_arms(p).len() ==> #[trigger] prefix_within_budget(
                budget_len(rt_prog(p))->0 as nat,
                rt_refs(p),
                lens_of(rt_sets(p))->0,
                lens_of(rt_strs(p))->0,
                k,
            ),
{
    lemma_rt_lengths(p);
    lemma_rt_prog_arms(p);
    lemma_shared_value_parts(rt_prog(p), rt_sets(p), table_of(rt_sch(p)));
    assert(rt_b(p).len() == rt_arms(p).len());
    assert(str_values(table_of(rt_sch(p))) =~= rt_strs(p));
    assert(refs_of_arms(rt_b(p)) =~= rt_refs(p));
    let c = shared_value(rt_prog(p), rt_sets(p), table_of(rt_sch(p)));
    let parts = shared_parts(c)->0;
    assert(parts == (shared_encoding(), rt_prog(p), rt_sets(p), table_of(rt_sch(p))));
    assert(member(parts.1, key_arms()) == Some(JsonView::Array(rt_b(p))));
    assert(lens_of(str_values(parts.3)) == lens_of(rt_strs(p)));
    let pl = budget_len(rt_prog(p))->0 as nat;
    let ol = lens_of(rt_sets(p))->0;
    let sl = lens_of(rt_strs(p))->0;
    assert(shared_parts(c) is Some);
    assert(budget_len(parts.1) is Some);
    assert(lens_of(parts.2) is Some);
    assert(lens_of(str_values(parts.3)) is Some);
    assert(member(parts.1, key_arms())->0 is Array);
    assert(expansion_within_budget(c));
    assert(member(parts.1, key_arms())->0->Array_0 == rt_b(p));
    assert(budget_len(parts.1)->0 as nat == pl);
    assert(lens_of(parts.2)->0 == ol);
    assert(lens_of(str_values(parts.3))->0 == sl);
    assert(refs_of_arms(member(parts.1, key_arms())->0->Array_0) == refs_of_arms(rt_b(p)));
    assert(forall|k: int|
        0 <= k < rt_b(p).len() ==> #[trigger] prefix_within_budget(
            pl,
            refs_of_arms(rt_b(p)),
            ol,
            sl,
            k,
        ));
}

/// What expansion reads of each compacted arm.
proof fn lemma_rt_refs(p: JsonView)
    requires
        forall|i: int| 0 <= i < rt_arms(p).len() ==> arm_well_formed(#[trigger] rt_arms(p)[i]),
        forall|i: int|
            0 <= i < rt_arms(p).len() ==> 0 <= #[trigger] rt_o(p, i) <= u64::MAX && 0 <= rt_s(p, i)
                <= u64::MAX,
    ensures
        rt_refs(p).len() == rt_arms(p).len(),
        forall|i: int|
            0 <= i < rt_arms(p).len() ==> #[trigger] rt_refs(p)[i] == (ArmRefs {
                operations_ref: Some(rt_o(p, i) as u64),
                body_schema_ref: Some(rt_s(p, i) as u64),
                has_inline: false,
            }),
{
    let arms = rt_arms(p);
    assert forall|i: int| 0 <= i < arms.len() implies #[trigger] rt_refs(p)[i] == (ArmRefs {
        operations_ref: Some(rt_o(p, i) as u64),
        body_schema_ref: Some(rt_s(p, i) as u64),
        has_inline: false,
    }) by {
        assert(arm_well_formed(arms[i]));
        assert(0 <= rt_o(p, i) <= u64::MAX);
        lemma_compact_arm_refs(arms[i], rt_o(p, i) as nat, rt_s(p, i) as nat);
        assert(rt_b(p)[i] == compact_arm(arms[i], rt_o(p, i), rt_s(p, i)));
    }
}

/// The references of every compacted arm resolve within budget.
proof fn lemma_rt_plan(
    pl: nat,
    r: Seq<ArmRefs>,
    ol: Seq<usize>,
    sl: Seq<usize>,
    o: spec_fn(int) -> int,
    s: spec_fn(int) -> int,
)
    requires
        r.len() <= MAX_MANIFEST_JSON_BYTES,
        forall|i: int|
            0 <= i < r.len() ==> #[trigger] r[i] == (ArmRefs {
                operations_ref: Some(o(i) as u64),
                body_schema_ref: Some(s(i) as u64),
                has_inline: false,
            }) && 0 <= o(i) < ol.len() && 0 <= s(i) < sl.len() && o(i) <= MAX_MANIFEST_JSON_BYTES
                && s(i) <= MAX_MANIFEST_JSON_BYTES,
        forall|k: int| 0 <= k < r.len() ==> #[trigger] prefix_within_budget(pl, r, ol, sl, k),
    ensures
        plan_spec(pl, r, ol, sl) is Ok,
        plan_spec(pl, r, ol, sl)->Ok_0.len() == r.len(),
        forall|k: int|
            0 <= k < r.len() ==> (#[trigger] plan_spec(pl, r, ol, sl)->Ok_0[k]).0 as int == o(k)
                && plan_spec(pl, r, ol, sl)->Ok_0[k].1 as int == s(k),
{
    assert forall|k: int| 0 <= k < r.len() implies arm_error(#[trigger] r[k], ol.len(), sl.len()) is None
        && expanded_len(pl, r, ol, sl, (k + 1) as nat) <= MAX_MANIFEST_JSON_BYTES by {
        assert(r[k] == r[k]);
        assert(prefix_within_budget(pl, r, ol, sl, k));
    }
    assert(arms_ok(pl, r, ol, sl, r.len()));
    assert forall|k: int| 0 <= k < r.len() implies (#[trigger] plan_spec(pl, r, ol, sl)->Ok_0[k]).0 as int
        == o(k) && plan_spec(pl, r, ol, sl)->Ok_0[k].1 as int == s(k) by {
        assert(r[k] == r[k]);
    }
}

/// The compacted tables pass the canonicity check.
proof fn lemma_rt_canonical(p: JsonView, refs: Seq<(usize, usize)>)
    requires
        program_well_formed(p),
        budget_len(p) is Some,
        arms_refusal(rt_arms(p)) is None,
        refs.len() == rt_arms(p).len(),
        forall|k: int|
            0 <= k < rt_arms(p).len() ==> (#[trigger] refs[k]).0 as int == rt_o(p, k) && refs[k].1 as int
                == rt_s(p, k),
    ensures
        canonical_refs(texts_of(rt_sets(p)), table_of(rt_sch(p)), refs),
{
    lemma_rt_tables(p);
    let ops = rt_ops(p);
    let sch = rt_sch(p);
    let ot = table_of(ops);
    let st = table_of(sch);
    let sets = rt_sets(p);
    let arms = rt_arms(p);
    let keys = texts_of(sets);
    assert forall|t: int| 0 <= t < ot.len() implies keys[t] == ot[t] by {
        assert(sets[t] is Array);
        let j = last_index(ops, ot[t]);
        assert(ops[j] == json_text(arm_operations(arms[j])->0));
    }
    assert(keys =~= ot);
    assert forall|k: int| 0 <= k < refs.len() implies #[trigger] keys[refs[k].0 as int] == ops[k] by {
        assert(refs[k] == refs[k]);
    }
    assert forall|k: int| 0 <= k < refs.len() implies #[trigger] st[refs[k].1 as int] == sch[k] by {
        assert(refs[k] == refs[k]);
    }
    assert(Seq::new(refs.len(), |k: int| keys[refs[k].0 as int]) =~= ops);
    assert(Seq::new(refs.len(), |k: int| st[refs[k].1 as int]) =~= sch);
}

/// Expanding the compacted arms with the shared tables gives the program back.
proof fn lemma_rt_expanded(p: JsonView, refs: Seq<(usize, usize)>)
    requires
        program_well_formed(p),
        budget_len(p) is Some,
        arms_refusal(rt_arms(p)) is None,
        refs.len() == rt_arms(p).len(),
        forall|k: int|
            0 <= k < rt_arms(p).len() ==> (#[trigger] refs[k]).0 as int == rt_o(p, k) && refs[k].1 as int
                == rt_s(p, k),
    ensures
        with_member(
            rt_prog(p),
            key_arms(),
            JsonView::Array(
                Seq::new(
                    rt_b(p).len(),
                    |k: int|
                        expand_arm(
                            rt_b(p)[k],
                            rt_sets(p)[refs[k].0 as int],
                            table_of(rt_sch(p))[refs[k].1 as int],
                        ),
                ),
            ),
        ) == p,
{
    lemma_program_keys_distinct();
    lemma_rt_tables(p);
    let arms = rt_arms(p);
    let ops = rt_ops(p);
    let ot = table_of(ops);
    let st = table_of(rt_sch(p));
    let sets = rt_sets(p);
    let b = rt_b(p);
    let e = Seq::new(
        b.len(),
        |k: int| expand_arm(b[k], sets[refs[k].0 as int], st[refs[k].1 as int]),
    );
    assert forall|k: int| 0 <= k < arms.len() implies #[trigger] e[k] == arms[k] by {
        assert(refs[k] == refs[k]);
        let o = rt_o(p, k);
        let j = last_index(ops, ot[o]);
        assert(sets[o] is Array);
        assert(ops[j] == ops[k]);
        assert(ops[j] == json_text(arm_operations(arms[j])->0));
        assert(ops[k] == json_text(arm_operations(arms[k])->0));
        assert(arm_refusal(arms[j]) is None);
        assert(arm_operations(arms[j]) == arm_operations(arms[k]));
        assert(sets[o] == arm_operations(arms[k])->0);
        assert(st[rt_s(p, k)] == arm_schema(arms[k])->0);
        assert(arm_well_formed(arms[k]));
        lemma_arm_round_trip(arms[k], o, rt_s(p, k));
    }
    assert(e =~= arms);
    let fs = p->Object_0;
    let x = set_field(fs, key_arms(), JsonView::Array(b));
    lemma_set_field(fs, key_arms(), JsonView::Array(b));
    lemma_set_field(x, key_arms(), JsonView::Array(arms));
    assert forall|k: Seq<char>| field(set_field(x, key_arms(), JsonView::Array(arms)), k) == field(
        fs,
        k,
    ) by {
        if k != key_arms() {
            assert(field(set_field(x, key_arms(), JsonView::Array(arms)), k) == field(x, k));
        }
    }
    lemma_sorted_fields_equal(set_field(x, key_arms(), JsonView::Array(arms)), fs);
}

spec fn rt_shared(p: JsonView) -> JsonView {
    shared_value(rt_prog(p), rt_sets(p), table_of(rt_sch(p)))
}

#[verifier::spinoff_prover]
#[verifier::rlimit(60)]
proof fn lemma_rt_expand_shared(p: JsonView)
    requires
        program_well_formed(p),
        budget_len(p) is Some,
        arms_refusal(rt_arms(p)) is None,
        compact_spec(p) == Ok::<JsonView, ProgramError>(rt_shared(p)),
        budget_len(rt_shared(p)) is Some,
        expansion_within_budget(rt_shared(p)),
    ensures
        expand_shared(rt_shared(p), rt_prog(p), rt_b(p), rt_sets(p), table_of(rt_sch(p))) == Ok::<
            JsonView,
            ProgramError,
        >(p),
{
    reveal(expand_shared);
    let prog = rt_prog(p);
    let sets = rt_sets(p);
    let st = table_of(rt_sch(p));
    lemma_rt_tables(p);
    lemma_rt_budget(p);
    lemma_rt_refs(p);
    let pl = budget_len(prog)->0 as nat;
    let ol = lens_of(sets)->0;
    let sl = lens_of(rt_strs(p))->0;
    assert(ol.len() == table_of(rt_ops(p)).len());
    assert(sl.len() == st.len());
    assert(rt_strs(p) == str_values(st));
    lemma_rt_plan(pl, rt_refs(p), ol, sl, |i: int| rt_o(p, i), |i: int| rt_s(p, i));
    let refs = plan_spec(pl, rt_refs(p), ol, sl)->Ok_0;
    lemma_rt_canonical(p, refs);
    lemma_rt_expanded(p, refs);
    assert(rt_refs(p) == refs_of_arms(rt_b(p)));
}

#[verifier::spinoff_prover]
proof fn lemma_rt_expand_spec(p: JsonView)
    requires
        program_well_formed(p),
        budget_len(p) is Some,
        arms_refusal(rt_arms(p)) is None,
        compact_spec(p) == Ok::<JsonView, ProgramError>(rt_shared(p)),
        budget_len(rt_shared(p)) is Some,
        expansion_within_budget(rt_shared(p)),
    ensures
        expand_spec(rt_shared(p)) == Ok::<JsonView, ProgramError>(p),
{
    lemma_rt_expand_shared(p);
    lemma_shared_value_parts(rt_prog(p), rt_sets(p), table_of(rt_sch(p)));
    lemma_rt_tables(p);
    lemma_rt_prog_arms(p);
    let sets = rt_sets(p);
    assert(!(exists|i: int| 0 <= i < sets.len() && !(#[trigger] sets[i] is Array)));
}

/// Compaction loses nothing: for a well-formed program whose expansion stays
/// within budget, expanding what compaction returns gives back exactly the
/// program, whether compaction chose the shared encoding or kept the program.
pub proof fn lemma_program_round_trip(p: JsonView)
    requires
        program_well_formed(p),
        compact_spec(p) is Ok,
        expansion_within_budget(compact_spec(p)->Ok_0),
    ensures
        expand_spec(compact_spec(p)->Ok_0) == Ok::<JsonView, ProgramError>(p),
{
    let arms = rt_arms(p);
    let len = budget_len(p)->0;
    assert(member(p, key_arms()) == Some(JsonView::Array(arms)));
    assert(arms_refusal(arms) is None);
    lemma_rt_shared(p);
    if json_byte_len(shared_of(p, arms)) < len {
        assert(compact_spec(p) == Ok::<JsonView, ProgramError>(rt_shared(p)));
        lemma_rt_expand_spec(p);
    } else {
        assert(compact_spec(p) == Ok::<JsonView, ProgramError>(p));
    }
}

} // verus!
