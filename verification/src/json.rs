//! JSON values as the library reads and writes them, and their compact text.
//!
//! Objects keep their entries in order; values read from serde_json arrive
//! with keys in byte order, which is the order `object_set` keeps.
use vstd::prelude::*;
use vstd::string::*;
use vstd::utf8::encode_utf8;

use crate::text::{push_str, str_eq, text_less, text_lt};

verus! {

/// A JSON value. A number holds its JSON spelling.
#[derive(Debug)]
pub enum Json {
    Null,
    Bool(bool),
    Number(String),
    Str(String),
    Array(Vec<Json>),
    Object(Vec<(String, Json)>),
}

pub enum JsonView {
    Null,
    Bool(bool),
    Number(Seq<char>),
    Str(Seq<char>),
    Array(Seq<JsonView>),
    Object(Seq<(Seq<char>, JsonView)>),
}

pub open spec fn json_view(j: Json) -> JsonView
    decreases j,
{
    match j {
        Json::Null => JsonView::Null,
        Json::Bool(b) => JsonView::Bool(b),
        Json::Number(n) => JsonView::Number(n@),
        Json::Str(s) => JsonView::Str(s@),
        Json::Array(a) => JsonView::Array(items_view(a@)),
        Json::Object(o) => JsonView::Object(fields_view(o@)),
    }
}

pub open spec fn items_view(a: Seq<Json>) -> Seq<JsonView>
    decreases a,
{
    if a.len() == 0 {
        Seq::empty()
    } else {
        items_view(a.subrange(0, a.len() - 1)).push(json_view(a[a.len() - 1]))
    }
}

pub open spec fn fields_view(o: Seq<(String, Json)>) -> Seq<(Seq<char>, JsonView)>
    decreases o,
{
    if o.len() == 0 {
        Seq::empty()
    } else {
        let last = o[o.len() - 1];
        fields_view(o.subrange(0, o.len() - 1)).push((last.0@, json_view(last.1)))
    }
}

impl View for Json {
    type V = JsonView;

    open spec fn view(&self) -> JsonView {
        json_view(*self)
    }
}

/// Items of `a` in order, each taken by its view.
pub proof fn lemma_items_view(a: Seq<Json>)
    ensures
        items_view(a).len() == a.len(),
        forall|i: int| 0 <= i < a.len() ==> #[trigger] items_view(a)[i] == json_view(a[i]),
    decreases a.len(),
{
    if a.len() > 0 {
        let init = a.subrange(0, a.len() - 1);
        lemma_items_view(init);
        assert forall|i: int| 0 <= i < a.len() implies #[trigger] items_view(a)[i] == json_view(a[i]) by {
            if i < a.len() - 1 {
                assert(items_view(a)[i] == items_view(init)[i]);
                assert(init[i] == a[i]);
            }
        }
    }
}

/// Entries of `o` in order, each key and value taken by its view.
pub proof fn lemma_fields_view(o: Seq<(String, Json)>)
    ensures
        fields_view(o).len() == o.len(),
        forall|i: int|
            0 <= i < o.len() ==> #[trigger] fields_view(o)[i] == (o[i].0@, json_view(o[i].1)),
    decreases o.len(),
{
    if o.len() > 0 {
        let init = o.subrange(0, o.len() - 1);
        lemma_fields_view(init);
        assert forall|i: int| 0 <= i < o.len() implies #[trigger] fields_view(o)[i] == (
        o[i].0@, json_view(o[i].1)) by {
            if i < o.len() - 1 {
                assert(fields_view(o)[i] == fields_view(init)[i]);
                assert(init[i] == o[i]);
            }
        }
    }
}

/// Lower-case hexadecimal digit for `d < 16`.
pub open spec fn hex_digit(d: nat) -> char {
    if d < 10 {
        crate::text::digit_char(d)
    } else {
        ((d + 87) as u32) as char
    }
}

/// How one character stands inside a JSON string.
pub open spec fn escape_char(c: char) -> Seq<char> {
    if c == '"' {
        seq!['\\', '"']
    } else if c == '\\' {
        seq!['\\', '\\']
    } else if c == '\u{8}' {
        seq!['\\', 'b']
    } else if c == '\t' {
        seq!['\\', 't']
    } else if c == '\n' {
        seq!['\\', 'n']
    } else if c == '\u{c}' {
        seq!['\\', 'f']
    } else if c == '\r' {
        seq!['\\', 'r']
    } else if (c as u32) < 0x20 {
        seq!['\\', 'u', '0', '0', hex_digit((c as nat) / 16), hex_digit((c as nat) % 16)]
    } else {
        seq![c]
    }
}

pub open spec fn escaped(s: Seq<char>) -> Seq<char>
    decreases s.len(),
{
    if s.len() == 0 {
        Seq::empty()
    } else {
        escaped(s.drop_last()) + escape_char(s.last())
    }
}

/// A JSON string literal holding `s`.
pub open spec fn quoted(s: Seq<char>) -> Seq<char> {
    seq!['"'] + escaped(s) + seq!['"']
}

/// `serde_json::to_string` on a `str`: the text in double quotes, with `"`
/// and `\\` escaped by a backslash, the control characters below U+0020 as
/// `\\b \\t \\n \\f \\r` or else `\\u00xx` (lower-case hex), and every other
/// character as it is. Serializing a `str` into a `String` does not fail.
#[verifier::external_body]
fn quote_json(s: &str) -> (r: String)
    ensures
        r@ == quoted(s@),
{
    match serde_json::to_string(s) {
        Ok(t) => t,
        Err(_) => String::new(),
    }
}

/// Compact JSON text of `v`: no white space, entries in their order.
pub open spec fn json_text(v: JsonView) -> Seq<char>
    decreases v,
{
    match v {
        JsonView::Null => seq!['n', 'u', 'l', 'l'],
        JsonView::Bool(b) => if b {
            seq!['t', 'r', 'u', 'e']
        } else {
            seq!['f', 'a', 'l', 's', 'e']
        },
        JsonView::Number(n) => n,
        JsonView::Str(s) => quoted(s),
        JsonView::Array(xs) => seq!['['] + items_text(xs) + seq![']'],
        JsonView::Object(fs) => seq!['{'] + fields_text(fs) + seq!['}'],
    }
}

pub open spec fn items_text(xs: Seq<JsonView>) -> Seq<char>
    decreases xs,
{
    if xs.len() == 0 {
        Seq::empty()
    } else {
        let init = xs.subrange(0, xs.len() - 1);
        (if init.len() == 0 {
            Seq::empty()
        } else {
            items_text(init) + seq![',']
        }) + json_text(xs[xs.len() - 1])
    }
}

pub open spec fn fields_text(fs: Seq<(Seq<char>, JsonView)>) -> Seq<char>
    decreases fs,
{
    if fs.len() == 0 {
        Seq::empty()
    } else {
        let init = fs.subrange(0, fs.len() - 1);
        let last = fs[fs.len() - 1];
        (if init.len() == 0 {
            Seq::empty()
        } else {
            fields_text(init) + seq![',']
        }) + quoted(last.0) + seq![':'] + json_text(last.1)
    }
}

fn lit(v: u8) -> (r: &'static str)
    requires
        v < 8,
    ensures
        v == 0 ==> r@ == seq!['n', 'u', 'l', 'l'],
        v == 1 ==> r@ == seq!['t', 'r', 'u', 'e'],
        v == 2 ==> r@ == seq!['f', 'a', 'l', 's', 'e'],
        v == 3 ==> r@ == seq!['['],
        v == 4 ==> r@ == seq![']'],
        v == 5 ==> r@ == seq!['{'],
        v == 6 ==> r@ == seq!['}'],
        v == 7 ==> r@ == seq![','],
{
    proof {
        reveal_strlit("null");
        reveal_strlit("true");
        reveal_strlit("false");
        reveal_strlit("[");
        reveal_strlit("]");
        reveal_strlit("{");
        reveal_strlit("}");
        reveal_strlit(",");
    }
    if v == 0 { "null" } else if v == 1 { "true" } else if v == 2 { "false" } else if v == 3 { "[" }
    else if v == 4 { "]" } else if v == 5 { "{" } else if v == 6 { "}" } else { "," }
}

fn colon() -> (r: &'static str)
    ensures
        r@ == seq![':'],
{
    proof {
        reveal_strlit(":");
    }
    ":"
}

/// Append the compact JSON text of `v`.
pub fn write_json(out: &mut String, v: &Json)
    ensures
        final(out)@ == old(out)@ + json_text(v@),
    decreases v,
{
    match v {
        Json::Null => push_str(out, lit(0)),
        Json::Bool(b) => if *b {
            push_str(out, lit(1))
        } else {
            push_str(out, lit(2))
        },
        Json::Number(n) => push_str(out, n.as_str()),
        Json::Str(s) => {
            let q = quote_json(s.as_str());
            push_str(out, q.as_str());
        },
        Json::Array(a) => {
            let ghost start = out@;
            let ghost xs = items_view(a@);
            proof {
                lemma_items_view(a@);
            }
            push_str(out, lit(3));
            let mut i: usize = 0;
            while i < a.len()
                invariant
                    i <= a@.len(),
                    *v == Json::Array(*a),
                    xs == items_view(a@),
                    xs.len() == a@.len(),
                    forall|k: int| 0 <= k < a@.len() ==> #[trigger] xs[k] == json_view(a@[k]),
                    out@ == start + seq!['['] + items_text(xs.subrange(0, i as int)),
                decreases a.len() - i,
            {
                let ghost before = out@;
                if i > 0 {
                    push_str(out, lit(7));
                }
                proof {
                    assert(decreases_to!(*v => (*v)->Array_0));
                    assert(decreases_to!(*a => a@));
                    assert(decreases_to!(a@ => a@[i as int]));
                    assert(decreases_to!(*v => a@[i as int]));
                }
                write_json(out, &a[i]);
                proof {
                    let p = xs.subrange(0, i + 1);
                    assert(p.subrange(0, i as int) =~= xs.subrange(0, i as int));
                    assert(p[i as int] == json_view(a@[i as int]));
                    assert(out@ =~= start + seq!['['] + items_text(p));
                }
                i = i + 1;
            }
            push_str(out, lit(4));
            proof {
                assert(xs.subrange(0, a@.len() as int) =~= xs);
                assert(v@ == JsonView::Array(xs));
                assert(out@ =~= start + json_text(v@));
            }
        },
        Json::Object(o) => {
            let ghost start = out@;
            let ghost fs = fields_view(o@);
            proof {
                lemma_fields_view(o@);
            }
            push_str(out, lit(5));
            let mut i: usize = 0;
            while i < o.len()
                invariant
                    i <= o@.len(),
                    *v == Json::Object(*o),
                    fs == fields_view(o@),
                    fs.len() == o@.len(),
                    forall|k: int| 0 <= k < o@.len() ==> #[trigger] fs[k] == (o@[k].0@, json_view(o@[k].1)),
                    out@ == start + seq!['{'] + fields_text(fs.subrange(0, i as int)),
                decreases o.len() - i,
            {
                if i > 0 {
                    push_str(out, lit(7));
                }
                let q = quote_json(o[i].0.as_str());
                push_str(out, q.as_str());
                push_str(out, colon());
                proof {
                    assert(decreases_to!(*v => (*v)->Object_0));
                    assert(decreases_to!(*o => o@));
                    assert(decreases_to!(o@ => o@[i as int]));
                    assert(decreases_to!(o@[i as int] => o@[i as int].1));
                    assert(decreases_to!(*v => o@[i as int].1));
                }
                write_json(out, &o[i].1);
                proof {
                    let p = fs.subrange(0, i + 1);
                    assert(p.subrange(0, i as int) =~= fs.subrange(0, i as int));
                    assert(p[i as int] == (o@[i as int].0@, json_view(o@[i as int].1)));
                    assert(out@ =~= start + seq!['{'] + fields_text(p));
                }
                i = i + 1;
            }
            push_str(out, lit(6));
            proof {
                assert(fs.subrange(0, o@.len() as int) =~= fs);
                assert(v@ == JsonView::Object(fs));
                assert(out@ =~= start + json_text(v@));
            }
        },
    }
}

/// The compact JSON text of `v`.
pub fn json_string(v: &Json) -> (r: String)
    ensures
        r@ == json_text(v@),
{
    let mut s = String::new();
    write_json(&mut s, v);
    proof {
        assert(s@ =~= json_text(v@));
    }
    s
}

/// The value of the first entry named `k`.
pub open spec fn field(fs: Seq<(Seq<char>, JsonView)>, k: Seq<char>) -> Option<JsonView>
    decreases fs.len(),
{
    if fs.len() == 0 {
        None
    } else if fs[0].0 == k {
        Some(fs[0].1)
    } else {
        field(fs.drop_first(), k)
    }
}

/// Member `k` of an object; `None` for other values.
pub open spec fn member(v: JsonView, k: Seq<char>) -> Option<JsonView> {
    match v {
        JsonView::Object(fs) => field(fs, k),
        _ => None,
    }
}

/// The entries without those named `k`.
pub open spec fn without(fs: Seq<(Seq<char>, JsonView)>, k: Seq<char>) -> Seq<(Seq<char>, JsonView)>
    decreases fs.len(),
{
    if fs.len() == 0 {
        fs
    } else if fs[0].0 == k {
        without(fs.drop_first(), k)
    } else {
        seq![fs[0]] + without(fs.drop_first(), k)
    }
}

/// The entries with `k` set to `x`: earlier entries named `k` dropped and
/// the new entry placed before the first entry whose name sorts after `k`,
/// as a map with keys in byte order does it.
pub open spec fn set_field(fs: Seq<(Seq<char>, JsonView)>, k: Seq<char>, x: JsonView) -> Seq<
    (Seq<char>, JsonView),
>
    decreases fs.len(),
{
    if fs.len() == 0 {
        seq![(k, x)]
    } else if fs[0].0 == k {
        set_field(fs.drop_first(), k, x)
    } else if text_lt(k, fs[0].0) {
        seq![(k, x)] + without(fs, k)
    } else {
        seq![fs[0]] + set_field(fs.drop_first(), k, x)
    }
}

/// A value equal to `v`.
pub fn duplicate(v: &Json) -> (r: Json)
    ensures
        r@ == v@,
    decreases v,
{
    match v {
        Json::Null => Json::Null,
        Json::Bool(b) => Json::Bool(*b),
        Json::Number(n) => Json::Number(n.clone()),
        Json::Str(t) => Json::Str(t.clone()),
        Json::Array(a) => {
            let mut out: Vec<Json> = Vec::new();
            let mut i: usize = 0;
            proof {
                lemma_items_view(a@);
            }
            while i < a.len()
                invariant
                    *v == Json::Array(*a),
                    i <= a@.len(),
                    items_view(out@) == items_view(a@.subrange(0, i as int)),
                decreases a.len() - i,
            {
                proof {
                    assert(decreases_to!(*v => (*v)->Array_0));
                    assert(decreases_to!(*a => a@));
                    assert(decreases_to!(a@ => a@[i as int]));
                }
                let x = duplicate(&a[i]);
                let ghost old_out = out@;
                out.push(x);
                proof {
                    assert(out@.subrange(0, out@.len() - 1) =~= old_out);
                    let p = a@.subrange(0, i + 1);
                    assert(p.subrange(0, i as int) =~= a@.subrange(0, i as int));
                }
                i = i + 1;
            }
            proof {
                assert(a@.subrange(0, a@.len() as int) =~= a@);
            }
            Json::Array(out)
        },
        Json::Object(o) => {
            let mut out: Vec<(String, Json)> = Vec::new();
            let mut i: usize = 0;
            while i < o.len()
                invariant
                    *v == Json::Object(*o),
                    i <= o@.len(),
                    fields_view(out@) == fields_view(o@.subrange(0, i as int)),
                decreases o.len() - i,
            {
                proof {
                    assert(decreases_to!(*v => (*v)->Object_0));
                    assert(decreases_to!(*o => o@));
                    assert(decreases_to!(o@ => o@[i as int]));
                    assert(decreases_to!(o@[i as int] => o@[i as int].1));
                }
                let x = duplicate(&o[i].1);
                let ghost old_out = out@;
                out.push((o[i].0.clone(), x));
                proof {
                    assert(out@.subrange(0, out@.len() - 1) =~= old_out);
                    let p = o@.subrange(0, i + 1);
                    assert(p.subrange(0, i as int) =~= o@.subrange(0, i as int));
                }
                i = i + 1;
            }
            proof {
                assert(o@.subrange(0, o@.len() as int) =~= o@);
            }
            Json::Object(out)
        },
    }
}

/// Whether two values are equal.
pub fn json_eq(a: &Json, b: &Json) -> (r: bool)
    ensures
        r == (a@ == b@),
    decreases a,
{
    match (a, b) {
        (Json::Null, Json::Null) => true,
        (Json::Bool(x), Json::Bool(y)) => *x == *y,
        (Json::Number(x), Json::Number(y)) => str_eq(x.as_str(), y.as_str()),
        (Json::Str(x), Json::Str(y)) => str_eq(x.as_str(), y.as_str()),
        (Json::Array(x), Json::Array(y)) => {
            proof {
                lemma_items_view(x@);
                lemma_items_view(y@);
            }
            if x.len() != y.len() {
                return false;
            }
            let mut i: usize = 0;
            while i < x.len()
                invariant
                    *a == Json::Array(*x),
                    *b == Json::Array(*y),
                    x@.len() == y@.len(),
                    i <= x@.len(),
                    items_view(x@).len() == x@.len(),
                    items_view(y@).len() == y@.len(),
                    forall|k: int| 0 <= k < x@.len() ==> #[trigger] items_view(x@)[k] == json_view(x@[k]),
                    forall|k: int| 0 <= k < y@.len() ==> #[trigger] items_view(y@)[k] == json_view(y@[k]),
                    forall|k: int| 0 <= k < i ==> json_view(#[trigger] x@[k]) == json_view(y@[k]),
                decreases x.len() - i,
            {
                proof {
                    assert(decreases_to!(*a => (*a)->Array_0));
                    assert(decreases_to!(*x => x@));
                    assert(decreases_to!(x@ => x@[i as int]));
                }
                if !json_eq(&x[i], &y[i]) {
                    proof {
                        assert(items_view(x@)[i as int] != items_view(y@)[i as int]);
                    }
                    return false;
                }
                i = i + 1;
            }
            proof {
                assert(items_view(x@) =~= items_view(y@));
            }
            true
        },
        (Json::Object(x), Json::Object(y)) => {
            proof {
                lemma_fields_view(x@);
                lemma_fields_view(y@);
            }
            if x.len() != y.len() {
                return false;
            }
            let mut i: usize = 0;
            while i < x.len()
                invariant
                    *a == Json::Object(*x),
                    *b == Json::Object(*y),
                    x@.len() == y@.len(),
                    i <= x@.len(),
                    fields_view(x@).len() == x@.len(),
                    fields_view(y@).len() == y@.len(),
                    forall|k: int|
                        0 <= k < x@.len() ==> #[trigger] fields_view(x@)[k] == (x@[k].0@, json_view(x@[k].1)),
                    forall|k: int|
                        0 <= k < y@.len() ==> #[trigger] fields_view(y@)[k] == (y@[k].0@, json_view(y@[k].1)),
                    forall|k: int| 0 <= k < i ==> #[trigger] fields_view(x@)[k] == fields_view(y@)[k],
                decreases x.len() - i,
            {
                proof {
                    assert(decreases_to!(*a => (*a)->Object_0));
                    assert(decreases_to!(*x => x@));
                    assert(decreases_to!(x@ => x@[i as int]));
                    assert(decreases_to!(x@[i as int] => x@[i as int].1));
                }
                if !str_eq(x[i].0.as_str(), y[i].0.as_str()) {
                    proof {
                        assert(fields_view(x@)[i as int] != fields_view(y@)[i as int]);
                    }
                    return false;
                }
                if !json_eq(&x[i].1, &y[i].1) {
                    proof {
                        assert(fields_view(x@)[i as int] != fields_view(y@)[i as int]);
                    }
                    return false;
                }
                i = i + 1;
            }
            proof {
                assert(fields_view(x@) =~= fields_view(y@));
            }
            true
        },
        _ => false,
    }
}

/// Member `k` of `v`, when `v` is an object that has one.
pub fn member_of<'a>(v: &'a Json, k: &str) -> (r: Option<&'a Json>)
    ensures
        match r {
            Some(x) => member(v@, k@) == Some(x@),
            None => member(v@, k@) is None,
        },
{
    match v {
        Json::Object(o) => {
            proof {
                lemma_fields_view(o@);
            }
            let ghost fs = fields_view(o@);
            let mut i: usize = 0;
            assert(fs.skip(0) =~= fs);
            while i < o.len()
                invariant
                    i <= o@.len(),
                    member(v@, k@) == field(fs, k@),
                    fs == fields_view(o@),
                    fs.len() == o@.len(),
                    forall|q: int| 0 <= q < o@.len() ==> #[trigger] fs[q] == (o@[q].0@, json_view(o@[q].1)),
                    field(fs, k@) == field(fs.skip(i as int), k@),
                decreases o.len() - i,
            {
                assert(fs.skip(i as int)[0] == fs[i as int]);
                if str_eq(o[i].0.as_str(), k) {
                    assert(fs[i as int].0 == k@);
                    return Some(&o[i].1);
                }
                assert(fs.skip(i as int).drop_first() =~= fs.skip(i + 1));
                i = i + 1;
            }
            None
        },
        _ => None,
    }
}

proof fn lemma_fields_push(out: Seq<(String, Json)>, e: (String, Json))
    ensures
        fields_view(out.push(e)) == fields_view(out).push((e.0@, json_view(e.1))),
{
    assert(out.push(e).subrange(0, out.len() as int) =~= out);
}

/// The entries of `fs` with `k` set to a copy of `x` (see `set_field`).
pub fn set_member(fs: &Vec<(String, Json)>, k: &str, x: &Json) -> (r: Vec<(String, Json)>)
    ensures
        fields_view(r@) == set_field(fields_view(fs@), k@, x@),
{
    proof {
        lemma_fields_view(fs@);
    }
    let ghost f = fields_view(fs@);
    let mut out: Vec<(String, Json)> = Vec::new();
    let mut inserted = false;
    let mut i: usize = 0;
    assert(f.skip(0) =~= f);
    assert(fields_view(out@) + set_field(f, k@, x@) =~= set_field(f, k@, x@));
    while i < fs.len()
        invariant
            i <= fs@.len(),
            f == fields_view(fs@),
            f.len() == fs@.len(),
            forall|q: int| 0 <= q < fs@.len() ==> #[trigger] f[q] == (fs@[q].0@, json_view(fs@[q].1)),
            !inserted ==> set_field(f, k@, x@) == fields_view(out@) + set_field(
                f.skip(i as int),
                k@,
                x@,
            ),
            inserted ==> set_field(f, k@, x@) == fields_view(out@) + without(f.skip(i as int), k@),
        decreases fs@.len() - i + (if inserted { 0int } else { 1int }),
    {
        let ghost rest = f.skip(i as int);
        assert(rest[0] == f[i as int]);
        assert(rest.drop_first() =~= f.skip(i + 1));
        let ghost before = fields_view(out@);
        if str_eq(fs[i].0.as_str(), k) {
            i = i + 1;
        } else if !inserted && text_less(k, fs[i].0.as_str()) {
            let y = duplicate(x);
            let e = (k.to_owned(), y);
            proof {
                lemma_fields_push(out@, e);
            }
            out.push(e);
            inserted = true;
            assert(fields_view(out@) + without(rest, k@) =~= before + set_field(rest, k@, x@));
        } else {
            let e = (fs[i].0.clone(), duplicate(&fs[i].1));
            proof {
                lemma_fields_push(out@, e);
            }
            out.push(e);
            proof {
                if inserted {
                    assert(before + without(rest, k@) =~= fields_view(out@) + without(
                        f.skip(i + 1),
                        k@,
                    ));
                } else {
                    assert(before + set_field(rest, k@, x@) =~= fields_view(out@) + set_field(
                        f.skip(i + 1),
                        k@,
                        x@,
                    ));
                }
            }
            i = i + 1;
        }
    }
    assert(f.skip(i as int) =~= Seq::<(Seq<char>, JsonView)>::empty());
    if !inserted {
        let y = duplicate(x);
        let e = (k.to_owned(), y);
        proof {
            lemma_fields_push(out@, e);
        }
        out.push(e);
    }
    proof {
        assert(fields_view(out@) =~= set_field(f, k@, x@));
    }
    out
}

pub open spec fn is_digit(c: char) -> bool {
    '0' <= c && c <= '9'
}

/// Value of a run of decimal digits.
pub open spec fn digits_value(t: Seq<char>) -> nat
    decreases t.len(),
{
    if t.len() == 0 {
        0
    } else {
        digits_value(t.drop_last()) * 10 + ((t.last() as nat) - 48) as nat
    }
}

/// The unsigned integer a number spelling holds: decimal digits without a
/// leading zero, at most `u64::MAX`. Other spellings (signs, fractions,
/// exponents) hold none.
pub open spec fn index_text(t: Seq<char>) -> Option<u64> {
    if t.len() > 0 && (forall|i: int| 0 <= i < t.len() ==> #[trigger] is_digit(t[i])) && (t[0]
        != '0' || t.len() == 1) && digits_value(t) <= u64::MAX {
        Some(digits_value(t) as u64)
    } else {
        None
    }
}

/// The unsigned integer `v` holds, if it is one.
pub open spec fn as_index(v: JsonView) -> Option<u64> {
    match v {
        JsonView::Number(t) => index_text(t),
        _ => None,
    }
}

proof fn lemma_digits_value_grows(t: Seq<char>, n: int)
    requires
        0 <= n <= t.len(),
        forall|i: int| 0 <= i < t.len() ==> #[trigger] is_digit(t[i]),
    ensures
        digits_value(t.take(n)) <= digits_value(t),
    decreases t.len() - n,
{
    if n < t.len() {
        lemma_digits_value_grows(t, n + 1);
        assert(t.take(n + 1).drop_last() =~= t.take(n));
        assert(t.take(n + 1).last() == t[n]);
        assert(is_digit(t[n]));
        assert(digits_value(t.take(n + 1)) == digits_value(t.take(n)) * 10 + ((t[n] as nat) - 48) as nat);
    } else {
        assert(t.take(n) =~= t);
    }
}

/// The unsigned integer `v` holds (see `index_text`).
pub fn read_index(v: &Json) -> (r: Option<u64>)
    ensures
        r == as_index(v@),
{
    match v {
        Json::Number(n) => {
            let t = n.as_str();
            let len = t.unicode_len();
            if len == 0 {
                return None;
            }
            if len > 1 && t.get_char(0) == '0' {
                return None;
            }
            let mut acc: u64 = 0;
            let mut i: usize = 0;
            while i < len
                invariant
                    len == t@.len(),
                    len > 0,
                    as_index(v@) == index_text(t@),
                    t@[0] != '0' || len == 1,
                    i <= len,
                    acc == digits_value(t@.take(i as int)),
                    forall|q: int| 0 <= q < i ==> #[trigger] is_digit(t@[q]),
                decreases len - i,
            {
                let c = t.get_char(i);
                if !('0' <= c && c <= '9') {
                    assert(!is_digit(t@[i as int]));
                    return None;
                }
                let d = (c as u32 - 48) as u64;
                assert(t@.take(i + 1).drop_last() =~= t@.take(i as int));
                match acc.checked_mul(10) {
                    Some(m) => match m.checked_add(d) {
                        Some(s) => {
                            acc = s;
                        },
                        None => {
                            proof {
                                lemma_digits_bound(t@, i as int);
                            }
                            return None;
                        },
                    },
                    None => {
                        proof {
                            lemma_digits_bound(t@, i as int);
                        }
                        return None;
                    },
                }
                i = i + 1;
            }
            assert(t@.take(len as int) =~= t@);
            Some(acc)
        },
        _ => None,
    }
}

/// Once a prefix of digits is over `u64::MAX`, the whole text is, or it holds
/// a character that is not a digit.
proof fn lemma_digits_bound(t: Seq<char>, i: int)
    requires
        0 <= i < t.len(),
        forall|q: int| 0 <= q < i ==> #[trigger] is_digit(t[q]),
        is_digit(t[i]),
        digits_value(t.take(i + 1)) > u64::MAX,
    ensures
        index_text(t) is None,
{
    if forall|q: int| 0 <= q < t.len() ==> #[trigger] is_digit(t[q]) {
        lemma_digits_value_grows(t, i + 1);
    }
}

/// The number `n`, spelled in decimal.
pub fn index_number(n: u64) -> (r: Json)
    ensures
        r@ == JsonView::Number(crate::text::decimal(n as nat)),
{
    let mut s = String::new();
    crate::text::push_decimal(&mut s, n);
    proof {
        assert(s@ =~= crate::text::decimal(n as nat));
    }
    Json::Number(s)
}

/// Copies of the entries of `fs` not named `k`.
pub fn without_member(fs: &Vec<(String, Json)>, k: &str) -> (r: Vec<(String, Json)>)
    ensures
        fields_view(r@) == without(fields_view(fs@), k@),
{
    proof {
        lemma_fields_view(fs@);
    }
    let ghost f = fields_view(fs@);
    let mut out: Vec<(String, Json)> = Vec::new();
    let mut i: usize = 0;
    assert(f.skip(0) =~= f);
    assert(fields_view(out@) + without(f, k@) =~= without(f, k@));
    while i < fs.len()
        invariant
            i <= fs@.len(),
            f == fields_view(fs@),
            f.len() == fs@.len(),
            forall|q: int| 0 <= q < fs@.len() ==> #[trigger] f[q] == (fs@[q].0@, json_view(fs@[q].1)),
            without(f, k@) == fields_view(out@) + without(f.skip(i as int), k@),
        decreases fs@.len() - i,
    {
        let ghost rest = f.skip(i as int);
        assert(rest[0] == f[i as int]);
        assert(rest.drop_first() =~= f.skip(i + 1));
        let ghost before = fields_view(out@);
        if !str_eq(fs[i].0.as_str(), k) {
            let e = (fs[i].0.clone(), duplicate(&fs[i].1));
            proof {
                lemma_fields_push(out@, e);
            }
            out.push(e);
            assert(before + without(rest, k@) =~= fields_view(out@) + without(f.skip(i + 1), k@));
        }
        i = i + 1;
    }
    assert(f.skip(i as int) =~= Seq::<(Seq<char>, JsonView)>::empty());
    assert(fields_view(out@) =~= without(f, k@));
    out
}

/// Entry names in strictly increasing byte order, so each name once.
pub open spec fn keys_sorted(fs: Seq<(Seq<char>, JsonView)>) -> bool {
    forall|i: int, j: int| 0 <= i < j < fs.len() ==> text_lt((#[trigger] fs[i]).0, (#[trigger] fs[j]).0)
}

proof fn lemma_cons_drop_first(e: (Seq<char>, JsonView), s: Seq<(Seq<char>, JsonView)>)
    ensures
        (seq![e] + s).len() > 0,
        (seq![e] + s)[0] == e,
        (seq![e] + s).drop_first() == s,
{
    assert((seq![e] + s).drop_first() =~= s);
}

/// The first entry named `k` gives the value `field` finds.
pub proof fn lemma_field_at(fs: Seq<(Seq<char>, JsonView)>, k: Seq<char>)
    requires
        field(fs, k) is Some,
    ensures
        exists|i: int| 0 <= i < fs.len() && fs[i].0 == k && field(fs, k) == Some(fs[i].1),
    decreases fs.len(),
{
    if fs[0].0 == k {
        assert(fs[0].0 == k && field(fs, k) == Some(fs[0].1));
    } else {
        lemma_field_at(fs.drop_first(), k);
        let i = choose|i: int|
            0 <= i < fs.drop_first().len() && fs.drop_first()[i].0 == k && field(fs.drop_first(), k)
                == Some(fs.drop_first()[i].1);
        assert(fs[i + 1] == fs.drop_first()[i]);
    }
}

/// No entry named `k`: no member `k`.
pub proof fn lemma_field_absent(fs: Seq<(Seq<char>, JsonView)>, k: Seq<char>)
    requires
        forall|i: int| 0 <= i < fs.len() ==> (#[trigger] fs[i]).0 != k,
    ensures
        field(fs, k) is None,
    decreases fs.len(),
{
    if fs.len() > 0 {
        assert(fs[0].0 != k);
        assert forall|i: int| 0 <= i < fs.drop_first().len() implies (
        #[trigger] fs.drop_first()[i]).0 != k by {
            assert(fs.drop_first()[i] == fs[i + 1]);
        }
        lemma_field_absent(fs.drop_first(), k);
    }
}

/// Two objects with sorted names and the same members are the same object.
pub proof fn lemma_sorted_fields_equal(a: Seq<(Seq<char>, JsonView)>, b: Seq<(Seq<char>, JsonView)>)
    requires
        keys_sorted(a),
        keys_sorted(b),
        forall|k: Seq<char>| field(a, k) == field(b, k),
    ensures
        a == b,
    decreases a.len(),
{
    if a.len() == 0 {
        if b.len() > 0 {
            assert(field(b, b[0].0) is Some);
            assert(field(a, b[0].0) is None);
        }
        assert(a =~= b);
    } else {
        let a0 = a[0].0;
        assert(field(a, a0) == Some(a[0].1));
        assert(field(b, a0) is Some);
        lemma_field_at(b, a0);
        let j = choose|j: int| 0 <= j < b.len() && b[j].0 == a0 && field(b, a0) == Some(b[j].1);
        let b0 = b[0].0;
        assert(field(b, b0) == Some(b[0].1));
        assert(field(a, b0) is Some);
        lemma_field_at(a, b0);
        let i = choose|i: int| 0 <= i < a.len() && a[i].0 == b0 && field(a, b0) == Some(a[i].1);
        if j > 0 {
            assert(text_lt(b[0].0, b[j].0));
            if i > 0 {
                assert(text_lt(a[0].0, a[i].0));
                crate::text::lemma_text_lt_transitive(a0, b0, a0);
            }
            crate::text::lemma_text_lt_irreflexive(a0);
        }
        assert(b0 == a0);
        assert(a[0] == b[0]);
        let ra = a.drop_first();
        let rb = b.drop_first();
        assert forall|k: Seq<char>| field(ra, k) == field(rb, k) by {
            if k == a0 {
                assert forall|q: int| 0 <= q < ra.len() implies (#[trigger] ra[q]).0 != k by {
                    assert(text_lt(a[0].0, a[q + 1].0));
                    crate::text::lemma_text_lt_irreflexive(a0);
                }
                assert forall|q: int| 0 <= q < rb.len() implies (#[trigger] rb[q]).0 != k by {
                    assert(text_lt(b[0].0, b[q + 1].0));
                    crate::text::lemma_text_lt_irreflexive(a0);
                }
                lemma_field_absent(ra, k);
                lemma_field_absent(rb, k);
            } else {
                assert(field(a, k) == field(ra, k));
                assert(field(b, k) == field(rb, k));
            }
        }
        assert forall|p: int, q: int| 0 <= p < q < ra.len() implies text_lt(
            (#[trigger] ra[p]).0,
            (#[trigger] ra[q]).0,
        ) by {
            assert(text_lt(a[p + 1].0, a[q + 1].0));
        }
        assert forall|p: int, q: int| 0 <= p < q < rb.len() implies text_lt(
            (#[trigger] rb[p]).0,
            (#[trigger] rb[q]).0,
        ) by {
            assert(text_lt(b[p + 1].0, b[q + 1].0));
        }
        lemma_sorted_fields_equal(ra, rb);
        assert(a =~= seq![a[0]] + ra);
        assert(b =~= seq![b[0]] + rb);
    }
}

/// `without` keeps entries of `fs` not named `k`, in order.
pub proof fn lemma_without(fs: Seq<(Seq<char>, JsonView)>, k: Seq<char>)
    ensures
        forall|i: int| 0 <= i < without(fs, k).len() ==> fs.contains(#[trigger] without(fs, k)[i]),
        forall|i: int| 0 <= i < without(fs, k).len() ==> (#[trigger] without(fs, k)[i]).0 != k,
        keys_sorted(fs) ==> keys_sorted(without(fs, k)),
        field(without(fs, k), k) is None,
        forall|k2: Seq<char>| k2 != k ==> #[trigger] field(without(fs, k), k2) == field(fs, k2),
    decreases fs.len(),
{
    let w = without(fs, k);
    if fs.len() == 0 {
        lemma_field_absent(w, k);
    } else {
        let rest = fs.drop_first();
        lemma_without(rest, k);
        let wr = without(rest, k);
        assert forall|i: int| 0 <= i < wr.len() implies fs.contains(#[trigger] wr[i]) by {
            let j = choose|j: int| 0 <= j < rest.len() && rest[j] == wr[i];
            assert(fs[j + 1] == wr[i]);
        }
        if fs[0].0 == k {
            assert(w == wr);
        } else {
            lemma_cons_drop_first(fs[0], wr);
            assert forall|i: int| 0 <= i < w.len() implies fs.contains(#[trigger] w[i]) by {
                if i == 0 {
                    assert(fs[0] == w[0]);
                } else {
                    assert(w[i] == wr[i - 1]);
                }
            }
            assert forall|i: int| 0 <= i < w.len() implies (#[trigger] w[i]).0 != k by {
                if i > 0 {
                    assert(w[i] == wr[i - 1]);
                }
            }
            if keys_sorted(fs) {
                assert forall|p: int, q: int| 0 <= p < q < rest.len() implies text_lt(
                    (#[trigger] rest[p]).0,
                    (#[trigger] rest[q]).0,
                ) by {
                    assert(text_lt(fs[p + 1].0, fs[q + 1].0));
                }
                assert forall|p: int, q: int| 0 <= p < q < w.len() implies text_lt(
                    (#[trigger] w[p]).0,
                    (#[trigger] w[q]).0,
                ) by {
                    assert(w[q] == wr[q - 1]);
                    if p == 0 {
                        let j = choose|j: int| 0 <= j < rest.len() && rest[j] == wr[q - 1];
                        assert(text_lt(fs[0].0, fs[j + 1].0));
                    } else {
                        assert(w[p] == wr[p - 1]);
                    }
                }
            }
            assert forall|k2: Seq<char>| k2 != k implies #[trigger] field(w, k2) == field(fs, k2) by {
                assert(field(wr, k2) == field(rest, k2));
            }
        }
        lemma_field_absent(w, k);
    }
}

/// What `set_field` gives: member `k` is `x`, other members are kept, every
/// entry is `(k, x)` or one of `fs`, and sorted names stay sorted.
pub proof fn lemma_set_field(fs: Seq<(Seq<char>, JsonView)>, k: Seq<char>, x: JsonView)
    ensures
        field(set_field(fs, k, x), k) == Some(x),
        forall|k2: Seq<char>| k2 != k ==> #[trigger] field(set_field(fs, k, x), k2) == field(fs, k2),
        forall|i: int|
            0 <= i < set_field(fs, k, x).len() ==> #[trigger] set_field(fs, k, x)[i] == (k, x)
                || fs.contains(set_field(fs, k, x)[i]),
        keys_sorted(fs) ==> keys_sorted(set_field(fs, k, x)),
    decreases fs.len(),
{
    let s = set_field(fs, k, x);
    if fs.len() == 0 {
        lemma_cons_drop_first((k, x), Seq::empty());
        assert(s[0] == (k, x));
        assert forall|k2: Seq<char>| k2 != k implies #[trigger] field(s, k2) == field(fs, k2) by {
            assert(field(s, k2) == field(Seq::<(Seq<char>, JsonView)>::empty(), k2));
        }
    } else {
        let rest = fs.drop_first();
        lemma_set_field(rest, k, x);
        lemma_without(fs, k);
        lemma_without(rest, k);
        let sr = set_field(rest, k, x);
        assert forall|p: int, q: int| keys_sorted(fs) && 0 <= p < q < rest.len() implies text_lt(
            (#[trigger] rest[p]).0,
            (#[trigger] rest[q]).0,
        ) by {
            assert(text_lt(fs[p + 1].0, fs[q + 1].0));
        }
        if fs[0].0 == k {
            assert(s == sr);
            assert forall|k2: Seq<char>| k2 != k implies #[trigger] field(s, k2) == field(fs, k2) by {
                assert(field(sr, k2) == field(rest, k2));
            }
            assert forall|i: int| 0 <= i < s.len() implies #[trigger] s[i] == (k, x) || fs.contains(
                s[i],
            ) by {
                if s[i] != (k, x) {
                    let j = choose|j: int| 0 <= j < rest.len() && rest[j] == s[i];
                    assert(fs[j + 1] == s[i]);
                }
            }
        } else if text_lt(k, fs[0].0) {
            let w = without(fs, k);
            lemma_cons_drop_first((k, x), w);
            assert forall|k2: Seq<char>| k2 != k implies #[trigger] field(s, k2) == field(fs, k2) by {
                assert(field(s, k2) == field(w, k2));
            }
            assert forall|i: int| 0 <= i < s.len() implies #[trigger] s[i] == (k, x) || fs.contains(
                s[i],
            ) by {
                if i > 0 {
                    assert(s[i] == w[i - 1]);
                }
            }
            if keys_sorted(fs) {
                assert forall|p: int, q: int| 0 <= p < q < s.len() implies text_lt(
                    (#[trigger] s[p]).0,
                    (#[trigger] s[q]).0,
                ) by {
                    assert(s[q] == w[q - 1]);
                    if p == 0 {
                        let j = choose|j: int| 0 <= j < fs.len() && fs[j] == w[q - 1];
                        if j > 0 {
                            assert(text_lt(fs[0].0, fs[j].0));
                            crate::text::lemma_text_lt_transitive(k, fs[0].0, fs[j].0);
                        }
                    } else {
                        assert(s[p] == w[p - 1]);
                    }
                }
            }
        } else {
            lemma_cons_drop_first(fs[0], sr);
            crate::text::lemma_text_lt_total(k, fs[0].0);
            assert forall|k2: Seq<char>| k2 != k implies #[trigger] field(s, k2) == field(fs, k2) by {
                if fs[0].0 != k2 {
                    assert(field(sr, k2) == field(rest, k2));
                }
            }
            assert forall|i: int| 0 <= i < s.len() implies #[trigger] s[i] == (k, x) || fs.contains(
                s[i],
            ) by {
                if i > 0 {
                    assert(s[i] == sr[i - 1]);
                    if sr[i - 1] != (k, x) {
                        let j = choose|j: int| 0 <= j < rest.len() && rest[j] == sr[i - 1];
                        assert(fs[j + 1] == sr[i - 1]);
                    }
                }
            }
            if keys_sorted(fs) {
                assert forall|p: int, q: int| 0 <= p < q < s.len() implies text_lt(
                    (#[trigger] s[p]).0,
                    (#[trigger] s[q]).0,
                ) by {
                    assert(s[q] == sr[q - 1]);
                    if p == 0 {
                        if sr[q - 1] != (k, x) {
                            let j = choose|j: int| 0 <= j < rest.len() && rest[j] == sr[q - 1];
                            assert(text_lt(fs[0].0, fs[j + 1].0));
                        }
                    } else {
                        assert(s[p] == sr[p - 1]);
                    }
                }
            }
        }
    }
}

/// Byte length of the UTF-8 encoding of `s`.
pub open spec fn blen(s: Seq<char>) -> nat {
    encode_utf8(s).len()
}

/// UTF-8 encodes a concatenation piece by piece.
pub proof fn lemma_blen_append(a: Seq<char>, b: Seq<char>)
    ensures
        encode_utf8(a + b) == encode_utf8(a) + encode_utf8(b),
        blen(a + b) == blen(a) + blen(b),
    decreases a.len(),
{
    if a.len() == 0 {
        assert(a + b =~= b);
        assert(encode_utf8(a) =~= Seq::<u8>::empty());
        assert(encode_utf8(a) + encode_utf8(b) =~= encode_utf8(b));
    } else {
        assert((a + b).drop_first() =~= a.drop_first() + b);
        assert((a + b)[0] == a[0]);
        lemma_blen_append(a.drop_first(), b);
        assert(encode_utf8(a + b) =~= encode_utf8(a) + encode_utf8(b));
    }
}

/// Every character takes at least one byte.
pub proof fn lemma_blen_at_least_len(s: Seq<char>)
    ensures
        blen(s) >= s.len(),
    decreases s.len(),
{
    if s.len() > 0 {
        lemma_blen_at_least_len(s.drop_first());
    }
}

/// An item's text is part of the text of the items.
pub proof fn lemma_item_text_within(xs: Seq<JsonView>, i: int)
    requires
        0 <= i < xs.len(),
    ensures
        blen(json_text(xs[i])) <= blen(items_text(xs)),
    decreases xs.len(),
{
    let init = xs.subrange(0, xs.len() - 1);
    let pre = if init.len() == 0 {
        Seq::<char>::empty()
    } else {
        items_text(init) + seq![',']
    };
    assert(items_text(xs) == pre + json_text(xs[xs.len() - 1]));
    lemma_blen_append(pre, json_text(xs[xs.len() - 1]));
    if i < xs.len() - 1 {
        lemma_item_text_within(init, i);
        assert(init[i] == xs[i]);
        lemma_blen_append(items_text(init), seq![',']);
    }
}

/// An entry's value text is part of the text of the entries.
pub proof fn lemma_entry_text_within(fs: Seq<(Seq<char>, JsonView)>, i: int)
    requires
        0 <= i < fs.len(),
    ensures
        blen(json_text(fs[i].1)) <= blen(fields_text(fs)),
    decreases fs.len(),
{
    let init = fs.subrange(0, fs.len() - 1);
    let last = fs[fs.len() - 1];
    let pre = if init.len() == 0 {
        Seq::<char>::empty()
    } else {
        fields_text(init) + seq![',']
    };
    let mid = pre + quoted(last.0) + seq![':'];
    assert(fields_text(fs) == mid + json_text(last.1));
    lemma_blen_append(mid, json_text(last.1));
    lemma_blen_append(pre + quoted(last.0), seq![':']);
    lemma_blen_append(pre, quoted(last.0));
    if i < fs.len() - 1 {
        lemma_entry_text_within(init, i);
        assert(init[i] == fs[i]);
        lemma_blen_append(fields_text(init), seq![',']);
    }
}

/// A member's text is part of the object's text.
pub proof fn lemma_member_text_within(v: JsonView, k: Seq<char>)
    requires
        member(v, k) is Some,
    ensures
        blen(json_text(member(v, k)->0)) <= blen(json_text(v)),
{
    let fs = v->Object_0;
    lemma_field_at(fs, k);
    let i = choose|i: int| 0 <= i < fs.len() && fs[i].0 == k && field(fs, k) == Some(fs[i].1);
    lemma_entry_text_within(fs, i);
    lemma_blen_append(seq!['{'] + fields_text(fs), seq!['}']);
    lemma_blen_append(seq!['{'], fields_text(fs));
}

/// An array's item's text is part of the array's text.
pub proof fn lemma_array_item_within(xs: Seq<JsonView>, i: int)
    requires
        0 <= i < xs.len(),
    ensures
        blen(json_text(xs[i])) <= blen(json_text(JsonView::Array(xs))),
{
    lemma_item_text_within(xs, i);
    lemma_blen_append(seq!['['] + items_text(xs), seq![']']);
    lemma_blen_append(seq!['['], items_text(xs));
}

/// Items whose texts are not empty take at least one character each.
pub proof fn lemma_items_text_len(xs: Seq<JsonView>)
    requires
        forall|i: int| 0 <= i < xs.len() ==> (#[trigger] json_text(xs[i])).len() > 0,
    ensures
        items_text(xs).len() >= xs.len(),
    decreases xs.len(),
{
    if xs.len() > 0 {
        let init = xs.subrange(0, xs.len() - 1);
        assert forall|i: int| 0 <= i < init.len() implies (#[trigger] json_text(init[i])).len() > 0 by {
            assert(init[i] == xs[i]);
        }
        lemma_items_text_len(init);
        assert(json_text(xs[xs.len() - 1]).len() > 0);
    }
}

/// The decimal spelling of `n` reads back as `n`.
pub proof fn lemma_decimal_reads_back(n: nat)
    requires
        n <= u64::MAX,
    ensures
        index_text(crate::text::decimal(n)) == Some(n as u64),
{
    lemma_decimal_digits(n);
}

proof fn lemma_digit_char_value(d: nat)
    requires
        d < 10,
    ensures
        crate::text::digit_char(d) as nat == 48 + d,
        is_digit(crate::text::digit_char(d)),
{
}

proof fn lemma_decimal_digits(n: nat)
    ensures
        crate::text::decimal(n).len() > 0,
        forall|i: int|
            0 <= i < crate::text::decimal(n).len() ==> #[trigger] is_digit(crate::text::decimal(n)[i]),
        digits_value(crate::text::decimal(n)) == n,
        n >= 10 ==> crate::text::decimal(n)[0] != '0',
        n >= 1 ==> crate::text::decimal(n)[0] != '0',
    decreases n,
{
    let d = crate::text::decimal(n);
    lemma_digit_char_value(n % 10);
    if n < 10 {
        assert(d == seq![crate::text::digit_char(n)]);
        assert(d.drop_last() =~= Seq::<char>::empty());
        assert(d.last() == crate::text::digit_char(n));
        assert(digits_value(d) == digits_value(d.drop_last()) * 10 + ((d.last() as nat) - 48) as nat);
        assert(digits_value(Seq::<char>::empty()) == 0);
    } else {
        lemma_decimal_digits(n / 10);
        let p = crate::text::decimal(n / 10);
        assert(d == p.push(crate::text::digit_char(n % 10)));
        assert(d.drop_last() =~= p);
        assert(d.last() == crate::text::digit_char(n % 10));
        assert(digits_value(d) == digits_value(d.drop_last()) * 10 + ((d.last() as nat) - 48) as nat);
        assert(n == (n / 10) * 10 + n % 10) by (nonlinear_arith);
        assert forall|i: int| 0 <= i < d.len() implies #[trigger] is_digit(d[i]) by {
            if i < p.len() {
                assert(d[i] == p[i]);
            }
        }
        assert(d[0] == p[0]);
    }
}

proof fn lemma_blen_ascii(c: char)
    requires
        (c as u32) < 128,
    ensures
        blen(seq![c]) == 1,
{
    assert(seq![c].drop_first() =~= Seq::<char>::empty());
    assert(encode_utf8(seq![c]) == vstd::utf8::encode_scalar(c as u32) + encode_utf8(Seq::<char>::empty()));
}

/// Bytes of the UTF-8 encoding of `s`.
fn byte_len(s: &str) -> (r: usize)
    ensures
        r == blen(s@),
{
    s.as_bytes().len()
}

/// `acc` plus `n`, when that stays within `bound`.
fn add_within(acc: usize, n: usize, bound: usize) -> (r: Option<usize>)
    requires
        acc <= bound,
    ensures
        r == (if acc + n <= bound {
            Some((acc + n) as usize)
        } else {
            None::<usize>
        }),
{
    if n > bound - acc {
        None
    } else {
        Some(acc + n)
    }
}

/// The items of a prefix take no more bytes than all the items.
proof fn lemma_items_prefix_within(xs: Seq<JsonView>, i: int)
    requires
        0 <= i <= xs.len(),
    ensures
        blen(items_text(xs.subrange(0, i))) <= blen(items_text(xs)),
    decreases xs.len() - i,
{
    if i < xs.len() {
        lemma_items_prefix_within(xs, i + 1);
        let p = xs.subrange(0, i + 1);
        assert(p.subrange(0, i) =~= xs.subrange(0, i));
        let pre = if i == 0 {
            Seq::<char>::empty()
        } else {
            items_text(xs.subrange(0, i)) + seq![',']
        };
        assert(items_text(p) == pre + json_text(p[i]));
        lemma_blen_append(pre, json_text(p[i]));
        if i > 0 {
            lemma_blen_append(items_text(xs.subrange(0, i)), seq![',']);
        }
    } else {
        assert(xs.subrange(0, i) =~= xs);
    }
}

/// The entries of a prefix take no more bytes than all the entries.
proof fn lemma_fields_prefix_within(fs: Seq<(Seq<char>, JsonView)>, i: int)
    requires
        0 <= i <= fs.len(),
    ensures
        blen(fields_text(fs.subrange(0, i))) <= blen(fields_text(fs)),
    decreases fs.len() - i,
{
    if i < fs.len() {
        lemma_fields_prefix_within(fs, i + 1);
        let p = fs.subrange(0, i + 1);
        assert(p.subrange(0, i) =~= fs.subrange(0, i));
        let pre = if i == 0 {
            Seq::<char>::empty()
        } else {
            fields_text(fs.subrange(0, i)) + seq![',']
        };
        let mid = pre + quoted(p[i].0) + seq![':'];
        assert(fields_text(p) == mid + json_text(p[i].1));
        lemma_blen_append(mid, json_text(p[i].1));
        lemma_blen_append(pre + quoted(p[i].0), seq![':']);
        lemma_blen_append(pre, quoted(p[i].0));
        if i > 0 {
            lemma_blen_append(fields_text(fs.subrange(0, i)), seq![',']);
        }
    } else {
        assert(fs.subrange(0, i) =~= fs);
    }
}

/// `acc` plus the byte length of the JSON text of `v`, counted piece by piece
/// and given up (`None`) as soon as the count passes `bound`.
pub fn text_len_within(v: &Json, acc: usize, bound: usize) -> (r: Option<usize>)
    requires
        acc <= bound,
    ensures
        r == (if acc + blen(json_text(v@)) <= bound {
            Some((acc + blen(json_text(v@))) as usize)
        } else {
            None::<usize>
        }),
    decreases v,
{
    match v {
        Json::Null => add_within(acc, byte_len(lit(0)), bound),
        Json::Bool(b) => if *b {
            add_within(acc, byte_len(lit(1)), bound)
        } else {
            add_within(acc, byte_len(lit(2)), bound)
        },
        Json::Number(n) => add_within(acc, byte_len(n.as_str()), bound),
        Json::Str(t) => {
            let q = quote_json(t.as_str());
            add_within(acc, byte_len(q.as_str()), bound)
        },
        Json::Array(a) => {
            let ghost xs = items_view(a@);
            proof {
                lemma_items_view(a@);
                lemma_blen_append(seq!['['] + items_text(xs), seq![']']);
                lemma_blen_append(seq!['['], items_text(xs));
                assert(xs.subrange(0, 0) =~= Seq::<JsonView>::empty());
                lemma_blen_ascii('[');
                lemma_blen_ascii(']');
                lemma_blen_ascii(',');
                assert(blen(Seq::<char>::empty()) == 0);
            }
            let mut total = match add_within(acc, byte_len(lit(3)), bound) {
                Some(t) => t,
                None => {
                    return None;
                },
            };
            let mut i: usize = 0;
            while i < a.len()
                invariant
                    *v == Json::Array(*a),
                    i <= a@.len(),
                    xs == items_view(a@),
                    xs.len() == a@.len(),
                    forall|k: int| 0 <= k < a@.len() ==> #[trigger] xs[k] == a@[k]@,
                    blen(json_text(v@)) == 1 + blen(items_text(xs)) + 1,
                    total == acc + 1 + blen(items_text(xs.subrange(0, i as int))),
                    total <= bound,
                decreases a.len() - i,
            {
                let ghost p = xs.subrange(0, i + 1);
                proof {
                    assert(p.subrange(0, i as int) =~= xs.subrange(0, i as int));
                    lemma_items_prefix_within(xs, i + 1);
                    let pre = if i == 0 {
                        Seq::<char>::empty()
                    } else {
                        items_text(xs.subrange(0, i as int)) + seq![',']
                    };
                    assert(items_text(p) == pre + json_text(p[i as int]));
                    lemma_blen_append(pre, json_text(p[i as int]));
                    if i > 0 {
                        lemma_blen_append(items_text(xs.subrange(0, i as int)), seq![',']);
                    }
                }
                if i > 0 {
                    total = match add_within(total, byte_len(lit(7)), bound) {
                        Some(t) => t,
                        None => {
                            return None;
                        },
                    };
                }
                proof {
                    assert(decreases_to!(*v => (*v)->Array_0));
                    assert(decreases_to!(*a => a@));
                    assert(decreases_to!(a@ => a@[i as int]));
                }
                total = match text_len_within(&a[i], total, bound) {
                    Some(t) => t,
                    None => {
                        return None;
                    },
                };
                i = i + 1;
            }
            proof {
                assert(xs.subrange(0, a@.len() as int) =~= xs);
            }
            add_within(total, byte_len(lit(4)), bound)
        },
        Json::Object(o) => {
            let ghost fs = fields_view(o@);
            proof {
                lemma_fields_view(o@);
                lemma_blen_append(seq!['{'] + fields_text(fs), seq!['}']);
                lemma_blen_append(seq!['{'], fields_text(fs));
                assert(fs.subrange(0, 0) =~= Seq::<(Seq<char>, JsonView)>::empty());
                lemma_blen_ascii('{');
                lemma_blen_ascii('}');
                lemma_blen_ascii(',');
                lemma_blen_ascii(':');
                assert(blen(Seq::<char>::empty()) == 0);
            }
            let mut total = match add_within(acc, byte_len(lit(5)), bound) {
                Some(t) => t,
                None => {
                    return None;
                },
            };
            let mut i: usize = 0;
            while i < o.len()
                invariant
                    *v == Json::Object(*o),
                    i <= o@.len(),
                    fs == fields_view(o@),
                    fs.len() == o@.len(),
                    forall|k: int| 0 <= k < o@.len() ==> #[trigger] fs[k] == (o@[k].0@, json_view(o@[k].1)),
                    blen(json_text(v@)) == 1 + blen(fields_text(fs)) + 1,
                    total == acc + 1 + blen(fields_text(fs.subrange(0, i as int))),
                    total <= bound,
                decreases o.len() - i,
            {
                let ghost p = fs.subrange(0, i + 1);
                let q = quote_json(o[i].0.as_str());
                proof {
                    assert(p.subrange(0, i as int) =~= fs.subrange(0, i as int));
                    lemma_fields_prefix_within(fs, i + 1);
                    let pre = if i == 0 {
                        Seq::<char>::empty()
                    } else {
                        fields_text(fs.subrange(0, i as int)) + seq![',']
                    };
                    let mid = pre + quoted(p[i as int].0) + seq![':'];
                    assert(fields_text(p) == mid + json_text(p[i as int].1));
                    lemma_blen_append(mid, json_text(p[i as int].1));
                    lemma_blen_append(pre + quoted(p[i as int].0), seq![':']);
                    lemma_blen_append(pre, quoted(p[i as int].0));
                    if i > 0 {
                        lemma_blen_append(fields_text(fs.subrange(0, i as int)), seq![',']);
                    }
                }
                if i > 0 {
                    total = match add_within(total, byte_len(lit(7)), bound) {
                        Some(t) => t,
                        None => {
                            return None;
                        },
                    };
                }
                total = match add_within(total, byte_len(q.as_str()), bound) {
                    Some(t) => t,
                    None => {
                        return None;
                    },
                };
                total = match add_within(total, byte_len(colon()), bound) {
                    Some(t) => t,
                    None => {
                        return None;
                    },
                };
                proof {
                    assert(decreases_to!(*v => (*v)->Object_0));
                    assert(decreases_to!(*o => o@));
                    assert(decreases_to!(o@ => o@[i as int]));
                    assert(decreases_to!(o@[i as int] => o@[i as int].1));
                }
                total = match text_len_within(&o[i].1, total, bound) {
                    Some(t) => t,
                    None => {
                        return None;
                    },
                };
                i = i + 1;
            }
            proof {
                assert(fs.subrange(0, o@.len() as int) =~= fs);
            }
            add_within(total, byte_len(lit(6)), bound)
        },
    }
}

} // verus!
