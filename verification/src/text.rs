//! Character classes and bounded text checks shared by the scan and ledger rules.
use vstd::prelude::*;
use vstd::string::*;
use vstd::utf8::{encode_utf8, encode_utf8_decode_utf8};

verus! {

/// Unicode general category `Cc`: U+0000..=U+001F and U+007F..=U+009F.
pub open spec fn is_control_char(c: char) -> bool {
    let v = c as u32;
    v <= 0x1f || (0x7f <= v && v <= 0x9f)
}

/// Unicode `White_Space` property (the set that `str::trim` removes).
pub open spec fn is_whitespace_char(c: char) -> bool {
    let v = c as u32;
    ||| 0x09 <= v && v <= 0x0d
    ||| v == 0x20
    ||| v == 0x85
    ||| v == 0xa0
    ||| v == 0x1680
    ||| 0x2000 <= v && v <= 0x200a
    ||| v == 0x2028
    ||| v == 0x2029
    ||| v == 0x202f
    ||| v == 0x205f
    ||| v == 0x3000
}

/// The text is empty once surrounding white space is trimmed.
pub open spec fn is_blank_text(s: Seq<char>) -> bool {
    forall|i: int| 0 <= i < s.len() ==> #[trigger] is_whitespace_char(s[i])
}

/// The text holds at least one control character.
pub open spec fn has_control_text(s: Seq<char>) -> bool {
    exists|i: int| 0 <= i < s.len() && #[trigger] is_control_char(s[i])
}

/// Length of the UTF-8 encoding of the text, in bytes, as `str::len` reports it.
pub open spec fn utf8_len(s: Seq<char>) -> usize {
    encode_utf8(s).len() as usize
}

pub fn char_is_control(c: char) -> (r: bool)
    ensures
        r == is_control_char(c),
{
    let v = c as u32;
    v <= 0x1f || (0x7f <= v && v <= 0x9f)
}

pub fn char_is_whitespace(c: char) -> (r: bool)
    ensures
        r == is_whitespace_char(c),
{
    let v = c as u32;
    (0x09 <= v && v <= 0x0d) || v == 0x20 || v == 0x85 || v == 0xa0 || v == 0x1680 || (0x2000
        <= v && v <= 0x200a) || v == 0x2028 || v == 0x2029 || v == 0x202f || v == 0x205f || v
        == 0x3000
}

/// Whether `s` is empty or consists of white space only.
pub fn is_blank(s: &str) -> (r: bool)
    ensures
        r == is_blank_text(s@),
{
    let n = s.unicode_len();
    let mut i: usize = 0;
    while i < n
        invariant
            n == s@.len(),
            i <= n,
            forall|j: int| 0 <= j < i ==> #[trigger] is_whitespace_char(s@[j]),
        decreases n - i,
    {
        let c = s.get_char(i);
        if !char_is_whitespace(c) {
            return false;
        }
        i = i + 1;
    }
    true
}

/// Whether `s` holds a control character.
pub fn has_control(s: &str) -> (r: bool)
    ensures
        r == has_control_text(s@),
{
    let n = s.unicode_len();
    let mut i: usize = 0;
    while i < n
        invariant
            n == s@.len(),
            i <= n,
            forall|j: int| 0 <= j < i ==> !#[trigger] is_control_char(s@[j]),
        decreases n - i,
    {
        let c = s.get_char(i);
        if char_is_control(c) {
            assert(is_control_char(s@[i as int]));
            return true;
        }
        i = i + 1;
    }
    false
}

/// Whether `s` holds the character `target`.
pub fn has_char(s: &str, target: char) -> (r: bool)
    ensures
        r == s@.contains(target),
{
    let n = s.unicode_len();
    let mut i: usize = 0;
    while i < n
        invariant
            n == s@.len(),
            i <= n,
            forall|j: int| 0 <= j < i ==> s@[j] != target,
        decreases n - i,
    {
        let c = s.get_char(i);
        if c == target {
            assert(s@[i as int] == target);
            return true;
        }
        i = i + 1;
    }
    false
}

/// Exact equality of two texts, compared through their UTF-8 bytes.
pub fn str_eq(a: &str, b: &str) -> (r: bool)
    ensures
        r == (a@ == b@),
{
    let x = a.as_bytes();
    let y = b.as_bytes();
    proof {
        vstd::utf8::encode_utf8_decode_utf8(a@);
        vstd::utf8::encode_utf8_decode_utf8(b@);
    }
    if x.len() != y.len() {
        return false;
    }
    let mut i: usize = 0;
    while i < x.len()
        invariant
            x.len() == y.len(),
            x@ == encode_utf8(a@),
            y@ == encode_utf8(b@),
            i <= x.len(),
            forall|j: int| 0 <= j < i ==> x@[j] == y@[j],
        decreases x.len() - i,
    {
        if x[i] != y[i] {
            return false;
        }
        i = i + 1;
    }
    assert(x@ =~= y@);
    true
}

/// Text that fits a cursor or filter: at most 4096 UTF-8 bytes and no NUL.
pub open spec fn is_bounded_text(s: Seq<char>) -> bool {
    utf8_len(s) <= 4096 && !s.contains('\0')
}

pub fn bounded_text(s: &str) -> (r: bool)
    ensures
        r == is_bounded_text(s@),
{
    s.len() <= 4096 && !has_char(s, '\0')
}

/// The decimal digit character for `d < 10`.
pub open spec fn digit_char(d: nat) -> char {
    if d == 0 { '0' } else if d == 1 { '1' } else if d == 2 { '2' } else if d == 3 { '3' }
    else if d == 4 { '4' } else if d == 5 { '5' } else if d == 6 { '6' } else if d == 7 { '7' }
    else if d == 8 { '8' } else { '9' }
}

/// Decimal spelling of `n`, without sign or leading zeros.
pub open spec fn decimal(n: nat) -> Seq<char>
    decreases n,
{
    if n < 10 {
        seq![digit_char(n)]
    } else {
        decimal(n / 10).push(digit_char(n % 10))
    }
}

fn digit_str(d: u64) -> (r: &'static str)
    requires
        d < 10,
    ensures
        r@ == seq![digit_char(d as nat)],
{
    proof {
        reveal_strlit("0");
        reveal_strlit("1");
        reveal_strlit("2");
        reveal_strlit("3");
        reveal_strlit("4");
        reveal_strlit("5");
        reveal_strlit("6");
        reveal_strlit("7");
        reveal_strlit("8");
        reveal_strlit("9");
    }
    if d == 0 { "0" } else if d == 1 { "1" } else if d == 2 { "2" } else if d == 3 { "3" }
    else if d == 4 { "4" } else if d == 5 { "5" } else if d == 6 { "6" } else if d == 7 { "7" }
    else if d == 8 { "8" } else { "9" }
}

/// Append the decimal spelling of `n`.
pub fn push_decimal(s: &mut String, n: u64)
    ensures
        final(s)@ == old(s)@ + decimal(n as nat),
    decreases n,
{
    if n >= 10 {
        push_decimal(s, n / 10);
    }
    s.append(digit_str(n % 10));
    proof {
        if n >= 10 {
            assert(decimal(n as nat) == decimal((n / 10) as nat).push(digit_char((n % 10) as nat)));
        }
    }
}

/// Append one text to another.
pub fn push_str(s: &mut String, t: &str)
    ensures
        final(s)@ == old(s)@ + t@,
{
    s.append(t);
}

/// Lexicographic order of byte strings (the order of `str` and of a
/// `BTreeMap<String, _>`).
pub open spec fn byte_lt(a: Seq<u8>, b: Seq<u8>) -> bool
    decreases a.len(),
{
    if a.len() == 0 {
        b.len() > 0
    } else if b.len() == 0 {
        false
    } else if a[0] != b[0] {
        a[0] < b[0]
    } else {
        byte_lt(a.drop_first(), b.drop_first())
    }
}

/// Order of texts by their UTF-8 bytes.
pub open spec fn text_lt(a: Seq<char>, b: Seq<char>) -> bool {
    byte_lt(encode_utf8(a), encode_utf8(b))
}

pub proof fn lemma_byte_lt_irreflexive(a: Seq<u8>)
    ensures
        !byte_lt(a, a),
    decreases a.len(),
{
    if a.len() > 0 {
        lemma_byte_lt_irreflexive(a.drop_first());
    }
}

pub proof fn lemma_byte_lt_transitive(a: Seq<u8>, b: Seq<u8>, c: Seq<u8>)
    requires
        byte_lt(a, b),
        byte_lt(b, c),
    ensures
        byte_lt(a, c),
    decreases a.len(),
{
    if a.len() > 0 && b.len() > 0 && c.len() > 0 && a[0] == b[0] && b[0] == c[0] {
        lemma_byte_lt_transitive(a.drop_first(), b.drop_first(), c.drop_first());
    }
}

pub proof fn lemma_byte_lt_total(a: Seq<u8>, b: Seq<u8>)
    requires
        a != b,
    ensures
        byte_lt(a, b) || byte_lt(b, a),
    decreases a.len(),
{
    if a.len() == 0 {
        if b.len() == 0 {
            assert(a =~= b);
        }
    } else if b.len() > 0 && a[0] == b[0] {
        if a.drop_first() == b.drop_first() {
            assert(a =~= seq![a[0]] + a.drop_first());
            assert(b =~= seq![b[0]] + b.drop_first());
        } else {
            lemma_byte_lt_total(a.drop_first(), b.drop_first());
        }
    }
}

pub proof fn lemma_text_lt_irreflexive(a: Seq<char>)
    ensures
        !text_lt(a, a),
{
    lemma_byte_lt_irreflexive(encode_utf8(a));
}

pub proof fn lemma_text_lt_transitive(a: Seq<char>, b: Seq<char>, c: Seq<char>)
    requires
        text_lt(a, b),
        text_lt(b, c),
    ensures
        text_lt(a, c),
{
    lemma_byte_lt_transitive(encode_utf8(a), encode_utf8(b), encode_utf8(c));
}

pub proof fn lemma_text_lt_total(a: Seq<char>, b: Seq<char>)
    requires
        a != b,
    ensures
        text_lt(a, b) || text_lt(b, a),
{
    encode_utf8_decode_utf8(a);
    encode_utf8_decode_utf8(b);
    lemma_byte_lt_total(encode_utf8(a), encode_utf8(b));
}

/// Byte-order comparison of two texts.
pub fn text_less(a: &str, b: &str) -> (r: bool)
    ensures
        r == text_lt(a@, b@),
{
    let x = a.as_bytes();
    let y = b.as_bytes();
    let mut i: usize = 0;
    assert(x@.skip(0) =~= x@);
    assert(y@.skip(0) =~= y@);
    while i < x.len() && i < y.len()
        invariant
            x@ == encode_utf8(a@),
            y@ == encode_utf8(b@),
            i <= x@.len(),
            i <= y@.len(),
            byte_lt(x@, y@) == byte_lt(x@.skip(i as int), y@.skip(i as int)),
        decreases x.len() - i,
    {
        if x[i] != y[i] {
            return x[i] < y[i];
        }
        assert(x@.skip(i as int).drop_first() =~= x@.skip(i + 1));
        assert(y@.skip(i as int).drop_first() =~= y@.skip(i + 1));
        i = i + 1;
    }
    i == x.len() && i < y.len()
}

/// Every text precedes every later one: sorted without repeats.
pub open spec fn strictly_sorted(t: Seq<Seq<char>>) -> bool {
    forall|i: int, j: int| 0 <= i < j < t.len() ==> text_lt(#[trigger] t[i], #[trigger] t[j])
}

/// Inserting a text at its place keeps a table sorted.
pub proof fn lemma_insert_sorted(t: Seq<Seq<char>>, p: int, key: Seq<char>)
    requires
        strictly_sorted(t),
        0 <= p <= t.len(),
        forall|q: int| 0 <= q < p ==> text_lt(#[trigger] t[q], key),
        p < t.len() ==> text_lt(key, t[p]),
    ensures
        strictly_sorted(t.insert(p, key)),
{
    let nt = t.insert(p, key);
    t.insert_ensures(p, key);
    assert forall|a: int, b: int| 0 <= a < b < nt.len() implies text_lt(#[trigger] nt[a], #[trigger] nt[b]) by {
        if b < p {
            assert(text_lt(t[a], t[b]));
        } else if b == p {
            assert(text_lt(t[a], key));
        } else if a < p {
            assert(nt[b] == t[b - 1]);
            if b - 1 == p {
                lemma_text_lt_transitive(t[a], key, t[b - 1]);
            } else {
                assert(text_lt(t[a], t[b - 1]));
            }
        } else if a == p {
            if b - 1 != p {
                assert(text_lt(t[p], t[b - 1]));
                lemma_text_lt_transitive(key, t[p], t[b - 1]);
            }
        } else {
            assert(text_lt(t[a - 1], t[b - 1]));
        }
    }
}

/// Position at which `key` belongs in the sorted `t`: after every smaller text.
pub fn sorted_position(t: &Vec<String>, key: &str) -> (p: usize)
    ensures
        p <= t@.len(),
        forall|q: int| 0 <= q < p ==> text_lt((#[trigger] t@[q])@, key@),
        p < t@.len() ==> !text_lt(t@[p as int]@, key@),
{
    let mut p: usize = 0;
    while p < t.len() && text_less(t[p].as_str(), key)
        invariant
            p <= t@.len(),
            forall|q: int| 0 <= q < p ==> text_lt((#[trigger] t@[q])@, key@),
        decreases t.len() - p,
    {
        p = p + 1;
    }
    p
}

} // verus!
