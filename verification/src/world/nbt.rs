//! The library's own model of an NBT value, as `fastnbt` parses it, and the
//! lookups the chunk logic performs on it.
use vstd::prelude::*;

use crate::text::{append_chars, append_str, chars_of, i64_decimal, seq_lt, signed_decimal, str_equals};
use fastnbt::Value;

verus! {

/// `fastnbt::Value`, declared so that the parse result can be converted.
#[verifier::external_type_specification]
#[verifier::external_body]
pub struct ExNbtValue(Value);

/// `fastnbt::error::Error`, the error of a failed NBT parse.
#[verifier::external_type_specification]
#[verifier::external_body]
pub struct ExNbtError(fastnbt::error::Error);

/// One NBT value. Floating-point payloads are kept only as their debug
/// text, since no logic of the library reads them as numbers.
#[derive(Debug)]
pub enum Nbt {
    Byte(i8),
    Short(i16),
    Int(i32),
    Long(i64),
    Float(String),
    Double(String),
    String(String),
    ByteArray(Vec<i8>),
    IntArray(Vec<i32>),
    LongArray(Vec<i64>),
    List(Vec<Nbt>),
    Compound(Vec<NbtEntry>),
}

/// One named entry of an NBT compound.
#[derive(Debug)]
pub struct NbtEntry {
    pub key: String,
    pub value: Nbt,
}

/// Converts a parsed `fastnbt::Value` into the library's `Nbt`; a
/// compound's entries come in the order its map yields them.
#[verifier::external_body]
fn nbt_from_value(v: Value) -> Nbt {
    match v {
        Value::List(l) => Nbt::List(l.into_iter().map(nbt_from_value).collect()),
        Value::Compound(m) => Nbt::Compound(
            m.into_iter().map(|(key, v)| NbtEntry { key, value: nbt_from_value(v) }).collect(),
        ),
        other => nbt_from_scalar(other),
    }
}

/// Converts a `fastnbt::Value` that is neither a list nor a compound;
/// floats become their debug text.
#[verifier::external_body]
fn nbt_from_scalar(v: Value) -> Nbt {
    match v {
        Value::Byte(b) => Nbt::Byte(b),
        Value::Short(s) => Nbt::Short(s),
        Value::Int(i) => Nbt::Int(i),
        Value::Long(l) => Nbt::Long(l),
        Value::String(s) => Nbt::String(s),
        Value::ByteArray(a) => Nbt::ByteArray(a.into_inner()),
        Value::IntArray(a) => Nbt::IntArray(a.into_inner()),
        Value::LongArray(a) => Nbt::LongArray(a.into_inner()),
        Value::Double(_) => Nbt::Double(format!("{:?}", v)),
        _ => Nbt::Float(format!("{:?}", v)),
    }
}

/// An NBT value as plain values, with each compound's entries in order of
/// key: the order in which a parse yields them is not fixed.
pub enum NbtV {
    Byte(i8),
    Short(i16),
    Int(i32),
    Long(i64),
    Float(Seq<char>),
    Double(Seq<char>),
    String(Seq<char>),
    ByteArray(Seq<i8>),
    IntArray(Seq<i32>),
    LongArray(Seq<i64>),
    List(Seq<NbtV>),
    Compound(Seq<(Seq<char>, NbtV)>),
}

/// `x` inserted before the first entry whose key it sorts strictly
/// before.
pub open spec fn insert_entry(x: (Seq<char>, NbtV), s: Seq<(Seq<char>, NbtV)>) -> Seq<(Seq<char>, NbtV)>
    decreases s.len(),
{
    if s.len() == 0 {
        seq![x]
    } else if seq_lt(x.0, s[0].0) {
        seq![x] + s
    } else {
        seq![s[0]] + insert_entry(x, s.drop_first())
    }
}

/// The entries in order of key (insertion sort, keeping the order of
/// equal keys).
pub open spec fn sort_entries(s: Seq<(Seq<char>, NbtV)>) -> Seq<(Seq<char>, NbtV)>
    decreases s.len(),
{
    if s.len() == 0 {
        s
    } else {
        insert_entry(s.last(), sort_entries(s.drop_last()))
    }
}

/// The value as plain values, compounds ordered by key.
pub open spec fn nbt_view(n: Nbt) -> NbtV
    decreases n, 0int,
{
    match n {
        Nbt::Byte(b) => NbtV::Byte(b),
        Nbt::Short(b) => NbtV::Short(b),
        Nbt::Int(b) => NbtV::Int(b),
        Nbt::Long(b) => NbtV::Long(b),
        Nbt::Float(t) => NbtV::Float(t@),
        Nbt::Double(t) => NbtV::Double(t@),
        Nbt::String(t) => NbtV::String(t@),
        Nbt::ByteArray(a) => NbtV::ByteArray(a@),
        Nbt::IntArray(a) => NbtV::IntArray(a@),
        Nbt::LongArray(a) => NbtV::LongArray(a@),
        Nbt::List(l) => NbtV::List(list_view(l, l@.len() as int)),
        Nbt::Compound(es) => NbtV::Compound(sort_entries(entries_view(es, es@.len() as int))),
    }
}

/// The first `k` elements of a list as plain values.
pub open spec fn list_view(l: Vec<Nbt>, k: int) -> Seq<NbtV>
    decreases l, k,
{
    if k <= 0 || k > l@.len() {
        Seq::empty()
    } else {
        proof {
            assert(decreases_to!(l => l@));
            assert(decreases_to!(l@ => l@[k - 1]));
        }
        list_view(l, k - 1).push(nbt_view(l@[k - 1]))
    }
}

/// The first `k` entries of a compound as plain values, in entry order.
pub open spec fn entries_view(es: Vec<NbtEntry>, k: int) -> Seq<(Seq<char>, NbtV)>
    decreases es, k,
{
    if k <= 0 || k > es@.len() {
        Seq::empty()
    } else {
        proof {
            assert(decreases_to!(es => es@));
            assert(decreases_to!(es@ => es@[k - 1]));
        }
        entries_view(es, k - 1).push((es@[k - 1].key@, nbt_view(es@[k - 1].value)))
    }
}

/// What `fastnbt::from_bytes::<fastnbt::Value>` parses the bytes to, as
/// plain values with each compound's entries ordered by key; `None` when
/// it refuses them.
pub uninterp spec fn nbt_parse(bytes: Seq<u8>) -> Option<NbtV>;

/// Whether `fastnbt` accepts the bytes as NBT.
pub open spec fn nbt_accepts(bytes: Seq<u8>) -> bool {
    nbt_parse(bytes) is Some
}

/// `fastnbt::from_bytes::<fastnbt::Value>`: parses uncompressed NBT bytes.
/// It succeeds exactly on the bytes it accepts, with the value they
/// encode; the order of a compound's entries follows a hash map's walk,
/// which differs between runs, so only the value with entries ordered by
/// key is promised.
#[verifier::external_body]
pub(crate) fn parse_nbt(bytes: &[u8]) -> (r: Result<Nbt, fastnbt::error::Error>)
    ensures
        r is Ok <==> nbt_accepts(bytes@),
        r matches Ok(v) ==> nbt_parse(bytes@) == Some(nbt_view(v)),
{
    fastnbt::from_bytes::<Value>(bytes).map(nbt_from_value)
}

/// The message of an NBT parse error (its `Display` text).
#[verifier::external_body]
pub(crate) fn nbt_error_text(e: &fastnbt::error::Error) -> String {
    e.to_string()
}

/// The value of the first entry named `key`, if any.
pub open spec fn lookup(entries: Seq<NbtEntry>, key: Seq<char>) -> Option<Nbt>
    decreases entries.len(),
{
    if entries.len() == 0 {
        None
    } else if entries[0].key@ == key {
        Some(entries[0].value)
    } else {
        lookup(entries.drop_first(), key)
    }
}

proof fn lemma_lookup_skip(entries: Seq<NbtEntry>, key: Seq<char>, i: int)
    requires
        0 <= i <= entries.len(),
        forall|j: int| 0 <= j < i ==> entries[j].key@ != key,
    ensures
        lookup(entries, key) == lookup(entries.skip(i), key),
    decreases i,
{
    if i > 0 {
        assert(entries.drop_first().skip(i - 1) == entries.skip(i));
        lemma_lookup_skip(entries.drop_first(), key, i - 1);
    } else {
        assert(entries.skip(0) == entries);
    }
}

/// The value stored under `key` in a compound's entries.
pub fn get<'a>(entries: &'a Vec<NbtEntry>, key: &str) -> (r: Option<&'a Nbt>)
    ensures
        match r {
            Some(v) => lookup(entries@, key@) == Some(*v),
            None => lookup(entries@, key@) is None,
        },
{
    let mut i: usize = 0;
    while i < entries.len()
        invariant
            i <= entries.len(),
            forall|j: int| 0 <= j < i ==> entries@[j].key@ != key@,
        decreases entries.len() - i,
    {
        if str_equals(entries[i].key.as_str(), key) {
            proof {
                lemma_lookup_skip(entries@, key@, i as int);
            }
            return Some(&entries[i].value);
        }
        i = i + 1;
    }
    proof {
        lemma_lookup_skip(entries@, key@, i as int);
    }
    None
}

/// The elements of `v` if it is a list.
pub open spec fn as_list(v: Option<Nbt>) -> Option<Seq<Nbt>> {
    match v {
        Some(Nbt::List(l)) => Some(l@),
        _ => None,
    }
}

/// The text of `v` if it is a string.
pub open spec fn as_string(v: Option<Nbt>) -> Option<Seq<char>> {
    match v {
        Some(Nbt::String(s)) => Some(s@),
        _ => None,
    }
}

// ---------------------------------------------------------------------------
// Debug text
// ---------------------------------------------------------------------------

/// What `<str as Debug>::fmt` writes for a string: it in double quotes,
/// with quotes, backslashes and characters that do not print escaped.
pub uninterp spec fn str_debug(s: Seq<char>) -> Seq<char>;

/// `format!("{:?}", s)` for a string: its debug text (`str_debug`).
#[verifier::external_body]
fn debug_of_str(s: &str) -> (r: String)
    ensures
        r@ == str_debug(s@),
{
    format!("{:?}", s)
}

/// The first `k` numbers of `s` in decimal, separated by `, `.
pub open spec fn ints_text(s: Seq<int>, k: int) -> Seq<char>
    decreases k,
{
    if k <= 0 || k > s.len() {
        Seq::empty()
    } else if k == 1 {
        signed_decimal(s[0])
    } else {
        ints_text(s, k - 1) + ", "@ + signed_decimal(s[k - 1])
    }
}

/// The debug text of an array: `Name(Name { data: [..] })`.
pub open spec fn array_text(name: Seq<char>, s: Seq<int>) -> Seq<char> {
    name + "("@ + name + " { data: ["@ + ints_text(s, s.len() as int) + "] })"@
}

/// The debug text that `{:?}` gives the `fastnbt::Value` that `v` holds:
/// `Byte(1)`, `String("a")`, `List([Int(1), Int(2)])`,
/// `Compound({"k": Byte(0)})` with the entries in the order they are
/// held, arrays as `IntArray(IntArray { data: [1, 2] })`; a float is held
/// as its debug text already.
pub open spec fn debug_text(v: Nbt) -> Seq<char>
    decreases v, 0int,
{
    match v {
        Nbt::Byte(b) => "Byte("@ + signed_decimal(b as int) + ")"@,
        Nbt::Short(b) => "Short("@ + signed_decimal(b as int) + ")"@,
        Nbt::Int(b) => "Int("@ + signed_decimal(b as int) + ")"@,
        Nbt::Long(b) => "Long("@ + signed_decimal(b as int) + ")"@,
        Nbt::Float(t) => t@,
        Nbt::Double(t) => t@,
        Nbt::String(t) => "String("@ + str_debug(t@) + ")"@,
        Nbt::ByteArray(a) => array_text("ByteArray"@, a@.map_values(|x: i8| x as int)),
        Nbt::IntArray(a) => array_text("IntArray"@, a@.map_values(|x: i32| x as int)),
        Nbt::LongArray(a) => array_text("LongArray"@, a@.map_values(|x: i64| x as int)),
        Nbt::List(l) => "List(["@ + debug_list(l, l@.len() as int) + "])"@,
        Nbt::Compound(es) => "Compound({"@ + debug_entries(es, es@.len() as int) + "})"@,
    }
}

/// The debug texts of the first `k` elements, separated by `, `.
pub open spec fn debug_list(l: Vec<Nbt>, k: int) -> Seq<char>
    decreases l, k,
{
    if k <= 0 || k > l@.len() {
        Seq::empty()
    } else {
        proof {
            assert(decreases_to!(l => l@));
            assert(decreases_to!(l@ => l@[k - 1]));
        }
        if k == 1 {
            debug_text(l@[0])
        } else {
            debug_list(l, k - 1) + ", "@ + debug_text(l@[k - 1])
        }
    }
}

/// The first `k` entries as `"key": value`, separated by `, `.
pub open spec fn debug_entries(es: Vec<NbtEntry>, k: int) -> Seq<char>
    decreases es, k,
{
    if k <= 0 || k > es@.len() {
        Seq::empty()
    } else {
        proof {
            assert(decreases_to!(es => es@));
            assert(decreases_to!(es@ => es@[k - 1]));
        }
        if k == 1 {
            str_debug(es@[0].key@) + ": "@ + debug_text(es@[0].value)
        } else {
            debug_entries(es, k - 1) + ", "@ + str_debug(es@[k - 1].key@) + ": "@ + debug_text(es@[k - 1].value)
        }
    }
}

fn push_wrapped(r: &mut Vec<char>, name: &str, n: i64)
    ensures
        final(r)@ == old(r)@ + name@ + signed_decimal(n as int) + ")"@,
{
    append_str(r, name);
    let d = i64_decimal(n);
    append_chars(r, d.as_slice());
    append_str(r, ")");
}

fn array_chars(name: &str, s: &Vec<i64>) -> (r: Vec<char>)
    ensures
        r@ == array_text(name@, s@.map_values(|x: i64| x as int)),
{
    let ghost sv = s@.map_values(|x: i64| x as int);
    let mut r = chars_of(name);
    append_str(&mut r, "(");
    append_str(&mut r, name);
    append_str(&mut r, " { data: [");
    let ghost pre = name@ + "("@ + name@ + " { data: ["@;
    let mut i: usize = 0;
    while i < s.len()
        invariant
            i <= s.len(),
            sv == s@.map_values(|x: i64| x as int),
            r@ == pre + ints_text(sv, i as int),
        decreases s.len() - i,
    {
        let ghost before = r@;
        if i > 0 {
            append_str(&mut r, ", ");
        }
        let d = i64_decimal(s[i]);
        append_chars(&mut r, d.as_slice());
        proof {
            if i == 0 {
                assert(r@ == pre + ints_text(sv, 1));
            } else {
                assert(r@ == pre + (ints_text(sv, i as int) + ", "@ + signed_decimal(sv[i as int])));
            }
        }
        i = i + 1;
    }
    append_str(&mut r, "] })");
    r
}

fn widen_bytes(a: &Vec<i8>) -> (r: Vec<i64>)
    ensures
        r@.map_values(|x: i64| x as int) == a@.map_values(|x: i8| x as int),
{
    let mut r: Vec<i64> = Vec::new();
    let mut i: usize = 0;
    while i < a.len()
        invariant
            i <= a.len(),
            r@.len() == i,
            forall|j: int| 0 <= j < i ==> r@[j] as int == a@[j] as int,
        decreases a.len() - i,
    {
        r.push(a[i] as i64);
        i = i + 1;
    }
    assert(r@.map_values(|x: i64| x as int) =~= a@.map_values(|x: i8| x as int));
    r
}

fn widen_ints(a: &Vec<i32>) -> (r: Vec<i64>)
    ensures
        r@.map_values(|x: i64| x as int) == a@.map_values(|x: i32| x as int),
{
    let mut r: Vec<i64> = Vec::new();
    let mut i: usize = 0;
    while i < a.len()
        invariant
            i <= a.len(),
            r@.len() == i,
            forall|j: int| 0 <= j < i ==> r@[j] as int == a@[j] as int,
        decreases a.len() - i,
    {
        r.push(a[i] as i64);
        i = i + 1;
    }
    assert(r@.map_values(|x: i64| x as int) =~= a@.map_values(|x: i32| x as int));
    r
}

/// The debug text of the value (see `debug_text`).
pub fn debug_chars(v: &Nbt) -> (r: Vec<char>)
    ensures
        r@ == debug_text(*v),
    decreases v,
{
    match v {
        Nbt::Byte(b) => {
            let mut r: Vec<char> = Vec::new();
            assert(r@ == Seq::<char>::empty());
            push_wrapped(&mut r, "Byte(", *b as i64);
            r
        },
        Nbt::Short(b) => {
            let mut r: Vec<char> = Vec::new();
            assert(r@ == Seq::<char>::empty());
            push_wrapped(&mut r, "Short(", *b as i64);
            r
        },
        Nbt::Int(b) => {
            let mut r: Vec<char> = Vec::new();
            assert(r@ == Seq::<char>::empty());
            push_wrapped(&mut r, "Int(", *b as i64);
            r
        },
        Nbt::Long(b) => {
            let mut r: Vec<char> = Vec::new();
            assert(r@ == Seq::<char>::empty());
            push_wrapped(&mut r, "Long(", *b);
            r
        },
        Nbt::Float(t) => chars_of(t.as_str()),
        Nbt::Double(t) => chars_of(t.as_str()),
        Nbt::String(t) => {
            let mut r = chars_of("String(");
            let d = debug_of_str(t.as_str());
            append_str(&mut r, d.as_str());
            append_str(&mut r, ")");
            r
        },
        Nbt::ByteArray(a) => array_chars("ByteArray", &widen_bytes(a)),
        Nbt::IntArray(a) => array_chars("IntArray", &widen_ints(a)),
        Nbt::LongArray(a) => array_chars("LongArray", a),
        Nbt::List(l) => {
            let mut r = chars_of("List([");
            let mut i: usize = 0;
            while i < l.len()
                invariant
                    i <= l.len(),
                    *v == Nbt::List(*l),
                    r@ == "List(["@ + debug_list(*l, i as int),
                decreases l.len() - i,
            {
                if i > 0 {
                    append_str(&mut r, ", ");
                }
                proof {
                    assert(decreases_to!(*v => (*v)->List_0));
                    assert(decreases_to!(*l => l@));
                    assert(decreases_to!(l@ => l@[i as int]));
                }
                let d = debug_chars(&l[i]);
                append_chars(&mut r, d.as_slice());
                proof {
                    if i == 0 {
                        assert(r@ == "List(["@ + debug_list(*l, 1));
                    } else {
                        assert(r@ == "List(["@ + (debug_list(*l, i as int) + ", "@ + debug_text(l@[i as int])));
                    }
                }
                i = i + 1;
            }
            append_str(&mut r, "])");
            r
        },
        Nbt::Compound(es) => {
            let mut r = chars_of("Compound({");
            let mut i: usize = 0;
            while i < es.len()
                invariant
                    i <= es.len(),
                    *v == Nbt::Compound(*es),
                    r@ == "Compound({"@ + debug_entries(*es, i as int),
                decreases es.len() - i,
            {
                if i > 0 {
                    append_str(&mut r, ", ");
                }
                let k = debug_of_str(es[i].key.as_str());
                append_str(&mut r, k.as_str());
                append_str(&mut r, ": ");
                proof {
                    assert(decreases_to!(*v => (*v)->Compound_0));
                    assert(decreases_to!(*es => es@));
                    assert(decreases_to!(es@ => es@[i as int]));
                }
                let d = debug_chars(&es[i].value);
                append_chars(&mut r, d.as_slice());
                proof {
                    if i == 0 {
                        assert(r@ == "Compound({"@ + debug_entries(*es, 1));
                    } else {
                        assert(r@ == "Compound({"@ + (debug_entries(*es, i as int) + ", "@ + str_debug(es@[i as int].key@)
                            + ": "@ + debug_text(es@[i as int].value)));
                    }
                }
                i = i + 1;
            }
            append_str(&mut r, "})");
            r
        },
    }
}

} // verus!
