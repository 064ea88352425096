//! JSON documents: what a `serde_json` value holds, how it is read and changed, and how it is
//! written.
use vstd::prelude::*;
use vstd::string::*;
use vstd::utf8::encode_utf8;

use crate::number::dec;
use crate::order::{lemma_lex_total, lemma_listing_unique, lex_lt};

verus! {

/// What a JSON value holds. A number that is no integer is held as the text that is written for
/// it.
pub enum Json {
    Null,
    Bool(bool),
    Int(int),
    Float(Seq<char>),
    Text(Seq<char>),
    Array(Seq<Json>),
    Object(Map<Seq<char>, Json>),
}

/// A JSON value.
#[verifier::external_type_specification]
#[verifier::external_body]
pub struct ExValue(serde_json::Value);

/// The members of a JSON object.
#[verifier::external_type_specification]
#[verifier::external_body]
#[verifier::reject_recursive_types(K)]
#[verifier::reject_recursive_types(V)]
pub struct ExMap<K, V>(serde_json::Map<K, V>);

/// Why a text is no JSON document.
#[verifier::external_type_specification]
#[verifier::external_body]
pub struct ExJsonError(serde_json::Error);

/// What a `serde_json::Value` holds.
pub uninterp spec fn json_of(v: serde_json::Value) -> Json;

/// What a `serde_json::Map` holds.
pub uninterp spec fn members_of(m: serde_json::Map<String, serde_json::Value>) -> Map<Seq<char>, Json>;

/// What `serde_json::from_str` reads from a text; nothing where it takes the text for no document.
pub uninterp spec fn parsed(text: Seq<char>) -> Option<Json>;

/// What a sequence of values holds.
pub open spec fn jsons(s: Seq<serde_json::Value>) -> Seq<Json> {
    s.map_values(|v: serde_json::Value| json_of(v))
}

/// The member of an object.
pub open spec fn member(j: Json, key: Seq<char>) -> Option<Json> {
    match j {
        Json::Object(m) => if m.contains_key(key) {
            Some(m[key])
        } else {
            None
        },
        _ => None,
    }
}

/// The text that is the member of an object.
pub open spec fn text_member(j: Json, key: Seq<char>) -> Option<Seq<char>> {
    match member(j, key) {
        Some(Json::Text(s)) => Some(s),
        _ => None,
    }
}

/// The array that is the member of an object.
pub open spec fn array_member(j: Json, key: Seq<char>) -> Option<Seq<Json>> {
    match member(j, key) {
        Some(Json::Array(s)) => Some(s),
        _ => None,
    }
}

/// The integer that is the member of an object, where it fits into 64 bits with a sign.
pub open spec fn int_member(j: Json, key: Seq<char>) -> Option<int> {
    match member(j, key) {
        Some(Json::Int(n)) => if i64::MIN <= n <= i64::MAX {
            Some(n)
        } else {
            None
        },
        _ => None,
    }
}

/// A hexadecimal digit in small letters.
pub open spec fn hex_digit(n: int) -> char {
    if n < 10 {
        (48 + n) as char
    } else {
        (87 + n) as char
    }
}

/// How a character is written inside a JSON string: quotes, backslashes and control characters
/// are escaped.
pub open spec fn json_char(c: char) -> Seq<char> {
    if c == '"' {
        seq!['\\', '"']
    } else if c == '\\' {
        seq!['\\', '\\']
    } else if c == '\u{8}' {
        seq!['\\', 'b']
    } else if c == '\u{c}' {
        seq!['\\', 'f']
    } else if c == '\n' {
        seq!['\\', 'n']
    } else if c == '\r' {
        seq!['\\', 'r']
    } else if c == '\t' {
        seq!['\\', 't']
    } else if ' ' > c {
        seq!['\\', 'u', '0', '0', hex_digit(c as int / 16), hex_digit(c as int % 16)]
    } else {
        seq![c]
    }
}

/// How characters are written inside a JSON string.
pub open spec fn json_chars(s: Seq<char>) -> Seq<char>
    decreases s.len(),
{
    if s.len() == 0 {
        Seq::empty()
    } else {
        json_chars(s.drop_last()) + json_char(s.last())
    }
}

/// A JSON string.
pub open spec fn quoted(s: Seq<char>) -> Seq<char> {
    seq!['"'] + json_chars(s) + seq!['"']
}

/// Whether a value is neither an array nor an object.
pub open spec fn is_scalar(j: Json) -> bool {
    !(j is Array) && !(j is Object)
}

/// How a value is written that is neither an array nor an object.
pub open spec fn scalar_text(j: Json) -> Seq<char> {
    match j {
        Json::Null => "null"@,
        Json::Bool(b) => if b {
            "true"@
        } else {
            "false"@
        },
        Json::Int(n) => if n < 0 {
            "-"@ + dec((-n) as nat)
        } else {
            dec(n as nat)
        },
        Json::Float(t) => t,
        Json::Text(s) => quoted(s),
        _ => Seq::empty(),
    }
}

/// Whether a value is an object with one member, and this is a text.
pub open spec fn is_single(j: Json) -> bool {
    exists|k: Seq<char>, t: Seq<char>| j == #[trigger] single(k, t)
}

/// The object with one member, which is a text.
pub open spec fn single(k: Seq<char>, t: Seq<char>) -> Json {
    Json::Object(Map::empty().insert(k, Json::Text(t)))
}

/// Whether `ks` lists the keys of an object, ascending by their UTF-8 bytes.
pub open spec fn lists_keys(m: Map<Seq<char>, Json>, ks: Seq<Seq<char>>) -> bool {
    &&& forall|k: Seq<char>| m.contains_key(k) <==> #[trigger] ks.contains(k)
    &&& forall|i: int, j: int|
        0 <= i < j < ks.len() ==> lex_lt(encode_utf8(#[trigger] ks[i]), encode_utf8(#[trigger] ks[j]))
}

/// The keys of an object, ascending by their UTF-8 bytes.
pub open spec fn sorted_keys(m: Map<Seq<char>, Json>) -> Seq<Seq<char>> {
    choose|ks: Seq<Seq<char>>| lists_keys(m, ks)
}

/// An object has one listing of its keys.
pub proof fn lemma_keys_unique(m: Map<Seq<char>, Json>, ks: Seq<Seq<char>>)
    requires
        lists_keys(m, ks),
    ensures
        ks == sorted_keys(m),
{
    let other = sorted_keys(m);
    let before = |a: Seq<char>, b: Seq<char>| lex_lt(encode_utf8(a), encode_utf8(b));
    assert forall|a: Seq<char>, b: Seq<char>| #[trigger] before(a, b) implies !before(b, a) by {
        lemma_lex_total(encode_utf8(a), encode_utf8(b));
    }
    assert forall|k: Seq<char>| #[trigger] ks.contains(k) <==> other.contains(k) by {
        assert(m.contains_key(k) <==> ks.contains(k));
        assert(m.contains_key(k) <==> other.contains(k));
    }
    lemma_listing_unique(ks, other, before);
}

/// What one level of nesting is indented by.
pub open spec fn indent_unit() -> Seq<char> {
    "   "@
}

/// The text of a document: every member and every element in a line of its own, indented by three
/// blanks for each level, the members ascending by key. `pad` is what the line is indented by in which
/// the value begins.
pub open spec fn pretty(j: Json, pad: Seq<char>) -> Seq<char>
    decreases j, 1nat, 0nat,
{
    match j {
        Json::Object(m) => {
            let ks = sorted_keys(m);
            if ks.len() == 0 {
                "{}"@
            } else {
                "{\n"@ + member_lines(j, ks, ks.len(), pad + indent_unit()) + pad + "}"@
            }
        },
        Json::Array(s) => if s.len() == 0 {
            "[]"@
        } else {
            "[\n"@ + element_lines(j, s.len(), pad + indent_unit()) + pad + "]"@
        },
        _ => scalar_text(j),
    }
}

/// What stands after a value: a comma where another one follows.
pub open spec fn comma(more: bool) -> Seq<char> {
    if more {
        ",\n"@
    } else {
        "\n"@
    }
}

/// The lines of the first `n` members of an object, in the order of `ks`.
pub open spec fn member_lines(j: Json, ks: Seq<Seq<char>>, n: nat, pad: Seq<char>) -> Seq<char>
    decreases j, 0nat, n,
{
    match j {
        Json::Object(m) => if 0 < n <= ks.len() && m.contains_key(ks[n - 1]) && m.dom().finite() {
            member_lines(j, ks, (n - 1) as nat, pad) + pad + quoted(ks[n - 1]) + ": "@ + pretty(m[ks[n - 1]], pad)
                + comma(n < ks.len())
        } else {
            Seq::empty()
        },
        _ => Seq::empty(),
    }
}

/// The lines of the first `n` elements of an array.
pub open spec fn element_lines(j: Json, n: nat, pad: Seq<char>) -> Seq<char>
    decreases j, 0nat, n,
{
    match j {
        Json::Array(s) => if 0 < n <= s.len() {
            element_lines(j, (n - 1) as nat, pad) + pad + pretty(s[n - 1], pad) + comma(n < s.len())
        } else {
            Seq::empty()
        },
        _ => Seq::empty(),
    }
}

/// The text of a document, from its first line on.
pub open spec fn document(j: Json) -> Seq<char> {
    pretty(j, Seq::empty())
}

/// The key by which `serde_json` marks a raw value.
pub open spec fn raw_mark() -> Seq<char> {
    "$serde_json::private::RawValue"@
}

/// Whether a key comes before the mark of a raw value, by their UTF-8 bytes.
pub open spec fn before_mark(k: Seq<char>) -> bool {
    lex_lt(encode_utf8(k), encode_utf8(raw_mark()))
}

/// Whether the first key of an object is the mark of a raw value: such an object is not read as one.
pub open spec fn is_marked(m: Map<Seq<char>, Json>) -> bool {
    m.contains_key(raw_mark()) && forall|k: Seq<char>| #[trigger] m.contains_key(k) ==> !before_mark(k)
}

/// Whether a document can be read back from its text: its numbers are integers of 64 bits, none of
/// its objects is marked as a raw value, and it is nested no deeper than `depth` levels.
pub open spec fn readable(j: Json, depth: nat) -> bool
    decreases j,
{
    match j {
        Json::Int(n) => i64::MIN <= n <= u64::MAX,
        Json::Float(_) => false,
        Json::Array(s) => depth > 0 && forall|i: int|
            0 <= i < s.len() ==> readable(#[trigger] s[i], (depth - 1) as nat),
        Json::Object(m) => depth > 0 && m.dom().finite() && !is_marked(m) && forall|k: Seq<char>|
            m.contains_key(k) ==> readable(#[trigger] m[k], (depth - 1) as nat),
        _ => true,
    }
}

/// How deep a document may be nested to be read.
pub open spec fn max_depth() -> nat {
    127
}

/// Trusted: `serde_json::from_str`. What it reads is a function of the text alone. It reads a
/// document back from the text that is written for it, one value to a line, where the document's
/// numbers are integers of 64 bits, its nesting stays below the parser's limit of 128 levels, and no
/// object has the mark of a raw value as its first key: the parser takes such an object for a document
/// inside a text. Of a number that is no integer nothing is said: the parser may read one that is not
/// the one that was written.
#[verifier::external_body]
pub(crate) fn from_text(text: &str) -> (r: Result<serde_json::Value, serde_json::Error>)
    ensures
        match r {
            Ok(v) => parsed(text@) == Some(json_of(v)),
            Err(_) => parsed(text@) is None,
        },
        forall|j: Json| readable(j, max_depth()) && text@ == #[trigger] document(j) ==> r is Ok && json_of(r->Ok_0) == j,
{
    serde_json::from_str(text)
}

/// Trusted: `serde_json::to_string`, on a value that is neither an array nor an object, or on an
/// object with one member that is a text. Such a value always has a text: strings are quoted with
/// quotes, backslashes and control characters escaped, integers are decimal, and the object is
/// written without white space.
#[verifier::external_body]
pub(crate) fn to_text(v: &serde_json::Value) -> (r: String)
    requires
        is_scalar(json_of(*v)) || is_single(json_of(*v)),
    ensures
        is_scalar(json_of(*v)) ==> r@ == scalar_text(json_of(*v)),
        forall|k: Seq<char>, t: Seq<char>|
            json_of(*v) == #[trigger] single(k, t) ==> r@ == "{"@ + quoted(k) + ":"@ + quoted(t) + "}"@,
{
    serde_json::to_string(v).unwrap()
}

/// Trusted: `serde_json::Value::get` with a text: the member of that name where the value is an
/// object that has it.
#[verifier::external_body]
pub(crate) fn get<'a>(v: &'a serde_json::Value, key: &str) -> (r: Option<&'a serde_json::Value>)
    ensures
        match r {
            Some(w) => member(json_of(*v), key@) == Some(json_of(*w)),
            None => member(json_of(*v), key@) is None,
        },
{
    v.get(key)
}

/// Trusted: `serde_json::Value::get_mut` with a text: the member of that name where the value is
/// an object that has it. What the member is changed to takes its place in the object.
#[verifier::external_body]
pub(crate) fn get_mut<'a>(v: &'a mut serde_json::Value, key: &str) -> (r: Option<&'a mut serde_json::Value>)
    ensures
        match r {
            Some(w) => member(json_of(*old(v)), key@) == Some(json_of(*w)) && json_of(*final(v)) == Json::Object(
                json_of(*old(v))->Object_0.insert(key@, json_of(*final(w))),
            ),
            None => member(json_of(*old(v)), key@) is None && json_of(*final(v)) == json_of(*old(v)),
        },
{
    v.get_mut(key)
}

/// Trusted: `serde_json::Value::as_str`: the text where the value is one.
#[verifier::external_body]
pub(crate) fn as_str<'a>(v: &'a serde_json::Value) -> (r: Option<&'a str>)
    ensures
        match r {
            Some(s) => json_of(*v) == Json::Text(s@),
            None => !(json_of(*v) is Text),
        },
{
    v.as_str()
}

/// Trusted: `serde_json::Value::as_i64`: the number where the value is an integer that fits.
#[verifier::external_body]
pub(crate) fn as_i64(v: &serde_json::Value) -> (r: Option<i64>)
    ensures
        match r {
            Some(n) => json_of(*v) == Json::Int(n as int),
            None => match json_of(*v) {
                Json::Int(n) => !(i64::MIN <= n <= i64::MAX),
                _ => true,
            },
        },
{
    v.as_i64()
}

/// Trusted: `serde_json::Value::as_array`: the elements where the value is an array.
#[verifier::external_body]
pub(crate) fn as_array<'a>(v: &'a serde_json::Value) -> (r: Option<&'a Vec<serde_json::Value>>)
    ensures
        match r {
            Some(s) => json_of(*v) == Json::Array(jsons(s@)),
            None => !(json_of(*v) is Array),
        },
{
    v.as_array()
}

/// Trusted: `serde_json::Value::as_array_mut`: the elements where the value is an array. What they
/// are changed to is what the array then holds.
#[verifier::external_body]
pub(crate) fn as_array_mut<'a>(v: &'a mut serde_json::Value) -> (r: Option<&'a mut Vec<serde_json::Value>>)
    ensures
        match r {
            Some(s) => json_of(*old(v)) == Json::Array(jsons(s@)) && json_of(*final(v)) == Json::Array(
                jsons(final(s)@),
            ),
            None => !(json_of(*old(v)) is Array) && json_of(*final(v)) == json_of(*old(v)),
        },
{
    v.as_array_mut()
}

/// Trusted: `serde_json::Value::as_object`: the members where the value is an object. There are
/// finitely many.
#[verifier::external_body]
pub(crate) fn as_object<'a>(v: &'a serde_json::Value) -> (r: Option<
    &'a serde_json::Map<String, serde_json::Value>,
>)
    ensures
        match r {
            Some(m) => json_of(*v) == Json::Object(members_of(*m)) && members_of(*m).dom().finite(),
            None => !(json_of(*v) is Object),
        },
{
    v.as_object()
}

/// Trusted: `serde_json::Value::as_object_mut`: the members where the value is an object. What they
/// are changed to is what the object then holds.
#[verifier::external_body]
pub(crate) fn as_object_mut<'a>(v: &'a mut serde_json::Value) -> (r: Option<
    &'a mut serde_json::Map<String, serde_json::Value>,
>)
    ensures
        match r {
            Some(m) => json_of(*old(v)) == Json::Object(members_of(*m)) && json_of(*final(v)) == Json::Object(
                members_of(*final(m)),
            ),
            None => !(json_of(*old(v)) is Object) && json_of(*final(v)) == json_of(*old(v)),
        },
{
    v.as_object_mut()
}

/// The keys of listed members.
pub open spec fn entry_keys(e: Seq<(&String, &serde_json::Value)>) -> Seq<Seq<char>> {
    e.map_values(|x: (&String, &serde_json::Value)| x.0@)
}

/// Trusted: `serde_json::Map::iter`: every member once, ascending by the bytes of the keys.
#[verifier::external_body]
pub(crate) fn entries<'a>(m: &'a serde_json::Map<String, serde_json::Value>) -> (r: Vec<
    (&'a String, &'a serde_json::Value),
>)
    ensures
        lists_keys(members_of(*m), entry_keys(r@)),
        forall|i: int| 0 <= i < r@.len() ==> json_of(*(#[trigger] r@[i]).1) == members_of(*m)[r@[i].0@],
{
    m.iter().collect()
}

/// Trusted: `serde_json::Map::new`: no members.
#[verifier::external_body]
pub(crate) fn no_members() -> (r: serde_json::Map<String, serde_json::Value>)
    ensures
        members_of(r).dom() == Set::<Seq<char>>::empty(),
{
    serde_json::Map::new()
}

/// Trusted: `serde_json::Map::insert`: the key has the value from now on.
#[verifier::external_body]
pub(crate) fn insert(m: &mut serde_json::Map<String, serde_json::Value>, key: &str, v: serde_json::Value)
    ensures
        members_of(*final(m)) == members_of(*old(m)).insert(key@, json_of(v)),
{
    m.insert(key.to_owned(), v);
}

/// Trusted: `serde_json::Map::remove`: the key has no value from now on.
#[verifier::external_body]
pub(crate) fn remove(m: &mut serde_json::Map<String, serde_json::Value>, key: &str)
    ensures
        members_of(*final(m)) == members_of(*old(m)).remove(key@),
{
    m.remove(key);
}

/// Trusted: the variant `serde_json::Value::String`: the value that is a text.
#[verifier::external_body]
pub(crate) fn text_value(s: &str) -> (r: serde_json::Value)
    ensures
        json_of(r) == Json::Text(s@),
{
    serde_json::Value::String(s.to_owned())
}

/// Trusted: the variant `serde_json::Value::Object`: the value that is an object.
#[verifier::external_body]
pub(crate) fn object_value(m: serde_json::Map<String, serde_json::Value>) -> (r: serde_json::Value)
    ensures
        json_of(r) == Json::Object(members_of(m)),
{
    serde_json::Value::Object(m)
}

/// The text that is the member of an object.
pub(crate) fn get_text<'a>(v: &'a serde_json::Value, key: &str) -> (r: Option<&'a str>)
    ensures
        match r {
            Some(s) => text_member(json_of(*v), key@) == Some(s@),
            None => text_member(json_of(*v), key@) is None,
        },
{
    match get(v, key) {
        Some(w) => as_str(w),
        None => None,
    }
}

/// The array that is the member of an object.
pub(crate) fn get_array<'a>(v: &'a serde_json::Value, key: &str) -> (r: Option<&'a Vec<serde_json::Value>>)
    ensures
        match r {
            Some(s) => array_member(json_of(*v), key@) == Some(jsons(s@)),
            None => array_member(json_of(*v), key@) is None,
        },
{
    match get(v, key) {
        Some(w) => as_array(w),
        None => None,
    }
}

/// The integer that is the member of an object.
pub(crate) fn get_int(v: &serde_json::Value, key: &str) -> (r: Option<i64>)
    ensures
        match r {
            Some(n) => int_member(json_of(*v), key@) == Some(n as int),
            None => int_member(json_of(*v), key@) is None,
        },
{
    match get(v, key) {
        Some(w) => as_i64(w),
        None => None,
    }
}

/// Writes a value after what stands in `out`.
fn write_value(v: &serde_json::Value, pad: &str, out: &mut String)
    ensures
        final(out)@ == old(out)@ + pretty(json_of(*v), pad@),
    decreases json_of(*v),
{
    let ghost j = json_of(*v);
    let ghost start = out@;
    match as_object(v) {
        Some(m) => {
            let list: Vec<(&String, &serde_json::Value)> = entries(m);
            let ghost ks = entry_keys(list@);
            proof {
                lemma_keys_unique(members_of(*m), ks);
            }
            if list.len() == 0 {
                assert(ks.len() == 0);
                out.append("{}");
                return;
            }
            let mut inner: String = pad.to_owned();
            inner.append("   ");
            out.append("{\n");
            let mut i: usize = 0;
            assert(out@ =~= start + "{\n"@ + member_lines(j, ks, 0, inner@));
            while i < list.len()
                invariant
                    i <= list@.len(),
                    j == json_of(*v),
                    j == Json::Object(members_of(*m)),
                    members_of(*m).dom().finite(),
                    ks == entry_keys(list@),
                    lists_keys(members_of(*m), ks),
                    forall|n: int|
                        0 <= n < list@.len() ==> json_of(*(#[trigger] list@[n]).1) == members_of(*m)[list@[n].0@],
                    out@ == start + "{\n"@ + member_lines(j, ks, i as nat, inner@),
                decreases list@.len() - i,
            {
                let entry: (&String, &serde_json::Value) = list[i];
                let ghost before = member_lines(j, ks, i as nat, inner@);
                let ghost k = entry.0@;
                assert(ks[i as int] == k);
                assert(ks.contains(k));
                assert(json_of(*list@[i as int].1) == members_of(*m)[k]);
                let ghost val = json_of(*entry.1);
                assert(decreases_to!(j => val));
                out.append(inner.as_str());
                let name: serde_json::Value = text_value(entry.0.as_str());
                out.append(to_text(&name).as_str());
                out.append(": ");
                write_value(entry.1, inner.as_str(), out);
                if i + 1 < list.len() {
                    out.append(",\n");
                } else {
                    out.append("\n");
                }
                assert(out@ =~= start + "{\n"@ + (before + inner@ + quoted(k) + ": "@ + pretty(val, inner@) + comma(
                    i + 1 < ks.len(),
                )));
                i = i + 1;
            }
            out.append(pad);
            out.append("}");
            assert(out@ =~= start + ("{\n"@ + member_lines(j, ks, ks.len(), inner@) + pad@ + "}"@));
        },
        None => match as_array(v) {
            Some(list) => {
                let ghost elements = jsons(list@);
                if list.len() == 0 {
                    assert(elements.len() == 0);
                    out.append("[]");
                    return;
                }
                let mut inner: String = pad.to_owned();
                inner.append("   ");
                out.append("[\n");
                let mut i: usize = 0;
                assert(out@ =~= start + "[\n"@ + element_lines(j, 0, inner@));
                while i < list.len()
                    invariant
                        i <= list@.len(),
                        j == json_of(*v),
                        j == Json::Array(elements),
                        elements == jsons(list@),
                        out@ == start + "[\n"@ + element_lines(j, i as nat, inner@),
                    decreases list@.len() - i,
                {
                    let ghost before = element_lines(j, i as nat, inner@);
                    let ghost val = json_of(list@[i as int]);
                    assert(elements[i as int] == val);
                    assert(decreases_to!(j => val));
                    out.append(inner.as_str());
                    write_value(&list[i], inner.as_str(), out);
                    if i + 1 < list.len() {
                        out.append(",\n");
                    } else {
                        out.append("\n");
                    }
                    assert(out@ =~= start + "[\n"@ + (before + inner@ + pretty(val, inner@) + comma(
                        i + 1 < elements.len(),
                    )));
                    i = i + 1;
                }
                out.append(pad);
                out.append("]");
                assert(out@ =~= start + ("[\n"@ + element_lines(j, elements.len(), inner@) + pad@ + "]"@));
            },
            None => {
                let text: String = to_text(v);
                out.append(text.as_str());
            },
        },
    }
}

/// The text of a document, indented by three blanks for each level.
pub fn serialize_pretty3(v: &serde_json::Value) -> (r: String)
    ensures
        r@ == document(json_of(*v)),
{
    let mut out: String = String::new();
    let pad: String = String::new();
    write_value(v, pad.as_str(), &mut out);
    assert(pad@ =~= Seq::<char>::empty());
    assert(out@ =~= document(json_of(*v)));
    out
}

} // verus!
