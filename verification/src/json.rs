//! JSON text as `serde_json` writes it: string escaping, and the compact rendering of a
//! passthrough value used in diagnostics.
use vstd::prelude::*;
use crate::dto::JsonValue;
use crate::text::{owned, push_str};

verus! {

/// The lowercase hexadecimal digit of `d` in `0..16`.
pub open spec fn hex_digit(d: int) -> char {
    if d < 10 {
        (('0' as int) + d) as char
    } else {
        (('a' as int) + d - 10) as char
    }
}

/// How `serde_json` writes one character inside a JSON string.
pub open spec fn json_escape(c: char) -> Seq<char> {
    if c == '"' {
        seq!['\\', '"']
    } else if c == '\\' {
        seq!['\\', '\\']
    } else if c == '\x08' {
        seq!['\\', 'b']
    } else if c == '\t' {
        seq!['\\', 't']
    } else if c == '\n' {
        seq!['\\', 'n']
    } else if c == '\x0c' {
        seq!['\\', 'f']
    } else if c == '\r' {
        seq!['\\', 'r']
    } else if (c as int) < 0x20 {
        seq!['\\', 'u', '0', '0', hex_digit((c as int) / 16), hex_digit((c as int) % 16)]
    } else {
        seq![c]
    }
}

/// The escaped body of a JSON string.
pub open spec fn json_body(s: Seq<char>) -> Seq<char>
    decreases s.len(),
{
    if s.len() == 0 {
        seq![]
    } else {
        json_body(s.drop_last()) + json_escape(s.last())
    }
}

/// `s` as a JSON string literal.
pub open spec fn json_quoted(s: Seq<char>) -> Seq<char> {
    seq!['"'] + json_body(s) + seq!['"']
}

/// `serde_json::to_string` on a string slice: the string in double quotes, with `"` and `\`
/// backslash-escaped, backspace, tab, line feed, form feed and carriage return written as `\b`
/// `\t` `\n` `\f` `\r`, every other character below U+0020 as `\u00` and two lowercase hex
/// digits, and every other character as itself. Serializing a `str` cannot fail.
#[verifier::external_body]
pub(crate) fn json_str(value: &str) -> (r: String)
    ensures
        r@ == json_quoted(value@),
{
    match serde_json::to_string(value) {
        Ok(s) => s,
        Err(_) => String::new(),
    }
}

/// The compact JSON text of a passthrough value: no whitespace, strings escaped as
/// [`json_quoted`], numbers in their lexical form, members in order.
pub open spec fn json_text(v: JsonValue) -> Seq<char>
    decreases v, 0nat,
{
    match v {
        JsonValue::Null => "null"@,
        JsonValue::Bool(b) => if b {
            "true"@
        } else {
            "false"@
        },
        JsonValue::Number(n) => n@,
        JsonValue::Str(s) => json_quoted(s@),
        JsonValue::Array(items) => "["@ + json_list(items@, items@.len()) + "]"@,
        JsonValue::Object(members) => "{"@ + json_members(members@, members@.len()) + "}"@,
    }
}

/// The first `k` array elements, comma-separated.
pub open spec fn json_list(items: Seq<JsonValue>, k: nat) -> Seq<char>
    decreases items, k,
{
    if k == 0 || k > items.len() {
        seq![]
    } else if k == 1 {
        json_text(items[0])
    } else {
        json_list(items, (k - 1) as nat) + ","@ + json_text(items[k - 1])
    }
}

/// The first `k` object members, comma-separated.
pub open spec fn json_members(members: Seq<(String, JsonValue)>, k: nat) -> Seq<char>
    decreases members, k,
{
    if k == 0 || k > members.len() {
        seq![]
    } else if k == 1 {
        json_quoted(members[0].0@) + ":"@ + json_text(members[0].1)
    } else {
        json_members(members, (k - 1) as nat) + ","@ + json_quoted(members[k - 1].0@) + ":"@ + json_text(
            members[k - 1].1,
        )
    }
}

/// Render a passthrough value as compact JSON text.
pub fn render_json(v: &JsonValue) -> (r: String)
    ensures
        r@ == json_text(*v),
    decreases v,
{
    match v {
        JsonValue::Null => owned("null"),
        JsonValue::Bool(b) => if *b {
            owned("true")
        } else {
            owned("false")
        },
        JsonValue::Number(n) => owned(n.as_str()),
        JsonValue::Str(s) => json_str(s.as_str()),
        JsonValue::Array(items) => {
            let mut out = owned("[");
            let mut i: usize = 0;
            while i < items.len()
                invariant
                    *v == JsonValue::Array(*items),
                    i <= items@.len(),
                    out@ == "["@ + json_list(items@, i as nat),
                decreases items@.len() - i,
            {
                proof {
                    broadcast use vstd::std_specs::vec::axiom_vec_index_decreases;

                    assert(decreases_to!(*items => items[i as int]));
                    assert(decreases_to!(*v => (*v)->Array_0));
                }
                if i > 0 {
                    push_str(&mut out, ",");
                }
                let text = render_json(&items[i]);
                push_str(&mut out, text.as_str());
                i += 1;
                assert(out@ =~= "["@ + json_list(items@, i as nat));
            }
            push_str(&mut out, "]");
            out
        },
        JsonValue::Object(members) => {
            let mut out = owned("{");
            let mut i: usize = 0;
            while i < members.len()
                invariant
                    *v == JsonValue::Object(*members),
                    i <= members@.len(),
                    out@ == "{"@ + json_members(members@, i as nat),
                decreases members@.len() - i,
            {
                proof {
                    broadcast use vstd::std_specs::vec::axiom_vec_index_decreases;

                    assert(decreases_to!(*members => members[i as int]));
                    assert(decreases_to!(members[i as int] => members[i as int].1));
                    assert(decreases_to!(*v => (*v)->Object_0));
                }
                if i > 0 {
                    push_str(&mut out, ",");
                }
                push_str(&mut out, json_str(members[i].0.as_str()).as_str());
                push_str(&mut out, ":");
                let text = render_json(&members[i].1);
                push_str(&mut out, text.as_str());
                i += 1;
                assert(out@ =~= "{"@ + json_members(members@, i as nat));
            }
            push_str(&mut out, "}");
            out
        },
    }
}

} // verus!
