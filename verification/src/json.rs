//! JSON values as the service's replies hold them, and their text as the
//! player reads it.

use vstd::prelude::*;
use crate::text::{append_str, push_char, remove_char, str_eq, without};

verus! {

/// A JSON value. Numbers keep their text; objects keep their entries in
/// order, each key once.
pub enum Json {
    Null,
    Bool(bool),
    Number(String),
    Str(String),
    Array(Vec<Json>),
    Object(Vec<(String, Json)>),
}

/// The lowercase hexadecimal digit of `d` (below 16).
pub open spec fn hex_digit(d: u32) -> char {
    if d < 10 {
        (48 + d) as char
    } else {
        (87 + d) as char
    }
}

/// How `serde_json` writes one character inside a string: a quote and a
/// backslash behind a backslash; backspace, tab, line feed, form feed and
/// carriage return as `\b`, `\t`, `\n`, `\f`, `\r`; the other characters
/// below U+0020 as `\u00` and two lowercase hexadecimal digits; every other
/// character as itself.
pub open spec fn escape_char(c: char) -> Seq<char> {
    if c == '"' {
        seq!['\\', '"']
    } else if c == '\\' {
        seq!['\\', '\\']
    } else if c == '\u{8}' {
        seq!['\\', 'b']
    } else if c == '\t' {
        seq!['\\', 't']
    } else if c == '\n' {
        seq!['\\', 'n']
    } else if c == '\u{c}' {
        seq!['\\', 'f']
    } else if c == '\r' {
        seq!['\\', 'r']
    } else if (c as u32) < 32 {
        seq!['\\', 'u', '0', '0', hex_digit((c as u32) / 16), hex_digit((c as u32) % 16)]
    } else {
        seq![c]
    }
}

/// The characters of `s`, each escaped.
pub open spec fn escaped(s: Seq<char>) -> Seq<char>
    decreases s.len(),
{
    if s.len() == 0 {
        Seq::empty()
    } else {
        escaped(s.drop_last()) + escape_char(s.last())
    }
}

/// What `serde_json::to_string` makes of a string: the string escaped and
/// put between double quotes.
pub open spec fn json_quoted(s: Seq<char>) -> Seq<char> {
    seq!['"'] + escaped(s) + seq!['"']
}

/// Quotes and escapes `s` as a JSON string with `serde_json::to_string`,
/// which cannot fail when it writes into memory.
#[verifier::external_body]
fn json_quote(s: &str) -> (res: String)
    ensures
        res@ == json_quoted(s@),
{
    match serde_json::to_string(s) {
        Ok(t) => t,
        Err(_) => String::new(),
    }
}

/// The compact JSON text of a value, as `serde_json` writes it.
pub open spec fn compact(j: Json) -> Seq<char>
    decreases j,
{
    match j {
        Json::Null => seq!['n', 'u', 'l', 'l'],
        Json::Bool(b) => if b {
            seq!['t', 'r', 'u', 'e']
        } else {
            seq!['f', 'a', 'l', 's', 'e']
        },
        Json::Number(t) => t@,
        Json::Str(s) => json_quoted(s@),
        Json::Array(items) => seq!['['] + compact_items(items@) + seq![']'],
        Json::Object(entries) => seq!['{'] + compact_entries(entries@) + seq!['}'],
    }
}

/// The compact texts of `items`, separated by commas.
pub open spec fn compact_items(items: Seq<Json>) -> Seq<char>
    decreases items,
{
    if items.len() == 0 {
        Seq::empty()
    } else if items.len() == 1 {
        compact(items[0])
    } else {
        compact_items(items.drop_last()) + seq![','] + compact(items.last())
    }
}

/// The compact texts of `entries` as `"key":value`, separated by commas.
pub open spec fn compact_entries(entries: Seq<(String, Json)>) -> Seq<char>
    decreases entries,
{
    if entries.len() == 0 {
        Seq::empty()
    } else if entries.len() == 1 {
        json_quoted(entries[0].0@) + seq![':'] + compact(entries[0].1)
    } else {
        compact_entries(entries.drop_last()) + seq![','] + json_quoted(entries.last().0@) + seq![':']
            + compact(entries.last().1)
    }
}

/// Appends the compact JSON text of `j` to `out`.
fn write_compact(j: &Json, out: &mut String)
    ensures
        final(out)@ == old(out)@ + compact(*j),
    decreases j,
{
    match j {
        Json::Null => {
            push_char(out, 'n');
            push_char(out, 'u');
            push_char(out, 'l');
            push_char(out, 'l');
        },
        Json::Bool(b) => {
            if *b {
                push_char(out, 't');
                push_char(out, 'r');
                push_char(out, 'u');
                push_char(out, 'e');
            } else {
                push_char(out, 'f');
                push_char(out, 'a');
                push_char(out, 'l');
                push_char(out, 's');
                push_char(out, 'e');
            }
        },
        Json::Number(t) => {
            append_str(out, t.as_str());
        },
        Json::Str(t) => {
            let q = json_quote(t.as_str());
            append_str(out, q.as_str());
        },
        Json::Array(items) => {
            let ghost start = out@;
            push_char(out, '[');
            let mut i: usize = 0;
            while i < items.len()
                invariant
                    i <= items@.len(),
                    *j == Json::Array(*items),
                    out@ == start + seq!['['] + compact_items(items@.take(i as int)),
                decreases items@.len() - i,
            {
                proof {
                    assert(items@.take(i + 1).drop_last() =~= items@.take(i as int));
                    assert(decreases_to!(*j => (*j)->Array_0));
                }
                if i > 0 {
                    push_char(out, ',');
                }
                write_compact(&items[i], out);
                i = i + 1;
            }
            push_char(out, ']');
            proof {
                assert(items@.take(items@.len() as int) =~= items@);
            }
        },
        Json::Object(entries) => {
            let ghost start = out@;
            push_char(out, '{');
            let mut i: usize = 0;
            while i < entries.len()
                invariant
                    i <= entries@.len(),
                    *j == Json::Object(*entries),
                    out@ == start + seq!['{'] + compact_entries(entries@.take(i as int)),
                decreases entries@.len() - i,
            {
                proof {
                    assert(entries@.take(i + 1).drop_last() =~= entries@.take(i as int));
                    assert(decreases_to!(*j => (*j)->Object_0));
                }
                if i > 0 {
                    push_char(out, ',');
                }
                let q = json_quote(entries[i].0.as_str());
                append_str(out, q.as_str());
                push_char(out, ':');
                write_compact(&entries[i].1, out);
                i = i + 1;
            }
            push_char(out, '}');
            proof {
                assert(entries@.take(entries@.len() as int) =~= entries@);
            }
        },
    }
}

/// The compact JSON text of `j`, as `serde_json` writes it.
pub fn to_compact_string(j: &Json) -> (res: String)
    ensures
        res@ == compact(*j),
{
    let mut out = String::new();
    write_compact(j, &mut out);
    proof {
        assert(out@ =~= compact(*j));
    }
    out
}

/// The position of the first entry with key `key`.
pub open spec fn entry_index(entries: Seq<(String, Json)>, key: Seq<char>) -> Option<nat>
    decreases entries.len(),
{
    if entries.len() == 0 {
        None
    } else if entries[0].0@ == key {
        Some(0)
    } else {
        match entry_index(entries.drop_first(), key) {
            Some(i) => Some(i + 1),
            None => None,
        }
    }
}

/// The member `key` of an object, like `Value::get`; nothing for other values.
pub open spec fn json_get(j: Json, key: Seq<char>) -> Option<Json> {
    match j {
        Json::Object(entries) => match entry_index(entries@, key) {
            Some(i) => Some(entries@[i as int].1),
            None => None,
        },
        _ => None,
    }
}

/// The text the player reads from a value: its compact JSON text with every
/// double quote removed.
pub open spec fn value_text(j: Json) -> Seq<char> {
    without(compact(j), '"')
}

proof fn lemma_entry_index(entries: Seq<(String, Json)>, key: Seq<char>)
    ensures
        entry_index(entries, key) matches Some(i) ==> i < entries.len() && entries[i as int].0@ == key
            && forall|k: int| 0 <= k < i ==> entries[k].0@ != key,
        entry_index(entries, key) is None ==> forall|k: int| 0 <= k < entries.len() ==> entries[k].0@ != key,
    decreases entries.len(),
{
    if entries.len() > 0 && entries[0].0@ != key {
        lemma_entry_index(entries.drop_first(), key);
        assert forall|k: int| 0 < k < entries.len() implies entries[k] == entries.drop_first()[k - 1] by {
        }
    }
}

impl Json {
    /// The member `key` of an object; nothing for other values.
    pub fn get(&self, key: &str) -> (res: Option<&Json>)
        ensures
            res matches Some(v) ==> json_get(*self, key@) == Some(*v),
            res is None ==> json_get(*self, key@) is None,
    {
        match self {
            Json::Object(entries) => {
                proof {
                    lemma_entry_index(entries@, key@);
                }
                let mut i: usize = 0;
                while i < entries.len()
                    invariant
                        i <= entries@.len(),
                        *self == Json::Object(*entries),
                        forall|k: int| 0 <= k < i ==> entries@[k].0@ != key@,
                        entry_index(entries@, key@) matches Some(j) ==> j < entries@.len()
                            && entries@[j as int].0@ == key@ && forall|k: int| 0 <= k < j ==> entries@[k].0@ != key@,
                        entry_index(entries@, key@) is None ==> forall|k: int|
                            0 <= k < entries@.len() ==> entries@[k].0@ != key@,
                    decreases entries@.len() - i,
                {
                    if str_eq(entries[i].0.as_str(), key) {
                        proof {
                            let j = entry_index(entries@, key@);
                            if j is Some {
                                let jj = j->0;
                                if jj < i {
                                    assert(entries@[jj as int].0@ != key@);
                                }
                                assert(jj == i);
                            }
                        }
                        return Some(&entries[i].1);
                    }
                    i = i + 1;
                }
                None
            },
            _ => None,
        }
    }

    /// The elements of an array, like `Value::as_array`.
    pub fn as_array(&self) -> (res: Option<&Vec<Json>>)
        ensures
            res matches Some(v) ==> *self == Json::Array(*v),
            res is None ==> !(*self is Array),
    {
        match self {
            Json::Array(v) => Some(v),
            _ => None,
        }
    }
}

/// The value's compact JSON text with every double quote removed, like
/// `value.to_string().replace("\"", "")`.
pub fn text_of(j: &Json) -> (res: String)
    ensures
        res@ == value_text(*j),
{
    let t = to_compact_string(j);
    remove_char(t.as_str(), '"')
}

} // verus!
