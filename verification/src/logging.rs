//! Events for the host page's log panel: which node a line concerns and
//! its text, the JSON detail the page's listener receives, and the line a
//! console shows.
use vstd::prelude::*;
use crate::text::{chars_of, string_from};

verus! {

/// One line of the log panel: the node it concerns and its text.
#[derive(Debug)]
pub struct LogEvent {
    pub node: String,
    pub message: String,
}

/// The `k`-th lowercase hexadecimal digit.
pub open spec fn hex_digit(k: int) -> char {
    if k < 10 {
        (k + 48) as char
    } else {
        (k + 87) as char
    }
}

/// How `serde_json` writes a character inside a JSON string: a quote or a
/// backslash behind a backslash; backspace, tab, line feed, form feed and
/// carriage return as `\b`, `\t`, `\n`, `\f`, `\r`; any other character
/// below U+0020 as `\u00` and two lowercase hex digits; anything else as
/// itself.
pub open spec fn json_escaped(c: char) -> Seq<char> {
    let k = c as int;
    if c == '"' || c == '\\' {
        seq!['\\', c]
    } else if k == 8 {
        seq!['\\', 'b']
    } else if k == 9 {
        seq!['\\', 't']
    } else if k == 10 {
        seq!['\\', 'n']
    } else if k == 12 {
        seq!['\\', 'f']
    } else if k == 13 {
        seq!['\\', 'r']
    } else if k < 32 {
        seq!['\\', 'u', '0', '0', hex_digit(k / 16), hex_digit(k % 16)]
    } else {
        seq![c]
    }
}

/// The escaped characters of `s`, in order.
pub open spec fn json_escaped_all(s: Seq<char>) -> Seq<char>
    decreases s.len(),
{
    if s.len() == 0 {
        Seq::empty()
    } else {
        json_escaped_all(s.drop_last()) + json_escaped(s.last())
    }
}

/// `s` as a JSON string: quoted, with its characters escaped.
pub open spec fn json_string(s: Seq<char>) -> Seq<char> {
    seq!['"'] + json_escaped_all(s) + seq!['"']
}

/// `a` sorts before `b` character by character, a proper prefix first; for
/// strings this is the order of their UTF-8 bytes, which `String`'s `Ord`
/// uses.
pub open spec fn text_before(a: Seq<char>, b: Seq<char>) -> bool
    decreases a.len(),
{
    if a.len() == 0 {
        b.len() > 0
    } else if b.len() == 0 {
        false
    } else if a[0] != b[0] {
        (a[0] as int) < (b[0] as int)
    } else {
        text_before(a.drop_first(), b.drop_first())
    }
}

/// Builds a `serde_json` object of two string fields and writes it with
/// `Value`'s `Display`. The object's map is a `BTreeMap` (the
/// `preserve_order` feature is off), so the key that sorts first comes
/// first; the compact writer puts no spaces, and `format_escaped_str`
/// quotes and escapes each key and value as `json_string` says.
#[verifier::external_body]
fn json_two_fields(k1: &String, v1: &String, k2: &String, v2: &String) -> (r: String)
    requires
        text_before(k1@, k2@),
    ensures
        r@ == seq!['{'] + json_string(k1@) + seq![':'] + json_string(v1@) + seq![','] + json_string(k2@)
            + seq![':'] + json_string(v2@) + seq!['}'],
{
    let mut map = serde_json::Map::new();
    map.insert(k2.clone(), serde_json::Value::String(v2.clone()));
    map.insert(k1.clone(), serde_json::Value::String(v1.clone()));
    serde_json::Value::Object(map).to_string()
}

impl LogEvent {
    /// The event's detail as the page's listener reads it: a JSON object
    /// with the fields `message` and `node`, in that order.
    pub fn detail_json(&self) -> (r: String)
        ensures
            r@ == seq!['{'] + json_string("message"@) + seq![':'] + json_string(self.message@) + seq![',']
                + json_string("node"@) + seq![':'] + json_string(self.node@) + seq!['}'],
    {
        let message_key = "message".to_owned();
        let node_key = "node".to_owned();
        proof {
            reveal_strlit("message");
            reveal_strlit("node");
        }
        json_two_fields(&message_key, &self.message, &node_key, &self.node)
    }

    /// The event as a console line, as a build without a host page prints
    /// it: the node in square brackets, a space, then the message.
    pub fn console_line(&self) -> (r: String)
        ensures
            r@ == seq!['['] + self.node@ + seq![']', ' '] + self.message@,
    {
        let mut v: Vec<char> = Vec::new();
        v.push('[');
        let mut node = chars_of(self.node.as_str());
        v.append(&mut node);
        v.push(']');
        v.push(' ');
        let mut message = chars_of(self.message.as_str());
        v.append(&mut message);
        assert(v@ =~= seq!['['] + self.node@ + seq![']', ' '] + self.message@);
        string_from(&v)
    }
}

} // verus!
