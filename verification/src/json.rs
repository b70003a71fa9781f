//! JSON text for lists of strings, through `serde_json`.
use vstd::prelude::*;
use crate::text::{join, views};

verus! {

/// The text `serde_json::to_string` produces for a list of strings: `[`,
/// each string as a JSON string literal, separated by `,`, then `]`.
pub open spec fn json_list_text(items: Seq<Seq<char>>) -> Seq<char> {
    seq!['['] + join(items.map_values(|s: Seq<char>| json_string_text(s)), seq![',']) + seq![']']
}

/// What `serde_json::from_str::<Vec<String>>` reads from a text: the list,
/// or `None` when the text is not a JSON array of strings.
pub uninterp spec fn json_list_parse(text: Seq<char>) -> Option<Seq<Seq<char>>>;

/// `serde_json::to_string` on a list of strings (which cannot fail for this
/// type): the compact array text `json_list_text` of the items; and
/// `serde_json::from_str` reads the same list back from it.
#[verifier::external_body]
pub(crate) fn encode_string_list(items: &Vec<String>) -> (r: String)
    ensures
        r@ == json_list_text(views(items@)),
        json_list_parse(r@) == Some(views(items@)),
{
    match serde_json::to_string(items) {
        Ok(s) => s,
        Err(_) => String::new(),
    }
}

/// `serde_json::from_str::<Vec<String>>`; what it reads is named
/// `json_list_parse` of the text.
#[verifier::external_body]
pub(crate) fn decode_string_list(text: &str) -> (r: Option<Vec<String>>)
    ensures
        match r {
            Some(v) => json_list_parse(text@) == Some(views(v@)),
            None => json_list_parse(text@) is None,
        },
{
    serde_json::from_str::<Vec<String>>(text).ok()
}

/// The lowercase hexadecimal digit of `n` (below 16).
pub open spec fn hex_digit(n: u32) -> char {
    if n < 10 {
        (48 + n) as char
    } else {
        (87 + n) as char
    }
}

/// How `serde_json` writes one character inside a string literal: `"` and
/// `\` escaped with a backslash, backspace, tab, newline, form feed and
/// carriage return as `\b`, `\t`, `\n`, `\f`, `\r`, every other
/// character below U+0020 as `\u00` and two lowercase hex digits, and any
/// other character as itself.
pub open spec fn json_escape(c: char) -> Seq<char> {
    let n = c as u32;
    if c == '"' {
        seq!['\\', '"']
    } else if c == '\\' {
        seq!['\\', '\\']
    } else if n == 8 {
        seq!['\\', 'b']
    } else if n == 9 {
        seq!['\\', 't']
    } else if n == 10 {
        seq!['\\', 'n']
    } else if n == 12 {
        seq!['\\', 'f']
    } else if n == 13 {
        seq!['\\', 'r']
    } else if n < 32 {
        seq!['\\', 'u', '0', '0', hex_digit(n / 16), hex_digit(n % 16)]
    } else {
        seq![c]
    }
}

/// The characters of `s`, each as `serde_json` writes it in a string.
pub open spec fn json_escaped(s: Seq<char>) -> Seq<char>
    decreases s.len(),
{
    if s.len() == 0 {
        seq![]
    } else {
        json_escaped(s.drop_last()) + json_escape(s.last())
    }
}

/// The text `serde_json::to_string` produces for a string: the string as a
/// JSON string literal, quoted and escaped.
pub open spec fn json_string_text(s: Seq<char>) -> Seq<char> {
    seq!['"'] + json_escaped(s) + seq!['"']
}

/// `serde_json::to_string` on a string (which cannot fail for this type):
/// the string quoted, with the escapes of `json_escape`.
#[verifier::external_body]
pub(crate) fn encode_string(s: &str) -> (r: String)
    ensures
        r@ == json_string_text(s@),
{
    match serde_json::to_string(s) {
        Ok(t) => t,
        Err(_) => String::new(),
    }
}

} // verus!
