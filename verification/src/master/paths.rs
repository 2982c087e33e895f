use vstd::prelude::*;
use crate::text::{push_str, chars_to_string};

verus! {

/// The path of the item stored under `key` on a cache node.
pub fn item_path(key: &str) -> (p: String)
    ensures
        p@ == "/item/"@ + key@,
{
    let mut out: Vec<char> = Vec::new();
    push_str(&mut out, "/item/");
    push_str(&mut out, key);
    chars_to_string(out.as_slice())
}

/// The path that stores `value` under `key` on a cache node.
pub fn item_value_path(key: &str, value: &str) -> (p: String)
    ensures
        p@ == "/item/"@ + key@ + "/"@ + value@,
{
    let mut out: Vec<char> = Vec::new();
    push_str(&mut out, "/item/");
    push_str(&mut out, key);
    push_str(&mut out, "/");
    push_str(&mut out, value);
    chars_to_string(out.as_slice())
}

/// The path that asks a cache node whether it holds `key`.
pub fn key_path(key: &str) -> (p: String)
    ensures
        p@ == "/key/"@ + key@,
{
    let mut out: Vec<char> = Vec::new();
    push_str(&mut out, "/key/");
    push_str(&mut out, key);
    chars_to_string(out.as_slice())
}

/// The path that asks a cache node which key holds `value`.
pub fn value_path(value: &str) -> (p: String)
    ensures
        p@ == "/value/"@ + value@,
{
    let mut out: Vec<char> = Vec::new();
    push_str(&mut out, "/value/");
    push_str(&mut out, value);
    chars_to_string(out.as_slice())
}

} // verus!
