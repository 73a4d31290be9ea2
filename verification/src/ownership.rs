//! Moving strings in and out of functions, and the text the ownership
//! examples print.

use vstd::prelude::*;
use crate::text::{chars_of, string_of, trim, trim_exec, append_chars};

verus! {

/// A freshly allocated `String` holding `"yours"`, handed to the caller.
pub fn gives_ownership() -> (r: String)
    ensures
        r@ == "yours"@,
{
    String::from_str("yours")
}

/// Takes a `String` and hands it back unchanged.
pub fn takes_and_gives_back(a_string: String) -> (r: String)
    ensures
        r@ == a_string@,
{
    a_string
}

/// `s` without leading and trailing whitespace (`str::trim`), as a new
/// `String`.
pub fn trimmed(s: &str) -> (r: String)
    ensures
        r@ == trim(s@),
{
    let cs = chars_of(s);
    let t = trim_exec(&cs);
    string_of(t.as_slice())
}

/// `s` and `t` joined by a slash (what `format!("{}/{}", s, t)` gives).
pub fn slash_joined(s: &str, t: &str) -> (r: String)
    ensures
        r@ == s@ + seq!['/'] + t@,
{
    let mut v = chars_of(s);
    v.push('/');
    let w = chars_of(t);
    append_chars(&mut v, &w);
    string_of(v.as_slice())
}

} // verus!
