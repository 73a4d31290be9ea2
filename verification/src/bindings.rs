//! The calls this library makes into outside crates, each with the
//! contract it relies on.

use vstd::prelude::*;
use rand::Rng;
use substring::Substring;

verus! {

// ---------------------------------------------------------------------------
// xml-rs
// ---------------------------------------------------------------------------

/// How `xml::escape::escape_str_attribute` writes one character.
pub open spec fn escape_attribute_char(c: char) -> Seq<char> {
    if c == '<' {
        seq!['&', 'l', 't', ';']
    } else if c == '>' {
        seq!['&', 'g', 't', ';']
    } else if c == '"' {
        seq!['&', 'q', 'u', 'o', 't', ';']
    } else if c == '\'' {
        seq!['&', 'a', 'p', 'o', 's', ';']
    } else if c == '&' {
        seq!['&', 'a', 'm', 'p', ';']
    } else if c == '\n' {
        seq!['&', '#', 'x', 'A', ';']
    } else if c == '\r' {
        seq!['&', '#', 'x', 'D', ';']
    } else {
        seq![c]
    }
}

/// `s` escaped for use inside an XML attribute value.
pub open spec fn escape_attribute(s: Seq<char>) -> Seq<char>
    decreases s.len(),
{
    if s.len() == 0 {
        Seq::empty()
    } else {
        escape_attribute(s.drop_last()) + escape_attribute_char(s.last())
    }
}

/// Calls `xml::escape::escape_str_attribute`.  Its source replaces each of
/// `<`, `>`, `"`, `'`, `&`, line feed and carriage return by its entity and
/// copies every other character; the contract states exactly that.
#[verifier::external_body]
pub(crate) fn escape_str_attribute(s: &str) -> (r: String)
    ensures
        r@ == escape_attribute(s@),
{
    String::from(xml::escape::escape_str_attribute(s))
}

// ---------------------------------------------------------------------------
// substring
// ---------------------------------------------------------------------------

/// The characters of `s` from index `start` up to (not including) index
/// `end`, both clamped to the length of `s`; empty when `end <= start`.
pub open spec fn char_substring(s: Seq<char>, start: int, end: int) -> Seq<char> {
    if end <= start {
        Seq::empty()
    } else {
        let a = if start < s.len() { start } else { s.len() as int };
        let b = if end < s.len() { end } else { s.len() as int };
        s.subrange(a, b)
    }
}

/// Calls `substring::Substring::substring`, which takes character (not
/// byte) indices and clamps both to the end of the string; the contract
/// states that result.
#[verifier::external_body]
pub(crate) fn substring(s: &str, start: usize, end: usize) -> (r: String)
    ensures
        r@ == char_substring(s@, start as int, end as int),
{
    s.substring(start, end).to_string()
}

// ---------------------------------------------------------------------------
// rand
// ---------------------------------------------------------------------------

/// Calls `rand::thread_rng().gen::<u32>()`: a random number, of which
/// nothing is promised.
#[verifier::external_body]
pub(crate) fn random_u32() -> (r: u32) {
    rand::thread_rng().gen::<u32>()
}

/// Calls `rand::thread_rng().gen_range(low..=high)`: a random number in the
/// given range (the call panics on an empty range, which `requires` rules
/// out).
#[verifier::external_body]
pub(crate) fn random_between(low: u32, high: u32) -> (r: u32)
    requires
        low <= high,
    ensures
        low <= r <= high,
{
    rand::thread_rng().gen_range(low..=high)
}

// ---------------------------------------------------------------------------
// table-extract
// ---------------------------------------------------------------------------

#[verifier::external_type_specification]
#[verifier::external_body]
pub struct ExTable(table_extract::Table);

/// The data rows of a parsed table; each maps a header to the cell under
/// it (a header whose column the row does not reach has no entry).
pub uninterp spec fn table_rows(t: table_extract::Table) -> Seq<Map<Seq<char>, Seq<char>>>;

/// The data rows of the first table that `table_extract::Table::find_first`
/// finds in an HTML text, or `None` when it finds none.
pub uninterp spec fn first_html_table(html: Seq<char>) -> Option<Seq<Map<Seq<char>, Seq<char>>>>;

/// Calls `table_extract::Table::find_first`; the table it returns holds the
/// rows that the name `first_html_table` stands for.
#[verifier::external_body]
pub(crate) fn find_first_table(html: &str) -> (r: Option<table_extract::Table>)
    ensures
        match r {
            Some(t) => first_html_table(html@) == Some(table_rows(t)),
            None => first_html_table(html@) is None,
        },
{
    table_extract::Table::find_first(html)
}

/// Calls `table_extract::Table::iter` and counts the rows it yields.
#[verifier::external_body]
pub(crate) fn table_len(t: &table_extract::Table) -> (n: usize)
    ensures
        n == table_rows(*t).len(),
{
    t.iter().count()
}

/// Calls `table_extract::Row::get` on the row at `row`: the cell under
/// `header`, or `None` when the table has no such header or the row does
/// not reach its column.
#[verifier::external_body]
pub(crate) fn table_cell(t: &table_extract::Table, row: usize, header: &str) -> (r: Option<String>)
    requires
        row < table_rows(*t).len(),
    ensures
        match r {
            Some(c) => table_rows(*t)[row as int].contains_key(header@) && table_rows(
                *t,
            )[row as int][header@] == c@,
            None => !table_rows(*t)[row as int].contains_key(header@),
        },
{
    match t.iter().nth(row) {
        Some(r) => match r.get(header) {
            Some(c) => Some(c.to_string()),
            None => None,
        },
        None => None,
    }
}

} // verus!
