//! The spreadsheet export of a decision table: one sheet of nodes and one
//! of links, where the links are read with a simpler rule than the tree
//! shell's: a "Next" cell is split at `<br>`, each part at `&nbsp;` into
//! the text of the choice and the link.

use vstd::prelude::*;
use crate::text::{
    append_chars, chars_of, find, find_from_exec, lemma_find_from_bounds, split, split_exec,
    string_of, utf8_len,
};
use crate::bindings::{char_substring, substring};
use crate::links::{br_tag, byte_find, byte_offset, Next, NextView};
use crate::graph::or_default;
use crate::table::{opt_view, HtmlTable, TableRowView};

pub use crate::links::split_td;

verus! {

/// `&nbsp;`
pub open spec fn nbsp() -> Seq<char> {
    seq!['&', 'n', 'b', 's', 'p', ';']
}

/// `s` without line feeds, tabs and spaces.
pub open spec fn squeeze(s: Seq<char>) -> Seq<char>
    decreases s.len(),
{
    if s.len() == 0 {
        Seq::empty()
    } else {
        squeeze(s.drop_last()) + if s.last() == '\n' || s.last() == '\t' || s.last() == ' ' {
            Seq::empty()
        } else {
            seq![s.last()]
        }
    }
}

/// Removes line feeds, tabs and spaces.
pub fn string_clean(s: String) -> (r: String)
    ensures
        r@ == squeeze(s@),
{
    let c = chars_of(s.as_str());
    let mut v: Vec<char> = Vec::new();
    let mut i: usize = 0;
    assert(c@.take(0) =~= Seq::<char>::empty());
    while i < c.len()
        invariant
            i <= c@.len(),
            v@ == squeeze(c@.take(i as int)),
        decreases c.len() - i,
    {
        assert(c@.take(i + 1).drop_last() =~= c@.take(i as int));
        let x = c[i];
        if x != '\n' && x != '\t' && x != ' ' {
            v.push(x);
        } else {
            assert(v@ + Seq::<char>::empty() =~= v@);
        }
        i = i + 1;
    }
    assert(c@.take(i as int) =~= c@);
    string_of(v.as_slice())
}

/// The text of a link: what stands after the first `>` and before `</a>`
/// (byte offsets, used as character positions).
pub open spec fn sheet_link(link: Seq<char>) -> Seq<char> {
    let start = match byte_find(link, seq!['>']) {
        Some(x) => x,
        None => 0,
    };
    let end = match byte_find(link, seq!['<', '/', 'a', '>']) {
        Some(x) => x,
        None => utf8_len(link) as int,
    };
    char_substring(link, start + 1, end)
}

/// The text of a link cell.
pub fn get_link(link: &String) -> (r: String)
    ensures
        r@ == sheet_link(link@),
{
    let l = chars_of(link.as_str());
    let gt = vec!['>'];
    let close = vec!['<', '/', 'a', '>'];
    assert(gt@ =~= seq!['>']);
    assert(close@ =~= seq!['<', '/', 'a', '>']);
    let start = match byte_offset_of(&l, &gt) {
        Some(x) => x,
        None => 0,
    };
    let end = match byte_offset_of(&l, &close) {
        Some(x) => x,
        None => crate::text::utf8_prefix_len(&l, l.len()),
    };
    assert(l@.take(l@.len() as int) =~= l@);
    substring(link.as_str(), start + 1, end)
}

fn byte_offset_of(s: &Vec<char>, pat: &Vec<char>) -> (r: Option<usize>)
    requires
        utf8_len(s@) <= usize::MAX,
        pat@.len() >= 1,
    ensures
        match r {
            Some(b) => byte_find(s@, pat@) == Some(b as int) && b < utf8_len(s@),
            None => byte_find(s@, pat@) is None,
        },
{
    match find_from_exec(s, pat, 0) {
        Some(x) => {
            proof {
                lemma_find_from_bounds(s@, pat@, 0);
                crate::links::lemma_match_byte_bound(s@, pat@, x as int);
            }
            Some(crate::text::utf8_prefix_len(s, x))
        },
        None => None,
    }
}

/// The links of a "Next" cell.
pub open spec fn sheet_next_items(td: Seq<char>) -> Seq<NextView> {
    let v = split(td, br_tag());
    if v.len() == 1 {
        seq![NextView { action: Seq::empty(), link: sheet_link(v[0]) }]
    } else {
        sheet_collect(v, v.len() as int)
    }
}

/// The links read from the first `k` parts of a cell split at `<br>`: each
/// part is `action&nbsp;link`, or only a link; an empty part gives none.
pub open spec fn sheet_collect(v: Seq<Seq<char>>, k: int) -> Seq<NextView>
    decreases k,
{
    if k <= 0 {
        Seq::empty()
    } else {
        let z = split(v[k - 1], nbsp());
        sheet_collect(v, k - 1) + if z.len() == 1 && z[0].len() == 0 {
            Seq::empty()
        } else if z.len() == 1 {
            seq![NextView { action: Seq::empty(), link: sheet_link(z[0]) }]
        } else {
            seq![NextView { action: squeeze(z[0]), link: sheet_link(z[1]) }]
        }
    }
}

/// The links of a "Next" cell.
pub fn get_next(td: &str) -> (r: Vec<Next>)
    ensures
        r@.map_values(|n: Next| n@) == sheet_next_items(td@),
{
    let tdc = chars_of(td);
    let brv = vec!['<', 'b', 'r', '>'];
    assert(brv@ =~= br_tag());
    let v = split_exec(&tdc, &brv);
    let ghost vv = v@.map_values(|p: Vec<char>| p@);
    let mut next_list: Vec<Next> = Vec::new();
    if v.len() == 1 {
        assert(vv[0] == v@[0]@);
        let n = Next { action: string_of(&[]), link: get_link(&string_of(v[0].as_slice())) };
        assert(n@.action =~= Seq::<char>::empty());
        next_list.push(n);
        assert(next_list@.map_values(|n: Next| n@) =~= seq![n@]);
        return next_list;
    }
    let nb = vec!['&', 'n', 'b', 's', 'p', ';'];
    assert(nb@ =~= nbsp());
    let mut i: usize = 0;
    assert(next_list@.map_values(|n: Next| n@) =~= Seq::<NextView>::empty());
    while i < v.len()
        invariant
            vv == v@.map_values(|p: Vec<char>| p@),
            vv == split(td@, br_tag()),
            nb@ == nbsp(),
            vv.len() != 1,
            i <= vv.len(),
            next_list@.map_values(|n: Next| n@) == sheet_collect(vv, i as int),
        decreases v.len() - i,
    {
        assert(vv[i as int] == v@[i as int]@);
        let z = split_exec(&v[i], &nb);
        let ghost zz = z@.map_values(|p: Vec<char>| p@);
        let ghost before = next_list@.map_values(|n: Next| n@);
        if z.len() == 1 && z[0].len() == 0 {
            assert(zz[0] == z@[0]@);
            assert(before + Seq::<NextView>::empty() =~= before);
        } else if z.len() == 1 {
            assert(zz[0] == z@[0]@);
            let n = Next { action: string_of(&[]), link: get_link(&string_of(z[0].as_slice())) };
            assert(n@.action =~= Seq::<char>::empty());
            next_list.push(n);
            assert(next_list@.map_values(|n: Next| n@) =~= before.push(n@));
        } else {
            proof {
                crate::links::lemma_split_nonempty(v@[i as int]@, nbsp());
            }
            assert(zz[0] == z@[0]@);
            assert(zz[1] == z@[1]@);
            let n = Next {
                action: string_clean(string_of(z[0].as_slice())),
                link: get_link(&string_of(z[1].as_slice())),
            };
            next_list.push(n);
            assert(next_list@.map_values(|n: Next| n@) =~= before.push(n@));
        }
        i = i + 1;
    }
    next_list
}

/// The cells of a row of the node sheet: id, action and item.
pub open spec fn node_sheet_row(r: TableRowView) -> (Seq<char>, Seq<char>, Seq<char>) {
    (
        or_default(r.id, "<id missing>"@),
        or_default(r.action, "<azione missing>"@),
        or_default(r.item, "<item missing>"@),
    )
}

/// The rows of the link sheet for one table row: target, source id, `D`,
/// and the text of the choice.
pub open spec fn edge_sheet_rows_of(r: TableRowView) -> Seq<(Seq<char>, Seq<char>, Seq<char>, Seq<char>)> {
    let id = or_default(r.id, "<id missing>"@);
    sheet_next_items(or_default(r.next, "<next missing>"@)).map_values(
        |n: NextView| (n.link, id, "D"@, n.action),
    )
}

/// The rows of the link sheet, row by row.
pub open spec fn edge_sheet_rows(rows: Seq<TableRowView>) -> Seq<(Seq<char>, Seq<char>, Seq<char>, Seq<char>)>
    decreases rows.len(),
{
    if rows.len() == 0 {
        Seq::empty()
    } else {
        edge_sheet_rows(rows.drop_last()) + edge_sheet_rows_of(rows.last())
    }
}

/// The values of string triples.
pub open spec fn triples_view(v: Seq<(String, String, String)>) -> Seq<(Seq<char>, Seq<char>, Seq<char>)> {
    v.map_values(|t: (String, String, String)| (t.0@, t.1@, t.2@))
}

/// The values of string quadruples.
pub open spec fn quads_view(v: Seq<(String, String, String, String)>) -> Seq<
    (Seq<char>, Seq<char>, Seq<char>, Seq<char>),
> {
    v.map_values(|t: (String, String, String, String)| (t.0@, t.1@, t.2@, t.3@))
}

fn cell_or(cell: &Option<String>, default: &str) -> (r: String)
    ensures
        r@ == or_default(opt_view(*cell), default@),
{
    match cell {
        Some(s) => s.clone(),
        None => default.to_owned(),
    }
}

/// The rows of the node sheet.
pub fn node_sheet(table: &HtmlTable) -> (r: Vec<(String, String, String)>)
    ensures
        triples_view(r@) == table@.map_values(|row: TableRowView| node_sheet_row(row)),
{
    let ghost rows = table@;
    let mut r: Vec<(String, String, String)> = Vec::new();
    let mut i: usize = 0;
    while i < table.rows.len()
        invariant
            rows == table@,
            i <= rows.len(),
            triples_view(r@) == rows.take(i as int).map_values(|row: TableRowView| node_sheet_row(row)),
        decreases table.rows.len() - i,
    {
        let row = &table.rows[i];
        assert(rows[i as int] == row@);
        let t = (cell_or(&row.id, "<id missing>"), cell_or(&row.action, "<azione missing>"), cell_or(&row.item, "<item missing>"));
        let ghost tv = (t.0@, t.1@, t.2@);
        let ghost before = triples_view(r@);
        r.push(t);
        assert(triples_view(r@) =~= before.push(tv));
        assert(rows.take(i + 1).map_values(|row: TableRowView| node_sheet_row(row)) =~= rows.take(
            i as int,
        ).map_values(|row: TableRowView| node_sheet_row(row)).push(node_sheet_row(rows[i as int])));
        i = i + 1;
    }
    assert(rows.take(i as int) =~= rows);
    r
}

/// The rows of the link sheet.
pub fn edge_sheet(table: &HtmlTable) -> (r: Vec<(String, String, String, String)>)
    ensures
        quads_view(r@) == edge_sheet_rows(table@),
{
    let ghost rows = table@;
    let mut r: Vec<(String, String, String, String)> = Vec::new();
    let mut i: usize = 0;
    assert(rows.take(0) =~= Seq::<TableRowView>::empty());
    while i < table.rows.len()
        invariant
            rows == table@,
            i <= rows.len(),
            quads_view(r@) == edge_sheet_rows(rows.take(i as int)),
        decreases table.rows.len() - i,
    {
        let row = &table.rows[i];
        assert(rows[i as int] == row@);
        let id = cell_or(&row.id, "<id missing>");
        let next_cell = cell_or(&row.next, "<next missing>");
        let next_list = get_next(next_cell.as_str());
        let ghost nl = next_list@.map_values(|n: Next| n@);
        let ghost before = quads_view(r@);
        let ghost add = edge_sheet_rows_of(rows[i as int]);
        let mut k: usize = 0;
        while k < next_list.len()
            invariant
                k <= next_list@.len(),
                nl == next_list@.map_values(|n: Next| n@),
                add == nl.map_values(|n: NextView| (n.link, id@, "D"@, n.action)),
                quads_view(r@) == before + add.take(k as int),
            decreases next_list.len() - k,
        {
            let n = &next_list[k];
            let q = (n.link.clone(), id.clone(), "D".to_owned(), n.action.clone());
            let ghost qv = (q.0@, q.1@, q.2@, q.3@);
            assert(add[k as int] == qv);
            let ghost cur = quads_view(r@);
            r.push(q);
            assert(quads_view(r@) =~= cur.push(qv));
            assert(before + add.take(k + 1) =~= (before + add.take(k as int)).push(add[k as int]));
            k = k + 1;
        }
        assert(add.take(k as int) =~= add);
        assert(rows.take(i + 1).drop_last() =~= rows.take(i as int));
        i = i + 1;
    }
    assert(rows.take(i as int) =~= rows);
    r
}

} // verus!
