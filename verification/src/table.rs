//! The decision table the tree is read from: one row per node, with the
//! columns `Id`, `Item`, `Azione` and `Next`.

use vstd::prelude::*;
use crate::bindings::{find_first_table, first_html_table, table_cell, table_len, table_rows};

verus! {

/// The cells of one row that the shell reads; `None` where the row has no
/// such cell.
#[derive(Debug)]
pub struct TableRow {
    pub id: Option<String>,
    pub item: Option<String>,
    pub action: Option<String>,
    pub next: Option<String>,
}

/// A table of rows.
#[derive(Debug)]
pub struct HtmlTable {
    pub rows: Vec<TableRow>,
}

/// The value of an optional string.
pub open spec fn opt_view(o: Option<String>) -> Option<Seq<char>> {
    match o {
        Some(s) => Some(s@),
        None => None,
    }
}

/// The value of a `TableRow`.
pub struct TableRowView {
    pub id: Option<Seq<char>>,
    pub item: Option<Seq<char>>,
    pub action: Option<Seq<char>>,
    pub next: Option<Seq<char>>,
}

impl View for TableRow {
    type V = TableRowView;

    open spec fn view(&self) -> TableRowView {
        TableRowView {
            id: opt_view(self.id),
            item: opt_view(self.item),
            action: opt_view(self.action),
            next: opt_view(self.next),
        }
    }
}

impl View for HtmlTable {
    type V = Seq<TableRowView>;

    open spec fn view(&self) -> Seq<TableRowView> {
        self.rows@.map_values(|r: TableRow| r@)
    }
}

/// The cell under `header`, if the row has one.
pub open spec fn cell_of(cells: Map<Seq<char>, Seq<char>>, header: Seq<char>) -> Option<Seq<char>> {
    if cells.contains_key(header) {
        Some(cells[header])
    } else {
        None
    }
}

/// The cells of a row that the shell reads.
pub open spec fn row_of_cells(cells: Map<Seq<char>, Seq<char>>) -> TableRowView {
    TableRowView {
        id: cell_of(cells, "Id"@),
        item: cell_of(cells, "Item"@),
        action: cell_of(cells, "Azione"@),
        next: cell_of(cells, "Next"@),
    }
}

impl HtmlTable {
    /// The first table of an HTML text, or `None` when it has none.
    pub fn find_first(html: &str) -> (r: Option<HtmlTable>)
        ensures
            match r {
                Some(t) => first_html_table(html@) matches Some(rows) && t@ == rows.map_values(
                    |m: Map<Seq<char>, Seq<char>>| row_of_cells(m),
                ),
                None => first_html_table(html@) is None,
            },
    {
        let table = match find_first_table(html) {
            Some(t) => t,
            None => {
                return None;
            },
        };
        let ghost cells = table_rows(table);
        let n = table_len(&table);
        let mut rows: Vec<TableRow> = Vec::new();
        let mut i: usize = 0;
        while i < n
            invariant
                n == cells.len(),
                cells == table_rows(table),
                i <= n,
                rows@.map_values(|r: TableRow| r@) == cells.take(i as int).map_values(
                    |m: Map<Seq<char>, Seq<char>>| row_of_cells(m),
                ),
            decreases n - i,
        {
            let row = TableRow {
                id: table_cell(&table, i, "Id"),
                item: table_cell(&table, i, "Item"),
                action: table_cell(&table, i, "Azione"),
                next: table_cell(&table, i, "Next"),
            };
            assert(row@ == row_of_cells(cells[i as int]));
            let ghost before = rows@.map_values(|r: TableRow| r@);
            rows.push(row);
            assert(rows@.map_values(|r: TableRow| r@) =~= before.push(row@));
            assert(cells.take(i + 1).map_values(|m: Map<Seq<char>, Seq<char>>| row_of_cells(m))
                =~= cells.take(i as int).map_values(
                |m: Map<Seq<char>, Seq<char>>| row_of_cells(m),
            ).push(row_of_cells(cells[i as int])));
            i = i + 1;
        }
        assert(cells.take(n as int) =~= cells);
        Some(HtmlTable { rows })
    }
}

} // verus!
