//! The tree of decision nodes, read from the table, and the settings of the
//! shell that explores it.

use vstd::prelude::*;
use crate::text::{append_chars, chars_eq, chars_eq_str, chars_of, decimal, decimal_exec, string_of, trim, trim_exec};
use crate::links::{clean_br, get_next_item, next_items, string_clean_br, Next, NextView};
use crate::table::{opt_view, HtmlTable, TableRow, TableRowView};

verus! {

/// How much the shell reports while it works.
#[allow(non_camel_case_types)]
#[derive(Debug, Clone, Copy, PartialEq, Eq, Structural)]
pub enum LogLevel {
    INFO,
    DEBUG,
    ERROR,
}

/// The state of the shell: the root of the whole forest (`\`), the root of
/// the tree being explored, and the verbosity.
#[derive(Debug)]
pub struct CommonInfo {
    pub root: String,
    pub current_root: String,
    pub verbosity: LogLevel,
}

/// A link from one node to another.
#[derive(Debug)]
pub struct Edge {
    pub id: String,
    pub label: String,
    pub tooltip: String,
    pub source: String,
    pub target: String,
}

/// A node of the tree.
#[derive(Debug)]
pub struct Node {
    pub id: String,
    pub label: String,
    pub tooltip: String,
    pub outgoing_edge_list: Vec<Edge>,
    pub fan_in: u32,
    pub fan_out: u32,
    pub is_visited: bool,
    pub is_merged: bool,
}

/// The value of an `Edge`.
pub struct EdgeView {
    pub id: Seq<char>,
    pub label: Seq<char>,
    pub tooltip: Seq<char>,
    pub source: Seq<char>,
    pub target: Seq<char>,
}

impl View for Edge {
    type V = EdgeView;

    open spec fn view(&self) -> EdgeView {
        EdgeView {
            id: self.id@,
            label: self.label@,
            tooltip: self.tooltip@,
            source: self.source@,
            target: self.target@,
        }
    }
}

/// The value of a `Node`.
pub struct NodeView {
    pub id: Seq<char>,
    pub label: Seq<char>,
    pub tooltip: Seq<char>,
    pub edges: Seq<EdgeView>,
    pub fan_in: u32,
    pub fan_out: u32,
    pub is_visited: bool,
    pub is_merged: bool,
}

impl View for Node {
    type V = NodeView;

    open spec fn view(&self) -> NodeView {
        NodeView {
            id: self.id@,
            label: self.label@,
            tooltip: self.tooltip@,
            edges: self.outgoing_edge_list@.map_values(|e: Edge| e@),
            fan_in: self.fan_in,
            fan_out: self.fan_out,
            is_visited: self.is_visited,
            is_merged: self.is_merged,
        }
    }
}

/// The values of the nodes of a tree.
pub open spec fn tree_view(tree: Seq<Node>) -> Seq<NodeView> {
    tree.map_values(|n: Node| n@)
}

impl CommonInfo {
    /// The verbosity is `DEBUG`.
    pub fn is_debug(info: &mut CommonInfo) -> (r: bool)
        ensures
            r == (old(info).verbosity == LogLevel::DEBUG),
            *final(info) == *old(info),
    {
        match info.verbosity {
            LogLevel::DEBUG => true,
            _ => false,
        }
    }

    /// The verbosity is `INFO`.
    pub fn is_info(info: &mut CommonInfo) -> (r: bool)
        ensures
            r == (old(info).verbosity == LogLevel::INFO),
            *final(info) == *old(info),
    {
        match info.verbosity {
            LogLevel::INFO => true,
            _ => false,
        }
    }

    /// The verbosity is `ERROR`.
    pub fn is_error(info: &mut CommonInfo) -> (r: bool)
        ensures
            r == (old(info).verbosity == LogLevel::ERROR),
            *final(info) == *old(info),
    {
        match info.verbosity {
            LogLevel::ERROR => true,
            _ => false,
        }
    }
}

/// The verbosity the `debug` command sets: `on` turns debugging on, `off`
/// back to `INFO`, anything else selects `ERROR`.
pub open spec fn verbosity_for(arg: Seq<char>) -> LogLevel {
    if arg == "on"@ {
        LogLevel::DEBUG
    } else if arg == "off"@ {
        LogLevel::INFO
    } else {
        LogLevel::ERROR
    }
}

/// The `debug` command: sets the verbosity from its argument, and leaves
/// it alone when the argument is empty.
pub fn debug(arg: &str, info: &mut CommonInfo)
    ensures
        final(info).root == old(info).root,
        final(info).current_root == old(info).current_root,
        final(info).verbosity == (if arg@.len() == 0 {
            old(info).verbosity
        } else {
            verbosity_for(arg@)
        }),
{
    if arg.is_empty() {
        return ;
    }
    let a = chars_of(arg);
    if chars_eq_str(&a, "on") {
        info.verbosity = LogLevel::DEBUG;
    } else if chars_eq_str(&a, "off") {
        info.verbosity = LogLevel::INFO;
    } else {
        info.verbosity = LogLevel::ERROR;
    }
}

// ---------------------------------------------------------------------------
// Rows to nodes
// ---------------------------------------------------------------------------

/// The value of an optional cell, or a default.
pub open spec fn or_default(o: Option<Seq<char>>, d: Seq<char>) -> Seq<char> {
    match o {
        Some(s) => s,
        None => d,
    }
}

/// A count as the `u32` counter holding it (wrapping past `u32::MAX`).
pub open spec fn count_u32(k: nat) -> u32 {
    (k % 0x1_0000_0000) as u32
}

/// The id of a row's node.
pub open spec fn row_node_id(r: TableRowView) -> Seq<char> {
    or_default(r.id, "<id missing>"@)
}

/// The links of a row.
pub open spec fn row_links(r: TableRowView) -> Seq<NextView> {
    next_items(or_default(r.next, "<next missing>"@))
}

/// The edge made from the `k`-th link of a node: it is named after the node
/// and the position, and carries the cleaned text of the link.
pub open spec fn edge_of_link(id: Seq<char>, k: nat, next: NextView) -> EdgeView {
    EdgeView {
        id: id + seq!['-'] + decimal(count_u32(k) as nat),
        label: clean_br(next.action),
        tooltip: clean_br(next.action),
        source: id,
        target: next.link,
    }
}

/// The node made from a row; with `debug` the id opens its tooltip.
pub open spec fn row_to_node(debug: bool, r: TableRowView) -> NodeView {
    let id = row_node_id(r);
    let action = trim(or_default(r.action, "<azione missing>"@));
    let links = row_links(r);
    NodeView {
        id: id,
        label: or_default(r.item, "<item missing>"@),
        tooltip: if debug {
            id + seq!['\n'] + action
        } else {
            action
        },
        edges: Seq::new(links.len(), |k: int| edge_of_link(id, k as nat, links[k])),
        fan_in: 0,
        fan_out: count_u32(links.len()),
        is_visited: false,
        is_merged: false,
    }
}

fn cell_or(cell: &Option<String>, default: &str) -> (r: String)
    ensures
        r@ == or_default(opt_view(*cell), default@),
{
    match cell {
        Some(s) => s.clone(),
        None => string_of(chars_of(default).as_slice()),
    }
}

/// Builds the node of a table row.
pub fn convert_row2node(debug: bool, row: &TableRow) -> (n: Node)
    ensures
        n@ == row_to_node(debug, row@),
{
    let id = cell_or(&row.id, "<id missing>");
    let item = cell_or(&row.item, "<item missing>");
    let action_raw = cell_or(&row.action, "<azione missing>");
    let action = trim_exec(&chars_of(action_raw.as_str()));
    let next_cell = cell_or(&row.next, "<next missing>");
    let next_list = get_next_item(next_cell.as_str());
    let ghost links = next_list@.map_values(|x: Next| x@);
    let ghost idv = id@;
    let mut outgoing_edge_list: Vec<Edge> = Vec::new();
    let mut index: u32 = 0;
    let mut k: usize = 0;
    while k < next_list.len()
        invariant
            links == next_list@.map_values(|x: Next| x@),
            idv == id@,
            k <= next_list@.len(),
            index == count_u32(k as nat),
            outgoing_edge_list@.len() == k,
            forall|j: int|
                0 <= j < k ==> #[trigger] outgoing_edge_list@[j]@ == edge_of_link(
                    idv,
                    j as nat,
                    links[j],
                ),
        decreases next_list.len() - k,
    {
        let next = &next_list[k];
        let mut eid = chars_of(id.as_str());
        eid.push('-');
        let digits = decimal_exec(index as u64);
        append_chars(&mut eid, &digits);
        let edge = Edge {
            id: string_of(eid.as_slice()),
            label: string_clean_br(next.action.clone()),
            tooltip: string_clean_br(next.action.clone()),
            source: id.clone(),
            target: next.link.clone(),
        };
        assert(edge@.id =~= idv + seq!['-'] + decimal(count_u32(k as nat) as nat));
        assert(links[k as int] == next@);
        outgoing_edge_list.push(edge);
        index = index.wrapping_add(1);
        k = k + 1;
    }
    let tooltip = if debug {
        let mut t = chars_of(id.as_str());
        t.push('\n');
        append_chars(&mut t, &action);
        assert(t@ =~= id@ + seq!['\n'] + action@);
        string_of(t.as_slice())
    } else {
        string_of(action.as_slice())
    };
    let n = Node {
        id,
        label: item,
        tooltip,
        outgoing_edge_list,
        fan_in: 0,
        fan_out: index,
        is_visited: false,
        is_merged: false,
    };
    assert(n@.edges =~= row_to_node(debug, row@).edges);
    n
}


// ---------------------------------------------------------------------------
// Roots
// ---------------------------------------------------------------------------

/// The link targets of all rows, row by row.
pub open spec fn table_links(rows: Seq<TableRowView>) -> Seq<Seq<char>>
    decreases rows.len(),
{
    if rows.len() == 0 {
        Seq::empty()
    } else {
        table_links(rows.drop_last()) + next_items(
            or_default(rows.last().next, "<next missing>"@),
        ).map_values(|n: NextView| n.link)
    }
}

/// The ids of `ids` that no link leads to, in order.
pub open spec fn unlinked(ids: Seq<Seq<char>>, links: Seq<Seq<char>>) -> Seq<Seq<char>>
    decreases ids.len(),
{
    if ids.len() == 0 {
        Seq::empty()
    } else {
        unlinked(ids.drop_last(), links) + if links.contains(ids.last()) {
            Seq::empty()
        } else {
            seq![ids.last()]
        }
    }
}

/// The ids of the rows of a table that no row links to: the roots of its
/// trees.
pub open spec fn table_roots(rows: Seq<TableRowView>) -> Seq<Seq<char>> {
    unlinked(
        rows.map_values(|r: TableRowView| or_default(r.id, "<next missing>"@)),
        table_links(rows),
    )
}

/// The targets of the links in the "Next" cell of row `r`.
pub open spec fn row_targets(r: TableRowView) -> Seq<Seq<char>> {
    next_items(or_default(r.next, "<next missing>"@)).map_values(|n: NextView| n.link)
}

/// Some link of some row of `rows` leads to `x`.
pub open spec fn linked_to(rows: Seq<TableRowView>, x: Seq<char>) -> bool {
    exists|j: int, k: int|
        0 <= j < rows.len() && 0 <= k < row_targets(rows[j]).len() && #[trigger] row_targets(rows[j])[k] == x
}

proof fn lemma_table_links_contains(rows: Seq<TableRowView>, x: Seq<char>)
    ensures
        table_links(rows).contains(x) == linked_to(rows, x),
    decreases rows.len(),
{
    if rows.len() > 0 {
        let init = rows.drop_last();
        lemma_table_links_contains(init, x);
        let last = row_targets(rows.last());
        assert(table_links(rows) == table_links(init) + last);
        if table_links(rows).contains(x) {
            let i = choose|i: int| 0 <= i < table_links(rows).len() && table_links(rows)[i] == x;
            if i < table_links(init).len() {
                assert(table_links(init)[i] == x);
                let (j, k) = choose|j: int, k: int|
                    0 <= j < init.len() && 0 <= k < row_targets(init[j]).len() && #[trigger] row_targets(init[j])[k] == x;
                assert(rows[j] == init[j]);
                assert(row_targets(rows[j])[k] == x);
            } else {
                let k = i - table_links(init).len();
                assert(last[k] == x);
                assert(row_targets(rows[rows.len() - 1])[k] == x);
            }
        }
        if linked_to(rows, x) {
            let (j, k) = choose|j: int, k: int|
                0 <= j < rows.len() && 0 <= k < row_targets(rows[j]).len() && #[trigger] row_targets(rows[j])[k] == x;
            if j < rows.len() - 1 {
                assert(init[j] == rows[j]);
                assert(row_targets(init[j])[k] == x);
                assert(table_links(init).contains(x));
                let i = choose|i: int| 0 <= i < table_links(init).len() && table_links(init)[i] == x;
                assert(table_links(rows)[i] == x);
            } else {
                assert(table_links(rows)[table_links(init).len() + k] == x);
            }
        }
    }
}

proof fn lemma_unlinked_contains(ids: Seq<Seq<char>>, links: Seq<Seq<char>>, x: Seq<char>)
    ensures
        unlinked(ids, links).contains(x) == (ids.contains(x) && !links.contains(x)),
    decreases ids.len(),
{
    if ids.len() > 0 {
        let init = ids.drop_last();
        lemma_unlinked_contains(init, links, x);
        let tail: Seq<Seq<char>> = if links.contains(ids.last()) { Seq::empty() } else { seq![ids.last()] };
        let u = unlinked(ids, links);
        assert(u == unlinked(init, links) + tail);
        if u.contains(x) {
            let i = choose|i: int| 0 <= i < u.len() && u[i] == x;
            if i < unlinked(init, links).len() {
                assert(unlinked(init, links)[i] == x);
                let j = choose|j: int| 0 <= j < init.len() && init[j] == x;
                assert(ids[j] == x);
            } else {
                assert(tail[i - unlinked(init, links).len()] == x);
                assert(ids[ids.len() - 1] == x);
            }
        }
        if ids.contains(x) && !links.contains(x) {
            let j = choose|j: int| 0 <= j < ids.len() && ids[j] == x;
            if j < ids.len() - 1 {
                assert(init[j] == x);
                let i = choose|i: int| 0 <= i < unlinked(init, links).len() && unlinked(init, links)[i] == x;
                assert(u[i] == x);
            } else {
                assert(u[unlinked(init, links).len() as int] == x);
            }
        }
    }
}

/// The roots of a table are the ids of its rows (`<next missing>` for a row
/// without one) to which no link of any row leads.
pub proof fn lemma_roots_are_unlinked_rows(rows: Seq<TableRowView>, x: Seq<char>)
    ensures
        table_roots(rows).contains(x) <==> (exists|j: int|
            0 <= j < rows.len() && #[trigger] or_default(rows[j].id, "<next missing>"@) == x) && !linked_to(rows, x),
{
    let ids = rows.map_values(|r: TableRowView| or_default(r.id, "<next missing>"@));
    lemma_unlinked_contains(ids, table_links(rows), x);
    lemma_table_links_contains(rows, x);
    if ids.contains(x) {
        let j = choose|j: int| 0 <= j < ids.len() && ids[j] == x;
        assert(or_default(rows[j].id, "<next missing>"@) == x);
    }
    if exists|j: int| 0 <= j < rows.len() && #[trigger] or_default(rows[j].id, "<next missing>"@) == x {
        let j = choose|j: int| 0 <= j < rows.len() && #[trigger] or_default(rows[j].id, "<next missing>"@) == x;
        assert(ids[j] == x);
    }
}

fn contains_chars(list: &Vec<Vec<char>>, x: &Vec<char>) -> (r: bool)
    ensures
        r == list@.map_values(|v: Vec<char>| v@).contains(x@),
{
    let ghost lv = list@.map_values(|v: Vec<char>| v@);
    let mut i: usize = 0;
    while i < list.len()
        invariant
            lv == list@.map_values(|v: Vec<char>| v@),
            i <= list@.len(),
            forall|j: int| 0 <= j < i ==> lv[j] != x@,
        decreases list.len() - i,
    {
        if chars_eq(&list[i], x) {
            assert(lv[i as int] == x@);
            return true;
        }
        i = i + 1;
    }
    false
}

/// The ids of the rows that no row links to.
pub fn retrieve_roots_from_table(table: &HtmlTable) -> (r: Vec<String>)
    ensures
        r@.map_values(|s: String| s@) == table_roots(table@),
{
    let ghost rows = table@;
    let mut node_list: Vec<String> = Vec::new();
    let mut links: Vec<Vec<char>> = Vec::new();
    let mut i: usize = 0;
    while i < table.rows.len()
        invariant
            rows == table@,
            i <= rows.len(),
            node_list@.map_values(|s: String| s@) == rows.take(i as int).map_values(
                |r: TableRowView| or_default(r.id, "<next missing>"@),
            ),
            links@.map_values(|v: Vec<char>| v@) == table_links(rows.take(i as int)),
        decreases table.rows.len() - i,
    {
        let row = &table.rows[i];
        let id = cell_or(&row.id, "<next missing>");
        let next_cell = cell_or(&row.next, "<next missing>");
        let next_list = get_next_item(next_cell.as_str());
        let ghost before_ids = node_list@.map_values(|s: String| s@);
        let ghost idv = id@;
        node_list.push(id);
        assert(rows[i as int] == row@);
        assert(node_list@.map_values(|s: String| s@) =~= before_ids.push(idv));
        assert(rows.take(i + 1).map_values(|r: TableRowView| or_default(r.id, "<next missing>"@))
            =~= rows.take(i as int).map_values(
            |r: TableRowView| or_default(r.id, "<next missing>"@),
        ).push(or_default(rows[i as int].id, "<next missing>"@)));
        let ghost before_links = links@.map_values(|v: Vec<char>| v@);
        let ghost new_links = next_list@.map_values(|x: Next| x@).map_values(
            |n: NextView| n.link,
        );
        let mut k: usize = 0;
        while k < next_list.len()
            invariant
                k <= next_list@.len(),
                new_links == next_list@.map_values(|x: Next| x@).map_values(|n: NextView| n.link),
                links@.map_values(|v: Vec<char>| v@) == before_links + new_links.take(k as int),
            decreases next_list.len() - k,
        {
            let l = chars_of(next_list[k].link.as_str());
            assert(new_links[k as int] == l@);
            let ghost cur = links@.map_values(|v: Vec<char>| v@);
            let ghost lv = l@;
            links.push(l);
            assert(links@.map_values(|v: Vec<char>| v@) =~= cur.push(lv));
            assert(before_links + new_links.take(k + 1) =~= (before_links + new_links.take(
                k as int,
            )).push(new_links[k as int]));
            k = k + 1;
        }
        assert(new_links.take(k as int) =~= new_links);
        assert(rows.take(i + 1).drop_last() =~= rows.take(i as int));
        i = i + 1;
    }
    assert(rows.take(i as int) =~= rows);
    let ghost ids = node_list@.map_values(|s: String| s@);
    let ghost lv = links@.map_values(|v: Vec<char>| v@);
    let mut root_list: Vec<String> = Vec::new();
    let mut j: usize = 0;
    assert(ids.take(0) =~= Seq::<Seq<char>>::empty());
    while j < node_list.len()
        invariant
            ids == node_list@.map_values(|s: String| s@),
            lv == links@.map_values(|v: Vec<char>| v@),
            j <= ids.len(),
            root_list@.map_values(|s: String| s@) == unlinked(ids.take(j as int), lv),
        decreases node_list.len() - j,
    {
        let n = chars_of(node_list[j].as_str());
        assert(ids.take(j + 1).drop_last() =~= ids.take(j as int));
        let ghost before = root_list@.map_values(|s: String| s@);
        if !contains_chars(&links, &n) {
            root_list.push(node_list[j].clone());
            assert(root_list@.map_values(|s: String| s@) =~= before.push(ids[j as int]));
        }
        assert(unlinked(ids.take(j + 1), lv) =~= before + if lv.contains(ids[j as int]) {
            Seq::empty()
        } else {
            seq![ids[j as int]]
        });
        j = j + 1;
    }
    assert(ids.take(j as int) =~= ids);
    root_list
}


/// A copy of `vec`, each element cloned.
pub fn copy_vec<T: Clone>(vec: &Vec<T>) -> (r: Vec<T>)
    ensures
        r.len() == vec.len(),
        forall|i: int| 0 <= i < vec.len() ==> cloned::<T>(#[trigger] vec[i], r[i]),
{
    vec.clone()
}

} // verus!
