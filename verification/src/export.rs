//! Turning the tree into a draw.io document.

use vstd::prelude::*;
use crate::text::{append_chars, chars_eq_str, chars_of, lemma_encode_single, lemma_encode_utf8_add, string_of, utf8_len, char_utf8_width};
use crate::bindings::{escape_attribute, escape_str_attribute};
use crate::drawio::{default_geometry, Cell, CellType, CellView, Diagram, DiagramView, Document, DocumentView, RepositoryType};
use crate::graph::{tree_view, CommonInfo, Edge, EdgeView, Node, NodeView};

verus! {

/// The shape of a node, chosen by its (escaped) item label.
pub open spec fn cell_type_of(item: Seq<char>) -> CellType {
    let e = escape_attribute(item);
    if e == "Scelta"@ {
        CellType::TRAPEZOID
    } else if e == "Choice"@ {
        CellType::DIAMON
    } else if e == "Stella"@ {
        CellType::DOCUMENT
    } else if e == "Raggio"@ {
        CellType::PARALLELOGRAM
    } else if e == "Jump"@ {
        CellType::STEP
    } else if e == "Scelta Utente"@ {
        CellType::HEXAGON
    } else if e == "Callback"@ {
        CellType::TRIANGLE
    } else {
        CellType::RECTANGLE
    }
}

/// The shape of a node with the given item label.
pub fn get_celltype_from_item(item: &str) -> (t: CellType)
    ensures
        t == cell_type_of(item@),
{
    let e = chars_of(escape_str_attribute(item).as_str());
    if chars_eq_str(&e, "Scelta") {
        CellType::TRAPEZOID
    } else if chars_eq_str(&e, "Choice") {
        CellType::DIAMON
    } else if chars_eq_str(&e, "Stella") {
        CellType::DOCUMENT
    } else if chars_eq_str(&e, "Raggio") {
        CellType::PARALLELOGRAM
    } else if chars_eq_str(&e, "Jump") {
        CellType::STEP
    } else if chars_eq_str(&e, "Scelta Utente") {
        CellType::HEXAGON
    } else if chars_eq_str(&e, "Callback") {
        CellType::TRIANGLE
    } else {
        CellType::RECTANGLE
    }
}

// ---------------------------------------------------------------------------
// Shortening long edge labels
// ---------------------------------------------------------------------------

/// The first `k` characters of `s` take `b` bytes.
pub open spec fn prefix_takes(s: Seq<char>, k: int, b: int) -> bool {
    0 <= k <= s.len() && utf8_len(s.take(k)) == b
}

/// Byte offset `b` of `s` falls between two characters.
pub open spec fn is_byte_boundary(s: Seq<char>, b: int) -> bool {
    exists|k: int| #[trigger] prefix_takes(s, k, b)
}

/// The characters of `s` that fill its first `b` bytes.
pub open spec fn byte_prefix(s: Seq<char>, b: int) -> Seq<char> {
    s.take(choose|k: int| #[trigger] prefix_takes(s, k, b))
}

/// The text of an edge cell: a label of more than 50 bytes is cut to its
/// first 50 bytes and `...` is added.
pub open spec fn edge_text(label: Seq<char>) -> Seq<char> {
    if utf8_len(label) > 50 {
        byte_prefix(label, 50) + seq!['.', '.', '.']
    } else {
        label
    }
}

/// Each edge label of the tree longer than 50 bytes can be cut at byte 50
/// (cutting inside a character is refused).
pub open spec fn labels_cut_cleanly(tree: Seq<NodeView>) -> bool {
    forall|i: int, k: int|
        0 <= i < tree.len() && 0 <= k < tree[i].edges.len() && utf8_len(
            #[trigger] tree[i].edges[k].label,
        ) > 50 ==> is_byte_boundary(tree[i].edges[k].label, 50)
}

proof fn lemma_prefix_bytes_step(s: Seq<char>, k: int)
    requires
        0 <= k < s.len(),
    ensures
        utf8_len(s.take(k + 1)) == utf8_len(s.take(k)) + vstd::utf8::encode_scalar(s[k] as u32).len(),
        vstd::utf8::encode_scalar(s[k] as u32).len() >= 1,
{
    lemma_encode_utf8_add(s.take(k), seq![s[k]]);
    assert(s.take(k) + seq![s[k]] =~= s.take(k + 1));
    lemma_encode_single(s[k]);
    vstd::utf8::char_is_scalar(s[k]);
}

/// Longer prefixes take more bytes.
proof fn lemma_prefix_bytes_increase(s: Seq<char>, a: int, b: int)
    requires
        0 <= a < b <= s.len(),
    ensures
        utf8_len(s.take(a)) < utf8_len(s.take(b)),
    decreases b - a,
{
    lemma_prefix_bytes_step(s, b - 1);
    if a < b - 1 {
        lemma_prefix_bytes_increase(s, a, b - 1);
    }
}

/// The number of characters of `s` that take exactly `b` bytes.
fn chars_for_bytes(s: &Vec<char>, b: usize) -> (k: usize)
    requires
        is_byte_boundary(s@, b as int),
    ensures
        prefix_takes(s@, k as int, b as int),
        s@.take(k as int) == byte_prefix(s@, b as int),
{
    let ghost kw = choose|k: int| #[trigger] prefix_takes(s@, k, b as int);
    let mut k: usize = 0;
    let mut n: usize = 0;
    assert(s@.take(0) =~= Seq::<char>::empty());
    while n < b
        invariant
            prefix_takes(s@, kw, b as int),
            k <= kw,
            0 <= k <= s@.len(),
            n == utf8_len(s@.take(k as int)),
            n <= b,
        decreases b - n,
    {
        proof {
            if k == kw {
                assert(n == b);
            }
            lemma_prefix_bytes_step(s@, k as int);
            if k + 1 < kw {
                lemma_prefix_bytes_increase(s@, k + 1, kw);
            }
        }
        assert(k < kw);
        assert(k < s.len());
        let w = char_utf8_width(s[k]);
        n = n + w;
        k = k + 1;
    }
    proof {
        if k < kw {
            lemma_prefix_bytes_increase(s@, k as int, kw);
        }
    }
    k
}

/// The number of bytes of `s`.
fn byte_len(s: &Vec<char>) -> (n: usize)
    requires
        utf8_len(s@) <= usize::MAX,
    ensures
        n == utf8_len(s@),
{
    let r = crate::text::utf8_prefix_len(s, s.len());
    assert(s@.take(s@.len() as int) =~= s@);
    r
}

// ---------------------------------------------------------------------------
// Cells
// ---------------------------------------------------------------------------

/// The cell of a node: escaped label and tooltip, shape and size from the
/// label, no ends.
pub open spec fn node_cell(n: NodeView) -> CellView {
    CellView {
        id: n.id,
        cell_type: cell_type_of(n.label),
        text: escape_attribute(n.label),
        tooltip: escape_attribute(n.tooltip),
        geometry: default_geometry(cell_type_of(n.label)),
        target: "0"@,
        source: "0"@,
    }
}

/// The cell of an edge: a labelled edge whose text is the shortened,
/// escaped label.
pub open spec fn edge_cell(e: EdgeView) -> CellView {
    CellView {
        id: e.id,
        cell_type: CellType::EDGE_WITH_LABEL,
        text: escape_attribute(edge_text(e.label)),
        tooltip: escape_attribute(e.tooltip),
        geometry: default_geometry(CellType::EDGE_WITH_LABEL),
        target: e.target,
        source: e.source,
    }
}

/// The cells of the tree: each node followed by its edges.
pub open spec fn tree_cells(tree: Seq<NodeView>) -> Seq<CellView>
    decreases tree.len(),
{
    if tree.len() == 0 {
        Seq::empty()
    } else {
        tree_cells(tree.drop_last()) + seq![node_cell(tree.last())] + tree.last().edges.map_values(
            |e: EdgeView| edge_cell(e),
        )
    }
}

/// The number of edges of the nodes of `tree`.
pub open spec fn edge_count(tree: Seq<NodeView>) -> nat
    decreases tree.len(),
{
    if tree.len() == 0 {
        0
    } else {
        edge_count(tree.drop_last()) + tree.last().edges.len()
    }
}

/// The export draws one cell for each node and one for each edge.
pub proof fn lemma_one_cell_per_node_and_edge(tree: Seq<NodeView>)
    ensures
        tree_cells(tree).len() == tree.len() + edge_count(tree),
    decreases tree.len(),
{
    if tree.len() > 0 {
        lemma_one_cell_per_node_and_edge(tree.drop_last());
    }
}

/// The document the tree is exported as: one page holding its cells.
pub open spec fn tree_document(tree: Seq<NodeView>) -> DocumentView {
    DocumentView {
        host: "app.diagrams.net"@,
        repo_type: RepositoryType::DEVICE,
        modified: "2022-12-08T22:27:57.684Z"@,
        diagram_list: seq![
            DiagramView {
                id: "FirstDiagram"@,
                page_name: "FirstPage"@,
                page_width: 1200,
                page_height: 780,
                cells: tree_cells(tree),
            },
        ],
    }
}

fn text_string(s: &str) -> (r: String)
    ensures
        r@ == s@,
{
    s.to_owned()
}

fn node_to_cell(n: &Node) -> (c: Cell)
    ensures
        c@ == node_cell(n@),
{
    let t = get_celltype_from_item(n.label.as_str());
    Cell {
        id: n.id.clone(),
        text: escape_str_attribute(n.label.as_str()),
        tooltip: escape_str_attribute(n.tooltip.as_str()),
        geometry: Cell::get_default_geometry(get_celltype_from_item(n.label.as_str())),
        cell_type: t,
        source: text_string("0"),
        target: text_string("0"),
    }
}

fn edge_to_cell(e: &Edge) -> (c: Cell)
    requires
        utf8_len(e@.label) > 50 ==> is_byte_boundary(e@.label, 50),
    ensures
        c@ == edge_cell(e@),
{
    let label = chars_of(e.label.as_str());
    let text = if byte_len(&label) > 50 {
        let k = chars_for_bytes(&label, 50);
        let mut t = crate::text::copy_range(&label, 0, k);
        t.push('.');
        t.push('.');
        t.push('.');
        assert(t@ =~= label@.take(k as int) + seq!['.', '.', '.']);
        t
    } else {
        label
    };
    let text_s = string_of(text.as_slice());
    Cell {
        id: e.id.clone(),
        text: escape_str_attribute(text_s.as_str()),
        tooltip: escape_str_attribute(e.tooltip.as_str()),
        geometry: Cell::get_default_geometry(CellType::EDGE_WITH_LABEL),
        cell_type: CellType::EDGE_WITH_LABEL,
        source: e.source.clone(),
        target: e.target.clone(),
    }
}

/// The document the `export` command writes for the tree.
pub fn tree_to_document(tree: &Vec<Node>) -> (d: Document)
    requires
        labels_cut_cleanly(tree_view(tree@)),
    ensures
        d@ == tree_document(tree_view(tree@)),
{
    let ghost tv = tree_view(tree@);
    let mut cell_list: Vec<Cell> = Vec::new();
    let mut i: usize = 0;
    assert(tv.take(0) =~= Seq::<NodeView>::empty());
    while i < tree.len()
        invariant
            tv == tree_view(tree@),
            labels_cut_cleanly(tv),
            i <= tv.len(),
            cell_list@.map_values(|c: Cell| c@) == tree_cells(tv.take(i as int)),
        decreases tree.len() - i,
    {
        let n = &tree[i];
        let ghost before = cell_list@.map_values(|c: Cell| c@);
        let nc = node_to_cell(n);
        let ghost ncv = nc@;
        cell_list.push(nc);
        assert(cell_list@.map_values(|c: Cell| c@) =~= before.push(ncv));
        let ghost edges = n@.edges;
        let mut k: usize = 0;
        while k < n.outgoing_edge_list.len()
            invariant
                tv == tree_view(tree@),
                labels_cut_cleanly(tv),
                i < tv.len(),
                edges == tv[i as int].edges,
                n@ == tv[i as int],
                k <= edges.len(),
                cell_list@.map_values(|c: Cell| c@) == before.push(ncv) + edges.take(
                    k as int,
                ).map_values(|e: EdgeView| edge_cell(e)),
            decreases n.outgoing_edge_list.len() - k,
        {
            let e = &n.outgoing_edge_list[k];
            assert(edges[k as int] == e@);
            let ghost cur = cell_list@.map_values(|c: Cell| c@);
            let ec = edge_to_cell(e);
            let ghost ecv = ec@;
            cell_list.push(ec);
            assert(cell_list@.map_values(|c: Cell| c@) =~= cur.push(ecv));
            assert(edges.take(k + 1).map_values(|e: EdgeView| edge_cell(e)) =~= edges.take(
                k as int,
            ).map_values(|e: EdgeView| edge_cell(e)).push(edge_cell(edges[k as int])));
            k = k + 1;
        }
        assert(edges.take(k as int) =~= edges);
        assert(tv.take(i + 1).drop_last() =~= tv.take(i as int));
        i = i + 1;
    }
    assert(tv.take(i as int) =~= tv);
    let diagram = Diagram {
        id: text_string("FirstDiagram"),
        page_name: text_string("FirstPage"),
        page_height: 780,
        page_width: 1200,
        cells: cell_list,
    };
    let mut dia_list: Vec<Diagram> = Vec::new();
    dia_list.push(diagram);
    let doc = Document {
        host: text_string("app.diagrams.net"),
        repo_type: RepositoryType::DEVICE,
        modified: text_string("2022-12-08T22:27:57.684Z"),
        diagram_list: dia_list,
    };
    assert(doc@.diagram_list =~= tree_document(tv).diagram_list);
    doc
}

/// Whether byte offset `b` of `s` falls between two characters.
fn cuts_at_byte(s: &Vec<char>, b: usize) -> (r: bool)
    requires
        utf8_len(s@) <= usize::MAX,
    ensures
        r == is_byte_boundary(s@, b as int),
{
    let mut k: usize = 0;
    let mut n: usize = 0;
    assert(s@.take(0) =~= Seq::<char>::empty());
    while n < b && k < s.len()
        invariant
            0 <= k <= s@.len(),
            n == utf8_len(s@.take(k as int)),
            utf8_len(s@) <= usize::MAX,
            forall|j: int| 0 <= j < k ==> utf8_len(#[trigger] s@.take(j)) < b,
        decreases s.len() - k,
    {
        proof {
            lemma_prefix_bytes_step(s@, k as int);
            if k + 1 < s@.len() {
                lemma_prefix_bytes_increase(s@, k + 1, s@.len() as int);
            }
            assert(s@.take(s@.len() as int) =~= s@);
        }
        let w = char_utf8_width(s[k]);
        n = n + w;
        k = k + 1;
    }
    if n == b {
        assert(prefix_takes(s@, k as int, b as int));
        true
    } else {
        assert forall|j: int| !#[trigger] prefix_takes(s@, j, b as int) by {
            if 0 <= j <= s@.len() {
                if j < k {
                } else if j > k {
                    lemma_prefix_bytes_increase(s@, k as int, j);
                }
            }
        }
        false
    }
}

/// Whether every edge label of the tree longer than 50 bytes can be cut at
/// byte 50.
fn labels_cut_cleanly_check(tree: &Vec<Node>) -> (r: bool)
    ensures
        r == labels_cut_cleanly(tree_view(tree@)),
{
    let ghost tv = tree_view(tree@);
    let mut i: usize = 0;
    while i < tree.len()
        invariant
            tv == tree_view(tree@),
            i <= tv.len(),
            forall|a: int, k: int|
                0 <= a < i && 0 <= k < tv[a].edges.len() && utf8_len(#[trigger] tv[a].edges[k].label)
                    > 50 ==> is_byte_boundary(tv[a].edges[k].label, 50),
        decreases tree.len() - i,
    {
        let n = &tree[i];
        let mut k: usize = 0;
        while k < n.outgoing_edge_list.len()
            invariant
                tv == tree_view(tree@),
                i < tv.len(),
                n@ == tv[i as int],
                k <= tv[i as int].edges.len(),
                forall|a: int, m: int|
                    0 <= a < i && 0 <= m < tv[a].edges.len() && utf8_len(#[trigger] tv[a].edges[m].label)
                        > 50 ==> is_byte_boundary(tv[a].edges[m].label, 50),
                forall|m: int|
                    0 <= m < k && utf8_len(#[trigger] tv[i as int].edges[m].label) > 50 ==> is_byte_boundary(
                        tv[i as int].edges[m].label,
                        50,
                    ),
            decreases n.outgoing_edge_list.len() - k,
        {
            let label = chars_of(n.outgoing_edge_list[k].label.as_str());
            assert(label@ == tv[i as int].edges[k as int].label);
            if byte_len(&label) > 50 && !cuts_at_byte(&label, 50) {
                return false;
            }
            k = k + 1;
        }
        i = i + 1;
    }
    true
}

/// The document of the tree, or `None` when an edge label longer than 50
/// bytes cannot be cut at byte 50 (where shortening it would split a
/// character).
pub fn try_tree_to_document(tree: &Vec<Node>) -> (r: Option<Document>)
    ensures
        r is Some <==> labels_cut_cleanly(tree_view(tree@)),
        r matches Some(d) ==> d@ == tree_document(tree_view(tree@)),
{
    if labels_cut_cleanly_check(tree) {
        Some(tree_to_document(tree))
    } else {
        None
    }
}

/// The name of the exported file: the input file name, a dash, the current
/// root and `.drawio.xml`.
pub open spec fn export_name(output_filename: Seq<char>, current_root: Seq<char>) -> Seq<char> {
    output_filename + seq!['-'] + current_root + ".drawio.xml"@
}

/// The name of the file the `export` command writes.
pub fn export_file_name(output_filename: &str, info: &CommonInfo) -> (r: String)
    ensures
        r@ == export_name(output_filename@, info.current_root@),
{
    let mut v = chars_of(output_filename);
    v.push('-');
    append_chars(&mut v, &chars_of(info.current_root.as_str()));
    append_chars(&mut v, &chars_of(".drawio.xml"));
    string_of(v.as_slice())
}

} // verus!
