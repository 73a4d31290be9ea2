//! A draw.io document model and its XML rendering.

use vstd::prelude::*;
use crate::text::{append_chars, chars_of, decimal, decimal_exec, string_of};
use crate::bindings::random_u32;

verus! {

/// Where a draw.io document is kept.
#[allow(non_camel_case_types)]
#[derive(Debug, Clone, Copy, PartialEq, Eq, Structural)]
pub enum RepositoryType {
    DEVICE,
    GOOGLE_DRIVE,
    ONEDRIVE,
}

/// The shape a cell is drawn with.
#[allow(non_camel_case_types)]
#[derive(Debug, Clone, Copy, PartialEq, Eq, Structural)]
pub enum CellType {
    EDGE,
    EDGE_WITH_LABEL,
    RECTANGLE,
    DIAMON,
    DOCUMENT,
    TRAPEZOID,
    PARALLELOGRAM,
    STEP,
    HEXAGON,
    TRIANGLE,
}

/// Position and size of a cell.
#[derive(Debug, Clone, Copy, PartialEq, Eq, Structural)]
pub struct Geometry {
    pub relative: u8,
    pub width: u16,
    pub height: u16,
    pub x: u16,
    pub y: u16,
}

/// A vertex or an edge of a diagram.
#[derive(Debug)]
pub struct Cell {
    pub id: String,
    pub cell_type: CellType,
    pub text: String,
    pub tooltip: String,
    pub geometry: Geometry,
    pub target: String,
    pub source: String,
}

/// One page of a document.
#[derive(Debug)]
pub struct Diagram {
    pub id: String,
    pub page_name: String,
    pub page_width: u16,
    pub page_height: u16,
    pub cells: Vec<Cell>,
}

/// A draw.io file.
#[derive(Debug)]
pub struct Document {
    pub host: String,
    pub repo_type: RepositoryType,
    pub modified: String,
    pub diagram_list: Vec<Diagram>,
}

/// The value of a `Cell`, its strings as character sequences.
pub struct CellView {
    pub id: Seq<char>,
    pub cell_type: CellType,
    pub text: Seq<char>,
    pub tooltip: Seq<char>,
    pub geometry: Geometry,
    pub target: Seq<char>,
    pub source: Seq<char>,
}

impl View for Cell {
    type V = CellView;

    open spec fn view(&self) -> CellView {
        CellView {
            id: self.id@,
            cell_type: self.cell_type,
            text: self.text@,
            tooltip: self.tooltip@,
            geometry: self.geometry,
            target: self.target@,
            source: self.source@,
        }
    }
}

/// The value of a `Diagram`.
pub struct DiagramView {
    pub id: Seq<char>,
    pub page_name: Seq<char>,
    pub page_width: u16,
    pub page_height: u16,
    pub cells: Seq<CellView>,
}

impl View for Diagram {
    type V = DiagramView;

    open spec fn view(&self) -> DiagramView {
        DiagramView {
            id: self.id@,
            page_name: self.page_name@,
            page_width: self.page_width,
            page_height: self.page_height,
            cells: self.cells@.map_values(|c: Cell| c@),
        }
    }
}

/// The value of a `Document`.
pub struct DocumentView {
    pub host: Seq<char>,
    pub repo_type: RepositoryType,
    pub modified: Seq<char>,
    pub diagram_list: Seq<DiagramView>,
}

impl View for Document {
    type V = DocumentView;

    open spec fn view(&self) -> DocumentView {
        DocumentView {
            host: self.host@,
            repo_type: self.repo_type,
            modified: self.modified@,
            diagram_list: self.diagram_list@.map_values(|d: Diagram| d@),
        }
    }
}

// ---------------------------------------------------------------------------
// Default geometries
// ---------------------------------------------------------------------------

/// The geometry a new cell of the given shape gets: edges are relative and
/// sizeless, diamonds are 60 by 60, every other vertex 120 by 60.
pub open spec fn default_geometry(cell_type: CellType) -> Geometry {
    match cell_type {
        CellType::EDGE | CellType::EDGE_WITH_LABEL => Geometry {
            relative: 1,
            width: 0,
            height: 0,
            x: 0,
            y: 0,
        },
        CellType::DIAMON => Geometry { relative: 0, width: 60, height: 60, x: 0, y: 0 },
        _ => Geometry { relative: 0, width: 120, height: 60, x: 0, y: 0 },
    }
}

// ---------------------------------------------------------------------------
// XML text
// ---------------------------------------------------------------------------

/// The `x`, `y`, `width` and `height` attributes of an `mxGeometry`,
/// from the value of `x` to the end of the element.
pub open spec fn geometry_attributes(g: Geometry) -> Seq<char> {
    decimal(g.x as nat) + "\" y=\""@ + decimal(g.y as nat) + "\" width=\""@ + decimal(
        g.width as nat,
    ) + "\" height=\""@ + decimal(g.height as nat) + "\" as=\"geometry\" />\n"@
}

/// Opening of a `UserObject` carrying the label, tooltip and id of `c`.
pub open spec fn user_object_head(c: CellView) -> Seq<char> {
    "<UserObject label=\""@ + c.text + "\" tooltip=\""@ + c.tooltip + "\" id=\""@ + c.id
}

/// The `mxCell` of an edge from `source` to `target`.
pub open spec fn edge_xml(c: CellView) -> Seq<char> {
    "<mxCell id=\""@ + c.id
        + "\" style=\"edgeStyle=orthogonalEdgeStyle;rounded=0;orthogonalLoop=1;jettySize=auto;html=1;\" edge=\"1\" parent=\"1\" source=\""@
        + c.source + "\" target=\""@ + c.target
        + "\">\n    <mxGeometry relative=\"1\" as=\"geometry\" />\n</mxCell>"@
}

/// The XML of a cell; `sub_id` is the id given to the label of an edge
/// with a label.
pub open spec fn cell_xml(c: CellView, sub_id: u32) -> Seq<char> {
    match c.cell_type {
        CellType::RECTANGLE => user_object_head(c)
            + "\">\n<mxCell style=\"rounded=0;whiteSpace=wrap;html=1;sketch=0;shadow=0;fillColor=#dae8fc;strokeColor=#6c8ebf;\" parent=\"1\" vertex=\"1\">\n    <mxGeometry x=\""@
            + geometry_attributes(c.geometry) + "</mxCell>\n</UserObject>"@,
        CellType::DIAMON => user_object_head(c)
            + "\">\n<mxCell style=\"rhombus;whiteSpace=wrap;html=1;shadow=0;sketch=0;\" vertex=\"1\" parent=\"1\">\n    <mxGeometry x=\""@
            + geometry_attributes(c.geometry) + "</mxCell>\n</UserObject>"@,
        CellType::EDGE => edge_xml(c),
        CellType::EDGE_WITH_LABEL => edge_xml(c) + "\n<mxCell id=\""@ + decimal(sub_id as nat)
            + "\" value=\""@ + c.text
            + "\" style=\"edgeLabel;html=1;align=center;verticalAlign=middle;resizable=0;points=[];\" vertex=\"1\" connectable=\"0\" parent=\""@
            + c.id
            + "\">\n    <mxGeometry relative=\"1\" as=\"geometry\">\n        <mxPoint as=\"offset\" />\n    </mxGeometry>\n</mxCell>"@,
        CellType::DOCUMENT => user_object_head(c) + "\">\n    <mxCell id=\""@ + c.id + "\" value=\""@
            + c.text
            + "\" style=\"shape=document;whiteSpace=wrap;html=1;boundedLbl=1;shadow=0;sketch=0;\" vertex=\"1\" parent=\"1\">\n        <mxGeometry x=\""@
            + geometry_attributes(c.geometry) + "    </mxCell>\n</UserObject>"@,
        _ => "isn't a xml"@,
    }
}

/// The XML of the cells in order, the `i`-th labelled edge taking its
/// label id from `sub_ids[i]`.
pub open spec fn cells_xml(cells: Seq<CellView>, sub_ids: Seq<u32>) -> Seq<char>
    decreases cells.len(),
{
    if cells.len() == 0 {
        Seq::empty()
    } else {
        cells_xml(cells.drop_last(), sub_ids) + cell_xml(
            cells.last(),
            sub_ids[cells.len() - 1],
        )
    }
}

/// Opening of a `diagram` element, up to and including its two root cells.
pub open spec fn diagram_head(d: DiagramView) -> Seq<char> {
    "<diagram id=\""@ + d.id + "\" name=\""@ + d.page_name
        + "\">\n        <mxGraphModel dx=\"2013\" dy=\"1883\" grid=\"1\" gridSize=\"10\" guides=\"1\" tooltips=\"1\" connect=\"1\" arrows=\"1\" fold=\"1\" page=\"1\" pageScale=\"1\" pageWidth=\""@
        + decimal(d.page_width as nat) + "\" pageHeight=\""@ + decimal(d.page_height as nat)
        + "\" math=\"0\" shadow=\"0\">\n          <root> <mxCell id=\"0\" />\n          <mxCell id=\"1\" parent=\"0\" />"@
}

/// The XML of a diagram, its labelled edges taking their label ids from
/// `sub_ids`.
pub open spec fn diagram_xml(d: DiagramView, sub_ids: Seq<u32>) -> Seq<char> {
    diagram_head(d) + cells_xml(d.cells, sub_ids)
        + "</root>\n          </mxGraphModel>\n        </diagram>"@
}

/// The XML of the diagrams in order.
pub open spec fn diagrams_xml(ds: Seq<DiagramView>, sub_ids: Seq<Seq<u32>>) -> Seq<char>
    decreases ds.len(),
{
    if ds.len() == 0 {
        Seq::empty()
    } else {
        diagrams_xml(ds.drop_last(), sub_ids) + diagram_xml(ds.last(), sub_ids[ds.len() - 1])
    }
}

/// The XML of a whole document.
pub open spec fn document_xml(doc: DocumentView, sub_ids: Seq<Seq<u32>>) -> Seq<char> {
    "<?xml version=\"1.0\" encoding=\"UTF-8\"?>\n<mxfile host=\""@ + doc.host + "\" modified=\""@
        + doc.modified
        + "\" agent=\"5.0 (Macintosh; Intel Mac OS X 10_14_6) AppleWebKit/605.1.15 (KHTML, like Gecko) Version/14.1.2 Safari/605.1.15\" etag=\"O5BAPYlSG-wtOZ_Z30hE\" version=\"20.6.1\" type=\"device\">"@
        + diagrams_xml(doc.diagram_list, sub_ids) + "</mxfile>"@
}

// ---------------------------------------------------------------------------
// Building text
// ---------------------------------------------------------------------------

fn push_str(v: &mut Vec<char>, s: &str)
    ensures
        final(v)@ == old(v)@ + s@,
{
    let w = chars_of(s);
    append_chars(v, &w);
}

fn push_decimal(v: &mut Vec<char>, n: u64)
    ensures
        final(v)@ == old(v)@ + decimal(n as nat),
{
    let w = decimal_exec(n);
    append_chars(v, &w);
}

fn push_geometry_attributes(v: &mut Vec<char>, g: &Geometry)
    ensures
        final(v)@ == old(v)@ + geometry_attributes(*g),
{
    let ghost start = v@;
    push_decimal(v, g.x as u64);
    push_str(v, "\" y=\"");
    push_decimal(v, g.y as u64);
    push_str(v, "\" width=\"");
    push_decimal(v, g.width as u64);
    push_str(v, "\" height=\"");
    push_decimal(v, g.height as u64);
    push_str(v, "\" as=\"geometry\" />\n");
    assert(v@ =~= start + geometry_attributes(*g));
}

fn push_user_object_head(v: &mut Vec<char>, c: &Cell)
    ensures
        final(v)@ == old(v)@ + user_object_head(c@),
{
    let ghost start = v@;
    push_str(v, "<UserObject label=\"");
    push_str(v, c.text.as_str());
    push_str(v, "\" tooltip=\"");
    push_str(v, c.tooltip.as_str());
    push_str(v, "\" id=\"");
    push_str(v, c.id.as_str());
    assert(v@ =~= start + user_object_head(c@));
}

fn push_edge(v: &mut Vec<char>, c: &Cell)
    ensures
        final(v)@ == old(v)@ + edge_xml(c@),
{
    let ghost start = v@;
    push_str(v, "<mxCell id=\"");
    push_str(v, c.id.as_str());
    push_str(
        v,
        "\" style=\"edgeStyle=orthogonalEdgeStyle;rounded=0;orthogonalLoop=1;jettySize=auto;html=1;\" edge=\"1\" parent=\"1\" source=\"",
    );
    push_str(v, c.source.as_str());
    push_str(v, "\" target=\"");
    push_str(v, c.target.as_str());
    push_str(v, "\">\n    <mxGeometry relative=\"1\" as=\"geometry\" />\n</mxCell>");
    assert(v@ =~= start + edge_xml(c@));
}

impl Cell {
    /// The geometry a new cell of the given shape gets.
    pub fn get_default_geometry(cell_type: CellType) -> (g: Geometry)
        ensures
            g == default_geometry(cell_type),
    {
        match cell_type {
            CellType::RECTANGLE => Geometry { width: 120, height: 60, x: 0, y: 0, relative: 0 },
            CellType::DIAMON => Geometry { width: 60, height: 60, x: 0, y: 0, relative: 0 },
            CellType::EDGE => Geometry { width: 0, height: 0, x: 0, y: 0, relative: 1 },
            CellType::EDGE_WITH_LABEL => Geometry { width: 0, height: 0, x: 0, y: 0, relative: 1 },
            CellType::DOCUMENT => Geometry { width: 120, height: 60, x: 0, y: 0, relative: 0 },
            _ => Geometry { width: 120, height: 60, x: 0, y: 0, relative: 0 },
        }
    }

    /// The XML of `cell`, an edge with a label naming its label `sub_id`.
    pub fn to_xml_with_label_id(cell: &Cell, sub_id: u32) -> (r: String)
        ensures
            r@ == cell_xml(cell@, sub_id),
    {
        let mut v: Vec<char> = Vec::new();
        match cell.cell_type {
            CellType::RECTANGLE => {
                push_user_object_head(&mut v, cell);
                push_str(
                    &mut v,
                    "\">\n<mxCell style=\"rounded=0;whiteSpace=wrap;html=1;sketch=0;shadow=0;fillColor=#dae8fc;strokeColor=#6c8ebf;\" parent=\"1\" vertex=\"1\">\n    <mxGeometry x=\"",
                );
                push_geometry_attributes(&mut v, &cell.geometry);
                push_str(&mut v, "</mxCell>\n</UserObject>");
            },
            CellType::DIAMON => {
                push_user_object_head(&mut v, cell);
                push_str(
                    &mut v,
                    "\">\n<mxCell style=\"rhombus;whiteSpace=wrap;html=1;shadow=0;sketch=0;\" vertex=\"1\" parent=\"1\">\n    <mxGeometry x=\"",
                );
                push_geometry_attributes(&mut v, &cell.geometry);
                push_str(&mut v, "</mxCell>\n</UserObject>");
            },
            CellType::EDGE => {
                push_edge(&mut v, cell);
            },
            CellType::EDGE_WITH_LABEL => {
                push_edge(&mut v, cell);
                push_str(&mut v, "\n<mxCell id=\"");
                push_decimal(&mut v, sub_id as u64);
                push_str(&mut v, "\" value=\"");
                push_str(&mut v, cell.text.as_str());
                push_str(
                    &mut v,
                    "\" style=\"edgeLabel;html=1;align=center;verticalAlign=middle;resizable=0;points=[];\" vertex=\"1\" connectable=\"0\" parent=\"",
                );
                push_str(&mut v, cell.id.as_str());
                push_str(
                    &mut v,
                    "\">\n    <mxGeometry relative=\"1\" as=\"geometry\">\n        <mxPoint as=\"offset\" />\n    </mxGeometry>\n</mxCell>",
                );
            },
            CellType::DOCUMENT => {
                push_user_object_head(&mut v, cell);
                push_str(&mut v, "\">\n    <mxCell id=\"");
                push_str(&mut v, cell.id.as_str());
                push_str(&mut v, "\" value=\"");
                push_str(&mut v, cell.text.as_str());
                push_str(
                    &mut v,
                    "\" style=\"shape=document;whiteSpace=wrap;html=1;boundedLbl=1;shadow=0;sketch=0;\" vertex=\"1\" parent=\"1\">\n        <mxGeometry x=\"",
                );
                push_geometry_attributes(&mut v, &cell.geometry);
                push_str(&mut v, "    </mxCell>\n</UserObject>");
            },
            _ => {
                push_str(&mut v, "isn't a xml");
            },
        }
        assert(v@ =~= cell_xml(cell@, sub_id));
        string_of(v.as_slice())
    }

    /// The XML of `cell`; an edge with a label gets a random id for its
    /// label.
    pub fn to_xml(cell: &Cell) -> (r: String)
        ensures
            exists|sub_id: u32| r@ == cell_xml(cell@, sub_id),
            !(cell@.cell_type is EDGE_WITH_LABEL) ==> r@ == cell_xml(cell@, 0),
    {
        match cell.cell_type {
            CellType::EDGE_WITH_LABEL => {
                let sub_id = random_u32();
                Cell::to_xml_with_label_id(cell, sub_id)
            },
            _ => Cell::to_xml_with_label_id(cell, 0),
        }
    }
}

impl Diagram {
    /// The XML of `diagram`; each labelled edge gets a random label id.
    pub fn to_xml(diagram: Diagram) -> (r: String)
        ensures
            exists|sub_ids: Seq<u32>|
                sub_ids.len() == diagram@.cells.len() && r@ == #[trigger] diagram_xml(
                    diagram@,
                    sub_ids,
                ),
    {
        let mut v: Vec<char> = Vec::new();
        push_str(&mut v, "<diagram id=\"");
        push_str(&mut v, diagram.id.as_str());
        push_str(&mut v, "\" name=\"");
        push_str(&mut v, diagram.page_name.as_str());
        push_str(
            &mut v,
            "\">\n        <mxGraphModel dx=\"2013\" dy=\"1883\" grid=\"1\" gridSize=\"10\" guides=\"1\" tooltips=\"1\" connect=\"1\" arrows=\"1\" fold=\"1\" page=\"1\" pageScale=\"1\" pageWidth=\"",
        );
        push_decimal(&mut v, diagram.page_width as u64);
        push_str(&mut v, "\" pageHeight=\"");
        push_decimal(&mut v, diagram.page_height as u64);
        push_str(
            &mut v,
            "\" math=\"0\" shadow=\"0\">\n          <root> <mxCell id=\"0\" />\n          <mxCell id=\"1\" parent=\"0\" />",
        );
        assert(v@ =~= diagram_head(diagram@));
        let ghost head = v@;
        let ghost cells = diagram@.cells;
        let ghost mut ids: Seq<u32> = Seq::empty();
        let mut i: usize = 0;
        assert(cells.take(0) =~= Seq::<CellView>::empty());
        while i < diagram.cells.len()
            invariant
                cells == diagram@.cells,
                i <= cells.len(),
                ids.len() == i,
                v@ == head + cells_xml(cells.take(i as int), ids),
            decreases diagram.cells.len() - i,
        {
            let piece = Cell::to_xml(&diagram.cells[i]);
            let ghost id = choose|id: u32| piece@ == cell_xml(cells[i as int], id);
            let ghost old_ids = ids;
            proof {
                ids = ids.push(id);
                assert(cells.take(i + 1).drop_last() =~= cells.take(i as int));
                lemma_cells_xml_ids_prefix(cells.take(i as int), old_ids, ids);
            }
            push_str(&mut v, piece.as_str());
            i = i + 1;
        }
        assert(cells.take(i as int) =~= cells);
        push_str(&mut v, "</root>\n          </mxGraphModel>\n        </diagram>");
        assert(v@ =~= diagram_xml(diagram@, ids));
        string_of(v.as_slice())
    }
}

/// The repository type never reaches the XML: two documents that differ
/// only in it are written alike, for the same label ids.
pub proof fn lemma_repository_type_not_written(d1: DocumentView, d2: DocumentView, sub_ids: Seq<Seq<u32>>)
    requires
        d1.host == d2.host,
        d1.modified == d2.modified,
        d1.diagram_list == d2.diagram_list,
    ensures
        document_xml(d1, sub_ids) == document_xml(d2, sub_ids),
{
}

/// The XML of cells depends only on the label ids of those cells.
pub proof fn lemma_cells_xml_ids_prefix(cells: Seq<CellView>, a: Seq<u32>, b: Seq<u32>)
    requires
        cells.len() <= a.len(),
        cells.len() <= b.len(),
        forall|k: int| 0 <= k < cells.len() ==> a[k] == b[k],
    ensures
        cells_xml(cells, a) == cells_xml(cells, b),
    decreases cells.len(),
{
    if cells.len() > 0 {
        lemma_cells_xml_ids_prefix(cells.drop_last(), a, b);
    }
}

/// The XML of diagrams depends only on the label ids of those diagrams.
pub proof fn lemma_diagrams_xml_ids_prefix(ds: Seq<DiagramView>, a: Seq<Seq<u32>>, b: Seq<Seq<u32>>)
    requires
        ds.len() <= a.len(),
        ds.len() <= b.len(),
        forall|k: int| 0 <= k < ds.len() ==> a[k] == b[k],
    ensures
        diagrams_xml(ds, a) == diagrams_xml(ds, b),
    decreases ds.len(),
{
    if ds.len() > 0 {
        lemma_diagrams_xml_ids_prefix(ds.drop_last(), a, b);
    }
}

impl Document {
    /// The XML of `doc`; each labelled edge gets a random label id.
    pub fn to_xml(doc: Document) -> (r: String)
        ensures
            exists|sub_ids: Seq<Seq<u32>>|
                sub_ids.len() == doc@.diagram_list.len() && (forall|k: int|
                    0 <= k < sub_ids.len() ==> #[trigger] sub_ids[k].len()
                        == doc@.diagram_list[k].cells.len()) && r@ == #[trigger] document_xml(
                    doc@,
                    sub_ids,
                ),
    {
        let ghost dv = doc@;
        let mut v: Vec<char> = Vec::new();
        push_str(&mut v, "<?xml version=\"1.0\" encoding=\"UTF-8\"?>\n<mxfile host=\"");
        push_str(&mut v, doc.host.as_str());
        push_str(&mut v, "\" modified=\"");
        push_str(&mut v, doc.modified.as_str());
        push_str(
            &mut v,
            "\" agent=\"5.0 (Macintosh; Intel Mac OS X 10_14_6) AppleWebKit/605.1.15 (KHTML, like Gecko) Version/14.1.2 Safari/605.1.15\" etag=\"O5BAPYlSG-wtOZ_Z30hE\" version=\"20.6.1\" type=\"device\">",
        );
        let ghost head = v@;
        let ghost ds = dv.diagram_list;
        let ghost mut ids: Seq<Seq<u32>> = Seq::empty();
        let Document { host, repo_type, modified, diagram_list } = doc;
        let mut rest = diagram_list;
        let n = rest.len();
        let mut i: usize = 0;
        assert(ds.take(0) =~= Seq::<DiagramView>::empty());
        while rest.len() > 0
            invariant
                i + rest@.len() == ds.len(),
                n == ds.len(),
                ids.len() == i,
                forall|k: int| 0 <= k < i ==> #[trigger] ids[k].len() == ds[k].cells.len(),
                forall|k: int| 0 <= k < rest@.len() ==> #[trigger] rest@[k]@ == ds[i + k],
                v@ == head + diagrams_xml(ds.take(i as int), ids),
            decreases rest.len(),
        {
            let d = rest.remove(0);
            assert(d@ == ds[i as int]);
            let piece = Diagram::to_xml(d);
            let ghost sub = choose|sub: Seq<u32>|
                sub.len() == ds[i as int].cells.len() && piece@ == #[trigger] diagram_xml(
                    ds[i as int],
                    sub,
                );
            let ghost old_ids = ids;
            proof {
                ids = ids.push(sub);
                assert(ds.take(i + 1).drop_last() =~= ds.take(i as int));
                lemma_diagrams_xml_ids_prefix(ds.take(i as int), old_ids, ids);
            }
            push_str(&mut v, piece.as_str());
            i = i + 1;
        }
        assert(ds.take(i as int) =~= ds);
        push_str(&mut v, "</mxfile>");
        assert(v@ =~= document_xml(dv, ids));
        string_of(v.as_slice())
    }
}

} // verus!
