use rust_graph::drawio::{CellType, Document};
use rust_graph::export::{export_file_name, get_celltype_from_item, tree_to_document};
use rust_graph::graph::{CommonInfo, Edge, LogLevel, Node};

fn node(id: &str, label: &str, tooltip: &str, edges: Vec<Edge>) -> Node {
    let fan_out = edges.len() as u32;
    Node {
        id: String::from(id),
        label: String::from(label),
        tooltip: String::from(tooltip),
        outgoing_edge_list: edges,
        fan_in: 1,
        fan_out,
        is_visited: false,
        is_merged: false,
    }
}

fn edge(id: &str, label: &str, source: &str, target: &str) -> Edge {
    Edge {
        id: String::from(id),
        label: String::from(label),
        tooltip: String::from(label),
        source: String::from(source),
        target: String::from(target),
    }
}

#[test]
fn cell_type_from_item_label() {
    assert_eq!(get_celltype_from_item("Scelta"), CellType::TRAPEZOID);
    assert_eq!(get_celltype_from_item("Choice"), CellType::DIAMON);
    assert_eq!(get_celltype_from_item("Stella"), CellType::DOCUMENT);
    assert_eq!(get_celltype_from_item("Raggio"), CellType::PARALLELOGRAM);
    assert_eq!(get_celltype_from_item("Jump"), CellType::STEP);
    assert_eq!(get_celltype_from_item("Scelta Utente"), CellType::HEXAGON);
    assert_eq!(get_celltype_from_item("Callback"), CellType::TRIANGLE);
    assert_eq!(get_celltype_from_item("Azione"), CellType::RECTANGLE);
    assert_eq!(get_celltype_from_item("choice"), CellType::RECTANGLE);
}

#[test]
fn document_has_a_cell_per_node_and_edge() {
    let tree = vec![
        node("A", "Choice", "first", vec![edge("A-0", "yes", "A", "B"), edge("A-1", "no", "A", "C")]),
        node("B", "Stella", "b", vec![]),
        node("C", "Azione", "c", vec![]),
    ];
    let doc: Document = tree_to_document(&tree);
    assert_eq!(doc.host, "app.diagrams.net");
    assert_eq!(doc.modified, "2022-12-08T22:27:57.684Z");
    assert_eq!(doc.diagram_list.len(), 1);
    let d = &doc.diagram_list[0];
    assert_eq!(d.id, "FirstDiagram");
    assert_eq!(d.page_name, "FirstPage");
    assert_eq!(d.page_width, 1200);
    assert_eq!(d.page_height, 780);
    let ids: Vec<&str> = d.cells.iter().map(|c| c.id.as_str()).collect();
    assert_eq!(ids, vec!["A", "A-0", "A-1", "B", "C"]);
    assert_eq!(d.cells[0].cell_type, CellType::DIAMON);
    assert_eq!(d.cells[0].source, "0");
    assert_eq!(d.cells[0].target, "0");
    assert_eq!(d.cells[1].cell_type, CellType::EDGE_WITH_LABEL);
    assert_eq!(d.cells[1].source, "A");
    assert_eq!(d.cells[1].target, "B");
    assert_eq!(d.cells[1].text, "yes");
    assert_eq!(d.cells[3].cell_type, CellType::DOCUMENT);
    assert_eq!(d.cells[4].cell_type, CellType::RECTANGLE);
    assert_eq!(d.cells[4].geometry.width, 120);
}

#[test]
fn text_is_escaped_for_xml_attributes() {
    let tree = vec![node("A", "Tom & \"Jerry\" <x>", "it's > 1", vec![])];
    let doc = tree_to_document(&tree);
    let c = &doc.diagram_list[0].cells[0];
    assert_eq!(c.text, "Tom &amp; &quot;Jerry&quot; &lt;x&gt;");
    assert_eq!(c.tooltip, "it&apos;s &gt; 1");
    let xml = Document::to_xml(doc);
    assert!(xml.contains("label=\"Tom &amp; &quot;Jerry&quot; &lt;x&gt;\""));
}

#[test]
fn long_edge_labels_are_shortened() {
    let long = "a".repeat(60);
    let tree = vec![node("A", "Choice", "t", vec![edge("A-0", &long, "A", "B")])];
    let doc = tree_to_document(&tree);
    let c = &doc.diagram_list[0].cells[1];
    assert_eq!(c.text, format!("{}...", "a".repeat(50)));
    assert_eq!(c.tooltip, long);
    let exactly = "b".repeat(50);
    let tree = vec![node("A", "Choice", "t", vec![edge("A-0", &exactly, "A", "B")])];
    let doc = tree_to_document(&tree);
    assert_eq!(doc.diagram_list[0].cells[1].text, exactly);
}

#[test]
fn export_file_is_named_after_root() {
    let info = CommonInfo {
        root: String::from("\\"),
        current_root: String::from("R1"),
        verbosity: LogLevel::INFO,
    };
    assert_eq!(export_file_name("table.html", &info), "table.html-R1.drawio.xml");
}

#[test]
fn label_split_inside_a_character_is_refused() {
    let label = format!("{}é{}", "a".repeat(49), "x".repeat(5));
    let tree = vec![node("A", "Choice", "t", vec![edge("A-0", &label, "A", "B")])];
    assert!(rust_graph::export::try_tree_to_document(&tree).is_none());
    let fine = format!("{}é{}", "a".repeat(48), "x".repeat(5));
    let tree = vec![node("A", "Choice", "t", vec![edge("A-0", &fine, "A", "B")])];
    let doc = rust_graph::export::try_tree_to_document(&tree).unwrap();
    assert_eq!(doc.diagram_list[0].cells[1].text, format!("{}é...", "a".repeat(48)));
}
