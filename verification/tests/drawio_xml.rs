use rust_graph::drawio::{Cell, CellType, Diagram, Document, Geometry, RepositoryType};

fn cell(cell_type: CellType) -> Cell {
    Cell {
        id: String::from("n1"),
        cell_type,
        text: String::from("Label"),
        tooltip: String::from("Tip"),
        geometry: Cell::get_default_geometry(cell_type),
        target: String::from("t1"),
        source: String::from("s1"),
    }
}

#[test]
fn default_geometry_of_each_shape() {
    let vertex = Geometry { relative: 0, width: 120, height: 60, x: 0, y: 0 };
    let diamond = Geometry { relative: 0, width: 60, height: 60, x: 0, y: 0 };
    let edge = Geometry { relative: 1, width: 0, height: 0, x: 0, y: 0 };
    assert_eq!(Cell::get_default_geometry(CellType::RECTANGLE), vertex);
    assert_eq!(Cell::get_default_geometry(CellType::DOCUMENT), vertex);
    assert_eq!(Cell::get_default_geometry(CellType::DIAMON), diamond);
    assert_eq!(Cell::get_default_geometry(CellType::EDGE), edge);
    assert_eq!(Cell::get_default_geometry(CellType::EDGE_WITH_LABEL), edge);
    assert_eq!(Cell::get_default_geometry(CellType::HEXAGON), vertex);
    assert_eq!(Cell::get_default_geometry(CellType::TRAPEZOID), vertex);
}

#[test]
fn rectangle_xml() {
    let expected = "<UserObject label=\"Label\" tooltip=\"Tip\" id=\"n1\">\n<mxCell style=\"rounded=0;whiteSpace=wrap;html=1;sketch=0;shadow=0;fillColor=#dae8fc;strokeColor=#6c8ebf;\" parent=\"1\" vertex=\"1\">\n    <mxGeometry x=\"0\" y=\"0\" width=\"120\" height=\"60\" as=\"geometry\" />\n</mxCell>\n</UserObject>";
    assert_eq!(Cell::to_xml(&cell(CellType::RECTANGLE)), expected);
}

#[test]
fn diamond_xml() {
    let expected = "<UserObject label=\"Label\" tooltip=\"Tip\" id=\"n1\">\n<mxCell style=\"rhombus;whiteSpace=wrap;html=1;shadow=0;sketch=0;\" vertex=\"1\" parent=\"1\">\n    <mxGeometry x=\"0\" y=\"0\" width=\"60\" height=\"60\" as=\"geometry\" />\n</mxCell>\n</UserObject>";
    assert_eq!(Cell::to_xml(&cell(CellType::DIAMON)), expected);
}

#[test]
fn edge_xml() {
    let expected = "<mxCell id=\"n1\" style=\"edgeStyle=orthogonalEdgeStyle;rounded=0;orthogonalLoop=1;jettySize=auto;html=1;\" edge=\"1\" parent=\"1\" source=\"s1\" target=\"t1\">\n    <mxGeometry relative=\"1\" as=\"geometry\" />\n</mxCell>";
    assert_eq!(Cell::to_xml(&cell(CellType::EDGE)), expected);
}

#[test]
fn document_xml_cell() {
    let expected = "<UserObject label=\"Label\" tooltip=\"Tip\" id=\"n1\">\n    <mxCell id=\"n1\" value=\"Label\" style=\"shape=document;whiteSpace=wrap;html=1;boundedLbl=1;shadow=0;sketch=0;\" vertex=\"1\" parent=\"1\">\n        <mxGeometry x=\"0\" y=\"0\" width=\"120\" height=\"60\" as=\"geometry\" />\n    </mxCell>\n</UserObject>";
    assert_eq!(Cell::to_xml(&cell(CellType::DOCUMENT)), expected);
}

#[test]
fn labelled_edge_xml_with_given_label_id() {
    let expected = "<mxCell id=\"n1\" style=\"edgeStyle=orthogonalEdgeStyle;rounded=0;orthogonalLoop=1;jettySize=auto;html=1;\" edge=\"1\" parent=\"1\" source=\"s1\" target=\"t1\">\n    <mxGeometry relative=\"1\" as=\"geometry\" />\n</mxCell>\n<mxCell id=\"4242\" value=\"Label\" style=\"edgeLabel;html=1;align=center;verticalAlign=middle;resizable=0;points=[];\" vertex=\"1\" connectable=\"0\" parent=\"n1\">\n    <mxGeometry relative=\"1\" as=\"geometry\">\n        <mxPoint as=\"offset\" />\n    </mxGeometry>\n</mxCell>";
    assert_eq!(Cell::to_xml_with_label_id(&cell(CellType::EDGE_WITH_LABEL), 4242), expected);
}

#[test]
fn labelled_edge_xml_with_random_label_id() {
    let xml = Cell::to_xml(&cell(CellType::EDGE_WITH_LABEL));
    let head = "<mxCell id=\"n1\" style=\"edgeStyle=orthogonalEdgeStyle;rounded=0;orthogonalLoop=1;jettySize=auto;html=1;\" edge=\"1\" parent=\"1\" source=\"s1\" target=\"t1\">\n    <mxGeometry relative=\"1\" as=\"geometry\" />\n</mxCell>\n<mxCell id=\"";
    assert!(xml.starts_with(head));
    let rest = &xml[head.len()..];
    let digits: String = rest.chars().take_while(|c| c.is_ascii_digit()).collect();
    assert!(!digits.is_empty());
    assert!(digits.parse::<u32>().is_ok());
    let expected_rest = format!("{}\" value=\"Label\" style=\"edgeLabel;html=1;align=center;verticalAlign=middle;resizable=0;points=[];\" vertex=\"1\" connectable=\"0\" parent=\"n1\">\n    <mxGeometry relative=\"1\" as=\"geometry\">\n        <mxPoint as=\"offset\" />\n    </mxGeometry>\n</mxCell>", digits);
    assert_eq!(rest, expected_rest);
}

#[test]
fn other_shapes_have_no_xml() {
    for t in [CellType::TRAPEZOID, CellType::PARALLELOGRAM, CellType::STEP, CellType::HEXAGON, CellType::TRIANGLE] {
        assert_eq!(Cell::to_xml(&cell(t)), "isn't a xml");
    }
}

#[test]
fn diagram_xml_wraps_cells() {
    let d = Diagram {
        id: String::from("D1"),
        page_name: String::from("Page"),
        page_width: 1200,
        page_height: 780,
        cells: vec![cell(CellType::EDGE)],
    };
    let expected = format!(
        "<diagram id=\"D1\" name=\"Page\">\n        <mxGraphModel dx=\"2013\" dy=\"1883\" grid=\"1\" gridSize=\"10\" guides=\"1\" tooltips=\"1\" connect=\"1\" arrows=\"1\" fold=\"1\" page=\"1\" pageScale=\"1\" pageWidth=\"1200\" pageHeight=\"780\" math=\"0\" shadow=\"0\">\n          <root> <mxCell id=\"0\" />\n          <mxCell id=\"1\" parent=\"0\" />{}</root>\n          </mxGraphModel>\n        </diagram>",
        Cell::to_xml(&cell(CellType::EDGE))
    );
    assert_eq!(Diagram::to_xml(d), expected);
}

#[test]
fn document_xml_wraps_diagrams() {
    let doc = Document {
        host: String::from("app.diagrams.net"),
        repo_type: RepositoryType::DEVICE,
        modified: String::from("today"),
        diagram_list: vec![],
    };
    let expected = "<?xml version=\"1.0\" encoding=\"UTF-8\"?>\n<mxfile host=\"app.diagrams.net\" modified=\"today\" agent=\"5.0 (Macintosh; Intel Mac OS X 10_14_6) AppleWebKit/605.1.15 (KHTML, like Gecko) Version/14.1.2 Safari/605.1.15\" etag=\"O5BAPYlSG-wtOZ_Z30hE\" version=\"20.6.1\" type=\"device\"></mxfile>";
    assert_eq!(Document::to_xml(doc), expected);
}

#[test]
fn document_xml_with_one_page() {
    let page = Diagram {
        id: String::from("P"),
        page_name: String::from("Q"),
        page_width: 10,
        page_height: 20,
        cells: vec![],
    };
    let doc = Document {
        host: String::from("h"),
        repo_type: RepositoryType::ONEDRIVE,
        modified: String::from("m"),
        diagram_list: vec![page],
    };
    let xml = Document::to_xml(doc);
    assert!(xml.contains("<diagram id=\"P\" name=\"Q\">"));
    assert!(xml.contains("pageWidth=\"10\" pageHeight=\"20\""));
    assert!(xml.ends_with("</diagram></mxfile>"));
}

#[test]
fn repository_type_is_not_written() {
    let make = |repo_type| Document {
        host: String::from("h"),
        repo_type,
        modified: String::from("m"),
        diagram_list: vec![Diagram {
            id: String::from("P"),
            page_name: String::from("Q"),
            page_width: 1,
            page_height: 2,
            cells: vec![cell(CellType::RECTANGLE)],
        }],
    };
    let a = Document::to_xml(make(RepositoryType::DEVICE));
    let b = Document::to_xml(make(RepositoryType::GOOGLE_DRIVE));
    assert_eq!(a, b);
    assert!(a.contains("type=\"device\""));
}
