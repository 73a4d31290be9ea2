use rust_graph::building::{build, cd};
use rust_graph::graph::{convert_row2node, copy_vec, debug, retrieve_roots_from_table, CommonInfo, LogLevel, Node};
use rust_graph::table::{HtmlTable, TableRow};

fn row(id: &str, item: &str, action: &str, next: &str) -> TableRow {
    TableRow {
        id: Some(String::from(id)),
        item: Some(String::from(item)),
        action: Some(String::from(action)),
        next: Some(String::from(next)),
    }
}

fn link(text: &str, target: &str) -> String {
    format!("{}&nbsp;<a href=\"#{}\">{}</a>", text, target, target)
}

fn info(root: &str) -> CommonInfo {
    CommonInfo { root: String::from("\\"), current_root: String::from(root), verbosity: LogLevel::INFO }
}

fn sample_table() -> HtmlTable {
    HtmlTable {
        rows: vec![
            row("A", "Choice", "start", &link("go", "B")),
            row("B", "Scelta", "ask", &format!("{}<br>{}", link("yes", "C"), link("no", "D"))),
            row("C", "Stella", "done", ""),
            row("D", "Stella", "other", ""),
            row("E", "Jump", "jump", &link("to", "C")),
        ],
    }
}

#[test]
fn row_becomes_node_with_edges() {
    let r = row("N1", "Choice", "  do it ", &format!("{}<br>{}", link("txt1", "id1"), link("txt2", "id2")));
    let n = convert_row2node(false, &r);
    assert_eq!(n.id, "N1");
    assert_eq!(n.label, "Choice");
    assert_eq!(n.tooltip, "do it");
    assert_eq!(n.fan_in, 0);
    assert_eq!(n.fan_out, 2);
    assert!(!n.is_visited && !n.is_merged);
    assert_eq!(n.outgoing_edge_list.len(), 2);
    let e0 = &n.outgoing_edge_list[0];
    assert_eq!(e0.id, "N1-0");
    assert_eq!(e0.label, "txt1&nbsp;");
    assert_eq!(e0.tooltip, "txt1&nbsp;");
    assert_eq!(e0.source, "N1");
    assert_eq!(e0.target, "id1");
    let e1 = &n.outgoing_edge_list[1];
    assert_eq!(e1.id, "N1-1");
    assert_eq!(e1.label, "txt2&nbsp;");
    assert_eq!(e1.target, "id2");
}

#[test]
fn debug_node_tooltip_starts_with_id() {
    let r = row("N1", "Choice", "act", "");
    let n = convert_row2node(true, &r);
    assert_eq!(n.tooltip, "N1\nact");
    assert_eq!(n.fan_out, 0);
}

#[test]
fn missing_cells_take_defaults() {
    let r = TableRow { id: None, item: None, action: None, next: None };
    let n = convert_row2node(false, &r);
    assert_eq!(n.id, "<id missing>");
    assert_eq!(n.label, "<item missing>");
    assert_eq!(n.tooltip, "<azione missing>");
    assert!(n.outgoing_edge_list.is_empty());
}

#[test]
fn roots_are_rows_no_link_reaches() {
    let roots = retrieve_roots_from_table(&sample_table());
    assert_eq!(roots, vec![String::from("A"), String::from("E")]);
}

#[test]
fn debug_command_sets_verbosity() {
    let mut i = info("\\");
    debug("on", &mut i);
    assert_eq!(i.verbosity, LogLevel::DEBUG);
    assert!(CommonInfo::is_debug(&mut i));
    assert!(!CommonInfo::is_info(&mut i));
    debug("", &mut i);
    assert_eq!(i.verbosity, LogLevel::DEBUG);
    debug("off", &mut i);
    assert_eq!(i.verbosity, LogLevel::INFO);
    assert!(CommonInfo::is_info(&mut i));
    debug("loud", &mut i);
    assert_eq!(i.verbosity, LogLevel::ERROR);
    assert!(CommonInfo::is_error(&mut i));
    assert_eq!(i.root, "\\");
}

#[test]
fn forest_build_appends_every_row() {
    let table = sample_table();
    let mut i = info("\\");
    let mut tree: Vec<Node> = Vec::new();
    build(&table, &mut i, &mut tree);
    let ids: Vec<&str> = tree.iter().map(|n| n.id.as_str()).collect();
    assert_eq!(ids, vec!["A", "B", "C", "D", "E"]);
    assert_eq!(tree[1].tooltip, "ask");
    assert!(tree.iter().all(|n| n.fan_in == 0));
    assert_eq!(i.current_root, "\\");
}

#[test]
fn cd_walks_from_the_new_root() {
    let table = sample_table();
    let mut i = info("\\");
    let mut tree: Vec<Node> = Vec::new();
    cd("B", &table, &mut tree, &mut i);
    assert_eq!(i.current_root, "B");
    let ids: Vec<&str> = tree.iter().map(|n| n.id.as_str()).collect();
    assert_eq!(ids, vec!["B", "D", "C"]);
    assert!(tree.iter().all(|n| n.fan_in == 1));
    assert_eq!(tree[0].tooltip, "B\nask");
}

#[test]
fn cd_counts_each_way_in() {
    let table = HtmlTable {
        rows: vec![
            row("R", "Choice", "r", &format!("{}<br>{}", link("a", "X"), link("b", "Y"))),
            row("X", "Choice", "x", &link("c", "Z")),
            row("Y", "Choice", "y", &link("d", "Z")),
            row("Z", "Stella", "z", ""),
        ],
    };
    let mut i = info("\\");
    let mut tree: Vec<Node> = Vec::new();
    cd("R", &table, &mut tree, &mut i);
    let z = tree.iter().find(|n| n.id == "Z").unwrap();
    assert_eq!(z.fan_in, 2);
    assert_eq!(tree.iter().filter(|n| n.id == "Z").count(), 1);
    assert_eq!(tree.len(), 4);
}

#[test]
fn cd_with_no_argument_returns_to_forest() {
    let table = sample_table();
    let mut i = info("B");
    let mut tree: Vec<Node> = Vec::new();
    cd("", &table, &mut tree, &mut i);
    assert_eq!(i.current_root, "\\");
    assert_eq!(tree.len(), 5);
}

#[test]
fn cd_to_unknown_root_builds_nothing() {
    let table = sample_table();
    let mut i = info("\\");
    let mut tree: Vec<Node> = Vec::new();
    cd("nowhere", &table, &mut tree, &mut i);
    assert!(tree.is_empty());
}

#[test]
fn copy_vec_copies() {
    let v = vec![1, 2, 3];
    assert_eq!(copy_vec(&v), v);
}

#[test]
fn walk_stops_at_a_row_without_id() {
    let mut t = sample_table();
    t.rows.insert(1, TableRow { id: None, item: None, action: None, next: None });
    let mut i = info("\\");
    let mut tree: Vec<Node> = Vec::new();
    // the row of A comes before the row without id: A is read, then B is looked for
    assert!(!rust_graph::building::try_cd("A", &t, &mut tree, &mut i, &mut Vec::new()));
    assert_eq!(i.current_root, "A");
    let ids: Vec<&str> = tree.iter().map(|n| n.id.as_str()).collect();
    assert_eq!(ids, vec!["A"]);
    let mut tree2: Vec<Node> = Vec::new();
    assert!(rust_graph::building::try_cd("", &t, &mut tree2, &mut i, &mut Vec::new()));
    assert_eq!(tree2.len(), 6);
}

#[test]
fn walk_from_rows_before_the_gap_succeeds() {
    let mut t = sample_table();
    t.rows.push(TableRow { id: None, item: None, action: None, next: None });
    let mut i = info("\\");
    let mut tree: Vec<Node> = Vec::new();
    assert!(rust_graph::building::try_cd("B", &t, &mut tree, &mut i, &mut Vec::new()));
    let ids: Vec<&str> = tree.iter().map(|n| n.id.as_str()).collect();
    assert_eq!(ids, vec!["B", "D", "C"]);
}

#[test]
fn walk_reports_its_steps() {
    let table = HtmlTable {
        rows: vec![
            row("R", "Choice", "r", &format!("{}<br>{}", link("a", "X"), link("b", "X"))),
            row("X", "Stella", "x", ""),
        ],
    };
    let mut i = info("\\");
    let mut tree: Vec<Node> = Vec::new();
    let mut trace: Vec<String> = Vec::new();
    assert!(rust_graph::building::try_cd("R", &table, &mut tree, &mut i, &mut trace));
    assert_eq!(
        trace,
        vec![
            "### Stack size: 1",
            "Got node with id: R",
            "[Current node: R]",
            "[Current node: R] is a new node -> pushed to tree stack",
            "[Current node: R] Fan-in increased -> new value: 1",
            "[Current node: R] Already traversed here (R,X)",
            "[Current node: R] Added new outgoing edges to visiting node stack -> length:2",
            "### Stack size: 1",
            "Got node with id: X",
            "[Current node: X]",
            "[Current node: X] is a new node -> pushed to tree stack",
            "[Current node: X] Fan-in increased -> new value: 1",
            "[Current node: X] Added new outgoing edges to visiting node stack -> length:0",
        ]
    );
    let mut forest_trace: Vec<String> = Vec::new();
    assert!(rust_graph::building::try_cd("", &table, &mut tree, &mut i, &mut forest_trace));
    assert!(forest_trace.is_empty());
}
