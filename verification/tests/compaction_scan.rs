use rust_graph::compaction::{compact, try_compact, CompactFault};
use rust_graph::graph::{CommonInfo, Edge, LogLevel, Node};

fn edge(id: &str, source: &str, target: &str) -> Edge {
    Edge {
        id: String::from(id),
        label: String::from("l"),
        tooltip: String::from("t"),
        source: String::from(source),
        target: String::from(target),
    }
}

fn node(id: &str, label: &str, tooltip: &str, edges: Vec<Edge>, fan_in: u32) -> Node {
    let fan_out = edges.len() as u32;
    Node {
        id: String::from(id),
        label: String::from(label),
        tooltip: String::from(tooltip),
        outgoing_edge_list: edges,
        fan_in,
        fan_out,
        is_visited: false,
        is_merged: false,
    }
}

fn chain() -> Vec<Node> {
    vec![
        node("X", "Scelta Utente", "x;", vec![edge("X-0", "X", "Y")], 3),
        node("Y", "Scelta Utente", "y;", vec![edge("Y-0", "Y", "Z")], 1),
        node("Z", "Stella", "z", vec![], 1),
    ]
}

#[test]
fn two_user_choices_merge() {
    let mut tree = chain();
    let r = try_compact(&mut tree, &mut Vec::new());
    assert_eq!(r, Ok(1));
    assert_eq!(tree.len(), 2);
    assert_eq!(tree[0].id, "Z");
    let m = &tree[1];
    assert_eq!(m.id, "X");
    assert_eq!(m.label, "Scelta Utente");
    assert_eq!(m.tooltip, "x;y;");
    assert_eq!(m.fan_in, 3);
    assert_eq!(m.fan_out, 1);
    assert_eq!(m.outgoing_edge_list.len(), 1);
    assert_eq!(m.outgoing_edge_list[0].id, "Y-0");
    assert_eq!(m.outgoing_edge_list[0].source, "X");
    assert_eq!(m.outgoing_edge_list[0].target, "Z");
}

#[test]
fn longer_chain_merges_repeatedly() {
    let mut tree = vec![
        node("A", "Scelta Utente", "a", vec![edge("A-0", "A", "B")], 1),
        node("B", "Scelta Utente", "b", vec![edge("B-0", "B", "C")], 1),
        node("C", "Scelta Utente", "c", vec![edge("C-0", "C", "D")], 1),
        node("D", "Stella", "d", vec![], 1),
    ];
    let r = try_compact(&mut tree, &mut Vec::new());
    assert_eq!(r, Ok(2));
    assert_eq!(tree.len(), 2);
    let ids: Vec<&str> = tree.iter().map(|n| n.id.as_str()).collect();
    assert_eq!(ids, vec!["D", "A"]);
    assert_eq!(tree[1].tooltip, "abc");
}

#[test]
fn nothing_to_merge_leaves_tree() {
    let mut tree = vec![
        node("A", "Choice", "a", vec![edge("A-0", "A", "B")], 1),
        node("B", "Scelta Utente", "b", vec![], 2),
    ];
    assert_eq!(try_compact(&mut tree, &mut Vec::new()), Ok(0));
    assert_eq!(tree.len(), 2);
    assert_eq!(tree[0].id, "A");
}

#[test]
fn second_node_with_two_ways_in_is_kept() {
    let mut tree = vec![
        node("A", "Scelta Utente", "a", vec![edge("A-0", "A", "B")], 1),
        node("B", "Scelta Utente", "b", vec![], 2),
    ];
    assert_eq!(try_compact(&mut tree, &mut Vec::new()), Ok(0));
    assert_eq!(tree.len(), 2);
}

#[test]
fn missing_edge_is_a_fault() {
    let mut n = node("A", "Scelta Utente", "a", vec![], 1);
    n.fan_out = 1;
    let mut tree = vec![n];
    assert_eq!(try_compact(&mut tree, &mut Vec::new()), Err(CompactFault::MissingEdge));
}

#[test]
fn unknown_target_is_a_fault() {
    let mut tree = vec![node("A", "Scelta Utente", "a", vec![edge("A-0", "A", "nowhere")], 1)];
    assert_eq!(try_compact(&mut tree, &mut Vec::new()), Err(CompactFault::NoTarget));
}

#[test]
fn empty_tree_is_out_of_range() {
    let mut tree: Vec<Node> = Vec::new();
    assert_eq!(try_compact(&mut tree, &mut Vec::new()), Err(CompactFault::OutOfRange));
}

#[test]
fn self_loop_at_start_is_out_of_range() {
    let mut tree = vec![
        node("A", "Scelta Utente", "a", vec![edge("A-0", "A", "A")], 1),
        node("Z", "Stella", "z", vec![], 1),
    ];
    assert_eq!(try_compact(&mut tree, &mut Vec::new()), Err(CompactFault::OutOfRange));
    let mut single = vec![node("A", "Scelta Utente", "a", vec![edge("A-0", "A", "A")], 1)];
    assert_eq!(try_compact(&mut single, &mut Vec::new()), Err(CompactFault::OutOfRange));
}

#[test]
fn merge_with_earlier_node_steps_back() {
    let mut tree = vec![
        node("B", "Scelta Utente", "b", vec![], 1),
        node("A", "Scelta Utente", "a", vec![edge("A-0", "A", "B")], 1),
    ];
    tree[0].fan_out = 0;
    assert_eq!(try_compact(&mut tree, &mut Vec::new()), Ok(1));
    assert_eq!(tree.len(), 1);
    assert_eq!(tree[0].id, "A");
    assert_eq!(tree[0].tooltip, "ab");
    assert_eq!(tree[0].fan_out, 0);
}

#[test]
fn compact_command_keeps_info() {
    let mut tree = chain();
    let mut info = CommonInfo {
        root: String::from("\\"),
        current_root: String::from("X"),
        verbosity: LogLevel::DEBUG,
    };
    compact("", &mut tree, &mut info);
    assert_eq!(tree.len(), 2);
    assert_eq!(info.current_root, "X");
    assert_eq!(info.verbosity, LogLevel::DEBUG);
}

#[test]
fn linked_nodes_of_any_same_type_merge() {
    let mut tree = vec![
        node("J1", "Jump", "j1", vec![edge("J1-0", "J1", "J2")], 1),
        node("J2", "Jump", "j2", vec![], 1),
    ];
    assert_eq!(try_compact(&mut tree, &mut Vec::new()), Ok(1));
    assert_eq!(tree.len(), 1);
    assert_eq!(tree[0].id, "J1");
    assert_eq!(tree[0].label, "Jump");
    assert_eq!(tree[0].tooltip, "j1j2");
    assert_eq!(tree[0].fan_out, 0);
}

#[test]
fn linked_nodes_of_different_types_stay() {
    let mut tree = vec![
        node("J1", "Jump", "j1", vec![edge("J1-0", "J1", "S1")], 1),
        node("S1", "Stella", "s1", vec![], 1),
    ];
    assert_eq!(try_compact(&mut tree, &mut Vec::new()), Ok(0));
    assert_eq!(tree.len(), 2);
}

#[test]
fn single_link_to_a_missing_node_is_a_fault_for_any_type() {
    let mut tree = vec![node("A", "Choice", "a", vec![edge("A-0", "A", "nowhere")], 1)];
    assert_eq!(try_compact(&mut tree, &mut Vec::new()), Err(CompactFault::NoTarget));
}

#[test]
fn scan_reports_its_steps() {
    let mut tree = chain();
    let mut trace: Vec<String> = Vec::new();
    assert_eq!(try_compact(&mut tree, &mut trace), Ok(1));
    assert_eq!(
        trace,
        vec![
            "### Get current node at position: 0 => X",
            "### Current Node Id: X",
            "### Current Node Type: Scelta Utente",
            "### Current Node FanOut: 1",
            "### Current Node: edge list length 1",
            "### Current Node: Got adjacent node: Y",
            "### Current Node: Merge two node current X and nextY and push to tree_stack back",
            "Inserting X at position 1",
            "### Get current node at position: 0 => Z",
            "### Get current node at position: 1 => X",
            "### Current Node Id: X",
            "### Current Node Type: Scelta Utente",
            "### Current Node FanOut: 1",
            "### Current Node: edge list length 1",
            "### Current Node: Got adjacent node: Z",
        ]
    );
}

#[test]
fn scan_reports_a_missing_target() {
    let mut tree = vec![node("A", "Choice", "a", vec![edge("A-0", "A", "nowhere")], 1)];
    let mut trace: Vec<String> = Vec::new();
    assert_eq!(try_compact(&mut tree, &mut trace), Err(CompactFault::NoTarget));
    assert_eq!(trace.last().map(String::as_str), Some("### Current Node: No adjacent node found!"));
    assert_eq!(trace.len(), 6);
}

fn ids(tree: &[Node]) -> Vec<String> {
    tree.iter().map(|n| n.id.clone()).collect()
}

#[test]
fn compacting_again_changes_nothing() {
    let mut tree = vec![
        node("A", "Jump", "a", vec![edge("A-0", "A", "B")], 1),
        node("B", "Jump", "b", vec![edge("B-0", "B", "C")], 1),
        node("C", "Stella", "c", vec![edge("C-0", "C", "D"), edge("C-1", "C", "E")], 1),
        node("D", "Choice", "d", vec![edge("D-0", "D", "E")], 1),
        node("E", "Choice", "e", vec![], 2),
    ];
    assert_eq!(try_compact(&mut tree, &mut Vec::new()), Ok(1));
    let before = ids(&tree);
    let tips: Vec<String> = tree.iter().map(|n| n.tooltip.clone()).collect();
    assert_eq!(try_compact(&mut tree, &mut Vec::new()), Ok(0));
    assert_eq!(ids(&tree), before);
    assert_eq!(tree.iter().map(|n| n.tooltip.clone()).collect::<Vec<_>>(), tips);
}

#[test]
fn two_single_links_into_one_way_in_break_idempotence() {
    // A node with one way in that two single links reach: the merge takes
    // it away from under the other link.
    let mut tree = vec![
        node("X", "Choice", "x", vec![edge("X-0", "X", "N")], 1),
        node("D", "Jump", "d", vec![edge("D-0", "D", "N")], 1),
        node("N", "Jump", "n", vec![], 1),
    ];
    assert_eq!(try_compact(&mut tree, &mut Vec::new()), Ok(1));
    assert_eq!(try_compact(&mut tree, &mut Vec::new()), Err(CompactFault::NoTarget));
}
