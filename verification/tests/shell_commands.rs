use rust_graph::graph::{Edge, Node};
use rust_graph::shell::{
    count_line_exec, filter_count_lines, help, info, labelled_node_ids, list, nodes_with_id,
    InfoReport, ShellCommand,
};

fn node(id: &str, label: &str, tooltip: &str) -> Node {
    Node {
        id: String::from(id),
        label: String::from(label),
        tooltip: String::from(tooltip),
        outgoing_edge_list: Vec::<Edge>::new(),
        fan_in: 0,
        fan_out: 0,
        is_visited: false,
        is_merged: false,
    }
}

fn tree() -> Vec<Node> {
    vec![
        node("Q1", "Scelta", "q"),
        node("J1", "Jump", "to b"),
        node("J2", "jump", "to a"),
        node("J3", "Jump", "to b"),
        node("D1", "Imposta Meta Diagnosi", "d1;"),
        node("D2", "IMPOSTA META DIAGNOSI", "d2;"),
        node("U1", "Scelta Utente", "u"),
        node("Q2", "Scelta", "q2"),
    ]
}

fn strings(v: &[&str]) -> Vec<String> {
    v.iter().map(|s| String::from(*s)).collect()
}

#[test]
fn parse_commands() {
    assert!(matches!(ShellCommand::parse("  cd   A1 "), ShellCommand::Cd(a) if a == "A1"));
    assert!(matches!(ShellCommand::parse("cd"), ShellCommand::Cd(a) if a.is_empty()));
    assert!(matches!(ShellCommand::parse("list domande\n"), ShellCommand::List(a) if a == "domande"));
    assert!(matches!(ShellCommand::parse("help info"), ShellCommand::Help(a) if a == "info"));
    assert!(matches!(ShellCommand::parse("export"), ShellCommand::Export(a) if a.is_empty()));
    assert!(matches!(ShellCommand::parse("compact now"), ShellCommand::Compact(a) if a == "now"));
    assert!(matches!(ShellCommand::parse("info diagnosi"), ShellCommand::Info(a) if a == "diagnosi"));
    assert!(matches!(ShellCommand::parse("debug on"), ShellCommand::Debug(a) if a == "on"));
    assert!(matches!(ShellCommand::parse("test"), ShellCommand::Test(_)));
    assert!(matches!(ShellCommand::parse("quit"), ShellCommand::Quit));
    assert!(matches!(ShellCommand::parse("exit"), ShellCommand::Quit));
    assert!(matches!(ShellCommand::parse("   "), ShellCommand::Nothing));
    assert!(matches!(ShellCommand::parse("frobnicate x y"), ShellCommand::Invalid(w) if w == "frobnicate"));
    assert!(matches!(ShellCommand::parse("CD x"), ShellCommand::Invalid(w) if w == "CD"));
}

#[test]
fn help_for_a_command() {
    assert_eq!(help("cd"), vec!["Usage: cd parent", "", "Change the parent of the tree and build it"]);
    assert_eq!(help("debug"), vec!["Usage: debug on | off", "", "On/Off the debug logging"]);
}

#[test]
fn help_overview() {
    let lines = help("");
    assert_eq!(lines.len(), 12);
    assert_eq!(lines[0], "Available Commands:");
    assert_eq!(lines[9], "  quit        - Quit gen-tree");
    assert_eq!(help("unknown"), lines);
}

#[test]
fn padded_count_line() {
    assert_eq!(count_line_exec("N.ro Jump", 3), format!("{:34}{}", "N.ro Jump", 3));
    let long = "x".repeat(40);
    assert_eq!(count_line_exec(&long, 12), format!("{}12", long));
}

#[test]
fn ids_by_label() {
    assert_eq!(labelled_node_ids(&tree(), "Scelta"), strings(&["Q1", "Q2"]));
    assert!(labelled_node_ids(&tree(), "Stella").is_empty());
}

#[test]
fn filter_count_sorts_and_dedups() {
    let lines = filter_count_lines(&tree(), "Jump");
    assert_eq!(lines, vec![String::from("to a"), String::from("to b"), format!("{:34}{}", "N.ro Jump", 2)]);
}

#[test]
fn list_variants() {
    let roots = strings(&["R1", "R2"]);
    assert_eq!(list("domande", &tree(), &roots), strings(&["Q1", "Q2"]));
    assert_eq!(list("impostazioni", &tree(), &roots), strings(&["U1"]));
    assert_eq!(list("radici", &tree(), &roots), roots);
    assert_eq!(list("", &tree(), &roots), strings(&["Q1", "J1", "J2", "J3", "D1", "D2", "U1", "Q2"]));
    let diag = list("diagnosi", &tree(), &roots);
    assert_eq!(diag, vec![String::from("d1;"), String::from("d2;"), format!("{:34}{}", "N.ro Imposta Meta Diagnosi", 2)]);
}

#[test]
fn info_summary_counts() {
    match info("", &tree()) {
        InfoReport::Summary(lines) => {
            assert_eq!(lines.len(), 9);
            assert_eq!(lines[0], format!("{:34}{}", "N.ro Impostazioni", 1));
            assert_eq!(lines[1], format!("{:34}{}", "N.ro Domande", 2));
            assert_eq!(lines[3], format!("{:34}{}", "N.ro Jump", 2));
            assert_eq!(lines[5], format!("{:34}{}", "N.ro Diagnosi", 1));
            assert_eq!(lines[8], format!("{:34}{}", "N.ro Cic", 0));
        },
        other => panic!("unexpected {:?}", other),
    }
}

#[test]
fn info_diagnosis_and_nodes() {
    match info("diagnosi", &tree()) {
        InfoReport::Tooltips(t) => assert_eq!(t, strings(&["d1;"])),
        other => panic!("unexpected {:?}", other),
    }
    match info("J2", &tree()) {
        InfoReport::Nodes(p) => assert_eq!(p, vec![2]),
        other => panic!("unexpected {:?}", other),
    }
    assert_eq!(nodes_with_id(&tree(), "zzz"), Vec::<usize>::new());
}

#[test]
fn test_command_summarises_diagnoses() {
    assert_eq!(rust_graph::shell::test("", &tree()), "Diagnosi:d1;d2;");
    let many: Vec<Node> = (0..7).map(|i| node(&format!("D{}", i), "Imposta Meta Diagnosi", &format!("{};", i))).collect();
    assert_eq!(rust_graph::shell::test("", &many), "Diagnosi:0;1;2;3;4;");
    assert_eq!(rust_graph::shell::test("", &Vec::new()), "Diagnosi:");
}
