use rust_graph::sheet::{edge_sheet, get_link, get_next, node_sheet, string_clean};
use rust_graph::table::{HtmlTable, TableRow};

#[test]
fn sheet_clean_drops_blanks() {
    assert_eq!(string_clean(String::from(" a b\tc\nd ")), "abcd");
}

#[test]
fn sheet_link_text() {
    assert_eq!(get_link(&String::from("<a href=\"#x\">X1</a>")), "X1");
    assert_eq!(get_link(&String::from("abc")), "bc");
}

#[test]
fn sheet_next_items() {
    let td = "t 1&nbsp;<a href=\"#x\">X1</a><br>t2&nbsp;<a href=\"#y\">Y2</a>";
    let items = get_next(td);
    assert_eq!(items.len(), 2);
    assert_eq!(items[0].action, "t1");
    assert_eq!(items[0].link, "X1");
    assert_eq!(items[1].action, "t2");
    assert_eq!(items[1].link, "Y2");
}

#[test]
fn sheet_single_link() {
    let items = get_next("<a href=\"#x\">X1</a>");
    assert_eq!(items.len(), 1);
    assert_eq!(items[0].action, "");
    assert_eq!(items[0].link, "X1");
}

#[test]
fn sheet_rows_of_table() {
    let table = HtmlTable {
        rows: vec![
            TableRow {
                id: Some(String::from("A")),
                item: Some(String::from("Choice")),
                action: Some(String::from("act")),
                next: Some(String::from("go&nbsp;<a href=\"#B\">B</a><br>")),
            },
            TableRow { id: None, item: None, action: None, next: None },
        ],
    };
    let nodes = node_sheet(&table);
    assert_eq!(
        nodes,
        vec![
            (String::from("A"), String::from("act"), String::from("Choice")),
            (String::from("<id missing>"), String::from("<azione missing>"), String::from("<item missing>")),
        ]
    );
    let edges = edge_sheet(&table);
    assert_eq!(edges.len(), 2);
    assert_eq!(edges[0], (String::from("B"), String::from("A"), String::from("D"), String::from("go")));
    assert_eq!(edges[1].1, "<id missing>");
}

#[test]
fn piece_without_action_takes_its_own_link() {
    let items = get_next("a&nbsp;<a href=\"#X\">X</a><br><a href=\"#Y\">Y</a>");
    assert_eq!(items.len(), 2);
    assert_eq!(items[0].action, "a");
    assert_eq!(items[0].link, "X");
    assert_eq!(items[1].action, "");
    assert_eq!(items[1].link, "Y");
}
