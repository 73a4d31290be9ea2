use rust_graph::graph::retrieve_roots_from_table;
use rust_graph::table::HtmlTable;

const HTML: &str = "<html><body><p>intro</p><table>\
<tr><th>Id</th><th>Item</th><th>Azione</th><th>Next</th></tr>\
<tr><td>A</td><td>Choice</td><td> first </td><td>go&nbsp;<a href=\"#B\">B</a></td></tr>\
<tr><td>B</td><td>Stella</td><td>end</td><td></td></tr>\
<tr><td>C</td><td>Jump</td></tr>\
</table><table><tr><th>Id</th></tr><tr><td>other</td></tr></table></body></html>";

#[test]
fn first_table_rows() {
    let t = HtmlTable::find_first(HTML).unwrap();
    assert_eq!(t.rows.len(), 3);
    assert_eq!(t.rows[0].id.as_deref(), Some("A"));
    assert_eq!(t.rows[0].item.as_deref(), Some("Choice"));
    assert_eq!(t.rows[0].action.as_deref(), Some("first"));
    assert_eq!(t.rows[0].next.as_deref(), Some("go&nbsp;<a href=\"#B\">B</a>"));
    assert_eq!(t.rows[1].next.as_deref(), Some(""));
    assert_eq!(t.rows[2].id.as_deref(), Some("C"));
    assert_eq!(t.rows[2].action, None);
    assert_eq!(t.rows[2].next, None);
}

#[test]
fn no_table_no_result() {
    assert!(HtmlTable::find_first("<p>no table here</p>").is_none());
}

#[test]
fn roots_of_a_read_table() {
    let t = HtmlTable::find_first(HTML).unwrap();
    assert_eq!(retrieve_roots_from_table(&t), vec![String::from("A"), String::from("C")]);
}
