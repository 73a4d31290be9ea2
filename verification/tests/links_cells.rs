use rust_graph::links::{get_link, get_next_item, split_td, string_clean, string_clean_br};

#[test]
fn clean_turns_br_into_space_and_trims() {
    assert_eq!(string_clean(String::from("  a<br>b  ")), "a b");
    assert_eq!(string_clean(String::from("<br>x<br>")), "x");
    assert_eq!(string_clean(String::from("line\n\tkept")), "line\n\tkept");
}

#[test]
fn clean_br_equals_clean() {
    for s in ["<b<br>r>", "a<br><br>b", " <br> ", "plain", "<br<br>>"] {
        assert_eq!(string_clean_br(String::from(s)), string_clean(String::from(s)));
    }
    assert_eq!(string_clean(String::from("<b<br>r>")), "<b r>");
}

#[test]
fn link_text_after_quote_gt() {
    let l = String::from(" href=\"#id1\">id1");
    assert_eq!(get_link(&l), Some(String::from("id1")));
}

#[test]
fn back_link_takes_the_anchor_id() {
    let l = String::from(" href=\"#back1\">Al ritorno");
    assert_eq!(get_link(&l), Some(String::from("back1")));
}

#[test]
fn no_href_no_link() {
    assert_eq!(get_link(&String::from("")), None);
    assert_eq!(get_link(&String::from("just text")), None);
}

#[test]
fn link_without_quote_gt_keeps_everything() {
    assert_eq!(get_link(&String::from("href=x")), Some(String::from("href=x")));
}

#[test]
fn next_items_of_a_cell() {
    let td = "txt1&nbsp;<a href=\"#id1\">id1</a><br>txt2&nbsp;<a href=\"#id2\">id2</a>";
    let items = get_next_item(td);
    assert_eq!(items.len(), 2);
    assert_eq!(items[0].action, "txt1&nbsp;");
    assert_eq!(items[0].link, "id1");
    assert_eq!(items[1].action, "txt2&nbsp;");
    assert_eq!(items[1].link, "id2");
}

#[test]
fn next_item_without_closing_anchor() {
    let items = get_next_item("<a href=\"#z\">zz");
    assert_eq!(items.len(), 1);
    assert_eq!(items[0].action, "");
    assert_eq!(items[0].link, "zz");
    assert!(get_next_item("nothing here").is_empty());
    assert!(get_next_item("<next missing>").is_empty());
}

#[test]
fn pieces_without_href_are_skipped() {
    let td = "a&nbsp;<a name=\"x\">x</a>b&nbsp;<a href=\"#y\">y</a>";
    let items = get_next_item(td);
    assert_eq!(items.len(), 1);
    assert_eq!(items[0].action, "b&nbsp;");
    assert_eq!(items[0].link, "y");
}

#[test]
fn split_td_at_br() {
    assert_eq!(split_td("a<br>b<br>"), vec!["a", "b", ""]);
    assert_eq!(split_td("solo"), vec!["solo"]);
}

#[test]
fn cleaning_twice_is_cleaning_once() {
    for s in ["  a<br>b  ", "<br> x <br>", "\t<b<br>r>\n", "", "plain"] {
        let once = string_clean(String::from(s));
        assert_eq!(string_clean(once.clone()), once);
        assert_eq!(once.trim(), once);
        assert!(!once.contains("<br>"));
    }
}

#[test]
fn pieces_join_back_into_the_cell() {
    for td in ["a<br>b<br>", "solo", "<br><br>", "x<br<br>>y"] {
        let pieces = split_td(td);
        assert_eq!(pieces.join("<br>"), td);
        assert_eq!(pieces.len(), td.matches("<br>").count() + 1);
        assert!(pieces.iter().all(|p| !p.contains("<br>")));
    }
}
