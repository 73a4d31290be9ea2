use rust_graph::ownership::{gives_ownership, slash_joined, takes_and_gives_back, trimmed};
use rust_graph::recovery::numbered_points;

#[test]
fn ownership_moves() {
    assert_eq!(gives_ownership(), "yours");
    assert_eq!(takes_and_gives_back(String::from("hello")), "hello");
}

#[test]
fn trimming_and_joining() {
    let s = " The dog is the best friend of human being ";
    assert_eq!(trimmed(s), "The dog is the best friend of human being");
    assert_ne!(trimmed(s), s);
    let t = "The dog runs faster a cat";
    assert_eq!(slash_joined(t, t), format!("{}/{}", t, t));
    assert_eq!(slash_joined("", ""), "/");
}

#[test]
fn numbered_recovery_points() {
    let points = numbered_points(12);
    assert_eq!(points.len(), 13);
    assert_eq!(points[0].id, "abc-1230");
    assert_eq!(points[0].file_name, "picture.png0");
    assert_eq!(points[12].id, "abc-12312");
    assert_eq!(points[12].file_name, "picture.png12");
    assert!(points.iter().all(|p| p.valid));
    assert_eq!(numbered_points(0).len(), 1);
}
