use memodocs::DocumentDB;

fn text(s: &str) -> String {
    s.to_string()
}

fn sorted(mut all: Vec<(String, String)>) -> Vec<(String, String)> {
    all.sort();
    all
}

#[test]
fn new_store_is_empty_and_keeps_its_path() {
    let db = DocumentDB::new("data/store.db");
    assert_eq!(db.file_path(), "data/store.db");
    assert!(db.get_all().is_empty());
    assert_eq!(db.get("anything"), None);
}

#[test]
fn insert_then_get_returns_the_payload() {
    let mut db = DocumentDB::new("store.db");
    db.insert(text("doc1"), text("{'name': 'Alice', 'age': 30}"));
    assert_eq!(db.get("doc1"), Some(text("{'name': 'Alice', 'age': 30}")));
}

#[test]
fn get_of_unknown_identifier_is_none() {
    let mut db = DocumentDB::new("store.db");
    db.insert(text("doc1"), text("one"));
    assert_eq!(db.get("doc2"), None);
    assert_eq!(db.get("doc"), None);
    assert_eq!(db.get("doc11"), None);
    assert_eq!(db.get(""), None);
}

#[test]
fn second_insert_overwrites_and_keeps_one_entry() {
    let mut db = DocumentDB::new("store.db");
    db.insert(text("id"), text("A"));
    db.insert(text("id"), text("B"));
    assert_eq!(db.get("id"), Some(text("B")));
    assert_eq!(db.get_all(), vec![(text("id"), text("B"))]);
}

#[test]
fn overwriting_keeps_the_place_of_the_identifier() {
    let mut db = DocumentDB::new("store.db");
    db.insert(text("a"), text("1"));
    db.insert(text("b"), text("2"));
    db.insert(text("c"), text("3"));
    db.insert(text("b"), text("two"));
    assert_eq!(
        db.get_all(),
        vec![(text("a"), text("1")), (text("b"), text("two")), (text("c"), text("3"))]
    );
}

#[test]
fn update_overwrites_an_identifier_that_is_there() {
    let mut db = DocumentDB::new("store.db");
    db.insert(text("doc1"), text("old"));
    db.insert(text("doc2"), text("other"));
    db.update(text("doc1"), text("new"));
    assert_eq!(db.get("doc1"), Some(text("new")));
    assert_eq!(db.get("doc2"), Some(text("other")));
    assert_eq!(db.get_all().len(), 2);
}

#[test]
fn update_of_absent_identifier_does_not_insert() {
    let mut db = DocumentDB::new("store.db");
    db.insert(text("doc1"), text("one"));
    db.update(text("doc2"), text("two"));
    assert_eq!(db.get("doc2"), None);
    assert_eq!(db.get_all(), vec![(text("doc1"), text("one"))]);
}

#[test]
fn update_on_empty_store_leaves_it_empty() {
    let mut db = DocumentDB::new("store.db");
    db.update(text("doc"), text("payload"));
    assert!(db.get_all().is_empty());
}

#[test]
fn delete_removes_the_document() {
    let mut db = DocumentDB::new("store.db");
    db.insert(text("a"), text("1"));
    db.insert(text("b"), text("2"));
    db.insert(text("c"), text("3"));
    db.delete("b");
    assert_eq!(db.get("b"), None);
    assert_eq!(db.get_all(), vec![(text("a"), text("1")), (text("c"), text("3"))]);
}

#[test]
fn delete_of_absent_identifier_changes_nothing() {
    let mut db = DocumentDB::new("store.db");
    db.insert(text("a"), text("1"));
    db.insert(text("b"), text("2"));
    let before = db.get_all();
    db.delete("zzz");
    assert_eq!(db.get_all(), before);
    db.delete("zzz");
    assert_eq!(db.get_all(), before);
}

#[test]
fn delete_on_empty_store_is_no_error() {
    let mut db = DocumentDB::new("store.db");
    db.delete("a");
    assert!(db.get_all().is_empty());
}

#[test]
fn deleted_identifier_can_be_inserted_again() {
    let mut db = DocumentDB::new("store.db");
    db.insert(text("a"), text("1"));
    db.insert(text("b"), text("2"));
    db.delete("a");
    db.insert(text("a"), text("again"));
    assert_eq!(db.get_all(), vec![(text("b"), text("2")), (text("a"), text("again"))]);
}

#[test]
fn get_all_is_a_copy_that_later_changes_do_not_reach() {
    let mut db = DocumentDB::new("store.db");
    db.insert(text("a"), text("1"));
    db.insert(text("b"), text("2"));
    let copy = db.get_all();
    db.insert(text("c"), text("3"));
    db.update(text("a"), text("changed"));
    db.delete("b");
    assert_eq!(copy, vec![(text("a"), text("1")), (text("b"), text("2"))]);
    assert_eq!(
        sorted(db.get_all()),
        vec![(text("a"), text("changed")), (text("c"), text("3"))]
    );
}

#[test]
fn payload_is_kept_as_given() {
    let mut db = DocumentDB::new("store.db");
    let payload = " {\"k\":\t[1, 2]}\n\u{e9}\u{4e16}\u{1f600} ";
    db.insert(text("doc"), text(payload));
    assert_eq!(db.get("doc"), Some(text(payload)));
    db.insert(text("empty"), text(""));
    assert_eq!(db.get("empty"), Some(text("")));
}

#[test]
fn identifiers_are_compared_by_their_whole_text() {
    let mut db = DocumentDB::new("store.db");
    db.insert(text("\u{e9}"), text("accent"));
    db.insert(text("e"), text("plain"));
    db.insert(text(""), text("nameless"));
    db.insert(text("E"), text("capital"));
    assert_eq!(db.get("\u{e9}"), Some(text("accent")));
    assert_eq!(db.get("e"), Some(text("plain")));
    assert_eq!(db.get(""), Some(text("nameless")));
    assert_eq!(db.get("E"), Some(text("capital")));
    assert_eq!(db.get_all().len(), 4);
}

#[test]
fn no_identifier_is_held_twice() {
    let mut db = DocumentDB::new("store.db");
    for round in 0..3 {
        for id in ["a", "b", "c", "a", "b"] {
            db.insert(text(id), format!("{}{}", id, round));
            db.update(text(id), format!("{}{}!", id, round));
        }
    }
    let all = sorted(db.get_all());
    assert_eq!(
        all,
        vec![(text("a"), text("a2!")), (text("b"), text("b2!")), (text("c"), text("c2!"))]
    );
}

#[test]
fn changes_leave_the_path_as_it_was() {
    let mut db = DocumentDB::new("some/where.db");
    db.insert(text("a"), text("1"));
    db.update(text("a"), text("2"));
    db.delete("a");
    assert_eq!(db.file_path(), "some/where.db");
}
