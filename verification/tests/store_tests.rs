use renhancd::database::Database;
use renhancd::reconciler::update_database;

fn db_with(entries: &[(&str, u32)]) -> Database {
    let mut db = Database::new("test/test.db", None).unwrap();
    for (path, weight) in entries {
        assert!(db.insert(path.to_string(), *weight));
    }
    db
}

fn ten_entries() -> Database {
    db_with(&[
        ("Code/.hi", 12),
        ("Code/he.lo", 11),
        ("Code/helo", 10),
        ("Code/death", 9),
        ("Code/h.ello", 8),
        ("Code/hi/die/die/die/s", 7),
        ("Code/rust", 3),
        ("Code/.death", 2),
        ("Code/.hello", 1),
        ("Code/hi/sie/die/as/.asdf/3232/3", 0),
    ])
}

#[test]
fn nonexistent_database_test() {
    let db = Database::new("test/nonexistent.db", None).unwrap();
    let ordered_keys = db.ordered_keys();
    assert_eq!(ordered_keys.len(), 0, "Expected the database to be empty!");
}

#[test]
fn existent_database_test() {
    let document = ten_entries().to_document();
    let db = Database::new("test/existent_test.db", Some(&document)).unwrap();
    let ordered_keys = db.ordered_keys();
    assert_eq!(
        ordered_keys.len(),
        10,
        "Expected the database to contain ten entries!"
    );
}

#[test]
fn get_from_database_test() {
    let db = ten_entries();
    assert_eq!(db.get("Code/rust"), Some(3), "Expected the weight to be 3!");
    assert_eq!(
        db.get("Code/go"),
        None,
        "Expected None as the key does not exist!"
    );
}

#[test]
fn insert_into_database_test() {
    let mut db = ten_entries();
    assert!(db.insert(String::from("code/rust"), 3));
    assert!(!db.insert(String::from("Code/rust"), 3));
}

#[test]
fn update_database_test() {
    let mut db = ten_entries();
    assert!(db.update(String::from("Code/.hello"), 4));
    assert!(!db.update(String::from("Code/go"), 4));
}

#[test]
fn delete_from_database_test() {
    let mut db = ten_entries();
    assert!(db.delete("Code/.hello"));
    assert!(!db.delete("Code/go"));

    let ordered_keys = db.ordered_keys();
    assert_eq!(
        ordered_keys.len(),
        9,
        "Expected database to only contain 9 entries now!"
    );
    assert_eq!(
        db.get("Code/.hello"),
        None,
        "Expected the entry to be deleted!"
    );
}

#[test]
fn ordered_keys_test() {
    let expected_ordered_keys = [
        "Code/.hi",
        "Code/he.lo",
        "Code/helo",
        "Code/death",
        "Code/h.ello",
        "Code/hi/die/die/die/s",
        "Code/rust",
        "Code/.death",
        "Code/.hello",
        "Code/hi/sie/die/as/.asdf/3232/3",
    ];

    let db = ten_entries();
    let ordered_keys = db.ordered_keys();
    assert_eq!(ordered_keys.len(), 10, "Expected there to be 10 entries!");
    assert_eq!(
        ordered_keys, expected_ordered_keys,
        "Expect the two set of ordered keys to be equal!"
    );
}

#[test]
fn weight_ties_rank_non_hidden_first_then_lexicographic() {
    let db = db_with(&[
        ("Code/.hi", 1),
        ("Code/he.lo", 1),
        ("Code/helo", 1),
        ("Code/death", 1),
        ("Code/h.ello", 1),
        ("Code/hi/die/die/die/s", 1),
        ("Code/rust", 1),
        ("Code/.death", 1),
        ("Code/.hello", 1),
        ("Code/hi/sie/die/as/.asdf/3232/3", 1),
    ]);
    let expected = [
        "Code/death",
        "Code/h.ello",
        "Code/he.lo",
        "Code/helo",
        "Code/hi/die/die/die/s",
        "Code/rust",
        "Code/.death",
        "Code/.hello",
        "Code/.hi",
        "Code/hi/sie/die/as/.asdf/3232/3",
    ];
    assert_eq!(db.ordered_keys(), expected);
}

#[test]
fn save_database_test() {
    let mut db = Database::new("test/save_test.db", None).unwrap();
    assert!(db.insert(String::from("Hello"), 3));
    assert!(db.insert(String::from("Hello1"), 4));

    let expected_content = "---\nHello: 3\nHello1: 4";
    assert_eq!(
        db.to_document(),
        expected_content,
        "Expected the database to be saved correctly!"
    );
}

#[test]
fn insert_twice_keeps_first_weight() {
    let mut db = Database::new("test/test.db", None).unwrap();
    assert!(db.insert("a/b".to_string(), 7));
    assert_eq!(db.get("a/b"), Some(7));
    assert!(!db.insert("a/b".to_string(), 9));
    assert_eq!(db.get("a/b"), Some(7));
}

#[test]
fn update_absent_leaves_store_unchanged() {
    let mut db = db_with(&[("a", 1), ("b", 2)]);
    assert!(!db.update("c".to_string(), 5));
    assert_eq!(db.get("a"), Some(1));
    assert_eq!(db.get("b"), Some(2));
    assert_eq!(db.get("c"), None);
    assert_eq!(db.ordered_keys().len(), 2);
}

#[test]
fn delete_absent_leaves_store_unchanged() {
    let mut db = db_with(&[("a", 1)]);
    assert!(!db.delete("z"));
    assert_eq!(db.get("a"), Some(1));
    assert_eq!(db.ordered_keys().len(), 1);
}

#[test]
fn increment_raises_weight_by_one() {
    let mut db = db_with(&[("a", 41)]);
    assert_eq!(db.increment("a"), Ok(42));
    assert_eq!(db.get("a"), Some(42));
    assert_eq!(
        db.increment("missing"),
        Err(renhancd::errors::RenhancdError::PathNotFound)
    );
}

#[test]
fn ordering_prefers_weight_over_name() {
    let db = db_with(&[("zz", 9), ("aa", 1), ("mm", 5)]);
    assert_eq!(db.ordered_keys(), vec!["zz", "mm", "aa"]);
}

#[test]
fn hidden_marker_is_a_substring_rule() {
    // "a/.b" holds a slash-dot and ranks after plain paths of equal weight;
    // a dot without a slash right before it is not hidden.
    let db = db_with(&[("a/.b", 1), ("a/b", 1), ("a/h.ello", 1)]);
    assert_eq!(db.ordered_keys(), vec!["a/b", "a/h.ello", "a/.b"]);
}

#[test]
fn reconciliation_prunes_and_seeds() {
    let mut db = db_with(&[("A", 5), ("B", 0)]);
    let live = vec!["B".to_string(), "C".to_string()];
    update_database(&mut db, &live);
    assert_eq!(db.get("A"), None);
    assert_eq!(db.get("B"), Some(0));
    assert_eq!(db.get("C"), Some(0));
    assert_eq!(db.ordered_keys().len(), 2);
}

#[test]
fn reconciliation_keeps_live_weights() {
    let mut db = db_with(&[("keep", 9), ("drop", 4)]);
    let live = vec!["keep".to_string(), "fresh".to_string()];
    update_database(&mut db, &live);
    assert_eq!(db.get("keep"), Some(9));
    assert_eq!(db.get("drop"), None);
    assert_eq!(db.get("fresh"), Some(0));
}
