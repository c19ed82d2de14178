use renhancd::database::Database;
use renhancd::digits::parse_weight;
use renhancd::errors::RenhancdError;

#[test]
fn empty_store_renders_bare_header() {
    let db = Database::new("test/empty.db", None).unwrap();
    assert_eq!(db.to_document(), "---");
}

#[test]
fn round_trip_preserves_the_mapping() {
    let mut db = Database::new("test/round.db", None).unwrap();
    assert!(db.insert("plain/path".to_string(), 12));
    assert!(db.insert("with: colon".to_string(), 3));
    assert!(db.insert("ends: 7".to_string(), 0));
    assert!(db.insert("spaced path".to_string(), 4294967295));

    let document = db.to_document();
    let reloaded = Database::new("test/round.db", Some(&document)).unwrap();
    assert_eq!(reloaded.get("plain/path"), Some(12));
    assert_eq!(reloaded.get("with: colon"), Some(3));
    assert_eq!(reloaded.get("ends: 7"), Some(0));
    assert_eq!(reloaded.get("spaced path"), Some(4294967295));
    assert_eq!(reloaded.ordered_keys().len(), 4);
}

#[test]
fn bare_header_loads_an_empty_store() {
    let db = Database::new("test/empty.db", Some("---")).unwrap();
    assert_eq!(db.ordered_keys().len(), 0);
}

#[test]
fn single_entry_document_loads() {
    let db = Database::new("test/one.db", Some("---\nCode/rust: 5")).unwrap();
    assert_eq!(db.get("Code/rust"), Some(5));
    assert_eq!(db.ordered_keys().len(), 1);
}

#[test]
fn malformed_documents_are_load_errors() {
    for text in [
        "",
        "--",
        "----",
        "garbage",
        "---\n",
        "---\nno separator",
        "---\nkey: ",
        "---\nkey: 12x",
        "---\nkey: 01",
        "---\nkey: 4294967296",
        "---\na: 1\n",
        "--- \na: 1",
    ] {
        let loaded = Database::new("test/bad.db", Some(text));
        assert!(loaded.is_err(), "expected a load failure for {:?}", text);
    }
}

#[test]
fn duplicate_paths_are_load_errors() {
    let loaded = Database::new("test/dup.db", Some("---\na: 1\na: 2"));
    assert!(loaded.is_err());
}

#[test]
fn weights_parse_as_plain_decimals() {
    assert_eq!(parse_weight("0"), Ok(0));
    assert_eq!(parse_weight("42"), Ok(42));
    assert_eq!(parse_weight("007"), Ok(7));
    assert_eq!(parse_weight("4294967295"), Ok(4294967295));
}

#[test]
fn bad_weights_are_parse_errors() {
    for text in ["", "-1", "+3", "abc", "4294967296", "4 2", " 7"] {
        assert_eq!(parse_weight(text), Err(RenhancdError::WeightParseError));
    }
}

#[test]
fn every_error_kind_has_a_diagnostic() {
    assert_eq!(
        RenhancdError::LoadError.message(),
        "There was an error loading the database!"
    );
    assert_eq!(
        RenhancdError::SaveError.message(),
        "Unable to save the database!"
    );
    assert_eq!(
        RenhancdError::PathNotFound.message(),
        "The path cannot be found!"
    );
    assert_eq!(
        RenhancdError::DuplicateInsert.message(),
        "The path was not inserted successfully!"
    );
    assert_eq!(
        RenhancdError::WeightParseError.message(),
        "The weight should be an integer!"
    );
    assert_eq!(
        RenhancdError::ConfigResolutionError.message(),
        "Cannot retrieve the config directory!"
    );
    assert_eq!(
        RenhancdError::ReconciliationInconsistency.message(),
        "Unable to update the database successfully!"
    );
}
