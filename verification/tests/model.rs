use residuality::model::{affects_from_cell, affects_to_cell, same_component, Component, IdSet};

fn ids(set: &IdSet) -> Vec<String> {
    (0..set.len()).map(|i| set.get(i).clone()).collect()
}

fn set_of(items: &[&str]) -> IdSet {
    IdSet::from_vec(items.iter().map(|s| s.to_string()).collect())
}

#[test]
fn basic_affects_are_deserialized() {
    let set = affects_from_cell("test_comp1;test_comp2;test_comp3");
    assert_eq!(ids(&set), ["test_comp1", "test_comp2", "test_comp3"]);
}

#[test]
fn white_space_is_trimmed_in_affects() {
    let set = affects_from_cell(" test_comp;  test_comp2    ");
    assert_eq!(ids(&set), ["test_comp", "test_comp2"]);
}

#[test]
fn empty_affects_are_filtered() {
    let set = affects_from_cell(" ;;;test_comp;;;; test_comp2    ;;;");
    assert_eq!(ids(&set), ["test_comp", "test_comp2"]);
}

#[test]
fn completely_empty_affects_are_ignored() {
    let set = affects_from_cell("");
    assert!(set.is_empty());
    assert_eq!(set, IdSet::new());
}

#[test]
fn duplicate_affects_are_deduped() {
    let set = affects_from_cell("c1;c1;c1;c2");
    assert_eq!(ids(&set), ["c1", "c2"]);
}

#[test]
fn model_affects_are_sorted() {
    let set = affects_from_cell("zz;bb;mm;aa;tt;pp;432;c1;c1;c1;c2");
    assert_eq!(
        ids(&set),
        ["432", "aa", "bb", "c1", "c2", "mm", "pp", "tt", "zz"]
    );
}

#[test]
fn quoted_comma_retains_affects() {
    // The cell as the CSV reader hands it over once the quotes are gone.
    let set = affects_from_cell("c,2;ea");
    assert_eq!(ids(&set), ["c,2", "ea"]);
}

#[test]
fn multiple_affected_components_are_serialized() {
    assert_eq!(affects_to_cell(&set_of(&["c1", "c2", "c3"])), "c1;c2;c3");
}

#[test]
fn affects_are_sorted() {
    assert_eq!(affects_to_cell(&set_of(&["z", "a", "b"])), "a;b;z");
}

#[test]
fn comma_in_affects_is_kept_in_cell() {
    assert_eq!(affects_to_cell(&set_of(&["c,1", "c12", "c13"])), "c,1;c12;c13");
}

#[test]
fn empty_set_is_an_empty_cell() {
    assert_eq!(affects_to_cell(&IdSet::new()), "");
}

#[test]
fn cell_round_trip_keeps_ids() {
    let set = set_of(&["storage", "auth_service", "database"]);
    let cell = affects_to_cell(&set);
    assert_eq!(cell, "auth_service;database;storage");
    assert_eq!(affects_from_cell(&cell), set);
}

#[test]
fn insert_reports_new_ids_only() {
    let mut set = IdSet::new();
    assert!(set.insert("b".to_string()));
    assert!(set.insert("a".to_string()));
    assert!(!set.insert("b".to_string()));
    assert_eq!(ids(&set), ["a", "b"]);
    assert!(set.contains(&"a".to_string()));
    assert!(!set.contains(&"c".to_string()));
    assert_eq!(set.len(), 2);
}

#[test]
fn order_follows_code_points() {
    // Upper case letters come before lower case, a prefix before its extensions,
    // and characters beyond ASCII after it.
    let set = set_of(&["é", "ab", "a", "B", "b"]);
    assert_eq!(ids(&set), ["B", "a", "ab", "b", "é"]);
}

#[test]
fn component_is_shown_by_name_else_id() {
    let named = Component { id: "db".to_string(), name: Some("Database".to_string()) };
    let bare = Component { id: "db".to_string(), name: None };
    assert_eq!(named.to_string(), "Database");
    assert_eq!(bare.to_string(), "db");
    assert!(!same_component(&named, &bare));
    assert!(same_component(&bare, &bare.clone()));
}
