use delta_tree::recorder::{Action, Change, Location, Observed, Recorder, Relation};

#[test]
fn default_tracks_entire_paths() {
    let mut recorder = Recorder::default();
    assert_eq!(recorder.path(), b"");
    recorder.push_path_component(b"a");
    recorder.push_path_component(b"b");
    assert_eq!(recorder.path(), b"a/b");
    assert!(recorder.records.is_empty());
}

#[test]
fn push_element_joins_with_a_slash() {
    let mut recorder = Recorder::default();
    recorder.push_element(b"src");
    assert_eq!(recorder.path(), b"src");
    recorder.push_element(b"lib.rs");
    assert_eq!(recorder.path(), b"src/lib.rs");
    recorder.push_element(b"");
    assert_eq!(recorder.path(), b"src/lib.rs");
    assert_eq!(recorder.path_clone(), b"src/lib.rs".to_vec());
}

#[test]
fn pop_element_cuts_at_the_last_slash() {
    let mut recorder = Recorder::default();
    recorder.push_element(b"a");
    recorder.push_element(b"bc");
    recorder.push_element(b"d");
    recorder.pop_element();
    assert_eq!(recorder.path(), b"a/bc");
    recorder.pop_element();
    assert_eq!(recorder.path(), b"a");
    recorder.pop_element();
    assert_eq!(recorder.path(), b"");
    recorder.pop_element();
    assert_eq!(recorder.path(), b"");
}

#[test]
fn pop_element_keeps_what_stands_before_a_trailing_slash() {
    let mut recorder = Recorder::default();
    recorder.push_element(b"a/");
    assert_eq!(recorder.path(), b"a/");
    recorder.pop_element();
    assert_eq!(recorder.path(), b"a");
}

#[test]
fn file_name_keeps_the_last_component_only() {
    let mut recorder = Recorder::default().track_location(Some(Location::FileName));
    recorder.push_path_component(b"dir");
    recorder.push_path_component(b"file");
    assert_eq!(recorder.path(), b"file");
    recorder.pop_path_component();
    assert_eq!(recorder.path(), b"file");
    recorder.push_back_tracked_path_component(b"other");
    assert_eq!(recorder.path(), b"other");
    recorder.pop_front_tracked_path_and_set_current();
    assert_eq!(recorder.path(), b"other");
}

#[test]
fn no_location_tracks_nothing() {
    let mut recorder = Recorder::default().track_location(None);
    recorder.push_path_component(b"dir");
    recorder.push_back_tracked_path_component(b"file");
    assert_eq!(recorder.path(), b"");
    recorder.pop_path_component();
    recorder.pop_front_tracked_path_and_set_current();
    assert_eq!(recorder.path(), b"");
}

#[test]
fn tracked_paths_come_back_in_the_order_pushed() {
    let mut recorder = Recorder::default();
    recorder.push_back_tracked_path_component(b"a");
    assert_eq!(recorder.path(), b"a");
    recorder.pop_path_component();
    recorder.push_back_tracked_path_component(b"b");
    assert_eq!(recorder.path(), b"b");
    recorder.pop_path_component();
    recorder.pop_front_tracked_path_and_set_current();
    assert_eq!(recorder.path(), b"a");
    recorder.push_back_tracked_path_component(b"c");
    assert_eq!(recorder.path(), b"a/c");
    recorder.pop_path_component();
    assert_eq!(recorder.path(), b"a");
    recorder.pop_front_tracked_path_and_set_current();
    assert_eq!(recorder.path(), b"b");
    recorder.pop_front_tracked_path_and_set_current();
    assert_eq!(recorder.path(), b"a/c");
}

#[test]
fn visit_records_the_change_with_the_current_path() {
    let mut recorder = Recorder::default();
    recorder.push_path_component(b"dir");
    recorder.push_path_component(b"new");
    let added = Observed::Addition { entry_mode: 0o100644, oid: [1; 20], relation: None };
    assert_eq!(recorder.visit(added), Action::Continue);
    recorder.pop_path_component();
    recorder.push_path_component(b"gone");
    let deleted = Observed::Deletion {
        entry_mode: 0o100755,
        oid: [2; 20],
        relation: Some(Relation::ChildOfParent(7)),
    };
    assert_eq!(recorder.visit(deleted), Action::Continue);
    recorder.pop_path_component();
    recorder.push_path_component(b"changed");
    let modified = Observed::Modification {
        previous_entry_mode: 0o100644,
        previous_oid: [3; 20],
        entry_mode: 0o100755,
        oid: [4; 20],
    };
    assert_eq!(recorder.visit(modified), Action::Continue);
    assert_eq!(
        recorder.records,
        vec![
            Change::Addition {
                entry_mode: 0o100644,
                oid: [1; 20],
                path: b"dir/new".to_vec(),
                relation: None,
            },
            Change::Deletion {
                entry_mode: 0o100755,
                oid: [2; 20],
                path: b"dir/gone".to_vec(),
                relation: Some(Relation::ChildOfParent(7)),
            },
            Change::Modification {
                previous_entry_mode: 0o100644,
                previous_oid: [3; 20],
                entry_mode: 0o100755,
                oid: [4; 20],
                path: b"dir/changed".to_vec(),
            },
        ]
    );
}
