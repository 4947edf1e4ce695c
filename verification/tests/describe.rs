use delta_tree::describe::Outcome;

fn id() -> [u8; 20] {
    [
        0x01, 0x23, 0x45, 0x67, 0x89, 0xab, 0xcd, 0xef, 0x00, 0xff, 0x10, 0x0f, 0xa0, 0x0a, 0x5c,
        0xc5, 0x7e, 0xe7, 0x99, 0x66,
    ]
}

#[test]
fn exact_match_shows_the_name_alone() {
    let outcome = Outcome::exact(b"v1.0".to_vec(), id(), 7);
    assert!(outcome.is_exact_match());
    assert_eq!(outcome.depth, 0);
    assert!(!outcome.long);
    assert_eq!(outcome.dirty_suffix, None);
    assert_eq!(outcome.format(), b"v1.0".to_vec());
}

#[test]
fn long_shows_distance_and_id_in_any_case() {
    let mut outcome = Outcome::exact(b"v1.0".to_vec(), id(), 7);
    assert_eq!(outcome.long().format(), b"v1.0-0-g0123456".to_vec());
    assert!(outcome.long);
    assert_eq!(outcome.short().format(), b"v1.0".to_vec());
    assert!(!outcome.long);
}

#[test]
fn distance_is_shown_in_decimal() {
    let mut outcome = Outcome::exact(b"main".to_vec(), id(), 10);
    outcome.depth = 1205;
    assert!(!outcome.is_exact_match());
    assert_eq!(outcome.format(), b"main-1205-g0123456789".to_vec());
    outcome.depth = 9;
    assert_eq!(outcome.format(), b"main-9-g0123456789".to_vec());
    outcome.depth = 10;
    assert_eq!(outcome.format(), b"main-10-g0123456789".to_vec());
}

#[test]
fn hex_is_lower_case_and_at_most_forty_digits() {
    let mut outcome = Outcome::exact(b"t".to_vec(), id(), 40);
    outcome.depth = 1;
    assert_eq!(
        outcome.format(),
        b"t-1-g0123456789abcdef00ff100fa00a5cc57ee79966".to_vec()
    );
    outcome.hex_len = 100;
    assert_eq!(
        outcome.format(),
        b"t-1-g0123456789abcdef00ff100fa00a5cc57ee79966".to_vec()
    );
    outcome.hex_len = 0;
    assert_eq!(outcome.format(), b"t-1-g".to_vec());
    outcome.hex_len = 13;
    assert_eq!(outcome.format(), b"t-1-g0123456789abc".to_vec());
}

#[test]
fn dirty_suffix_comes_last() {
    let mut outcome = Outcome::exact(b"v2".to_vec(), id(), 4);
    outcome.dirty_suffix = Some("dirty".to_string());
    assert_eq!(outcome.format(), b"v2-dirty".to_vec());
    outcome.depth = 3;
    assert_eq!(outcome.format(), b"v2-3-g0123-dirty".to_vec());
}
