use delta_tree::pack_index::{Context, IterationMode};
use std::str::FromStr;

#[test]
fn variants_are_the_three_names() {
    assert_eq!(IterationMode::variants(), &["as-is", "verify", "restore"]);
}

#[test]
fn default_mode_verifies() {
    assert_eq!(IterationMode::default(), IterationMode::Verify);
}

#[test]
fn names_parse_to_their_modes() {
    assert_eq!(IterationMode::from_str("as-is"), Ok(IterationMode::AsIs));
    assert_eq!(IterationMode::from_str("verify"), Ok(IterationMode::Verify));
    assert_eq!(IterationMode::from_str("restore"), Ok(IterationMode::Restore));
    assert_eq!(IterationMode::from_name("restore"), Ok(IterationMode::Restore));
}

#[test]
fn case_of_letters_does_not_matter() {
    assert_eq!(IterationMode::from_str("AS-IS"), Ok(IterationMode::AsIs));
    assert_eq!(IterationMode::from_str("Verify"), Ok(IterationMode::Verify));
    assert_eq!(IterationMode::from_str("rEsToRe"), Ok(IterationMode::Restore));
}

#[test]
fn other_text_is_invalid() {
    assert_eq!(IterationMode::from_str(""), Err("invalid value".to_string()));
    assert_eq!(IterationMode::from_str("as_is"), Err("invalid value".to_string()));
    assert_eq!(IterationMode::from_str("verify "), Err("invalid value".to_string()));
    assert_eq!(IterationMode::from_name("VERIFY!"), Err("invalid value".to_string()));
}

#[test]
fn every_variant_parses_to_a_mode() {
    for name in IterationMode::variants() {
        assert!(IterationMode::from_str(name).is_ok());
    }
}

#[test]
fn context_holds_its_options() {
    let context = Context { thread_limit: Some(4), iteration_mode: IterationMode::Restore };
    assert_eq!(context.thread_limit, Some(4));
    assert_eq!(context.iteration_mode, IterationMode::Restore);
}
