use delta_tree::checkout::PrepareCheckout;

#[test]
fn repository_is_held_until_it_is_persisted() {
    let prepared = PrepareCheckout::new("repo".to_string());
    assert!(prepared.is_pending());
    assert_eq!(prepared.repo(), "repo");
    assert_eq!(prepared.persist(), "repo".to_string());
}

#[test]
fn completed_checkout_hands_the_repository_on_once() {
    let mut prepared = PrepareCheckout::new(7u32);
    assert_eq!(prepared.complete(), Some(7));
    assert!(!prepared.is_pending());
    assert_eq!(prepared.complete(), None);
}
