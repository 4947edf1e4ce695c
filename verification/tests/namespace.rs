use delta_tree::namespace::{expand, expand_components, expand_validated, NameError};

#[test]
fn single_component_is_expanded() {
    let namespace = expand(b"foo").unwrap();
    assert_eq!(namespace.as_bstr(), b"refs/namespaces/foo/");
}

#[test]
fn each_component_gets_the_prefix() {
    let namespace = expand(b"foo/bar").unwrap();
    assert_eq!(namespace.as_bstr(), b"refs/namespaces/foo/refs/namespaces/bar/");
    assert_eq!(
        expand(b"a/b/c").unwrap().into_bstring(),
        b"refs/namespaces/a/refs/namespaces/b/refs/namespaces/c/".to_vec()
    );
}

#[test]
fn invalid_names_are_refused_with_their_reason() {
    assert_eq!(expand(b""), Err(NameError::Tag));
    assert_eq!(expand(b"foo/"), Err(NameError::Tag));
    assert_eq!(expand(b"a..b"), Err(NameError::Tag));
    assert_eq!(expand(b"a b"), Err(NameError::Tag));
    assert_eq!(expand(b"/foo"), Err(NameError::StartsWithSlash));
    assert_eq!(expand(b"foo//bar"), Err(NameError::RepeatedSlash));
    assert_eq!(expand(b"foo/./bar"), Err(NameError::SingleDot));
}

#[test]
fn lower_case_is_fine_in_a_partial_name() {
    assert!(expand(b"some-name").is_ok());
}

#[test]
fn components_are_expanded_whatever_the_name() {
    assert_eq!(expand_components(b"").as_bstr(), b"refs/namespaces//");
    assert_eq!(expand_components(b"a/").as_bstr(), b"refs/namespaces/a/refs/namespaces//");
    assert_eq!(expand_components(b"/a").as_bstr(), b"refs/namespaces//refs/namespaces/a/");
    assert_eq!(
        expand_components(b"a//b").as_bstr(),
        b"refs/namespaces/a/refs/namespaces//refs/namespaces/b/"
    );
}

#[test]
fn verdict_decides_the_expansion() {
    assert_eq!(expand_validated(b"x/y", Some(NameError::SingleDot)), Err(NameError::SingleDot));
    assert_eq!(
        expand_validated(b"x/y", None).unwrap().as_bstr(),
        b"refs/namespaces/x/refs/namespaces/y/"
    );
}

#[test]
fn namespace_is_put_before_names_and_prefixes() {
    let namespace = expand(b"foo").unwrap();
    let full = namespace.clone().into_namespaced_name(b"refs/heads/main");
    assert_eq!(full.as_bstr(), b"refs/namespaces/foo/refs/heads/main");
    assert_eq!(
        namespace.into_namespaced_prefix(b"refs/tags"),
        b"refs/namespaces/foo/refs/tags".to_vec()
    );
}
