use delta_tree::fetch::{find_head, head_info, is_head, plan_head_update, HeadInfo, HeadUpdate, RemoteRef};

fn direct(name: &[u8], byte: u8) -> RemoteRef {
    RemoteRef::Direct { full_ref_name: name.to_vec(), object: [byte; 20] }
}

#[test]
fn head_is_spelled_in_upper_case() {
    assert!(is_head(b"HEAD"));
    assert!(!is_head(b"head"));
    assert!(!is_head(b"HEAD "));
    assert!(!is_head(b"HEA"));
    assert!(!is_head(b""));
    assert!(!is_head(b"refs/heads/HEAD"));
}

#[test]
fn first_head_is_found() {
    let refs = vec![
        direct(b"refs/heads/main", 1),
        RemoteRef::Peeled { full_ref_name: b"HEAD".to_vec(), tag: [9; 20], object: [8; 20] },
        RemoteRef::Symbolic {
            full_ref_name: b"HEAD".to_vec(),
            target: b"refs/heads/main".to_vec(),
            tag: None,
            object: [1; 20],
        },
        direct(b"HEAD", 2),
    ];
    assert_eq!(find_head(&refs), Some(2));
    assert_eq!(
        head_info(&refs),
        Some(HeadInfo { peeled_id: Some([1; 20]), referent: Some(b"refs/heads/main".to_vec()) })
    );
}

#[test]
fn no_head_among_the_refs() {
    let refs = vec![direct(b"refs/heads/main", 1), direct(b"refs/tags/v1", 2)];
    assert_eq!(find_head(&refs), None);
    assert_eq!(head_info(&refs), None);
    assert_eq!(find_head(&[]), None);
    assert_eq!(plan_head_update(head_info(&refs)), HeadUpdate::Nothing);
}

#[test]
fn direct_head_is_detached() {
    let refs = vec![direct(b"HEAD", 7)];
    let info = head_info(&refs);
    assert_eq!(info, Some(HeadInfo { peeled_id: Some([7; 20]), referent: None }));
    assert_eq!(plan_head_update(info), HeadUpdate::Detached { id: [7; 20] });
}

#[test]
fn unborn_head_points_to_a_reference_without_an_object() {
    let refs = vec![RemoteRef::Unborn {
        full_ref_name: b"HEAD".to_vec(),
        target: b"refs/heads/trunk".to_vec(),
    }];
    let info = head_info(&refs);
    assert_eq!(info, Some(HeadInfo { peeled_id: None, referent: Some(b"refs/heads/trunk".to_vec()) }));
    assert_eq!(
        plan_head_update(info),
        HeadUpdate::Symbolic { referent: b"refs/heads/trunk".to_vec(), peeled_id: None }
    );
}

#[test]
fn symbolic_head_keeps_its_object() {
    let info = Some(HeadInfo { peeled_id: Some([3; 20]), referent: Some(b"refs/heads/main".to_vec()) });
    assert_eq!(
        plan_head_update(info),
        HeadUpdate::Symbolic { referent: b"refs/heads/main".to_vec(), peeled_id: Some([3; 20]) }
    );
}

fn candidate(name: &[u8], byte: u8) -> delta_tree::fetch::Candidate {
    delta_tree::fetch::Candidate { full_ref_name: name.to_vec(), target: [byte; 20] }
}

fn matched(index: usize, name: &[u8]) -> delta_tree::fetch::Matched {
    delta_tree::fetch::Matched { item_index: Some(index), name: Some(name.to_vec()) }
}

#[test]
fn no_match_means_the_name_is_missing() {
    let candidates = vec![candidate(b"refs/heads/main", 1)];
    assert_eq!(
        delta_tree::fetch::select_custom_ref(b"topic", &candidates, &[]),
        Err(delta_tree::fetch::RefNameError::Missing { wanted: b"topic".to_vec() })
    );
}

#[test]
fn single_match_selects_its_candidate() {
    let candidates = vec![candidate(b"refs/heads/main", 1), candidate(b"refs/heads/topic", 2)];
    let matches = vec![matched(1, b"refs/heads/topic")];
    assert_eq!(
        delta_tree::fetch::select_custom_ref(b"topic", &candidates, &matches),
        Ok(HeadInfo { peeled_id: Some([2; 20]), referent: Some(b"refs/heads/topic".to_vec()) })
    );
}

#[test]
fn several_matches_are_ambiguous_with_their_names() {
    let candidates = vec![candidate(b"refs/heads/v1", 1), candidate(b"refs/tags/v1", 2)];
    let matches = vec![
        matched(0, b"refs/heads/v1"),
        delta_tree::fetch::Matched { item_index: None, name: None },
        matched(1, b"refs/tags/v1"),
    ];
    assert_eq!(
        delta_tree::fetch::select_custom_ref(b"v1", &candidates, &matches),
        Err(delta_tree::fetch::RefNameError::Ambiguous {
            wanted: b"v1".to_vec(),
            candidates: vec![b"refs/heads/v1".to_vec(), b"refs/tags/v1".to_vec()],
        })
    );
    assert_eq!(
        delta_tree::fetch::matched_names(&matches),
        vec![b"refs/heads/v1".to_vec(), b"refs/tags/v1".to_vec()]
    );
}
