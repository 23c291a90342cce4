use rygit::paths;

#[test]
fn test_head_ref_path() {
    let head = b"ref: refs/heads/master".to_vec();
    let expected = b".rygit/refs/heads/master".to_vec();
    assert_eq!(expected, paths::head_ref_path(&head).unwrap());
}

#[test]
fn head_without_the_ref_prefix_is_rejected() {
    let head = b"0123456789012345678901234567890123456789".to_vec();
    assert!(matches!(
        paths::head_ref_path(&head),
        Err(rygit::errors::RepoError::MissingOrInvalidRef)
    ));
}

#[test]
fn repository_layout_paths() {
    assert_eq!(b".rygit".to_vec(), paths::rygit_path());
    assert_eq!(b".rygit/objects".to_vec(), paths::objects_path());
    assert_eq!(b".rygit/refs".to_vec(), paths::refs_path());
    assert_eq!(b".rygit/HEAD".to_vec(), paths::head_path());
    assert_eq!(b".rygit/index".to_vec(), paths::index_path());
}

#[test]
fn discover_finds_the_nearest_marked_ancestor() {
    let roots = vec![b"home/user/repo".to_vec(), b"home".to_vec()];
    let start = b"home/user/repo/src/deep".to_vec();
    let found = paths::discover_repository_root_from(&start, &roots).unwrap();
    assert_eq!(b"home/user/repo".to_vec(), found);

    let elsewhere = b"tmp/x".to_vec();
    assert!(matches!(
        paths::discover_repository_root_from(&elsewhere, &roots),
        Err(rygit::errors::RepoError::NotARepository)
    ));
}
