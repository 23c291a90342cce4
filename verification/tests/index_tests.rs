use rygit::repository::Repository;
use rygit::workspace::Workspace;

fn put(ws: &mut Workspace, path: &str, contents: &str) {
    ws.set_file(path.as_bytes().to_vec(), contents.as_bytes().to_vec());
}

fn stage(repo: &mut Repository, ws: &Workspace, path: &str) {
    rygit::commands::add::run(&path.as_bytes().to_vec(), ws, repo).unwrap();
}

fn reload_index(repo: &mut Repository) {
    let bytes = repo.index_file();
    repo.load_index(&bytes).unwrap();
}

#[test]
fn test_add() {
    let mut repo = Repository::init();
    let mut ws = Workspace::new();
    put(&mut ws, "a.txt", "a");
    put(&mut ws, "b.txt", "b");
    put(&mut ws, "subdir1/c.txt", "c");
    put(&mut ws, "subdir2/d.txt", "d");
    put(&mut ws, "subdir2/e.txt", "e");

    stage(&mut repo, &ws, "a.txt");
    assert_eq!(1, repo.index().files().len());
    assert_eq!(b"a.txt".to_vec(), *repo.index().files()[0].path());

    reload_index(&mut repo);
    assert_eq!(b"a.txt".to_vec(), *repo.index().files()[0].path());

    stage(&mut repo, &ws, "subdir1");
    stage(&mut repo, &ws, "subdir2/e.txt");
    assert_eq!(3, repo.index().files().len());
    assert_eq!(b"a.txt".to_vec(), *repo.index().files()[0].path());
    assert_eq!(b"subdir1/c.txt".to_vec(), *repo.index().files()[1].path());
    assert_eq!(b"subdir2/e.txt".to_vec(), *repo.index().files()[2].path());

    ws.remove_file(&b"a.txt".to_vec());
    ws.remove_file(&b"subdir1/c.txt".to_vec());
    stage(&mut repo, &ws, "");
    let file_a_present = repo
        .index()
        .files()
        .iter()
        .any(|f| *f.path() == b"a.txt".to_vec());
    assert!(!file_a_present);
    let file_c_present = repo
        .index()
        .files()
        .iter()
        .any(|f| *f.path() == b"subdir1/c.txt".to_vec());
    assert!(!file_c_present);
}

#[test]
fn add_twice_leaves_index_bytes_identical() {
    let mut repo = Repository::init();
    let mut ws = Workspace::new();
    put(&mut ws, "a.txt", "a");
    put(&mut ws, "b.txt", "b");
    stage(&mut repo, &ws, "a.txt");
    stage(&mut repo, &ws, "b.txt");
    let first = repo.index_file();
    stage(&mut repo, &ws, "a.txt");
    let second = repo.index_file();
    assert_eq!(first, second);
}

#[test]
fn index_round_trips_through_its_file() {
    let mut repo = Repository::init();
    let mut ws = Workspace::new();
    put(&mut ws, "a.txt", "a");
    put(&mut ws, "d/e.txt", "e");
    stage(&mut repo, &ws, "");
    let bytes = repo.index_file();
    let loaded = rygit::index::Index::load(&bytes).unwrap();
    assert_eq!(2, loaded.files().len());
    assert_eq!(b"a.txt".to_vec(), *loaded.files()[0].path());
    assert_eq!(b"d/e.txt".to_vec(), *loaded.files()[1].path());
    assert_eq!(bytes, loaded.write());
}

#[test]
fn malformed_index_line_is_rejected() {
    let bad = b"a.txt nothexnothexnothexnothexnothexnothex\n".to_vec();
    assert!(matches!(
        rygit::index::Index::load(&bad),
        Err(rygit::errors::RepoError::InvalidIndexFormat)
    ));
    let missing_hash = b"a.txt\n".to_vec();
    assert!(matches!(
        rygit::index::Index::load(&missing_hash),
        Err(rygit::errors::RepoError::InvalidIndexFormat)
    ));
}

#[test]
fn adding_a_missing_never_staged_path_fails() {
    let mut repo = Repository::init();
    let ws = Workspace::new();
    let r = rygit::commands::add::run(&b"ghost.txt".to_vec(), &ws, &mut repo);
    assert!(matches!(r, Err(rygit::errors::RepoError::NoSuchFile)));
}

#[test]
fn doubled_separators_are_outside_the_repository() {
    let mut repo = Repository::init();
    let ws = Workspace::new();
    let r = rygit::commands::add::run(&b"a//b.txt".to_vec(), &ws, &mut repo);
    assert!(matches!(
        r,
        Err(rygit::errors::RepoError::PathOutsideRepository)
    ));
}
