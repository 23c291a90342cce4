use rygit::repository::Repository;
use rygit::workspace::Workspace;

fn put(ws: &mut Workspace, path: &str, contents: &str) {
    ws.set_file(path.as_bytes().to_vec(), contents.as_bytes().to_vec());
}

fn stage(repo: &mut Repository, ws: &Workspace, path: &str) {
    rygit::commands::add::run(&path.as_bytes().to_vec(), ws, repo).unwrap();
}

fn commit(repo: &mut Repository, message: &str) -> rygit::commit::Commit {
    rygit::commands::commit::run(message.as_bytes().to_vec(), repo).unwrap()
}

#[test]
fn test_from_index() {
    let mut repo = Repository::init();
    let mut ws = Workspace::new();
    put(&mut ws, "a.txt", "a");
    put(&mut ws, "b.txt", "b");
    put(&mut ws, "subdir1/c.txt", "c");
    stage(&mut repo, &ws, "a.txt");
    stage(&mut repo, &ws, "b.txt");
    stage(&mut repo, &ws, "subdir1/c.txt");

    let mut store = rygit::store::ObjectStore::new();
    let tree = rygit::tree::Tree::create(repo.index(), &mut store);

    assert_eq!(3, tree.entries().len());
    let entries = tree.entries();
    assert!(matches!(entries[0].object(), rygit::objects::Object::Blob(_)));
    assert_eq!(b"a.txt".to_vec(), *entries[0].name());
    assert!(matches!(entries[1].object(), rygit::objects::Object::Blob(_)));
    assert_eq!(b"b.txt".to_vec(), *entries[1].name());
    if let rygit::objects::Object::Tree(subtree) = entries[2].object() {
        assert_eq!(1, subtree.entries().len());
        assert_eq!(b"c.txt".to_vec(), *subtree.entries()[0].name());
    } else {
        panic!("expected a tree entry");
    }
}

#[test]
fn test_find() {
    let mut repo = Repository::init();
    let mut ws = Workspace::new();
    put(&mut ws, "a.txt", "a");
    put(&mut ws, "subdir/a.txt", "a");
    put(&mut ws, "a/a.txt", "a");
    stage(&mut repo, &ws, "a.txt");
    stage(&mut repo, &ws, "a/a.txt");
    stage(&mut repo, &ws, "subdir/a.txt");

    let mut store = rygit::store::ObjectStore::new();
    let tree = rygit::tree::Tree::create(repo.index(), &mut store);

    assert!(tree.find(&b"a.txt".to_vec()).is_some());
    assert!(tree.find(&b"a/a.txt".to_vec()).is_some());
    assert!(tree.find(&b"subdir/a.txt".to_vec()).is_some());
    assert!(tree.find(&b"b.pdf".to_vec()).is_none());
}

#[test]
fn test_flattened() {
    let mut repo = Repository::init();
    let mut ws = Workspace::new();
    put(&mut ws, "a.txt", "a");
    put(&mut ws, "a/a.txt", "b");
    put(&mut ws, "b/b.txt", "b");
    stage(&mut repo, &ws, "");
    commit(&mut repo, "Initial commit");

    let master = rygit::branch::table_lookup(repo.refs(), &b"master".to_vec()).unwrap();
    let tree = rygit::tree::Tree::current(&master, repo.store())
        .unwrap()
        .unwrap();
    let flattened = tree.entries_flattened();
    assert_eq!(3, flattened.len());
    assert!(flattened.iter().any(|e| e.0 == b"a.txt".to_vec()));
    assert!(flattened.iter().any(|e| e.0 == b"a/a.txt".to_vec()));
    assert!(flattened.iter().any(|e| e.0 == b"b/b.txt".to_vec()));
}

#[test]
fn same_pairs_in_any_order_hash_alike() {
    // Two repositories staged in opposite orders commit identical trees.
    let mut ws = Workspace::new();
    put(&mut ws, "x.txt", "x");
    put(&mut ws, "d/y.txt", "y");
    put(&mut ws, "z.txt", "z");

    let mut repo1 = Repository::init();
    stage(&mut repo1, &ws, "x.txt");
    stage(&mut repo1, &ws, "d/y.txt");
    stage(&mut repo1, &ws, "z.txt");
    let mut store1 = rygit::store::ObjectStore::new();
    let t1 = rygit::tree::Tree::create(repo1.index(), &mut store1);

    let mut repo2 = Repository::init();
    stage(&mut repo2, &ws, "z.txt");
    stage(&mut repo2, &ws, "x.txt");
    stage(&mut repo2, &ws, "d/y.txt");
    let mut store2 = rygit::store::ObjectStore::new();
    let t2 = rygit::tree::Tree::create(repo2.index(), &mut store2);

    assert_eq!(t1.hash().to_hex(), t2.hash().to_hex());
}

#[test]
fn tree_reads_back_from_the_store() {
    let mut repo = Repository::init();
    let mut ws = Workspace::new();
    put(&mut ws, "a.txt", "a");
    put(&mut ws, "d/b.txt", "b");
    stage(&mut repo, &ws, "");
    commit(&mut repo, "snapshot");
    let master = rygit::branch::table_lookup(repo.refs(), &b"master".to_vec()).unwrap();
    let tree = rygit::tree::Tree::current(&master, repo.store())
        .unwrap()
        .unwrap();
    assert_eq!(2, tree.entries().len());
    assert_eq!(b"a.txt".to_vec(), *tree.entries()[0].name());
    assert_eq!(b"d".to_vec(), *tree.entries()[1].name());
}

#[test]
fn tree_load_reports_an_absent_hash_as_io_failure() {
    let store = rygit::store::ObjectStore::new();
    let hash = rygit::hash::Hash::new([7u8; 20]);
    match rygit::tree::Tree::load(&hash, &store) {
        Err(e) => assert_eq!(rygit::errors::RepoError::IOFailure, e),
        Ok(_) => panic!("loading from an empty store must fail"),
    }
}

#[test]
fn tree_load_rejects_a_record_with_a_bad_mode() {
    let mut store = rygit::store::ObjectStore::new();
    // "tree 33\0" ++ "100755 a.txt\0" ++ 20 hash bytes: a mode the format
    // does not know.
    let mut serial: Vec<u8> = b"tree 33\0100755 a.txt\0".to_vec();
    serial.extend_from_slice(&[9u8; 20]);
    let hash = store.write_object(&serial);
    match rygit::tree::Tree::load(&hash, &store) {
        Err(e) => assert_eq!(rygit::errors::RepoError::InvalidObjectFormat, e),
        Ok(_) => panic!("an unknown mode must be rejected"),
    }
}
