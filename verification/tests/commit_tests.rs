use rygit::repository::Repository;
use rygit::workspace::Workspace;

fn put(ws: &mut Workspace, path: &str, contents: &str) {
    ws.set_file(path.as_bytes().to_vec(), contents.as_bytes().to_vec());
}

fn stage(repo: &mut Repository, ws: &Workspace, path: &str) {
    rygit::commands::add::run(&path.as_bytes().to_vec(), ws, repo).unwrap();
}

fn assert_tree_entry_blob(
    entry: &rygit::tree::TreeEntry,
    store: &rygit::store::ObjectStore,
    name: &str,
    expected_body: &[u8],
) {
    assert_eq!(name.as_bytes().to_vec(), *entry.name());
    if let rygit::objects::Object::Blob(blob) = entry.object() {
        assert_eq!(expected_body.to_vec(), blob.body(store).unwrap());
    } else {
        panic!("Expected blob");
    }
}

#[test]
fn test_create_commit() {
    let mut repo = Repository::init();
    let mut ws = Workspace::new();
    put(&mut ws, "a.txt", "a");
    put(&mut ws, "b.txt", "b");
    put(&mut ws, "subdir/c.txt", "c");

    let author = rygit::signature::Signature::new(
        b"Larry Sellers".to_vec(),
        b"l.sellers@example.com".to_vec(),
    );
    let committer = rygit::signature::Signature::new(
        b"Donny Kerabatsos".to_vec(),
        b"d.kerabatsos@example.com".to_vec(),
    );

    stage(&mut repo, &ws, "");
    let first_commit = repo
        .commit(b"Initial commit".to_vec(), author, committer)
        .unwrap();
    let first_commit =
        rygit::commit::Commit::load(first_commit.hash(), repo.store()).unwrap();

    let tree = first_commit.tree(repo.store()).unwrap();
    assert_eq!(3, tree.entries().len());
    assert_tree_entry_blob(&tree.entries()[0], repo.store(), "a.txt", b"a");
    assert_tree_entry_blob(&tree.entries()[1], repo.store(), "b.txt", b"b");
    if let rygit::objects::Object::Tree(sub) = tree.entries()[2].object() {
        assert_eq!(b"subdir".to_vec(), *tree.entries()[2].name());
        assert_eq!(1, sub.entries().len());
        assert_tree_entry_blob(&sub.entries()[0], repo.store(), "c.txt", b"c");
    } else {
        panic!("Expected entry to be an Object::Tree, but got {:?}", tree.entries()[2].object());
    }

    let head_ref = rygit::branch::table_lookup(repo.refs(), &b"master".to_vec()).unwrap();
    assert_eq!(first_commit.hash().to_hex(), head_ref);

    assert_eq!(b"Initial commit".to_vec(), *first_commit.message());
    assert_eq!(b"Larry Sellers".to_vec(), *first_commit.author().name());
    assert_eq!(b"l.sellers@example.com".to_vec(), *first_commit.author().email());
    assert_eq!(b"Donny Kerabatsos".to_vec(), *first_commit.committer().name());
    assert_eq!(
        b"d.kerabatsos@example.com".to_vec(),
        *first_commit.committer().email()
    );

    put(&mut ws, "t.txt", "t");
    let author = rygit::signature::Signature::new(
        b"Leroy Jenkins".to_vec(),
        b"l.jenkins@example.com".to_vec(),
    );
    let committer = rygit::signature::Signature::new(
        b"Larry Sellers".to_vec(),
        b"l.sellers@example.com".to_vec(),
    );
    stage(&mut repo, &ws, "");
    let second_commit = repo
        .commit(b"Second commit".to_vec(), author, committer)
        .unwrap();
    let second_commit =
        rygit::commit::Commit::load(second_commit.hash(), repo.store()).unwrap();

    assert_eq!(1, second_commit.parent_count());
    assert_eq!(
        first_commit.hash().to_hex(),
        second_commit.parent_hash(0).to_hex()
    );

    let second_tree = second_commit.tree(repo.store()).unwrap();
    assert_eq!(4, second_tree.entries().len());
    assert_tree_entry_blob(&second_tree.entries()[0], repo.store(), "a.txt", b"a");
    assert_tree_entry_blob(&second_tree.entries()[1], repo.store(), "b.txt", b"b");
    if let rygit::objects::Object::Tree(sub) = second_tree.entries()[2].object() {
        assert_eq!(b"subdir".to_vec(), *second_tree.entries()[2].name());
        assert_eq!(1, sub.entries().len());
        assert_tree_entry_blob(&sub.entries()[0], repo.store(), "c.txt", b"c");
    } else {
        panic!(
            "Expected entry to be an Object::Tree, but got {:?}",
            second_tree.entries()[2].object()
        );
    }
    assert_tree_entry_blob(&second_tree.entries()[3], repo.store(), "t.txt", b"t");
}

#[test]
fn commit_reads_back_what_was_written() {
    let author = rygit::signature::Signature::at_time(
        b"Maude Lebowski".to_vec(),
        b"maude@example.com".to_vec(),
        1700000000,
        3600,
    );
    let committer = rygit::signature::Signature::at_time(
        b"Walter Sobchak".to_vec(),
        b"walter@example.com".to_vec(),
        1700000060,
        -7200,
    );
    let mut repo = Repository::init();
    let mut ws = Workspace::new();
    put(&mut ws, "a.txt", "alpha");
    stage(&mut repo, &ws, "");
    let c = repo
        .commit(b"a message\nof two lines".to_vec(), author, committer)
        .unwrap();
    let back = rygit::commit::Commit::load(c.hash(), repo.store()).unwrap();
    assert_eq!(b"a message\nof two lines".to_vec(), *back.message());
    assert_eq!(b"Maude Lebowski".to_vec(), *back.author().name());
    assert_eq!(b"maude@example.com".to_vec(), *back.author().email());
    assert_eq!(1700000000, back.author().timestamp());
    assert_eq!(3600, back.author().offset_seconds());
    assert_eq!(b"Walter Sobchak".to_vec(), *back.committer().name());
    assert_eq!(1700000060, back.committer().timestamp());
    assert_eq!(-7200, back.committer().offset_seconds());
    assert_eq!(c.hash().to_hex(), back.hash().to_hex());
    assert_eq!(c.tree_hash().to_hex(), back.tree_hash().to_hex());
}

#[test]
fn signature_line_round_trips() {
    let sig = rygit::signature::Signature::at_time(
        b"The Dude".to_vec(),
        b"dude@example.com".to_vec(),
        123456789,
        -3600,
    );
    let line = sig.serialize_as(rygit::signature::SignatureKind::Author);
    assert_eq!(b"author The Dude <dude@example.com> 123456789 -0100".to_vec(), line);
    let back = rygit::signature::Signature::deserialize(&line).unwrap();
    assert_eq!(b"The Dude".to_vec(), *back.name());
    assert_eq!(b"dude@example.com".to_vec(), *back.email());
    assert_eq!(123456789, back.timestamp());
    assert_eq!(-3600, back.offset_seconds());
}

#[test]
fn offset_formatting_round_trips() {
    let formatted = rygit::signature::format_offset(19800);
    assert_eq!(b"+0530".to_vec(), formatted);
    assert_eq!(19800, rygit::signature::parse_offset(&formatted).unwrap());
    let negative = rygit::signature::format_offset(-19800);
    assert_eq!(b"-0530".to_vec(), negative);
    assert_eq!(-19800, rygit::signature::parse_offset(&negative).unwrap());
    assert!(rygit::signature::parse_offset(&b"0530".to_vec()).is_err());
    assert!(rygit::signature::parse_offset(&b"+05x0".to_vec()).is_err());
}

#[test]
fn parents_walk_back_to_the_first_commit() {
    let mut repo = Repository::init();
    let mut ws = Workspace::new();
    put(&mut ws, "a.txt", "a");
    stage(&mut repo, &ws, "");
    let first = rygit::commands::commit::run(b"first".to_vec(), &mut repo).unwrap();
    put(&mut ws, "a.txt", "a2");
    stage(&mut repo, &ws, "");
    let second = rygit::commands::commit::run(b"second".to_vec(), &mut repo).unwrap();

    assert_eq!(0, first.parent_count());
    let parents = second.parents(repo.store()).unwrap();
    assert_eq!(1, parents.len());
    assert_eq!(first.hash().to_hex(), parents[0].hash().to_hex());
    assert_eq!(b"first".to_vec(), *parents[0].message());
}

#[test]
fn test_commit_header_length_must_match_body() {
    let mut repo = Repository::init();
    let mut ws = Workspace::new();
    put(&mut ws, "a.txt", "a");
    stage(&mut repo, &ws, "a.txt");
    let author = rygit::signature::Signature::new(b"A".to_vec(), b"a@example.com".to_vec());
    let committer = rygit::signature::Signature::new(b"A".to_vec(), b"a@example.com".to_vec());
    let commit = repo.commit(b"m".to_vec(), author, committer).unwrap();
    let good = commit.serialize();
    assert!(rygit::commit::Commit::deserialize(&good).is_ok());

    // The same bytes with one length digit off are rejected.
    let mut bad = good.clone();
    let nul = bad.iter().position(|&b| b == 0).unwrap();
    let digit = nul - 1;
    bad[digit] = if bad[digit] == b'9' { b'8' } else { bad[digit] + 1 };
    match rygit::commit::Commit::deserialize(&bad) {
        Err(e) => assert_eq!(rygit::errors::RepoError::InvalidObjectFormat, e),
        Ok(_) => panic!("a commit with a wrong header length must be rejected"),
    }
}

#[test]
fn test_history_walks_first_parents() {
    let mut repo = Repository::init();
    let mut ws = Workspace::new();
    let author = rygit::signature::Signature::new(b"A".to_vec(), b"a@example.com".to_vec());
    let committer = rygit::signature::Signature::new(b"A".to_vec(), b"a@example.com".to_vec());

    put(&mut ws, "a.txt", "a");
    stage(&mut repo, &ws, "a.txt");
    let first = repo
        .commit(b"first".to_vec(), author.clone(), committer.clone())
        .unwrap();

    put(&mut ws, "b.txt", "b");
    stage(&mut repo, &ws, "b.txt");
    let second = repo.commit(b"second".to_vec(), author, committer).unwrap();

    let commits = rygit::commit::Commit::history(second.hash(), repo.store()).unwrap();
    assert_eq!(2, commits.len());
    assert_eq!(second.hash(), commits[0].hash());
    assert_eq!(first.hash(), commits[1].hash());
    assert_eq!(b"second".to_vec(), *commits[0].message());
    assert_eq!(b"first".to_vec(), *commits[1].message());
    assert_eq!(0, commits[1].parent_count());
}

#[test]
fn test_created_tree_loads_back_equal() {
    let mut repo = Repository::init();
    let mut ws = Workspace::new();
    put(&mut ws, "a.txt", "a");
    put(&mut ws, "subdir/c.txt", "c");
    stage(&mut repo, &ws, "");
    let author = rygit::signature::Signature::new(b"A".to_vec(), b"a@example.com".to_vec());
    let committer = rygit::signature::Signature::new(b"A".to_vec(), b"a@example.com".to_vec());
    let commit = repo.commit(b"m".to_vec(), author, committer).unwrap();
    let commit = rygit::commit::Commit::load(commit.hash(), repo.store()).unwrap();
    let tree = commit.tree(repo.store()).unwrap();
    let again = rygit::tree::Tree::load(tree.hash(), repo.store()).unwrap();
    assert_eq!(tree, again);
}
