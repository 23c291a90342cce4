use rygit::branch::Branch;
use rygit::repository::Repository;
use rygit::workspace::Workspace;

fn put(ws: &mut Workspace, path: &str, contents: &str) {
    ws.set_file(path.as_bytes().to_vec(), contents.as_bytes().to_vec());
}

fn stage(repo: &mut Repository, ws: &Workspace, path: &str) {
    rygit::commands::add::run(&path.as_bytes().to_vec(), ws, repo).unwrap();
}

fn commit(repo: &mut Repository, message: &str) {
    rygit::commands::commit::run(message.as_bytes().to_vec(), repo).unwrap();
}

#[test]
fn test_current() {
    let mut repo = Repository::init();
    let mut ws = Workspace::new();
    let branch = repo.current_branch();
    assert!(branch.is_err());

    put(&mut ws, "a.txt", "a");
    stage(&mut repo, &ws, "");
    commit(&mut repo, "Initial commit");
    repo.branch_create(&b"test".to_vec()).unwrap();
    let branch = repo.current_branch().unwrap();
    assert_eq!(b"master".to_vec(), *branch.name());
}

#[test]
fn test_create() {
    let mut repo = Repository::init();
    let mut ws = Workspace::new();
    let branch = repo.branch_create(&b"test".to_vec());
    assert!(branch.is_err());

    put(&mut ws, "a.txt", "a");
    stage(&mut repo, &ws, "");
    commit(&mut repo, "Initial commit");
    repo.branch_create(&b"test".to_vec()).unwrap();
    let initial_hex = rygit::branch::table_lookup(repo.refs(), &b"master".to_vec()).unwrap();
    let initial = rygit::hash::Hash::from_hex(&initial_hex).unwrap();

    put(&mut ws, "b.txt", "b");
    stage(&mut repo, &ws, "");
    commit(&mut repo, "Second commit");
    let second_hex = rygit::branch::table_lookup(repo.refs(), &b"master".to_vec()).unwrap();
    let second = rygit::hash::Hash::from_hex(&second_hex).unwrap();

    let test_branch = Branch::find_by_name(&b"test".to_vec(), repo.refs()).unwrap();
    assert_eq!(b"test".to_vec(), *test_branch.name());
    assert_eq!(initial.to_hex(), test_branch.commit_hash().to_hex());

    let master_branch = Branch::find_by_name(&b"master".to_vec(), repo.refs()).unwrap();
    assert_eq!(b"master".to_vec(), *master_branch.name());
    assert_eq!(second.to_hex(), master_branch.commit_hash().to_hex());

    let branches = repo.branch_list().unwrap();
    assert_eq!(2, branches.len());
    assert!(branches.iter().any(|b| *b.name() == b"master".to_vec()));
    assert!(branches.iter().any(|b| *b.name() == b"test".to_vec()));
}

#[test]
fn test_switch() {
    let mut repo = Repository::init();
    let mut ws = Workspace::new();
    put(&mut ws, "a.txt", "a");
    put(&mut ws, "a/a.txt", "subdira");
    stage(&mut repo, &ws, "");
    commit(&mut repo, "Initial commit");

    repo.branch_create(&b"test".to_vec()).unwrap();
    repo.switch(&b"test".to_vec(), &mut ws).unwrap();
    put(&mut ws, "b.txt", "b");
    put(&mut ws, "b/b.txt", "subdirb");
    stage(&mut repo, &ws, "");
    commit(&mut repo, "Commit on test");

    assert_eq!(b"test".to_vec(), *repo.current_branch().unwrap().name());
    assert!(ws.read(&b"b.txt".to_vec()).is_some());
    assert_eq!(
        b"subdirb".to_vec(),
        *ws.read(&b"b/b.txt".to_vec()).unwrap()
    );

    repo.switch(&b"master".to_vec(), &mut ws).unwrap();
    assert_eq!(b"master".to_vec(), *repo.current_branch().unwrap().name());
    assert!(ws.read(&b"b.txt".to_vec()).is_none());
    assert_eq!(b"a".to_vec(), *ws.read(&b"a.txt".to_vec()).unwrap());
    assert_eq!(
        b"subdira".to_vec(),
        *ws.read(&b"a/a.txt".to_vec()).unwrap()
    );

    repo.switch(&b"test".to_vec(), &mut ws).unwrap();
    assert_eq!(b"test".to_vec(), *repo.current_branch().unwrap().name());
    assert_eq!(b"b".to_vec(), *ws.read(&b"b.txt".to_vec()).unwrap());
    assert_eq!(b"a".to_vec(), *ws.read(&b"a.txt".to_vec()).unwrap());
}

#[test]
fn switching_to_a_missing_branch_fails() {
    let mut repo = Repository::init();
    let mut ws = Workspace::new();
    put(&mut ws, "a.txt", "a");
    stage(&mut repo, &ws, "");
    commit(&mut repo, "Initial commit");
    let r = repo.switch(&b"nope".to_vec(), &mut ws);
    assert!(matches!(r, Err(rygit::errors::RepoError::BranchNotFound)));
}
