use rygit::repository::Repository;
use rygit::repository_status::FileStatus;
use rygit::workspace::Workspace;

fn put(ws: &mut Workspace, path: &str, contents: &str) {
    ws.set_file(path.as_bytes().to_vec(), contents.as_bytes().to_vec());
}

fn stage(repo: &mut Repository, ws: &Workspace, path: &str) {
    rygit::commands::add::run(&path.as_bytes().to_vec(), ws, repo).unwrap();
}

fn commit(repo: &mut Repository, message: &str) {
    rygit::commands::commit::run(message.as_bytes().to_vec(), repo).unwrap();
}

fn scenario_a() -> (Repository, Workspace) {
    let mut repo = Repository::init();
    let mut ws = Workspace::new();
    put(&mut ws, "a.txt", "a");
    stage(&mut repo, &ws, "a.txt");
    commit(&mut repo, "Initial");
    (repo, ws)
}

#[test]
fn init_add_commit_yields_one_file_tree() {
    let (repo, _ws) = scenario_a();
    let branch = repo.current_branch().unwrap();
    assert_eq!(b"master".to_vec(), *branch.name());
    let head_ref =
        rygit::branch::table_lookup(repo.refs(), &b"master".to_vec()).unwrap();
    let tree = rygit::tree::Tree::current(&head_ref, repo.store())
        .unwrap()
        .unwrap();
    assert_eq!(1, tree.entries().len());
    let entry = &tree.entries()[0];
    assert_eq!(b"a.txt".to_vec(), *entry.name());
    if let rygit::objects::Object::Blob(blob) = entry.object() {
        assert_eq!(b"a".to_vec(), blob.body(repo.store()).unwrap());
    } else {
        panic!("expected a file entry");
    }
}

#[test]
fn overwriting_a_file_shows_as_unstaged_modified() {
    let (repo, mut ws) = scenario_a();
    put(&mut ws, "a.txt", "b");
    let status = repo.status(&ws).unwrap();
    assert_eq!(0, status.staged_changes().len());
    assert_eq!(1, status.unstaged_changes().len());
    assert_eq!(b"a.txt".to_vec(), status.unstaged_changes()[0].path);
    assert_eq!(FileStatus::Modified, status.unstaged_changes()[0].status);
}

#[test]
fn staging_the_overwrite_moves_it_to_staged_modified() {
    let (mut repo, mut ws) = scenario_a();
    put(&mut ws, "a.txt", "b");
    stage(&mut repo, &ws, "a.txt");
    let status = repo.status(&ws).unwrap();
    assert_eq!(1, status.staged_changes().len());
    assert_eq!(b"a.txt".to_vec(), status.staged_changes()[0].path);
    assert_eq!(FileStatus::Modified, status.staged_changes()[0].status);
    assert_eq!(0, status.unstaged_changes().len());
}

#[test]
fn switching_branches_swaps_the_working_tree() {
    let (mut repo, mut ws) = scenario_a();
    repo.branch_create(&b"feature".to_vec()).unwrap();
    repo.switch(&b"feature".to_vec(), &mut ws).unwrap();
    put(&mut ws, "b.txt", "b");
    stage(&mut repo, &ws, "b.txt");
    commit(&mut repo, "feature work");

    repo.switch(&b"master".to_vec(), &mut ws).unwrap();
    assert!(ws.read(&b"b.txt".to_vec()).is_none());
    assert_eq!(b"a".to_vec(), *ws.read(&b"a.txt".to_vec()).unwrap());

    repo.switch(&b"feature".to_vec(), &mut ws).unwrap();
    assert_eq!(b"b".to_vec(), *ws.read(&b"b.txt".to_vec()).unwrap());
}

#[test]
fn re_adding_a_directory_prunes_deleted_files() {
    let mut repo = Repository::init();
    let mut ws = Workspace::new();
    put(&mut ws, "dir/one.txt", "1");
    put(&mut ws, "dir/two.txt", "2");
    stage(&mut repo, &ws, "dir");
    assert_eq!(2, repo.index().files().len());

    ws.remove_file(&b"dir/one.txt".to_vec());
    stage(&mut repo, &ws, "dir");
    assert_eq!(1, repo.index().files().len());
    assert_eq!(b"dir/two.txt".to_vec(), *repo.index().files()[0].path());
}
