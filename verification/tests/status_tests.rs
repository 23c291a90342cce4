use rygit::repository::Repository;
use rygit::repository_status::FileStatus;
use rygit::workspace::Workspace;

fn put(ws: &mut Workspace, path: &str, contents: &str) {
    ws.set_file(path.as_bytes().to_vec(), contents.as_bytes().to_vec());
}

fn stage(repo: &mut Repository, ws: &Workspace, path: &str) {
    rygit::commands::add::run(&path.as_bytes().to_vec(), ws, repo).unwrap();
}

fn commit(repo: &mut Repository, message: &str) {
    rygit::commands::commit::run(message.as_bytes().to_vec(), repo).unwrap();
}

fn untracked_check(with_initial_commit: bool) {
    let mut repo = Repository::init();
    let mut ws = Workspace::new();
    put(&mut ws, "a.txt", "a");

    if with_initial_commit {
        put(&mut ws, "b.txt", "b");
        stage(&mut repo, &ws, "b.txt");
        commit(&mut repo, "Initial commit");
    }

    let status = repo.status(&ws).unwrap();
    assert_eq!(1, status.untracked_files().len());
    assert_eq!(b"a.txt".to_vec(), status.untracked_files()[0]);

    stage(&mut repo, &ws, "a.txt");
    let status = repo.status(&ws).unwrap();
    assert_eq!(0, status.untracked_files().len());
}

#[test]
fn test_untracked_files_no_commits() {
    untracked_check(false);
}

#[test]
fn test_untracked_files_with_commits() {
    untracked_check(true);
}

fn staged_check(with_initial_commit: bool) {
    let mut repo = Repository::init();
    let mut ws = Workspace::new();
    if with_initial_commit {
        put(&mut ws, "bogus.txt", "bogus");
        stage(&mut repo, &ws, "");
        commit(&mut repo, "Initial commit");
    }
    put(&mut ws, "a.txt", "a");
    stage(&mut repo, &ws, "");

    let status = repo.status(&ws).unwrap();
    assert_eq!(1, status.staged_changes().len());
    assert_eq!(b"a.txt".to_vec(), status.staged_changes()[0].path);
    assert_eq!(FileStatus::Added, status.staged_changes()[0].status);

    commit(&mut repo, "Commit 1");
    put(&mut ws, "a.txt", "b");
    stage(&mut repo, &ws, "");
    let status = repo.status(&ws).unwrap();
    assert_eq!(1, status.staged_changes().len());
    assert_eq!(b"a.txt".to_vec(), status.staged_changes()[0].path);
    assert_eq!(FileStatus::Modified, status.staged_changes()[0].status);

    commit(&mut repo, "Commit 2");
    ws.remove_file(&b"a.txt".to_vec());
    stage(&mut repo, &ws, "");
    let status = repo.status(&ws).unwrap();
    assert_eq!(1, status.staged_changes().len());
    assert_eq!(b"a.txt".to_vec(), status.staged_changes()[0].path);
    assert_eq!(FileStatus::Deleted, status.staged_changes()[0].status);
}

#[test]
fn test_staged_changes_no_commits() {
    staged_check(false);
}

#[test]
fn test_staged_changes_with_commits() {
    staged_check(true);
}

#[test]
fn test_unstaged_changes() {
    let mut repo = Repository::init();
    let mut ws = Workspace::new();
    put(&mut ws, "a.txt", "a");
    put(&mut ws, "b.txt", "b");
    stage(&mut repo, &ws, "");
    commit(&mut repo, "Initial commit");
    put(&mut ws, "a.txt", "b");
    ws.remove_file(&b"b.txt".to_vec());
    put(&mut ws, "c.txt", "c");

    let status = repo.status(&ws).unwrap();
    assert_eq!(2, status.unstaged_changes().len());
    assert_eq!(b"a.txt".to_vec(), status.unstaged_changes()[0].path);
    assert_eq!(FileStatus::Modified, status.unstaged_changes()[0].status);
    assert_eq!(b"b.txt".to_vec(), status.unstaged_changes()[1].path);
    assert_eq!(FileStatus::Deleted, status.unstaged_changes()[1].status);
}

#[test]
fn test_clean_repo() {
    let repo = Repository::init();
    let ws = Workspace::new();
    let status = repo.status(&ws).unwrap();

    assert!(status.staged_changes().is_empty());
    assert!(status.unstaged_changes().is_empty());
    assert!(status.untracked_files().is_empty());
}
