use vstd::prelude::*;

use crate::bytes::bytes_clone;
use crate::bytes::lex_lt;
use crate::blob::spec_blob_hash;
use crate::blob::Blob;
use crate::table::has_key;
use crate::table::lookup;
use crate::workspace::pair_views;
use crate::workspace::Workspace;

verus! {

/// How a path changed between two of the three file states.
#[derive(Debug, Clone, Copy, PartialEq, Eq, Structural)]
pub enum FileStatus {
    Deleted,
    Modified,
    Added,
}

/// One changed path.
#[derive(Debug)]
pub struct StatusEntry {
    pub path: Vec<u8>,
    pub status: FileStatus,
}

impl View for StatusEntry {
    type V = (Seq<u8>, FileStatus);

    closed spec fn view(&self) -> (Seq<u8>, FileStatus) {
        (self.path@, self.status)
    }
}

pub open spec fn entry_views(s: Seq<StatusEntry>) -> Seq<(Seq<u8>, FileStatus)> {
    s.map_values(|e: StatusEntry| e@)
}

/// How a path stands between the last commit and the stage: in the commit
/// but no longer staged, staged under another hash, or newly staged.
pub open spec fn staged_status(
    committed: Seq<(Seq<u8>, Seq<u8>)>,
    staged: Seq<(Seq<u8>, Seq<u8>)>,
    p: Seq<u8>,
) -> Option<FileStatus> {
    if has_key(committed, p) && !has_key(staged, p) {
        Some(FileStatus::Deleted)
    } else if has_key(committed, p) && has_key(staged, p) && lookup(committed, p) != lookup(
        staged,
        p,
    ) {
        Some(FileStatus::Modified)
    } else if !has_key(committed, p) && has_key(staged, p) {
        Some(FileStatus::Added)
    } else {
        None
    }
}

/// How a path stands between the stage and the working tree: staged but
/// gone from disk, or on disk under other contents.
pub open spec fn unstaged_status(
    staged: Seq<(Seq<u8>, Seq<u8>)>,
    working: Seq<(Seq<u8>, Seq<u8>)>,
    p: Seq<u8>,
) -> Option<FileStatus> {
    if has_key(staged, p) && !has_key(working, p) {
        Some(FileStatus::Deleted)
    } else if has_key(staged, p) && has_key(working, p) && lookup(staged, p) != lookup(working, p)
     {
        Some(FileStatus::Modified)
    } else {
        None
    }
}

/// A path on disk that the stage knows nothing of.
pub open spec fn is_untracked(
    staged: Seq<(Seq<u8>, Seq<u8>)>,
    working: Seq<(Seq<u8>, Seq<u8>)>,
    p: Seq<u8>,
) -> bool {
    has_key(working, p) && !has_key(staged, p)
}

/// The working tree as a (path, blob-hash) table.
pub open spec fn working_hashes(ws: Seq<(Seq<u8>, Seq<u8>)>) -> Seq<(Seq<u8>, Seq<u8>)> {
    ws.map_values(|e: (Seq<u8>, Seq<u8>)| (e.0, spec_blob_hash(e.1)))
}

/// A path falls in at most one staged class and at most one unstaged or
/// untracked class: the two comparisons are independent, and each is a
/// function of the path.
pub proof fn lemma_status_partition(
    committed: Seq<(Seq<u8>, Seq<u8>)>,
    staged: Seq<(Seq<u8>, Seq<u8>)>,
    working: Seq<(Seq<u8>, Seq<u8>)>,
    p: Seq<u8>,
)
    ensures
        staged_status(committed, staged, p) == Some(FileStatus::Added) ==> staged_status(
            committed,
            staged,
            p,
        ) != Some(FileStatus::Modified) && staged_status(committed, staged, p) != Some(
            FileStatus::Deleted,
        ),
        staged_status(committed, staged, p) == Some(FileStatus::Modified) ==> staged_status(
            committed,
            staged,
            p,
        ) != Some(FileStatus::Deleted),
        unstaged_status(staged, working, p) is Some ==> !is_untracked(staged, working, p),
        is_untracked(staged, working, p) ==> unstaged_status(staged, working, p) is None,
{
}

/// The three-way report: what is staged against the last commit, what the
/// working tree changed against the stage, and what is untracked.
#[derive(Debug)]
pub struct RepositoryStatus {
    staged_changes: Vec<StatusEntry>,
    unstaged_changes: Vec<StatusEntry>,
    untracked_files: Vec<Vec<u8>>,
}

impl RepositoryStatus {
    pub fn staged_changes(&self) -> (r: &Vec<StatusEntry>)
        ensures
            entry_views(r@) == self.staged_view(),
    {
        &self.staged_changes
    }

    pub fn unstaged_changes(&self) -> (r: &Vec<StatusEntry>)
        ensures
            entry_views(r@) == self.unstaged_view(),
    {
        &self.unstaged_changes
    }

    pub fn untracked_files(&self) -> (r: &Vec<Vec<u8>>)
        ensures
            crate::bytes::views(r@) == self.untracked_view(),
    {
        &self.untracked_files
    }

    /// What the staged list holds.
    pub closed spec fn staged_view(&self) -> Seq<(Seq<u8>, FileStatus)> {
        entry_views(self.staged_changes@)
    }

    pub closed spec fn unstaged_view(&self) -> Seq<(Seq<u8>, FileStatus)> {
        entry_views(self.unstaged_changes@)
    }

    pub closed spec fn untracked_view(&self) -> Seq<Seq<u8>> {
        crate::bytes::views(self.untracked_files@)
    }

    /// Computes the three-way diff of the committed tree, the staging
    /// index, and the working tree, each list sorted by path.
    #[verifier::rlimit(100)]
    pub fn load(committed: &Vec<(Vec<u8>, Vec<u8>)>, index: &crate::index::Index, ws: &Workspace) -> (r:
        RepositoryStatus)
        requires
            index.wf(),
            ws.wf(),
            crate::table::unique_keys(pair_views(committed@)),
        ensures
            forall|p: Seq<u8>, st: FileStatus|
                r.staged_view().contains((p, st)) <==> staged_status(
                    pair_views(committed@),
                    index@,
                    p,
                ) == Some(st),
            forall|p: Seq<u8>, st: FileStatus|
                r.unstaged_view().contains((p, st)) <==> unstaged_status(
                    index@,
                    working_hashes(ws@),
                    p,
                ) == Some(st),
            forall|p: Seq<u8>|
                r.untracked_view().contains(p) <==> is_untracked(index@, working_hashes(ws@), p),
            forall|i: int, j: int|
                0 <= i < j < r.staged_view().len() ==> lex_lt(
                    (#[trigger] r.staged_view()[i]).0,
                    (#[trigger] r.staged_view()[j]).0,
                ),
            forall|i: int, j: int|
                0 <= i < j < r.unstaged_view().len() ==> lex_lt(
                    (#[trigger] r.unstaged_view()[i]).0,
                    (#[trigger] r.unstaged_view()[j]).0,
                ),
            forall|i: int, j: int|
                0 <= i < j < r.untracked_view().len() ==> lex_lt(
                    #[trigger] r.untracked_view()[i],
                    #[trigger] r.untracked_view()[j],
                ),
    {
        broadcast use vstd::seq_lib::group_to_multiset_ensures;

        let ghost cv = pair_views(committed@);
        let ghost sv = index@;
        let ghost wv = working_hashes(ws@);
        proof {
            crate::table::lemma_lookup_all(cv);
            crate::table::lemma_sorted_keys_unique(sv);
            crate::table::lemma_lookup_all(sv);
            assert(crate::table::unique_keys(wv)) by {
                assert forall|i: int, j: int| 0 <= i < j < wv.len() implies (#[trigger] wv[i]).0
                    != (#[trigger] wv[j]).0 by {
                    assert(wv[i].0 == ws@[i].0 && wv[j].0 == ws@[j].0);
                }
            }
            crate::table::lemma_lookup_all(wv);
        }
        // The working tree, hashed.
        let mut working: Vec<(Vec<u8>, Vec<u8>)> = Vec::new();
        let wn = ws.file_count();
        let mut x: usize = 0;
        while x < wn
            invariant
                wn == ws@.len(),
                x <= wn,
                ws.wf(),
                wv == working_hashes(ws@),
                pair_views(working@) == wv.subrange(0, x as int),
            decreases wn - x,
        {
            let (p, c) = ws.file_at(x);
            let h = Blob::hash_for(c);
            let hv = h.to_vec();
            let pc = bytes_clone(p);
            let ghost old_w = pair_views(working@);
            working.push((pc, hv));
            proof {
                assert(pair_views(working@) =~= old_w.push((ws@[x as int].0, spec_blob_hash(
                    ws@[x as int].1,
                ))));
                assert(pair_views(working@) =~= wv.subrange(0, x + 1));
            }
            x = x + 1;
        }
        proof {
            assert(wv.subrange(0, wn as int) =~= wv);
        }
        // Committed paths: gone from the stage, or staged differently.
        let mut staged_changes: Vec<StatusEntry> = Vec::new();
        let cn = committed.len();
        let mut i: usize = 0;
        while i < cn
            invariant
                cn == committed@.len(),
                i <= cn,
                index.wf(),
                cv == pair_views(committed@),
                sv == index@,
                crate::table::unique_keys(cv),
                forall|j: int|
                    0 <= j < cv.len() ==> lookup(cv, (#[trigger] cv[j]).0) == Some(cv[j].1),
                forall|p: Seq<u8>, st: FileStatus|
                    #[trigger] entry_views(staged_changes@).contains((p, st)) ==> staged_status(
                        cv,
                        sv,
                        p,
                    ) == Some(st),
                forall|j: int|
                    0 <= j < i ==> (match staged_status(cv, sv, (#[trigger] cv[j]).0) {
                        Some(st) => entry_views(staged_changes@).contains((cv[j].0, st)),
                        None => true,
                    }),
            decreases cn - i,
        {
            let p = &committed[i].0;
            proof {
                assert(cv[i as int] == (committed@[i as int].0@, committed@[i as int].1@));
                assert(lookup(cv, p@) == Some(cv[i as int].1));
            }
            let status: Option<FileStatus> = match index.lookup_hash(p) {
                None => Some(FileStatus::Deleted),
                Some(h) => {
                    let hv = h.to_vec();
                    if !crate::bytes::bytes_eq(&hv, &committed[i].1) {
                        Some(FileStatus::Modified)
                    } else {
                        None
                    }
                },
            };
            match status {
                Some(st) => {
                    let ghost old_sc = entry_views(staged_changes@);
                    let e = StatusEntry { path: bytes_clone(p), status: st };
                    staged_changes.push(e);
                    proof {
                        assert(entry_views(staged_changes@) =~= old_sc.push((p@, st)));
                        crate::table::lemma_push_contains(old_sc, (p@, st));
                        assert(staged_status(cv, sv, p@) == Some(st));
                    }
                },
                None => {},
            }
            i = i + 1;
        }
        // Staged paths: new against the commit, or gone from disk.
        let mut unstaged_changes: Vec<StatusEntry> = Vec::new();
        let files = index.files();
        let sn = files.len();
        let mut i2: usize = 0;
        while i2 < sn
            invariant
                sn == sv.len(),
                crate::index::entry_views(files@) == sv,
                sn == files@.len(),
                i2 <= sn,
                index.wf(),
                ws.wf(),
                cv == pair_views(committed@),
                sv == index@,
                wv == working_hashes(ws@),
                pair_views(working@) == wv,
                crate::table::unique_keys(cv),
                forall|j: int|
                    0 <= j < sv.len() ==> lookup(sv, (#[trigger] sv[j]).0) == Some(sv[j].1),
                forall|p: Seq<u8>, st: FileStatus|
                    #[trigger] entry_views(staged_changes@).contains((p, st)) ==> staged_status(
                        cv,
                        sv,
                        p,
                    ) == Some(st),
                forall|j: int|
                    0 <= j < cv.len() ==> (match staged_status(cv, sv, (#[trigger] cv[j]).0) {
                        Some(st) => entry_views(staged_changes@).contains((cv[j].0, st)),
                        None => true,
                    }),
                forall|j: int|
                    0 <= j < i2 && staged_status(cv, sv, (#[trigger] sv[j]).0) == Some(
                        FileStatus::Added,
                    ) ==> entry_views(staged_changes@).contains((sv[j].0, FileStatus::Added)),
                forall|p: Seq<u8>, st: FileStatus|
                    #[trigger] entry_views(unstaged_changes@).contains((p, st))
                        ==> unstaged_status(sv, wv, p) == Some(st),
                forall|j: int|
                    0 <= j < i2 && unstaged_status(sv, wv, (#[trigger] sv[j]).0) == Some(
                        FileStatus::Deleted,
                    ) ==> entry_views(unstaged_changes@).contains(
                        (sv[j].0, FileStatus::Deleted),
                    ),
            decreases sn - i2,
        {
            let p = files[i2].path();
            proof {
                assert(sv[i2 as int] == files@[i2 as int]@);
                assert(lookup(sv, p@) == Some(sv[i2 as int].1));
            }
            let in_commit = table_has(committed, p);
            if !in_commit {
                let ghost old_sc = entry_views(staged_changes@);
                let e = StatusEntry { path: bytes_clone(p), status: FileStatus::Added };
                staged_changes.push(e);
                proof {
                    assert(entry_views(staged_changes@) =~= old_sc.push((p@, FileStatus::Added)));
                    crate::table::lemma_push_contains(old_sc, (p@, FileStatus::Added));
                    assert(staged_status(cv, sv, p@) == Some(FileStatus::Added));
                }
            }
            let on_disk = table_has(&working, p);
            if !on_disk {
                let ghost old_uc = entry_views(unstaged_changes@);
                let e = StatusEntry { path: bytes_clone(p), status: FileStatus::Deleted };
                unstaged_changes.push(e);
                proof {
                    assert(entry_views(unstaged_changes@) =~= old_uc.push(
                        (p@, FileStatus::Deleted),
                    ));
                    crate::table::lemma_push_contains(old_uc, (p@, FileStatus::Deleted));
                    assert(unstaged_status(sv, wv, p@) == Some(FileStatus::Deleted));
                }
            }
            i2 = i2 + 1;
        }
        // Working paths: modified against the stage, or untracked.
        let mut untracked_files: Vec<Vec<u8>> = Vec::new();
        let mut i3: usize = 0;
        let wn2 = working.len();
        while i3 < wn2
            invariant
                wn2 == wv.len(),
                wn2 == working@.len(),
                i3 <= wn2,
                index.wf(),
                sv == index@,
                pair_views(working@) == wv,
                crate::table::unique_keys(wv),
                forall|j: int|
                    0 <= j < wv.len() ==> lookup(wv, (#[trigger] wv[j]).0) == Some(wv[j].1),
                forall|p: Seq<u8>, st: FileStatus|
                    #[trigger] entry_views(unstaged_changes@).contains((p, st))
                        ==> unstaged_status(sv, wv, p) == Some(st),
                forall|j: int|
                    0 <= j < sv.len() && unstaged_status(sv, wv, (#[trigger] sv[j]).0) == Some(
                        FileStatus::Deleted,
                    ) ==> entry_views(unstaged_changes@).contains(
                        (sv[j].0, FileStatus::Deleted),
                    ),
                forall|j: int|
                    0 <= j < i3 && unstaged_status(sv, wv, (#[trigger] wv[j]).0) == Some(
                        FileStatus::Modified,
                    ) ==> entry_views(unstaged_changes@).contains(
                        (wv[j].0, FileStatus::Modified),
                    ),
                forall|p: Seq<u8>|
                    #[trigger] crate::bytes::views(untracked_files@).contains(p) ==> is_untracked(
                        sv,
                        wv,
                        p,
                    ),
                forall|j: int|
                    0 <= j < i3 && is_untracked(sv, wv, (#[trigger] wv[j]).0)
                        ==> crate::bytes::views(untracked_files@).contains(wv[j].0),
            decreases wn2 - i3,
        {
            let p = &working[i3].0;
            proof {
                assert(wv[i3 as int] == (working@[i3 as int].0@, working@[i3 as int].1@));
                assert(lookup(wv, p@) == Some(wv[i3 as int].1));
            }
            match index.lookup_hash(p) {
                None => {
                    let ghost old_ut = crate::bytes::views(untracked_files@);
                    untracked_files.push(bytes_clone(p));
                    proof {
                        assert(crate::bytes::views(untracked_files@) =~= old_ut.push(p@));
                        crate::table::lemma_push_contains(old_ut, p@);
                        assert(is_untracked(sv, wv, p@));
                    }
                },
                Some(h) => {
                    let hv = h.to_vec();
                    if !crate::bytes::bytes_eq(&hv, &working[i3].1) {
                        let ghost old_uc = entry_views(unstaged_changes@);
                        let e = StatusEntry {
                            path: bytes_clone(p),
                            status: FileStatus::Modified,
                        };
                        unstaged_changes.push(e);
                        proof {
                            assert(entry_views(unstaged_changes@) =~= old_uc.push(
                                (p@, FileStatus::Modified),
                            ));
                            crate::table::lemma_push_contains(
                                old_uc,
                                (p@, FileStatus::Modified),
                            );
                            assert(unstaged_status(sv, wv, p@) == Some(FileStatus::Modified));
                        }
                    } else {
                        proof {
                            assert(unstaged_status(sv, wv, p@) != Some(FileStatus::Modified));
                        }
                    }
                },
            }
            i3 = i3 + 1;
        }
        let ghost pre_sc = entry_views(staged_changes@);
        let ghost pre_uc = entry_views(unstaged_changes@);
        let ghost pre_ut = crate::bytes::views(untracked_files@);
        let staged_sorted = sort_entries(staged_changes);
        let unstaged_sorted = sort_entries(unstaged_changes);
        let untracked_sorted = crate::bytes::sort_byte_vecs(untracked_files);
        let ghost ssc = entry_views(staged_sorted@);
        let ghost suc = entry_views(unstaged_sorted@);
        let ghost sut = crate::bytes::views(untracked_sorted@);
        proof {
            pre_sc.to_multiset_ensures();
            ssc.to_multiset_ensures();
            pre_uc.to_multiset_ensures();
            suc.to_multiset_ensures();
            pre_ut.to_multiset_ensures();
            sut.to_multiset_ensures();
            assert forall|p: Seq<u8>, st: FileStatus| #[trigger] ssc.contains((p, st)) implies
                staged_status(cv, sv, p) == Some(st) by {
                vstd::seq_lib::to_multiset_contains(pre_sc, (p, st));
                vstd::seq_lib::to_multiset_contains(ssc, (p, st));
                assert(pre_sc.contains((p, st)));
            }
            assert forall|p: Seq<u8>, st: FileStatus|
                staged_status(cv, sv, p) == Some(st) implies #[trigger] ssc.contains((p, st)) by {
                crate::table::lemma_lookup_some(cv, p);
                crate::table::lemma_lookup_some(sv, p);
                vstd::seq_lib::to_multiset_contains(pre_sc, (p, st));
                vstd::seq_lib::to_multiset_contains(ssc, (p, st));
                if st == FileStatus::Added {
                    let j = choose|j: int| 0 <= j < sv.len() && (#[trigger] sv[j]).0 == p;
                    assert(pre_sc.contains((p, st)));
                } else {
                    let j = choose|j: int| 0 <= j < cv.len() && (#[trigger] cv[j]).0 == p;
                    assert(pre_sc.contains((p, st)));
                }
            }
            assert forall|p: Seq<u8>, st: FileStatus| #[trigger] suc.contains((p, st)) implies
                unstaged_status(sv, wv, p) == Some(st) by {
                vstd::seq_lib::to_multiset_contains(pre_uc, (p, st));
                vstd::seq_lib::to_multiset_contains(suc, (p, st));
                assert(pre_uc.contains((p, st)));
            }
            assert forall|p: Seq<u8>, st: FileStatus|
                unstaged_status(sv, wv, p) == Some(st) implies #[trigger] suc.contains(
                (p, st),
            ) by {
                crate::table::lemma_lookup_some(sv, p);
                crate::table::lemma_lookup_some(wv, p);
                vstd::seq_lib::to_multiset_contains(pre_uc, (p, st));
                vstd::seq_lib::to_multiset_contains(suc, (p, st));
                if st == FileStatus::Deleted {
                    let j = choose|j: int| 0 <= j < sv.len() && (#[trigger] sv[j]).0 == p;
                    assert(pre_uc.contains((p, st)));
                } else {
                    let j = choose|j: int| 0 <= j < wv.len() && (#[trigger] wv[j]).0 == p;
                    assert(pre_uc.contains((p, st)));
                }
            }
            assert forall|p: Seq<u8>| #[trigger] sut.contains(p) implies is_untracked(
                sv,
                wv,
                p,
            ) by {
                vstd::seq_lib::to_multiset_contains(pre_ut, p);
                vstd::seq_lib::to_multiset_contains(sut, p);
                assert(pre_ut.contains(p));
            }
            assert forall|p: Seq<u8>| is_untracked(sv, wv, p) implies #[trigger] sut.contains(
                p,
            ) by {
                vstd::seq_lib::to_multiset_contains(pre_ut, p);
                vstd::seq_lib::to_multiset_contains(sut, p);
                crate::table::lemma_lookup_some(wv, p);
                let j = choose|j: int| 0 <= j < wv.len() && (#[trigger] wv[j]).0 == p;
                assert(pre_ut.contains(p));
            }
            // One classification per path: entries of one path coincide.
            assert forall|i: int, j: int|
                0 <= i < ssc.len() && 0 <= j < ssc.len() && (#[trigger] ssc[i]).0 == (
            #[trigger] ssc[j]).0 implies ssc[i] == ssc[j] by {
                assert(ssc.contains(ssc[i]) && ssc.contains(ssc[j]));
            }
            assert forall|i: int, j: int|
                0 <= i < suc.len() && 0 <= j < suc.len() && (#[trigger] suc[i]).0 == (
            #[trigger] suc[j]).0 implies suc[i] == suc[j] by {
                assert(suc.contains(suc[i]) && suc.contains(suc[j]));
            }
        }
        let staged_changes = dedup_entries(staged_sorted);
        let unstaged_changes = dedup_entries(unstaged_sorted);
        let untracked_files = dedup_paths(untracked_sorted);
        let r = RepositoryStatus { staged_changes, unstaged_changes, untracked_files };
        r
    }
}

/// Keeps the first entry of each path run of a sorted list whose equal
/// paths carry equal entries: paths come out strictly ascending, and
/// nothing is gained or lost.
fn dedup_entries(input: Vec<StatusEntry>) -> (r: Vec<StatusEntry>)
    requires
        forall|i: int, j: int|
            0 <= i < j < input@.len() ==> lex_lt(
                (#[trigger] entry_views(input@)[i]).0,
                (#[trigger] entry_views(input@)[j]).0,
            ) || entry_views(input@)[i].0 == entry_views(input@)[j].0,
        forall|i: int, j: int|
            0 <= i < input@.len() && 0 <= j < input@.len() && (#[trigger] entry_views(
                input@,
            )[i]).0 == (#[trigger] entry_views(input@)[j]).0 ==> entry_views(input@)[i]
                == entry_views(input@)[j],
    ensures
        forall|i: int, j: int|
            0 <= i < j < r@.len() ==> lex_lt(
                (#[trigger] entry_views(r@)[i]).0,
                (#[trigger] entry_views(r@)[j]).0,
            ),
        forall|e: (Seq<u8>, FileStatus)|
            #[trigger] entry_views(r@).contains(e) <==> entry_views(input@).contains(e),
{
    let mut out: Vec<StatusEntry> = Vec::new();
    let ghost mut last_src: int = -1;
    let n = input.len();
    let mut i: usize = 0;
    while i < n
        invariant
            n == input@.len(),
            i <= n,
            forall|x: int, y: int|
                0 <= x < y < input@.len() ==> lex_lt(
                    (#[trigger] entry_views(input@)[x]).0,
                    (#[trigger] entry_views(input@)[y]).0,
                ) || entry_views(input@)[x].0 == entry_views(input@)[y].0,
            forall|x: int, y: int|
                0 <= x < input@.len() && 0 <= y < input@.len() && (#[trigger] entry_views(
                    input@,
                )[x]).0 == (#[trigger] entry_views(input@)[y]).0 ==> entry_views(input@)[x]
                    == entry_views(input@)[y],
            (out@.len() > 0) == (last_src >= 0),
            out@.len() > 0 ==> 0 <= last_src < i && entry_views(out@).last() == entry_views(
                input@,
            )[last_src],
            forall|x: int, y: int|
                0 <= x < y < out@.len() ==> lex_lt(
                    (#[trigger] entry_views(out@)[x]).0,
                    (#[trigger] entry_views(out@)[y]).0,
                ),
            forall|x: int|
                0 <= x < out@.len() ==> entry_views(input@).contains(
                    #[trigger] entry_views(out@)[x],
                ),
            forall|j: int|
                0 <= j < i ==> entry_views(out@).contains(#[trigger] entry_views(input@)[j]),
        decreases n - i,
    {
        proof {
            assert(entry_views(input@)[i as int] == input@[i as int]@);
        }
        let push_it = if out.len() == 0 {
            true
        } else {
            proof {
                assert(entry_views(out@)[out@.len() - 1] == out@[out@.len() - 1]@);
            }
            !crate::bytes::bytes_eq(&out[out.len() - 1].path, &input[i].path)
        };
        if push_it {
            let ghost old_out = entry_views(out@);
            let e = StatusEntry { path: bytes_clone(&input[i].path), status: input[i].status };
            out.push(e);
            proof {
                assert(entry_views(out@) =~= old_out.push(entry_views(input@)[i as int]));
                crate::table::lemma_push_contains(old_out, entry_views(input@)[i as int]);
                if old_out.len() > 0 {
                    assert forall|x: int, y: int|
                        0 <= x < y < entry_views(out@).len() implies lex_lt(
                        (#[trigger] entry_views(out@)[x]).0,
                        (#[trigger] entry_views(out@)[y]).0,
                    ) by {
                        if y == entry_views(out@).len() - 1 {
                            assert(entry_views(out@)[x] == old_out[x]);
                            let lastv = old_out[old_out.len() - 1];
                            assert(lastv == entry_views(input@)[last_src]);
                            assert(lex_lt(lastv.0, entry_views(input@)[i as int].0)) by {
                                assert(lex_lt(
                                    entry_views(input@)[last_src].0,
                                    entry_views(input@)[i as int].0,
                                ) || entry_views(input@)[last_src].0 == entry_views(
                                    input@,
                                )[i as int].0);
                            }
                            if x < old_out.len() - 1 {
                                crate::bytes::lemma_lex_lt_transitive(
                                    entry_views(out@)[x].0,
                                    lastv.0,
                                    entry_views(input@)[i as int].0,
                                );
                            }
                        } else {
                            assert(entry_views(out@)[x] == old_out[x]);
                            assert(entry_views(out@)[y] == old_out[y]);
                        }
                    }
                }
                last_src = i as int;
            }
        } else {
            proof {
                // The run continues: this entry equals the one kept.
                assert(entry_views(input@)[last_src].0 == entry_views(input@)[i as int].0);
                assert(entry_views(input@)[last_src] == entry_views(input@)[i as int]);
                assert(entry_views(out@).contains(entry_views(input@)[i as int])) by {
                    assert(entry_views(out@)[entry_views(out@).len() - 1] == entry_views(
                        input@,
                    )[i as int]);
                }
            }
        }
        i = i + 1;
    }
    proof {
        assert forall|e: (Seq<u8>, FileStatus)| entry_views(input@).contains(e) implies
            #[trigger] entry_views(out@).contains(e) by {
            let j = choose|j: int|
                0 <= j < entry_views(input@).len() && entry_views(input@)[j] == e;
            assert(entry_views(out@).contains(entry_views(input@)[j]));
        }
    }
    out
}

/// The same first-of-each-run pass for plain paths.
fn dedup_paths(input: Vec<Vec<u8>>) -> (r: Vec<Vec<u8>>)
    requires
        forall|i: int, j: int|
            0 <= i < j < input@.len() ==> lex_lt(
                #[trigger] crate::bytes::views(input@)[i],
                #[trigger] crate::bytes::views(input@)[j],
            ) || crate::bytes::views(input@)[i] == crate::bytes::views(input@)[j],
    ensures
        forall|i: int, j: int|
            0 <= i < j < r@.len() ==> lex_lt(
                #[trigger] crate::bytes::views(r@)[i],
                #[trigger] crate::bytes::views(r@)[j],
            ),
        forall|p: Seq<u8>|
            #[trigger] crate::bytes::views(r@).contains(p) <==> crate::bytes::views(
                input@,
            ).contains(p),
{
    let mut out: Vec<Vec<u8>> = Vec::new();
    let ghost mut last_src: int = -1;
    let n = input.len();
    let mut i: usize = 0;
    while i < n
        invariant
            n == input@.len(),
            i <= n,
            forall|x: int, y: int|
                0 <= x < y < input@.len() ==> lex_lt(
                    #[trigger] crate::bytes::views(input@)[x],
                    #[trigger] crate::bytes::views(input@)[y],
                ) || crate::bytes::views(input@)[x] == crate::bytes::views(input@)[y],
            (out@.len() > 0) == (last_src >= 0),
            out@.len() > 0 ==> 0 <= last_src < i && crate::bytes::views(out@).last()
                == crate::bytes::views(input@)[last_src],
            forall|x: int, y: int|
                0 <= x < y < out@.len() ==> lex_lt(
                    #[trigger] crate::bytes::views(out@)[x],
                    #[trigger] crate::bytes::views(out@)[y],
                ),
            forall|x: int|
                0 <= x < out@.len() ==> crate::bytes::views(input@).contains(
                    #[trigger] crate::bytes::views(out@)[x],
                ),
            forall|j: int|
                0 <= j < i ==> crate::bytes::views(out@).contains(
                    #[trigger] crate::bytes::views(input@)[j],
                ),
        decreases n - i,
    {
        proof {
            assert(crate::bytes::views(input@)[i as int] == input@[i as int]@);
        }
        let push_it = if out.len() == 0 {
            true
        } else {
            proof {
                assert(crate::bytes::views(out@)[out@.len() - 1] == out@[out@.len() - 1]@);
            }
            !crate::bytes::bytes_eq(&out[out.len() - 1], &input[i])
        };
        if push_it {
            let ghost old_out = crate::bytes::views(out@);
            out.push(bytes_clone(&input[i]));
            proof {
                assert(crate::bytes::views(out@) =~= old_out.push(
                    crate::bytes::views(input@)[i as int],
                ));
                crate::table::lemma_push_contains(
                    old_out,
                    crate::bytes::views(input@)[i as int],
                );
                if old_out.len() > 0 {
                    assert forall|x: int, y: int|
                        0 <= x < y < crate::bytes::views(out@).len() implies lex_lt(
                        #[trigger] crate::bytes::views(out@)[x],
                        #[trigger] crate::bytes::views(out@)[y],
                    ) by {
                        if y == crate::bytes::views(out@).len() - 1 {
                            assert(crate::bytes::views(out@)[x] == old_out[x]);
                            let lastv = old_out[old_out.len() - 1];
                            assert(lastv == crate::bytes::views(input@)[last_src]);
                            assert(lex_lt(lastv, crate::bytes::views(input@)[i as int])) by {
                                assert(lex_lt(
                                    crate::bytes::views(input@)[last_src],
                                    crate::bytes::views(input@)[i as int],
                                ) || crate::bytes::views(input@)[last_src] == crate::bytes::views(
                                    input@,
                                )[i as int]);
                            }
                            if x < old_out.len() - 1 {
                                crate::bytes::lemma_lex_lt_transitive(
                                    crate::bytes::views(out@)[x],
                                    lastv,
                                    crate::bytes::views(input@)[i as int],
                                );
                            }
                        } else {
                            assert(crate::bytes::views(out@)[x] == old_out[x]);
                            assert(crate::bytes::views(out@)[y] == old_out[y]);
                        }
                    }
                }
                last_src = i as int;
            }
        } else {
            proof {
                assert(crate::bytes::views(input@)[last_src] == crate::bytes::views(
                    input@,
                )[i as int]);
                assert(crate::bytes::views(out@).contains(
                    crate::bytes::views(input@)[i as int],
                )) by {
                    assert(crate::bytes::views(out@)[crate::bytes::views(out@).len() - 1]
                        == crate::bytes::views(input@)[i as int]);
                }
            }
        }
        i = i + 1;
    }
    proof {
        assert forall|p: Seq<u8>| crate::bytes::views(input@).contains(p) implies
            #[trigger] crate::bytes::views(out@).contains(p) by {
            let j = choose|j: int|
                0 <= j < crate::bytes::views(input@).len() && crate::bytes::views(input@)[j] == p;
            assert(crate::bytes::views(out@).contains(crate::bytes::views(input@)[j]));
        }
    }
    out
}

/// Whether the table holds key `p`.
fn table_has(t: &Vec<(Vec<u8>, Vec<u8>)>, p: &Vec<u8>) -> (r: bool)
    ensures
        r == has_key(pair_views(t@), p@),
{
    proof {
        crate::table::lemma_lookup_some(pair_views(t@), p@);
    }
    let n = t.len();
    for i in 0..n
        invariant
            n == t@.len(),
            forall|j: int| 0 <= j < i ==> (#[trigger] pair_views(t@)[j]).0 != p@,
    {
        proof {
            assert(pair_views(t@)[i as int] == (t@[i as int].0@, t@[i as int].1@));
        }
        if crate::bytes::bytes_eq(&t[i].0, p) {
            proof {
                crate::table::lemma_lookup_some(pair_views(t@), p@);
                assert((#[trigger] pair_views(t@)[i as int]).0 == p@);
            }
            return true;
        }
    }
    false
}

/// Sorts status entries by path, keeping every entry.
fn sort_entries(input: Vec<StatusEntry>) -> (r: Vec<StatusEntry>)
    ensures
        entry_views(r@).to_multiset() == entry_views(input@).to_multiset(),
        forall|i: int, j: int|
            0 <= i < j < r@.len() ==> lex_lt(
                (#[trigger] entry_views(r@)[i]).0,
                (#[trigger] entry_views(r@)[j]).0,
            ) || entry_views(r@)[i].0 == entry_views(r@)[j].0,
{
    broadcast use vstd::seq_lib::group_to_multiset_ensures;

    let mut acc: Vec<StatusEntry> = Vec::new();
    let n = input.len();
    let mut i: usize = 0;
    while i < n
        invariant
            n == input@.len(),
            i <= n,
            entry_views(acc@).to_multiset() == entry_views(input@).subrange(
                0,
                i as int,
            ).to_multiset(),
            forall|a: int, b: int|
                0 <= a < b < acc@.len() ==> lex_lt(
                    (#[trigger] entry_views(acc@)[a]).0,
                    (#[trigger] entry_views(acc@)[b]).0,
                ) || entry_views(acc@)[a].0 == entry_views(acc@)[b].0,
        decreases n - i,
    {
        let x = StatusEntry { path: bytes_clone(&input[i].path), status: input[i].status };
        proof {
            assert(x@ == input@[i as int]@);
        }
        let m = acc.len();
        let mut pos: usize = 0;
        loop
            invariant
                m == acc@.len(),
                pos <= m,
                i < input@.len(),
                x@ == input@[i as int]@,
                forall|a: int|
                    0 <= a < pos ==> lex_lt((#[trigger] entry_views(acc@)[a]).0, x@.0)
                        || entry_views(acc@)[a].0 == x@.0,
            ensures
                pos <= m,
                forall|a: int|
                    0 <= a < pos ==> lex_lt((#[trigger] entry_views(acc@)[a]).0, x@.0)
                        || entry_views(acc@)[a].0 == x@.0,
                pos < m ==> !lex_lt(entry_views(acc@)[pos as int].0, x@.0),
            decreases m - pos,
        {
            if pos >= m {
                break;
            }
            proof {
                assert(entry_views(acc@)[pos as int] == acc@[pos as int]@);
            }
            if !crate::bytes::bytes_lt(&acc[pos].path, &x.path) {
                break;
            }
            pos = pos + 1;
        }
        let ghost old_acc = entry_views(acc@);
        acc.insert(pos, x);
        proof {
            assert(entry_views(acc@) =~= old_acc.insert(pos as int, input@[i as int]@));
            let cur = entry_views(input@).subrange(0, i + 1);
            assert(cur.drop_last() =~= entry_views(input@).subrange(0, i as int));
            assert(cur.last() == input@[i as int]@);
            assert(cur =~= entry_views(input@).subrange(0, i as int).push(input@[i as int]@));
            assert(old_acc.insert(pos as int, input@[i as int]@) =~= old_acc.subrange(
                0,
                pos as int,
            ) + seq![input@[i as int]@] + old_acc.subrange(pos as int, m as int));
            lemma_entry_multiset_parts(old_acc, pos as int, input@[i as int]@);
            assert(entry_views(acc@).to_multiset() =~= old_acc.to_multiset().insert(
                input@[i as int]@,
            ));
            entry_views(input@).subrange(0, i as int).to_multiset_ensures();
            assert(cur.to_multiset() =~= entry_views(input@).subrange(0, i as int).to_multiset()
                .insert(input@[i as int]@));
            assert(entry_views(acc@).to_multiset() =~= entry_views(input@).subrange(
                0,
                i + 1,
            ).to_multiset());
            assert forall|a: int, b: int|
                0 <= a < b < entry_views(acc@).len() implies lex_lt(
                (#[trigger] entry_views(acc@)[a]).0,
                (#[trigger] entry_views(acc@)[b]).0,
            ) || entry_views(acc@)[a].0 == entry_views(acc@)[b].0 by {
                let v = entry_views(acc@);
                let q = pos as int;
                if a < q && b < q {
                    assert(v[a] == old_acc[a] && v[b] == old_acc[b]);
                } else if a < q && b == q {
                    assert(v[a] == old_acc[a]);
                } else if a < q && b > q {
                    assert(v[a] == old_acc[a] && v[b] == old_acc[b - 1]);
                } else if a == q && b > q {
                    assert(v[b] == old_acc[b - 1]);
                    if pos < m {
                        crate::bytes::lemma_lex_lt_trichotomy(v[a].0, old_acc[q].0);
                        if b - 1 > q {
                            lemma_weak_trans(v[a].0, old_acc[q].0, old_acc[b - 1].0);
                        }
                    }
                } else if a > q && b > q {
                    assert(v[a] == old_acc[a - 1] && v[b] == old_acc[b - 1]);
                }
            }
        }
        i = i + 1;
    }
    proof {
        assert(entry_views(input@).subrange(0, n as int) =~= entry_views(input@));
    }
    acc
}

proof fn lemma_weak_trans(a: Seq<u8>, b: Seq<u8>, c: Seq<u8>)
    requires
        lex_lt(a, b) || a == b,
        lex_lt(b, c) || b == c,
    ensures
        lex_lt(a, c) || a == c,
{
    if a != b && b != c {
        crate::bytes::lemma_lex_lt_transitive(a, b, c);
    }
}

proof fn lemma_entry_multiset_parts(s: Seq<(Seq<u8>, FileStatus)>, pos: int, x: (Seq<u8>, FileStatus))
    requires
        0 <= pos <= s.len(),
    ensures
        (s.subrange(0, pos) + seq![x] + s.subrange(pos, s.len() as int)).to_multiset()
            == s.to_multiset().insert(x),
{
    broadcast use vstd::seq_lib::group_to_multiset_ensures;

    let a = s.subrange(0, pos);
    let b = s.subrange(pos, s.len() as int);
    vstd::seq_lib::lemma_multiset_commutative(a + seq![x], b);
    vstd::seq_lib::lemma_multiset_commutative(a, seq![x]);
    vstd::seq_lib::lemma_multiset_commutative(a, b);
    assert(a + b =~= s);
    assert(seq![x].to_multiset() =~= vstd::multiset::Multiset::<(Seq<u8>, FileStatus)>::empty()
        .insert(x)) by {
        assert(seq![x] =~= Seq::<(Seq<u8>, FileStatus)>::empty().push(x));
        assert(Seq::<(Seq<u8>, FileStatus)>::empty().push(x).to_multiset() =~= Seq::<
            (Seq<u8>, FileStatus),
        >::empty().to_multiset().insert(x));
    }
    assert((a + seq![x] + b).to_multiset() =~= s.to_multiset().insert(x));
}

} // verus!
