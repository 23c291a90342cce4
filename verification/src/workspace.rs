use vstd::prelude::*;

use crate::bytes::bytes_clone;
use crate::bytes::bytes_eq;
use crate::paths::path_under_dir;
use crate::paths::paths_conflict;
use crate::paths::under_dir;
use crate::paths::valid_path;
use crate::table::has_key;
use crate::table::lookup;
use crate::table::unique_keys;

verus! {

/// The working tree as values: every file under the repository root —
/// the metadata directory aside — with its contents, keyed by its
/// repository-relative path.
pub struct Workspace {
    files: Vec<(Vec<u8>, Vec<u8>)>,
}

pub open spec fn pair_views(s: Seq<(Vec<u8>, Vec<u8>)>) -> Seq<(Seq<u8>, Seq<u8>)> {
    s.map_values(|p: (Vec<u8>, Vec<u8>)| (p.0@, p.1@))
}

impl View for Workspace {
    type V = Seq<(Seq<u8>, Seq<u8>)>;

    closed spec fn view(&self) -> Seq<(Seq<u8>, Seq<u8>)> {
        pair_views(self.files@)
    }
}

/// What any real directory tree obeys: well-formed paths, each path once,
/// and no path both a file and a directory.
pub open spec fn workspace_wf(t: Seq<(Seq<u8>, Seq<u8>)>) -> bool {
    &&& unique_keys(t)
    &&& forall|i: int| 0 <= i < t.len() ==> valid_path((#[trigger] t[i]).0)
    &&& forall|i: int, j: int|
        0 <= i < t.len() && 0 <= j < t.len() && i != j ==> !under_dir(
            (#[trigger] t[i]).0,
            (#[trigger] t[j]).0,
        )
}

impl Workspace {
    pub open spec fn wf(&self) -> bool {
        workspace_wf(self@)
    }

    /// An empty working tree.
    pub fn new() -> (ws: Workspace)
        ensures
            ws.wf(),
            ws@ == Seq::<(Seq<u8>, Seq<u8>)>::empty(),
    {
        Workspace { files: Vec::new() }
    }

    pub fn file_count(&self) -> (n: usize)
        ensures
            n == self@.len(),
    {
        self.files.len()
    }

    pub fn file_at(&self, i: usize) -> (r: (&Vec<u8>, &Vec<u8>))
        requires
            i < self@.len(),
        ensures
            (r.0@, r.1@) == self@[i as int],
    {
        let p = &self.files[i];
        (&p.0, &p.1)
    }

    /// The contents of the file at `path`, if one is there.
    pub fn read(&self, path: &Vec<u8>) -> (r: Option<&Vec<u8>>)
        ensures
            match r {
                Some(c) => lookup(self@, path@) == Some(c@),
                None => !has_key(self@, path@),
            },
    {
        proof {
            crate::table::lemma_lookup_some(self@, path@);
        }
        let n = self.files.len();
        for i in 0..n
            invariant
                n == self@.len(),
                forall|j: int| 0 <= j < i ==> (#[trigger] self@[j]).0 != path@,
                has_key(self@, path@) <==> exists|j: int|
                    0 <= j < self@.len() && (#[trigger] self@[j]).0 == path@,
        {
            if bytes_eq(&self.files[i].0, path) {
                proof {
                    crate::table::lemma_lookup_at(self@, i as int);
                }
                return Some(&self.files[i].1);
            }
        }
        None
    }

    /// Whether a file is at `path`.
    pub fn is_file(&self, path: &Vec<u8>) -> (r: bool)
        ensures
            r == has_key(self@, path@),
    {
        match self.read(path) {
            Some(_) => true,
            None => false,
        }
    }

    /// Whether `path` is a directory: the root always is; anything else is
    /// one exactly when some file lies strictly under it.
    pub fn is_dir(&self, path: &Vec<u8>) -> (r: bool)
        ensures
            r == (path@.len() == 0 || exists|i: int|
                0 <= i < self@.len() && under_dir((#[trigger] self@[i]).0, path@)
                    && self@[i].0 != path@),
    {
        if path.len() == 0 {
            return true;
        }
        let n = self.files.len();
        for i in 0..n
            invariant
                n == self@.len(),
                path@.len() > 0,
                forall|j: int|
                    0 <= j < i ==> !(under_dir((#[trigger] self@[j]).0, path@) && self@[j].0
                        != path@),
        {
            if path_under_dir(&self.files[i].0, path) {
                if !bytes_eq(&self.files[i].0, path) {
                    assert(under_dir(self@[i as int].0, path@) && self@[i as int].0 != path@);
                    return true;
                }
            }
        }
        false
    }

    /// The paths of every file strictly inside directory `dir`, in the
    /// order the working tree lists them.
    pub fn files_under(&self, dir: &Vec<u8>) -> (r: Vec<Vec<u8>>)
        ensures
            crate::bytes::views(r@) == keys_of(self@).filter(|p: Seq<u8>| under_dir(p, dir@)),
    {
        let mut r: Vec<Vec<u8>> = Vec::new();
        let n = self.files.len();
        let mut i: usize = 0;
        while i < n
            invariant
                n == self@.len(),
                i <= n,
                crate::bytes::views(r@) == keys_of(self@).subrange(0, i as int).filter(
                    |p: Seq<u8>| under_dir(p, dir@),
                ),
            decreases n - i,
        {
            proof {
                let pred = |p: Seq<u8>| under_dir(p, dir@);
                let pre = keys_of(self@).subrange(0, i as int);
                let cur = keys_of(self@).subrange(0, i + 1);
                assert(cur =~= pre.push(self@[i as int].0));
                pre.lemma_filter_push(self@[i as int].0, pred);
            }
            if path_under_dir(&self.files[i].0, dir) {
                let p = bytes_clone(&self.files[i].0);
                let ghost old_r = crate::bytes::views(r@);
                r.push(p);
                proof {
                    assert(crate::bytes::views(r@) =~= old_r.push(self@[i as int].0));
                    assert(crate::bytes::views(r@) =~= keys_of(self@).subrange(0, i + 1).filter(
                        |p: Seq<u8>| under_dir(p, dir@),
                    ));
                }
            } else {
                proof {
                    assert(crate::bytes::views(r@) =~= keys_of(self@).subrange(0, i + 1).filter(
                        |p: Seq<u8>| under_dir(p, dir@),
                    ));
                }
            }
            i = i + 1;
        }
        proof {
            assert(keys_of(self@).subrange(0, n as int) =~= keys_of(self@));
        }
        r
    }

    /// Puts `contents` at `path`, replacing what was there; any entry that
    /// `path` would shadow as a file or as a directory goes away, as it
    /// does on a real filesystem.
    pub fn set_file(&mut self, path: Vec<u8>, contents: Vec<u8>)
        requires
            old(self).wf(),
            valid_path(path@),
        ensures
            final(self).wf(),
            lookup(final(self)@, path@) == Some(contents@),
            forall|i: int|
                0 <= i < old(self)@.len() && (#[trigger] old(self)@[i]).0 != path@
                    && !paths_conflict(old(self)@[i].0, path@) ==> final(self)@.contains(
                    old(self)@[i],
                ),
            forall|i: int|
                0 <= i < final(self)@.len() ==> (#[trigger] final(self)@[i]) == (
                path@,
                contents@,
                ) || old(self)@.contains(final(self)@[i]),
            forall|k: Seq<u8>|
                k != path@ && !paths_conflict(k, path@) ==> #[trigger] lookup(final(self)@, k)
                    == lookup(old(self)@, k),
            forall|k: Seq<u8>|
                k != path@ && paths_conflict(k, path@) ==> #[trigger] lookup(
                    final(self)@,
                    k,
                ) is None,
    {
        let mut kept: Vec<(Vec<u8>, Vec<u8>)> = Vec::new();
        let ghost mut src: Seq<int> = Seq::empty();
        let n = self.files.len();
        let mut i: usize = 0;
        while i < n
            invariant
                n == self@.len(),
                i <= n,
                self.wf(),
                valid_path(path@),
                src.len() == pair_views(kept@).len(),
                forall|j: int|
                    0 <= j < src.len() ==> 0 <= #[trigger] src[j] < i && pair_views(kept@)[j]
                        == self@[src[j]] && self@[src[j]].0 != path@ && !paths_conflict(
                        self@[src[j]].0,
                        path@,
                    ),
                forall|j: int, l: int| 0 <= j < l < src.len() ==> src[j] < src[l],
                forall|j: int|
                    0 <= j < i ==> {
                        let e = #[trigger] self@[j];
                        (e.0 == path@ || paths_conflict(e.0, path@)) || pair_views(
                            kept@,
                        ).contains(e)
                    },
            decreases n - i,
        {
            let keep = {
                let same = bytes_eq(&self.files[i].0, &path);
                let conflict = path_under_dir(&self.files[i].0, &path) || path_under_dir(
                    &path,
                    &self.files[i].0,
                );
                !same && !conflict
            };
            if keep {
                let ghost old_kept = pair_views(kept@);
                let p = bytes_clone(&self.files[i].0);
                let c = bytes_clone(&self.files[i].1);
                kept.push((p, c));
                proof {
                    assert(pair_views(kept@) =~= old_kept.push(self@[i as int]));
                    src = src.push(i as int);
                    assert(pair_views(kept@).contains(self@[i as int])) by {
                        assert(pair_views(kept@)[src.len() - 1] == self@[i as int]);
                    }
                    assert forall|j: int| 0 <= j < i implies {
                        let e = #[trigger] self@[j];
                        (e.0 == path@ || paths_conflict(e.0, path@)) || pair_views(
                            kept@,
                        ).contains(e)
                    } by {
                        let e = self@[j];
                        if !(e.0 == path@ || paths_conflict(e.0, path@)) {
                            assert(old_kept.contains(e));
                            let x = choose|x: int|
                                0 <= x < old_kept.len() && #[trigger] old_kept[x] == e;
                            assert(pair_views(kept@)[x] == e);
                        }
                    }
                }
            }
            i = i + 1;
        }
        let ghost old_kept = pair_views(kept@);
        let ghost old_view = self@;
        kept.push((path, contents));
        proof {
            assert(pair_views(kept@) =~= old_kept.push((path@, contents@)));
        }
        self.files = kept;
        proof {
            let t = self@;
            let m = t.len() - 1;
            assert(t[m] == (path@, contents@));
            assert forall|j: int| 0 <= j < m implies (#[trigger] t[j]).0 != path@ by {
                assert(t[j] == old_view[src[j]]);
            }
            crate::table::lemma_lookup_at(t, m);
            assert forall|j: int, l: int|
                0 <= j < t.len() && 0 <= l < t.len() && j != l implies !under_dir(
                (#[trigger] t[j]).0,
                (#[trigger] t[l]).0,
            ) by {
                if j < m && l < m {
                    assert(t[j] == old_view[src[j]]);
                    assert(t[l] == old_view[src[l]]);
                    assert(src[j] != src[l]) by {
                        if j < l {
                        } else {
                        }
                    }
                } else if j == m && l < m {
                    assert(t[l] == old_view[src[l]]);
                    assert(!paths_conflict(t[l].0, path@));
                } else if l == m && j < m {
                    assert(t[j] == old_view[src[j]]);
                    assert(!paths_conflict(t[j].0, path@));
                }
            }
            assert(unique_keys(t)) by {
                assert forall|j: int, l: int| 0 <= j < l < t.len() implies (#[trigger] t[j]).0
                    != (#[trigger] t[l]).0 by {
                    if l < m {
                        assert(t[j] == old_view[src[j]]);
                        assert(t[l] == old_view[src[l]]);
                    } else {
                        assert(t[j] == old_view[src[j]]);
                    }
                }
            }
            assert forall|j: int| 0 <= j < t.len() implies valid_path((#[trigger] t[j]).0) by {
                if j < m {
                    assert(t[j] == old_view[src[j]]);
                }
            }
            assert forall|j: int|
                0 <= j < old_view.len() && (#[trigger] old_view[j]).0 != path@ && !paths_conflict(
                    old_view[j].0,
                    path@,
                ) implies t.contains(old_view[j]) by {
                assert(old_kept.contains(old_view[j]));
                let x = choose|x: int|
                    0 <= x < old_kept.len() && #[trigger] old_kept[x] == old_view[j];
                assert(t[x] == old_view[j]);
            }
            assert forall|j: int| 0 <= j < t.len() implies (#[trigger] t[j]) == (path@, contents@)
                || old_view.contains(t[j]) by {
                if j < m {
                    assert(t[j] == old_view[src[j]]);
                }
            }
            crate::table::lemma_lookup_all(t);
            crate::table::lemma_lookup_all(old_view);
            assert forall|k: Seq<u8>|
                k != path@ && !paths_conflict(k, path@) implies #[trigger] lookup(t, k) == lookup(
                old_view,
                k,
            ) by {
                crate::table::lemma_lookup_some(t, k);
                crate::table::lemma_lookup_some(old_view, k);
                match lookup(old_view, k) {
                    Some(v) => {
                        let x = choose|x: int|
                            0 <= x < old_view.len() && #[trigger] old_view[x] == (k, v);
                        assert(t.contains((k, v)));
                        let y = choose|y: int| 0 <= y < t.len() && #[trigger] t[y] == (k, v);
                    },
                    None => {
                        if lookup(t, k) is Some {
                            let y = choose|y: int| 0 <= y < t.len() && (#[trigger] t[y]).0 == k;
                            assert(t[y] == (path@, contents@) || old_view.contains(t[y]));
                            if old_view.contains(t[y]) {
                                let x = choose|x: int|
                                    0 <= x < old_view.len() && #[trigger] old_view[x] == t[y];
                            }
                        }
                    },
                }
            }
            assert forall|k: Seq<u8>| k != path@ && paths_conflict(k, path@) implies #[trigger] lookup(
                t,
                k,
            ) is None by {
                crate::table::lemma_lookup_some(t, k);
                if lookup(t, k) is Some {
                    let y = choose|y: int| 0 <= y < t.len() && (#[trigger] t[y]).0 == k;
                    assert(t[y] == (path@, contents@) || old_view.contains(t[y]));
                    if old_view.contains(t[y]) {
                        let x = choose|x: int|
                            0 <= x < old_view.len() && #[trigger] old_view[x] == t[y];
                        // A conflicting entry is never kept.
                        assert(t[y] == old_view[src[y]]);
                        assert(!paths_conflict(old_view[src[y]].0, path@));
                    }
                }
            }
        }
    }

    /// Deletes the file at `path`; reports whether one was there.
    pub fn remove_file(&mut self, path: &Vec<u8>) -> (r: bool)
        requires
            old(self).wf(),
        ensures
            final(self).wf(),
            !has_key(final(self)@, path@),
            forall|i: int|
                0 <= i < old(self)@.len() && (#[trigger] old(self)@[i]).0 != path@
                    ==> final(self)@.contains(old(self)@[i]),
            forall|i: int|
                0 <= i < final(self)@.len() ==> old(self)@.contains(#[trigger] final(self)@[i])
                    && final(self)@[i].0 != path@,
            r == has_key(old(self)@, path@),
    {
        proof {
            crate::table::lemma_lookup_some(self@, path@);
        }
        let mut kept: Vec<(Vec<u8>, Vec<u8>)> = Vec::new();
        let ghost mut src: Seq<int> = Seq::empty();
        let mut found = false;
        let n = self.files.len();
        let mut i: usize = 0;
        while i < n
            invariant
                n == self@.len(),
                i <= n,
                self.wf(),
                src.len() == pair_views(kept@).len(),
                forall|j: int|
                    0 <= j < src.len() ==> 0 <= #[trigger] src[j] < i && pair_views(kept@)[j]
                        == self@[src[j]] && self@[src[j]].0 != path@,
                forall|j: int, l: int| 0 <= j < l < src.len() ==> src[j] < src[l],
                forall|j: int|
                    0 <= j < i ==> {
                        let e = #[trigger] self@[j];
                        e.0 == path@ || pair_views(kept@).contains(e)
                    },
                found == (exists|j: int| 0 <= j < i && (#[trigger] self@[j]).0 == path@),
            decreases n - i,
        {
            if bytes_eq(&self.files[i].0, path) {
                found = true;
                assert(self@[i as int].0 == path@);
            } else {
                let ghost old_kept = pair_views(kept@);
                let p = bytes_clone(&self.files[i].0);
                let c = bytes_clone(&self.files[i].1);
                kept.push((p, c));
                proof {
                    assert(pair_views(kept@) =~= old_kept.push(self@[i as int]));
                    src = src.push(i as int);
                    assert(pair_views(kept@).contains(self@[i as int])) by {
                        assert(pair_views(kept@)[src.len() - 1] == self@[i as int]);
                    }
                    assert forall|j: int| 0 <= j < i implies {
                        let e = #[trigger] self@[j];
                        e.0 == path@ || pair_views(kept@).contains(e)
                    } by {
                        let e = self@[j];
                        if e.0 != path@ {
                            assert(old_kept.contains(e));
                            let x = choose|x: int|
                                0 <= x < old_kept.len() && #[trigger] old_kept[x] == e;
                            assert(pair_views(kept@)[x] == e);
                        }
                    }
                }
            }
            i = i + 1;
        }
        let ghost old_view = self@;
        let ghost old_kept = pair_views(kept@);
        self.files = kept;
        proof {
            let t = self@;
            assert forall|j: int, l: int|
                0 <= j < t.len() && 0 <= l < t.len() && j != l implies !under_dir(
                (#[trigger] t[j]).0,
                (#[trigger] t[l]).0,
            ) by {
                assert(t[j] == old_view[src[j]]);
                assert(t[l] == old_view[src[l]]);
                assert(src[j] != src[l]) by {
                    if j < l {
                    } else {
                    }
                }
            }
            assert(unique_keys(t)) by {
                assert forall|j: int, l: int| 0 <= j < l < t.len() implies (#[trigger] t[j]).0
                    != (#[trigger] t[l]).0 by {
                    assert(t[j] == old_view[src[j]]);
                    assert(t[l] == old_view[src[l]]);
                }
            }
            assert forall|j: int| 0 <= j < t.len() implies valid_path((#[trigger] t[j]).0) by {
                assert(t[j] == old_view[src[j]]);
            }
            assert(!has_key(t, path@)) by {
                crate::table::lemma_lookup_some(t, path@);
                if has_key(t, path@) {
                    let j = choose|j: int| 0 <= j < t.len() && (#[trigger] t[j]).0 == path@;
                    assert(t[j] == old_view[src[j]]);
                }
            }
            assert forall|j: int|
                0 <= j < old_view.len() && (#[trigger] old_view[j]).0 != path@ implies t.contains(
                old_view[j],
            ) by {
                assert(old_kept.contains(old_view[j]));
            }
            assert forall|j: int| 0 <= j < t.len() implies old_view.contains(#[trigger] t[j])
                && t[j].0 != path@ by {
                assert(t[j] == old_view[src[j]]);
            }
        }
        found
    }
}

/// The keys of a pair table.
pub open spec fn keys_of(t: Seq<(Seq<u8>, Seq<u8>)>) -> Seq<Seq<u8>> {
    t.map_values(|p: (Seq<u8>, Seq<u8>)| p.0)
}

} // verus!
