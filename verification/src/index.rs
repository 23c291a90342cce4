use vstd::prelude::*;

use crate::bytes::bytes_clone;
use crate::bytes::bytes_lt;
use crate::bytes::lex_lt;
use crate::bytes::push_all;
use crate::bytes::split_at_seps;
use crate::bytes::split_bytes;
use crate::bytes::views;
use crate::errors::RepoError;
use crate::hash::hex_digits_ok;
use crate::hash::hex_of;
use crate::hash::hex_val_of;
use crate::paths::path_under_dir;
use crate::paths::under_dir;
use crate::paths::valid_path;
use crate::table::lookup;
use crate::table::sorted_keys;

verus! {

/// One staged file: a repository-relative path and the hash of the blob
/// holding its staged contents.
pub struct IndexFile {
    path: Vec<u8>,
    hash: crate::hash::Hash,
}

impl View for IndexFile {
    type V = (Seq<u8>, Seq<u8>);

    closed spec fn view(&self) -> (Seq<u8>, Seq<u8>) {
        (self.path@, self.hash@)
    }
}

impl IndexFile {
    pub fn path(&self) -> (r: &Vec<u8>)
        ensures
            r@ == self@.0,
    {
        &self.path
    }

    pub fn hash(&self) -> (r: &crate::hash::Hash)
        ensures
            r@ == self@.1,
    {
        &self.hash
    }
}

pub open spec fn entry_views(s: Seq<IndexFile>) -> Seq<(Seq<u8>, Seq<u8>)> {
    s.map_values(|f: IndexFile| f@)
}

/// What every staging index obeys: well-formed paths in strictly ascending
/// byte order, no path both a file and a directory, 20-byte hashes.
pub open spec fn index_entries_wf(t: Seq<(Seq<u8>, Seq<u8>)>) -> bool {
    &&& sorted_keys(t)
    &&& forall|i: int| 0 <= i < t.len() ==> valid_path((#[trigger] t[i]).0)
    &&& forall|i: int, j: int|
        0 <= i < t.len() && 0 <= j < t.len() && i != j ==> !under_dir(
            (#[trigger] t[i]).0,
            (#[trigger] t[j]).0,
        )
    &&& forall|i: int| 0 <= i < t.len() ==> (#[trigger] t[i]).1.len() == 20
}

/// The staging index: the ordered set of (path, content-hash) pairs that
/// the next commit's tree is built from.
pub struct Index {
    files: Vec<IndexFile>,
}

impl View for Index {
    type V = Seq<(Seq<u8>, Seq<u8>)>;

    closed spec fn view(&self) -> Seq<(Seq<u8>, Seq<u8>)> {
        entry_views(self.files@)
    }
}

// ----------------------------------------------------------------------------
// The persisted format
// ----------------------------------------------------------------------------

/// One persisted index line: `"<path> <hex-hash>"`.
pub open spec fn spec_index_line(e: (Seq<u8>, Seq<u8>)) -> Seq<u8> {
    e.0 + seq![32u8] + hex_of(e.1)
}

/// The persisted index: one line per entry, each ended by a newline.
pub open spec fn spec_index_serial(t: Seq<(Seq<u8>, Seq<u8>)>) -> Seq<u8>
    decreases t.len(),
{
    if t.len() == 0 {
        Seq::empty()
    } else {
        spec_index_serial(t.drop_last()) + spec_index_line(t.last()) + seq![10u8]
    }
}

/// What one index line denotes. Anything after a second space is ignored.
pub open spec fn spec_parse_index_line(line: Seq<u8>) -> Option<(Seq<u8>, Seq<u8>)> {
    let toks = split_at_seps(line, 32);
    if toks.len() < 2 {
        None
    } else if !valid_path(toks[0]) {
        None
    } else if !(toks[1].len() == 40 && hex_digits_ok(toks[1])) {
        None
    } else {
        Some((toks[0], hex_val_of(toks[1])))
    }
}

pub open spec fn spec_parse_index_lines(lines: Seq<Seq<u8>>) -> Option<Seq<(Seq<u8>, Seq<u8>)>>
    decreases lines.len(),
{
    if lines.len() == 0 {
        Some(Seq::empty())
    } else {
        match spec_parse_index_lines(lines.drop_last()) {
            None => None,
            Some(es) => match spec_parse_index_line(lines.last()) {
                None => None,
                Some(e) => Some(es.push(e)),
            },
        }
    }
}

/// The lines of a persisted index file: a trailing newline ends the last
/// line; an empty file holds none.
pub open spec fn spec_index_lines(content: Seq<u8>) -> Seq<Seq<u8>> {
    let parts = split_at_seps(content, 10);
    if parts.last().len() == 0 {
        parts.drop_last()
    } else {
        parts
    }
}

/// What a persisted index file denotes: every line parses, and the entries
/// form a well-formed index.
pub open spec fn spec_parse_index(content: Seq<u8>) -> Option<Seq<(Seq<u8>, Seq<u8>)>> {
    match spec_parse_index_lines(spec_index_lines(content)) {
        None => None,
        Some(es) => if index_entries_wf(es) {
            Some(es)
        } else {
            None
        },
    }
}

impl Index {
    pub open spec fn wf(&self) -> bool {
        index_entries_wf(self@)
    }

    /// An index with nothing staged.
    pub fn new() -> (ix: Index)
        ensures
            ix.wf(),
            ix@ == Seq::<(Seq<u8>, Seq<u8>)>::empty(),
    {
        Index { files: Vec::new() }
    }

    pub fn files(&self) -> (r: &Vec<IndexFile>)
        ensures
            entry_views(r@) == self@,
    {
        &self.files
    }

    /// Reads the persisted index back; a malformed line, an unordered or
    /// conflicting path set, or a bad hash is `InvalidIndexFormat`.
    pub fn load(content: &Vec<u8>) -> (r: Result<Index, RepoError>)
        ensures
            match r {
                Ok(ix) => spec_parse_index(content@) == Some(ix@) && ix.wf(),
                Err(e) => e == RepoError::InvalidIndexFormat && spec_parse_index(content@) is None,
            },
    {
        let parts = split_bytes(content, 10);
        let line_count = if parts[parts.len() - 1].len() == 0 {
            parts.len() - 1
        } else {
            parts.len()
        };
        let ghost lines = spec_index_lines(content@);
        proof {
            assert(views(parts@).subrange(0, line_count as int) =~= lines);
        }
        let mut files: Vec<IndexFile> = Vec::new();
        let mut i: usize = 0;
        while i < line_count
            invariant
                line_count <= parts@.len(),
                lines == spec_index_lines(content@),
                views(parts@).subrange(0, line_count as int) =~= lines,
                i <= line_count,
                spec_parse_index_lines(lines.subrange(0, i as int)) == Some(entry_views(files@)),
            decreases line_count - i,
        {
            proof {
                let pre = lines.subrange(0, i as int);
                let cur = lines.subrange(0, i + 1);
                assert(cur.drop_last() =~= pre);
                assert(cur.last() == views(parts@)[i as int]);
            }
            let line = &parts[i];
            let toks = split_bytes(line, 32);
            if toks.len() < 2 {
                proof {
                    assert(lines[i as int] == views(parts@)[i as int]);
                    assert(views(parts@)[i as int] == parts@[i as int]@);
                    assert(views(toks@) == split_at_seps(lines[i as int], 32));
                    assert(views(toks@).len() < 2);
                    assert(spec_parse_index_line(lines[i as int]) is None);
                    lemma_parse_lines_fail(lines, i as int);
                }
                return Err(RepoError::InvalidIndexFormat);
            }
            let path = bytes_clone(&toks[0]);
            proof {
                assert(path@ == split_at_seps(lines[i as int], 32)[0]);
            }
            if !crate::paths::path_is_valid(&path) {
                proof {
                    assert(spec_parse_index_line(lines[i as int]) is None);
                    lemma_parse_lines_fail(lines, i as int);
                }
                return Err(RepoError::InvalidIndexFormat);
            }
            let hash = match crate::hash::Hash::from_hex(&toks[1]) {
                Ok(h) => h,
                Err(_) => {
                    proof {
                        let hx = split_at_seps(lines[i as int], 32)[1];
                        assert(!(hx.len() == 40 && hex_digits_ok(hx)));
                        assert(spec_parse_index_line(lines[i as int]) is None);
                        lemma_parse_lines_fail(lines, i as int);
                    }
                    return Err(RepoError::InvalidIndexFormat);
                },
            };
            let ghost old_files = entry_views(files@);
            let ghost entry = (path@, hash@);
            files.push(IndexFile { path, hash });
            proof {
                assert(entry_views(files@) =~= old_files.push(entry));
                assert(spec_parse_index_line(lines[i as int]) == Some(entry));
            }
            i = i + 1;
        }
        proof {
            assert(lines.subrange(0, line_count as int) =~= lines);
        }
        // The entries must already be a well-formed index.
        let ix = Index { files };
        if !ix.check_wf() {
            return Err(RepoError::InvalidIndexFormat);
        }
        Ok(ix)
    }

    /// Whether the entries form a well-formed index; used to validate what
    /// was read from disk.
    fn check_wf(&self) -> (r: bool)
        ensures
            r == self.wf(),
    {
        let n = self.files.len();
        // Adjacent order suffices: byte order is transitive.
        let mut i: usize = 1;
        while i < n
            invariant
                n == self@.len(),
                1 <= i || n == 0,
                i <= n || n == 0,
                forall|j: int| 0 < j < i ==> lex_lt((#[trigger] self@[j - 1]).0, self@[j].0),
            decreases n - i,
        {
            if !bytes_lt(self.files[i - 1].path(), self.files[i].path()) {
                proof {
                    assert(self@[i as int] == self.files@[i as int]@);
                    assert(self@[i - 1] == self.files@[i - 1]@);
                    assert(!lex_lt(self@[i - 1].0, self@[i as int].0));
                }
                return false;
            }
            i = i + 1;
        }
        proof {
            lemma_adjacent_sorted(self@);
        }
        let mut i: usize = 0;
        while i < n
            invariant
                n == self@.len(),
                sorted_keys(self@),
                i <= n,
                forall|j: int| 0 <= j < i ==> valid_path((#[trigger] self@[j]).0),
                forall|j: int, l: int|
                    0 <= j < i && 0 <= l < n && j != l ==> !under_dir(
                        (#[trigger] self@[j]).0,
                        (#[trigger] self@[l]).0,
                    ),
            decreases n - i,
        {
            if !crate::paths::path_is_valid(&self.files[i].path) {
                proof {
                    assert(self@[i as int] == self.files@[i as int]@);
                    assert(!valid_path(self@[i as int].0));
                }
                return false;
            }
            let mut l: usize = 0;
            while l < n
                invariant
                    n == self@.len(),
                    i < n,
                    forall|x: int|
                        0 <= x < l && x != i ==> !under_dir(
                            (#[trigger] self@[i as int]).0,
                            self@[x].0,
                        ) && !under_dir(self@[x].0, self@[i as int].0),
                decreases n - l,
            {
                if l != i {
                    if path_under_dir(&self.files[i].path, &self.files[l].path) || path_under_dir(
                        &self.files[l].path,
                        &self.files[i].path,
                    ) {
                        proof {
                            assert(self@[i as int] == self.files@[i as int]@);
                            assert(self@[l as int] == self.files@[l as int]@);
                            assert(under_dir(self@[i as int].0, self@[l as int].0) || under_dir(
                                self@[l as int].0,
                                self@[i as int].0,
                            ));
                        }
                        return false;
                    }
                }
                l = l + 1;
            }
            proof {
                assert forall|j: int, l: int|
                    0 <= j < i + 1 && 0 <= l < n && j != l implies !under_dir(
                    (#[trigger] self@[j]).0,
                    (#[trigger] self@[l]).0,
                ) by {
                    if j == i as int {
                    } else if l == i as int {
                    }
                }
            }
            i = i + 1;
        }
        proof {
            assert forall|i: int| 0 <= i < n implies (#[trigger] self@[i]).1.len() == 20 by {
                assert(self@[i] == self.files@[i]@);
                self.files@[i].hash.lemma_len();
            }
        }
        true
    }

    /// Writes the index in its persisted form: one sorted line per entry.
    pub fn write(&self) -> (r: Vec<u8>)
        ensures
            r@ == spec_index_serial(self@),
    {
        let mut r: Vec<u8> = Vec::new();
        let n = self.files.len();
        for i in 0..n
            invariant
                n == self@.len(),
                r@ == spec_index_serial(self@.subrange(0, i as int)),
        {
            push_all(&mut r, &self.files[i].path);
            r.push(32);
            let hex = self.files[i].hash.to_hex();
            push_all(&mut r, &hex);
            r.push(10);
            proof {
                let cur = self@.subrange(0, i + 1);
                assert(cur.drop_last() =~= self@.subrange(0, i as int));
                assert(cur.last() == self@[i as int]);
                assert(r@ =~= spec_index_serial(self@.subrange(0, i as int)) + spec_index_line(
                    self@[i as int],
                ) + seq![10u8]);
            }
        }
        proof {
            assert(self@.subrange(0, n as int) =~= self@);
        }
        r
    }

    /// The staged hash of exactly `path`, if that path is staged.
    pub fn lookup_hash(&self, path: &Vec<u8>) -> (r: Option<crate::hash::Hash>)
        requires
            self.wf(),
        ensures
            match r {
                Some(h) => lookup(self@, path@) == Some(h@),
                None => lookup(self@, path@) is None,
            },
    {
        proof {
            crate::table::lemma_sorted_keys_unique(self@);
            crate::table::lemma_lookup_some(self@, path@);
            crate::table::lemma_lookup_all(self@);
        }
        let n = self.files.len();
        for i in 0..n
            invariant
                n == self@.len(),
                self.wf(),
                forall|j: int| 0 <= j < i ==> (#[trigger] self@[j]).0 != path@,
                crate::table::has_key(self@, path@) <==> exists|j: int|
                    0 <= j < self@.len() && (#[trigger] self@[j]).0 == path@,
                forall|j: int|
                    0 <= j < self@.len() ==> lookup(self@, (#[trigger] self@[j]).0) == Some(
                        self@[j].1,
                    ),
        {
            if crate::bytes::bytes_eq(&self.files[i].path, path) {
                assert(self@[i as int] == self.files@[i as int]@);
                return Some(self.files[i].hash);
            }
            assert(self@[i as int] == self.files@[i as int]@);
        }
        None
    }

    /// The staged paths that are direct child files of `dir`.
    pub fn indexed_files_in_directory(&self, dir: &Vec<u8>) -> (r: Vec<Vec<u8>>)
        ensures
            views(r@) == crate::workspace::keys_of(self@).filter(
                |p: Seq<u8>| is_direct_file_of(p, dir@),
            ),
    {
        let mut r: Vec<Vec<u8>> = Vec::new();
        let n = self.files.len();
        let mut i: usize = 0;
        while i < n
            invariant
                n == self@.len(),
                i <= n,
                views(r@) == crate::workspace::keys_of(self@).subrange(0, i as int).filter(
                    |p: Seq<u8>| is_direct_file_of(p, dir@),
                ),
            decreases n - i,
        {
            proof {
                let pred = |p: Seq<u8>| is_direct_file_of(p, dir@);
                let pre = crate::workspace::keys_of(self@).subrange(0, i as int);
                let cur = crate::workspace::keys_of(self@).subrange(0, i + 1);
                assert(cur =~= pre.push(self@[i as int].0));
                pre.lemma_filter_push(self@[i as int].0, pred);
            }
            if path_is_direct_file_of(&self.files[i].path, dir) {
                let p = bytes_clone(&self.files[i].path);
                let ghost old_r = views(r@);
                r.push(p);
                proof {
                    assert(views(r@) =~= old_r.push(self@[i as int].0));
                    assert(views(r@) =~= crate::workspace::keys_of(self@).subrange(0, i + 1).filter(
                        |p: Seq<u8>| is_direct_file_of(p, dir@),
                    ));
                }
            } else {
                proof {
                    assert(views(r@) =~= crate::workspace::keys_of(self@).subrange(0, i + 1).filter(
                        |p: Seq<u8>| is_direct_file_of(p, dir@),
                    ));
                }
            }
            i = i + 1;
        }
        proof {
            assert(crate::workspace::keys_of(self@).subrange(0, n as int) =~= crate::workspace::keys_of(self@));
        }
        r
    }

    /// The distinct directories that are direct children of `dir` and hold
    /// staged paths, each as a full path, in order of first appearance.
    pub fn indexed_directories_in_directory(&self, dir: &Vec<u8>) -> (r: Vec<Vec<u8>>)
        ensures
            forall|q: Seq<u8>|
                views(r@).contains(q) <==> exists|i: int|
                    0 <= i < self@.len() && q == child_dir_of((#[trigger] self@[i]).0, dir@)
                        && has_child_dir(self@[i].0, dir@),
            forall|a: int, b: int|
                0 <= a < b < views(r@).len() ==> views(r@)[a] != views(r@)[b],
    {
        let mut r: Vec<Vec<u8>> = Vec::new();
        let n = self.files.len();
        let mut i: usize = 0;
        while i < n
            invariant
                n == self@.len(),
                i <= n,
                forall|q: Seq<u8>|
                    views(r@).contains(q) <==> exists|j: int|
                        0 <= j < i && q == child_dir_of((#[trigger] self@[j]).0, dir@)
                            && has_child_dir(self@[j].0, dir@),
                forall|a: int, b: int|
                    0 <= a < b < views(r@).len() ==> views(r@)[a] != views(r@)[b],
            decreases n - i,
        {
            let p = &self.files[i].path;
            match child_dir_path(p, dir) {
                Some(q) => {
                    let mut seen = false;
                    let m = r.len();
                    let mut x: usize = 0;
                    while x < m
                        invariant
                            m == r@.len(),
                            x <= m,
                            q@ == child_dir_of(self@[i as int].0, dir@),
                            seen == (exists|y: int| 0 <= y < x && views(r@)[y] == q@),
                        decreases m - x,
                    {
                        if crate::bytes::bytes_eq(&r[x], &q) {
                            seen = true;
                            assert(views(r@)[x as int] == q@);
                        }
                        x = x + 1;
                    }
                    if !seen {
                        let ghost old_r = views(r@);
                        r.push(q);
                        proof {
                            assert(views(r@) =~= old_r.push(child_dir_of(self@[i as int].0, dir@)));
                            assert forall|q2: Seq<u8>| views(r@).contains(q2) implies exists|j: int|
                                0 <= j < i + 1 && q2 == child_dir_of(
                                    (#[trigger] self@[j]).0,
                                    dir@,
                                ) && has_child_dir(self@[j].0, dir@) by {
                                let y = choose|y: int|
                                    0 <= y < views(r@).len() && views(r@)[y] == q2;
                                if y < old_r.len() {
                                    assert(old_r.contains(q2)) by {
                                        assert(old_r[y] == q2);
                                    }
                                } else {
                                    assert(q2 == child_dir_of(self@[i as int].0, dir@));
                                }
                            }
                            assert forall|j: int|
                                0 <= j < i + 1 && has_child_dir((#[trigger] self@[j]).0, dir@)
                                implies views(r@).contains(child_dir_of(self@[j].0, dir@)) by {
                                if j < i as int {
                                    assert(old_r.contains(child_dir_of(self@[j].0, dir@)));
                                    let y = choose|y: int|
                                        0 <= y < old_r.len() && old_r[y] == child_dir_of(
                                            self@[j].0,
                                            dir@,
                                        );
                                    assert(views(r@)[y] == child_dir_of(self@[j].0, dir@));
                                } else {
                                    assert(views(r@)[views(r@).len() - 1] == child_dir_of(
                                        self@[j].0,
                                        dir@,
                                    ));
                                }
                            }
                        }
                    } else {
                        proof {
                            assert forall|j: int|
                                0 <= j < i + 1 && has_child_dir((#[trigger] self@[j]).0, dir@)
                                implies views(r@).contains(child_dir_of(self@[j].0, dir@)) by {
                                if j == i as int {
                                    assert(views(r@).contains(q@));
                                }
                            }
                        }
                    }
                },
                None => {
                    proof {
                        assert forall|q2: Seq<u8>| views(r@).contains(q2) implies exists|j: int|
                            0 <= j < i + 1 && q2 == child_dir_of((#[trigger] self@[j]).0, dir@)
                                && has_child_dir(self@[j].0, dir@) by {}
                    }
                },
            }
            i = i + 1;
        }
        r
    }
}

/// A staged path that is a file directly inside `dir`: under it, with no
/// separator in what remains.
pub open spec fn is_direct_file_of(p: Seq<u8>, d: Seq<u8>) -> bool {
    under_dir(p, d) && crate::bytes::no_byte(p.skip(dir_skip(d)), 47)
}

/// How many leading bytes of a path under `d` belong to `d` and its
/// separator.
pub open spec fn dir_skip(d: Seq<u8>) -> int {
    if d.len() == 0 {
        0
    } else {
        d.len() as int + 1
    }
}

/// A staged path that lies in a subdirectory of `dir`.
pub open spec fn has_child_dir(p: Seq<u8>, d: Seq<u8>) -> bool {
    under_dir(p, d) && crate::bytes::find_byte(p.skip(dir_skip(d)), 47) != -1
}

/// The full path of the direct child directory of `d` that holds `p`.
pub open spec fn child_dir_of(p: Seq<u8>, d: Seq<u8>) -> Seq<u8> {
    p.subrange(0, dir_skip(d) + crate::bytes::find_byte(p.skip(dir_skip(d)), 47))
}

/// Whether `p` is a file directly inside `dir`.
pub fn path_is_direct_file_of(p: &Vec<u8>, d: &Vec<u8>) -> (r: bool)
    ensures
        r == is_direct_file_of(p@, d@),
{
    if !path_under_dir(p, d) {
        return false;
    }
    let pl = p.len();
    proof {
        if d@.len() > 0 {
            assert(d@.len() + 1 <= pl);
        }
    }
    let skip = if d.len() == 0 {
        0
    } else {
        d.len() + 1
    };
    let rest = crate::bytes::bytes_range(p, skip, p.len());
    assert(rest@ =~= p@.skip(dir_skip(d@)));
    match crate::bytes::find_byte_at(&rest, 47) {
        Some(_) => {
            proof {
                crate::bytes::lemma_find_byte(rest@, 47);
            }
            false
        },
        None => {
            proof {
                crate::bytes::lemma_find_byte(rest@, 47);
            }
            true
        },
    }
}

/// The direct child directory of `d` on the way to `p`, if `p` lies deeper
/// than one level under `d`.
pub fn child_dir_path(p: &Vec<u8>, d: &Vec<u8>) -> (r: Option<Vec<u8>>)
    ensures
        match r {
            Some(q) => has_child_dir(p@, d@) && q@ == child_dir_of(p@, d@),
            None => !has_child_dir(p@, d@),
        },
{
    if !path_under_dir(p, d) {
        return None;
    }
    let pl = p.len();
    proof {
        if d@.len() > 0 {
            assert(d@.len() + 1 <= pl);
        }
    }
    let skip = if d.len() == 0 {
        0
    } else {
        d.len() + 1
    };
    let rest = crate::bytes::bytes_range(p, skip, p.len());
    assert(rest@ =~= p@.skip(dir_skip(d@)));
    match crate::bytes::find_byte_at(&rest, 47) {
        Some(pos) => {
            proof {
                crate::bytes::lemma_find_byte(rest@, 47);
            }
            let q = crate::bytes::bytes_range(p, 0, skip + pos);
            assert(q@ =~= child_dir_of(p@, d@));
            Some(q)
        },
        None => None,
    }
}

/// One unparseable line spoils the whole file.
proof fn lemma_parse_lines_fail(lines: Seq<Seq<u8>>, i: int)
    requires
        0 <= i < lines.len(),
        spec_parse_index_line(lines[i]) is None,
    ensures
        spec_parse_index_lines(lines) is None,
    decreases lines.len(),
{
    if lines.len() > 0 {
        if i == lines.len() - 1 {
        } else {
            assert(lines.drop_last()[i] == lines[i]);
            lemma_parse_lines_fail(lines.drop_last(), i);
        }
    }
}

/// Adjacent order and transitivity give the whole order.
proof fn lemma_adjacent_sorted(t: Seq<(Seq<u8>, Seq<u8>)>)
    requires
        forall|j: int| 0 < j < t.len() ==> lex_lt((#[trigger] t[j - 1]).0, t[j].0),
    ensures
        sorted_keys(t),
{
    assert forall|i: int, j: int| 0 <= i < j < t.len() implies lex_lt(
        (#[trigger] t[i]).0,
        (#[trigger] t[j]).0,
    ) by {
        lemma_chain(t, i, j);
    }
}

proof fn lemma_chain(t: Seq<(Seq<u8>, Seq<u8>)>, i: int, j: int)
    requires
        forall|x: int| 0 < x < t.len() ==> lex_lt((#[trigger] t[x - 1]).0, t[x].0),
        0 <= i < j < t.len(),
    ensures
        lex_lt(t[i].0, t[j].0),
    decreases j - i,
{
    if j == i + 1 {
        assert(lex_lt(t[j - 1].0, t[j].0));
    } else {
        lemma_chain(t, i, j - 1);
        crate::bytes::lemma_lex_lt_transitive(t[i].0, t[j - 1].0, t[j].0);
    }
}


// ----------------------------------------------------------------------------
// Staging and unstaging
// ----------------------------------------------------------------------------

/// An entry that survives staging `p`: not at `p` itself, and not shadowed
/// by `p` as a file or a directory.
pub open spec fn keeps_on_add(e: (Seq<u8>, Seq<u8>), p: Seq<u8>) -> bool {
    e.0 != p && !crate::paths::paths_conflict(e.0, p)
}

pub open spec fn left_pred(p: Seq<u8>) -> spec_fn((Seq<u8>, Seq<u8>)) -> bool {
    |e: (Seq<u8>, Seq<u8>)| keeps_on_add(e, p) && lex_lt(e.0, p)
}

pub open spec fn right_pred(p: Seq<u8>) -> spec_fn((Seq<u8>, Seq<u8>)) -> bool {
    |e: (Seq<u8>, Seq<u8>)| keeps_on_add(e, p) && lex_lt(p, e.0)
}

pub open spec fn drop_pred(p: Seq<u8>) -> spec_fn((Seq<u8>, Seq<u8>)) -> bool {
    |e: (Seq<u8>, Seq<u8>)| e.0 != p
}

/// How staging `(p, h)` changes the entries: surviving smaller keys, then
/// the new entry, then surviving larger keys.
pub open spec fn spec_upsert(t: Seq<(Seq<u8>, Seq<u8>)>, p: Seq<u8>, h: Seq<u8>) -> Seq<(
    Seq<u8>,
    Seq<u8>,
)> {
    t.filter(left_pred(p)) + seq![(p, h)] + t.filter(right_pred(p))
}

/// How unstaging `p` changes the entries.
pub open spec fn spec_remove(t: Seq<(Seq<u8>, Seq<u8>)>, p: Seq<u8>) -> Seq<(Seq<u8>, Seq<u8>)> {
    t.filter(drop_pred(p))
}

/// What staging one entry does, stated over lookups.
pub proof fn lemma_upsert_props(t: Seq<(Seq<u8>, Seq<u8>)>, p: Seq<u8>, h: Seq<u8>)
    requires
        index_entries_wf(t),
        valid_path(p),
        h.len() == 20,
    ensures
        index_entries_wf(spec_upsert(t, p, h)),
        lookup(spec_upsert(t, p, h), p) == Some(h),
        forall|k: Seq<u8>|
            k != p ==> #[trigger] lookup(spec_upsert(t, p, h), k) == (
            if crate::paths::paths_conflict(k, p) {
                None
            } else {
                lookup(t, k)
            }),
{
    let kl = left_pred(p);
    let kr = right_pred(p);
    let a = t.filter(kl);
    let b = t.filter(kr);
    let u = spec_upsert(t, p, h);
    crate::table::lemma_filter_sorted(t, kl);
    crate::table::lemma_filter_sorted(t, kr);
    crate::table::lemma_filter_contained(t, kl);
    crate::table::lemma_filter_contained(t, kr);
    t.filter_lemma(kl);
    t.filter_lemma(kr);
    crate::table::lemma_sorted_keys_unique(t);
    assert(u.len() == a.len() + 1 + b.len());
    assert(u[a.len() as int] == (p, h));
    assert forall|i: int| 0 <= i < a.len() implies u[i] == a[i] by {}
    assert forall|i: int| 0 <= i < b.len() implies u[a.len() + 1 + i] == b[i] by {}
    // Sorted: smaller keys, p, larger keys.
    assert(sorted_keys(u)) by {
        assert forall|i: int, j: int| 0 <= i < j < u.len() implies lex_lt(
            (#[trigger] u[i]).0,
            (#[trigger] u[j]).0,
        ) by {
            let m = a.len() as int;
            if i < m && j < m {
                assert(u[i] == a[i] && u[j] == a[j]);
            } else if i < m && j == m {
                assert(u[i] == a[i]);
                assert(kl(a[i]));
            } else if i < m && j > m {
                assert(u[i] == a[i] && u[j] == b[j - m - 1]);
                assert(kl(a[i]) && kr(b[j - m - 1]));
                crate::bytes::lemma_lex_lt_transitive(a[i].0, p, b[j - m - 1].0);
            } else if i == m && j > m {
                assert(u[j] == b[j - m - 1]);
                assert(kr(b[j - m - 1]));
            } else {
                assert(u[i] == b[i - m - 1] && u[j] == b[j - m - 1]);
            }
        }
    }
    // Valid paths and hash lengths.
    assert forall|i: int| 0 <= i < u.len() implies valid_path((#[trigger] u[i]).0) && (
    #[trigger] u[i]).1.len() == 20 by {
        let m = a.len() as int;
        if i < m {
            assert(t.contains(a[i]));
            let x = choose|x: int| 0 <= x < t.len() && #[trigger] t[x] == a[i];
        } else if i > m {
            assert(t.contains(b[i - m - 1]));
            let x = choose|x: int| 0 <= x < t.len() && #[trigger] t[x] == b[i - m - 1];
        }
    }
    // No file path is a directory prefix of another.
    assert forall|i: int, j: int|
        0 <= i < u.len() && 0 <= j < u.len() && i != j implies !under_dir(
        (#[trigger] u[i]).0,
        (#[trigger] u[j]).0,
    ) by {
        let m = a.len() as int;
        if i == m || j == m {
            let o = if i == m {
                j
            } else {
                i
            };
            let e = if o < m {
                a[o]
            } else {
                b[o - m - 1]
            };
            assert(u[o] == e);
            assert(keeps_on_add(e, p));
        } else {
            let e1 = if i < m {
                a[i]
            } else {
                b[i - m - 1]
            };
            let e2 = if j < m {
                a[j]
            } else {
                b[j - m - 1]
            };
            assert(u[i] == e1 && u[j] == e2);
            assert(t.contains(e1) && t.contains(e2));
            let x = choose|x: int| 0 <= x < t.len() && #[trigger] t[x] == e1;
            let y = choose|y: int| 0 <= y < t.len() && #[trigger] t[y] == e2;
            assert(e1.0 != e2.0) by {
                if i < j {
                    assert(lex_lt(u[i].0, u[j].0));
                    crate::bytes::lemma_lex_lt_irreflexive(u[i].0, u[j].0);
                } else {
                    assert(lex_lt(u[j].0, u[i].0));
                    crate::bytes::lemma_lex_lt_irreflexive(u[j].0, u[i].0);
                }
            }
            assert(x != y);
        }
    }
    // Lookup of p finds the new entry.
    assert forall|j: int| 0 <= j < a.len() implies (#[trigger] u[j]).0 != p by {
        assert(u[j] == a[j]);
        assert(kl(a[j]));
        crate::bytes::lemma_lex_lt_irreflexive(a[j].0, p);
    }
    crate::table::lemma_lookup_at(u, a.len() as int);
    // Lookup of any other key.
    assert forall|k: Seq<u8>| k != p implies #[trigger] lookup(u, k) == (
    if crate::paths::paths_conflict(k, p) {
        None
    } else {
        lookup(t, k)
    }) by {
        crate::table::lemma_lookup_append(a, seq![(p, h)] + b, k);
        crate::table::lemma_lookup_append(seq![(p, h)], b, k);
        assert(a + seq![(p, h)] + b =~= a + (seq![(p, h)] + b));
        assert(lookup(seq![(p, h)], k) is None) by {
            assert(seq![(p, h)][0] == (p, h));
            assert(seq![(p, h)].drop_first() =~= Seq::<(Seq<u8>, Seq<u8>)>::empty());
            assert(lookup(Seq::<(Seq<u8>, Seq<u8>)>::empty(), k) is None);
        }
        crate::table::lemma_filter_lookup(t, kl, k);
        crate::table::lemma_filter_lookup(t, kr, k);
        match lookup(t, k) {
            Some(v) => {
                if crate::paths::paths_conflict(k, p) {
                    assert(!kl((k, v)) && !kr((k, v)));
                } else {
                    crate::bytes::lemma_lex_lt_trichotomy(k, p);
                    if lex_lt(k, p) {
                        assert(kl((k, v)));
                    } else {
                        assert(lex_lt(p, k));
                        assert(kr((k, v)));
                        assert(!kl((k, v))) by {
                            crate::bytes::lemma_lex_lt_irreflexive(p, k);
                        }
                    }
                }
            },
            None => {},
        }
    }
}

/// What unstaging one path does, stated over lookups.
pub proof fn lemma_remove_props(t: Seq<(Seq<u8>, Seq<u8>)>, p: Seq<u8>)
    requires
        index_entries_wf(t),
    ensures
        index_entries_wf(spec_remove(t, p)),
        lookup(spec_remove(t, p), p) is None,
        forall|k: Seq<u8>| k != p ==> #[trigger] lookup(spec_remove(t, p), k) == lookup(t, k),
{
    let pred = drop_pred(p);
    let f = spec_remove(t, p);
    crate::table::lemma_filter_sorted(t, pred);
    crate::table::lemma_filter_contained(t, pred);
    t.filter_lemma(pred);
    assert forall|i: int| 0 <= i < f.len() implies valid_path((#[trigger] f[i]).0) && (
    #[trigger] f[i]).1.len() == 20 by {
        assert(t.contains(f[i]));
        let x = choose|x: int| 0 <= x < t.len() && #[trigger] t[x] == f[i];
    }
    crate::table::lemma_sorted_keys_unique(t);
    assert forall|i: int, j: int|
        0 <= i < f.len() && 0 <= j < f.len() && i != j implies !under_dir(
        (#[trigger] f[i]).0,
        (#[trigger] f[j]).0,
    ) by {
        assert(t.contains(f[i]) && t.contains(f[j]));
        let x = choose|x: int| 0 <= x < t.len() && #[trigger] t[x] == f[i];
        let y = choose|y: int| 0 <= y < t.len() && #[trigger] t[y] == f[j];
        crate::table::lemma_filter_sorted(t, pred);
        assert(f[i].0 != f[j].0) by {
            if i < j {
                crate::bytes::lemma_lex_lt_irreflexive(f[i].0, f[j].0);
            } else {
                crate::bytes::lemma_lex_lt_irreflexive(f[j].0, f[i].0);
            }
        }
        assert(x != y);
    }
    crate::table::lemma_filter_lookup(t, pred, p);
    assert forall|k: Seq<u8>| k != p implies #[trigger] lookup(f, k) == lookup(t, k) by {
        crate::table::lemma_filter_lookup(t, pred, k);
    }
}

impl Index {
    /// Stages `hash` for `path`, replacing any entry at that exact path and
    /// dropping entries that `path` shadows as a file or as a directory.
    fn upsert(&mut self, path: Vec<u8>, hash: crate::hash::Hash)
        requires
            old(self).wf(),
            valid_path(path@),
        ensures
            final(self)@ == spec_upsert(old(self)@, path@, hash@),
            final(self).wf(),
    {
        proof {
            hash.lemma_len();
            lemma_upsert_props(self@, path@, hash@);
        }
        let ghost t = self@;
        let mut out: Vec<IndexFile> = Vec::new();
        let n = self.files.len();
        let mut i: usize = 0;
        loop
            invariant
                n == self@.len(),
                t == self@,
                self.wf(),
                valid_path(path@),
                i <= n,
                forall|j: int| 0 <= j < i ==> lex_lt((#[trigger] t[j]).0, path@),
                entry_views(out@) == t.subrange(0, i as int).filter(left_pred(path@)),
            ensures
                i <= n,
                forall|j: int| 0 <= j < i ==> lex_lt((#[trigger] t[j]).0, path@),
                entry_views(out@) == t.subrange(0, i as int).filter(left_pred(path@)),
                i < n ==> !lex_lt(t[i as int].0, path@),
            decreases n - i,
        {
            if i >= n {
                break;
            }
            if !bytes_lt(&self.files[i].path, &path) {
                proof {
                    assert(self@[i as int] == self.files@[i as int]@);
                }
                break;
            }
            proof {
                assert(self@[i as int] == self.files@[i as int]@);
                let pre = t.subrange(0, i as int);
                let cur = t.subrange(0, i + 1);
                assert(cur =~= pre.push(t[i as int]));
                pre.lemma_filter_push(t[i as int], left_pred(path@));
            }
            let conflict = path_under_dir(&self.files[i].path, &path) || path_under_dir(
                &path,
                &self.files[i].path,
            );
            if !conflict {
                let p = bytes_clone(&self.files[i].path);
                let h = self.files[i].hash;
                let ghost old_out = entry_views(out@);
                out.push(IndexFile { path: p, hash: h });
                proof {
                    assert(entry_views(out@) =~= old_out.push(t[i as int]));
                    assert(left_pred(path@)(t[i as int])) by {
                        crate::bytes::lemma_lex_lt_irreflexive(t[i as int].0, path@);
                    }
                    assert(entry_views(out@) =~= t.subrange(0, i + 1).filter(left_pred(path@)));
                }
            } else {
                proof {
                    assert(!left_pred(path@)(t[i as int]));
                    assert(entry_views(out@) =~= t.subrange(0, i + 1).filter(left_pred(path@)));
                }
            }
            i = i + 1;
        }
        let i0 = i;
        proof {
            // Everything from i0 on fails the left predicate.
            assert(t.subrange(0, i0 as int) + t.subrange(i0 as int, n as int) =~= t);
            if i0 < n {
                assert(!lex_lt(t[i0 as int].0, path@)) by {
                    assert(self@[i0 as int] == self.files@[i0 as int]@);
                }
            }
            assert forall|j: int| i0 <= j < n implies !(left_pred(path@)(#[trigger] t[j])) by {
                if j > i0 {
                    assert(lex_lt(t[i0 as int].0, t[j].0));
                    crate::bytes::lemma_lex_lt_trichotomy(t[i0 as int].0, path@);
                    if lex_lt(path@, t[i0 as int].0) {
                        crate::bytes::lemma_lex_lt_transitive(path@, t[i0 as int].0, t[j].0);
                        crate::bytes::lemma_lex_lt_irreflexive(path@, t[j].0);
                    } else {
                        crate::bytes::lemma_lex_lt_irreflexive(t[i0 as int].0, t[j].0);
                    }
                } else {
                    assert(!lex_lt(t[j].0, path@));
                }
            }
            crate::table::lemma_filter_none(t.subrange(i0 as int, n as int), left_pred(path@));
            Seq::filter_distributes_over_add(
                t.subrange(0, i0 as int),
                t.subrange(i0 as int, n as int),
                left_pred(path@),
            );
            assert(t.filter(left_pred(path@)) =~= entry_views(out@));
            // And everything before i0 fails the right predicate.
            assert forall|j: int| 0 <= j < i0 implies !(right_pred(path@)(#[trigger] t[j])) by {
                crate::bytes::lemma_lex_lt_irreflexive(t[j].0, path@);
            }
            crate::table::lemma_filter_none(t.subrange(0, i0 as int), right_pred(path@));
            Seq::filter_distributes_over_add(
                t.subrange(0, i0 as int),
                t.subrange(i0 as int, n as int),
                right_pred(path@),
            );
        }
        let ghost a = t.filter(left_pred(path@));
        let path_entry = bytes_clone(&path);
        out.push(IndexFile { path: path_entry, hash });
        proof {
            assert(entry_views(out@) =~= a.push((path@, hash@)));
        }
        let mut j = i0;
        while j < n
            invariant
                n == self@.len(),
                t == self@,
                self.wf(),
                i0 <= j <= n,
                a == t.filter(left_pred(path@)),
                forall|x: int| 0 <= x < i0 ==> lex_lt((#[trigger] t[x]).0, path@),
                i0 < n ==> !lex_lt(t[i0 as int].0, path@),
                entry_views(out@) == a.push((path@, hash@)) + t.subrange(i0 as int, j as int).filter(
                    right_pred(path@),
                ),
            decreases n - j,
        {
            proof {
                assert(self@[j as int] == self.files@[j as int]@);
                let pre = t.subrange(i0 as int, j as int);
                let cur = t.subrange(i0 as int, j + 1);
                assert(cur =~= pre.push(t[j as int]));
                pre.lemma_filter_push(t[j as int], right_pred(path@));
                // In this region a kept entry has a key after `path`.
                if j > i0 {
                    assert(lex_lt(t[i0 as int].0, t[j as int].0));
                    crate::bytes::lemma_lex_lt_trichotomy(t[i0 as int].0, path@);
                    if !lex_lt(path@, t[j as int].0) {
                        crate::bytes::lemma_lex_lt_trichotomy(path@, t[j as int].0);
                        if lex_lt(t[j as int].0, path@) {
                            if lex_lt(path@, t[i0 as int].0) {
                                crate::bytes::lemma_lex_lt_transitive(
                                    path@,
                                    t[i0 as int].0,
                                    t[j as int].0,
                                );
                                crate::bytes::lemma_lex_lt_irreflexive(path@, t[j as int].0);
                            } else {
                                crate::bytes::lemma_lex_lt_transitive(
                                    t[i0 as int].0,
                                    t[j as int].0,
                                    path@,
                                );
                                crate::bytes::lemma_lex_lt_irreflexive(t[i0 as int].0, path@);
                            }
                        }
                    }
                } else {
                    crate::bytes::lemma_lex_lt_trichotomy(t[j as int].0, path@);
                }
            }
            let same = crate::bytes::bytes_eq(&self.files[j].path, &path);
            let conflict = path_under_dir(&self.files[j].path, &path) || path_under_dir(
                &path,
                &self.files[j].path,
            );
            if !same && !conflict {
                let p = bytes_clone(&self.files[j].path);
                let h = self.files[j].hash;
                let ghost old_out = entry_views(out@);
                out.push(IndexFile { path: p, hash: h });
                proof {
                    assert(entry_views(out@) =~= old_out.push(t[j as int]));
                    assert(right_pred(path@)(t[j as int]));
                    assert(entry_views(out@) =~= a.push((path@, hash@)) + t.subrange(
                        i0 as int,
                        j + 1,
                    ).filter(right_pred(path@)));
                }
            } else {
                proof {
                    assert(!right_pred(path@)(t[j as int])) by {
                        if same {
                            if lex_lt(path@, path@) {
                                crate::bytes::lemma_lex_lt_irreflexive(path@, path@);
                            }
                            assert(!lex_lt(path@, path@));
                        }
                    }
                    assert(entry_views(out@) =~= a.push((path@, hash@)) + t.subrange(
                        i0 as int,
                        j + 1,
                    ).filter(right_pred(path@)));
                }
            }
            j = j + 1;
        }
        proof {
            assert(t.subrange(i0 as int, n as int).filter(right_pred(path@)) == t.filter(
                right_pred(path@),
            ));
            assert(entry_views(out@) =~= spec_upsert(t, path@, hash@)) by {
                assert(a.push((path@, hash@)) =~= a + seq![(path@, hash@)]);
            }
        }
        self.files = out;
    }

    /// Unstages the entry at exactly `path`, if one is staged.
    fn remove_exact(&mut self, path: &Vec<u8>) -> (r: bool)
        requires
            old(self).wf(),
        ensures
            final(self)@ == spec_remove(old(self)@, path@),
            final(self).wf(),
            r == crate::table::has_key(old(self)@, path@),
    {
        proof {
            lemma_remove_props(self@, path@);
            crate::table::lemma_lookup_some(self@, path@);
        }
        let ghost t = self@;
        let mut out: Vec<IndexFile> = Vec::new();
        let mut found = false;
        let n = self.files.len();
        let mut i: usize = 0;
        while i < n
            invariant
                n == self@.len(),
                t == self@,
                i <= n,
                entry_views(out@) == t.subrange(0, i as int).filter(drop_pred(path@)),
                found == (exists|j: int| 0 <= j < i && (#[trigger] t[j]).0 == path@),
            decreases n - i,
        {
            proof {
                assert(self@[i as int] == self.files@[i as int]@);
                let pre = t.subrange(0, i as int);
                let cur = t.subrange(0, i + 1);
                assert(cur =~= pre.push(t[i as int]));
                pre.lemma_filter_push(t[i as int], drop_pred(path@));
            }
            if crate::bytes::bytes_eq(&self.files[i].path, path) {
                found = true;
                assert(t[i as int].0 == path@);
                proof {
                    assert(entry_views(out@) =~= t.subrange(0, i + 1).filter(drop_pred(path@)));
                }
            } else {
                let p = bytes_clone(&self.files[i].path);
                let h = self.files[i].hash;
                let ghost old_out = entry_views(out@);
                out.push(IndexFile { path: p, hash: h });
                proof {
                    assert(entry_views(out@) =~= old_out.push(t[i as int]));
                    assert(entry_views(out@) =~= t.subrange(0, i + 1).filter(drop_pred(path@)));
                }
            }
            i = i + 1;
        }
        proof {
            assert(t.subrange(0, n as int) =~= t);
        }
        self.files = out;
        found
    }
}


/// An entry that survives re-staging directory `d` against working tree
/// `ws`: outside `d`, or still present on disk.
pub open spec fn prune_pred(d: Seq<u8>, ws: Seq<(Seq<u8>, Seq<u8>)>) -> spec_fn(
    (Seq<u8>, Seq<u8>),
) -> bool {
    |e: (Seq<u8>, Seq<u8>)| !under_dir(e.0, d) || crate::table::has_key(ws, e.0)
}

/// How re-staging a directory prunes entries whose files are gone.
pub open spec fn spec_prune(
    t: Seq<(Seq<u8>, Seq<u8>)>,
    d: Seq<u8>,
    ws: Seq<(Seq<u8>, Seq<u8>)>,
) -> Seq<(Seq<u8>, Seq<u8>)> {
    t.filter(prune_pred(d, ws))
}

/// What pruning does, stated over lookups.
pub proof fn lemma_prune_props(t: Seq<(Seq<u8>, Seq<u8>)>, d: Seq<u8>, ws: Seq<(Seq<u8>, Seq<u8>)>)
    requires
        index_entries_wf(t),
    ensures
        index_entries_wf(spec_prune(t, d, ws)),
        forall|k: Seq<u8>|
            #[trigger] lookup(spec_prune(t, d, ws), k) == (
            if under_dir(k, d) && !crate::table::has_key(ws, k) {
                None
            } else {
                lookup(t, k)
            }),
{
    let pred = prune_pred(d, ws);
    let f = spec_prune(t, d, ws);
    crate::table::lemma_filter_sorted(t, pred);
    crate::table::lemma_filter_contained(t, pred);
    t.filter_lemma(pred);
    crate::table::lemma_sorted_keys_unique(t);
    assert forall|i: int| 0 <= i < f.len() implies valid_path((#[trigger] f[i]).0) && (
    #[trigger] f[i]).1.len() == 20 by {
        assert(t.contains(f[i]));
        let x = choose|x: int| 0 <= x < t.len() && #[trigger] t[x] == f[i];
    }
    assert forall|i: int, j: int|
        0 <= i < f.len() && 0 <= j < f.len() && i != j implies !under_dir(
        (#[trigger] f[i]).0,
        (#[trigger] f[j]).0,
    ) by {
        assert(t.contains(f[i]) && t.contains(f[j]));
        let x = choose|x: int| 0 <= x < t.len() && #[trigger] t[x] == f[i];
        let y = choose|y: int| 0 <= y < t.len() && #[trigger] t[y] == f[j];
        assert(f[i].0 != f[j].0) by {
            if i < j {
                assert(lex_lt(f[i].0, f[j].0));
                crate::bytes::lemma_lex_lt_irreflexive(f[i].0, f[j].0);
            } else {
                assert(lex_lt(f[j].0, f[i].0));
                crate::bytes::lemma_lex_lt_irreflexive(f[j].0, f[i].0);
            }
        }
        assert(x != y);
    }
    assert forall|k: Seq<u8>| #[trigger] lookup(f, k) == (
    if under_dir(k, d) && !crate::table::has_key(ws, k) {
        None
    } else {
        lookup(t, k)
    }) by {
        crate::table::lemma_filter_lookup(t, pred, k);
    }
}

/// Whether `d` is the root or a directory with files in the working tree.
pub open spec fn spec_is_dir(ws: Seq<(Seq<u8>, Seq<u8>)>, d: Seq<u8>) -> bool {
    d.len() == 0 || exists|i: int|
        0 <= i < ws.len() && under_dir((#[trigger] ws[i]).0, d) && ws[i].0 != d
}

/// What one staged path looks up to after a whole directory was re-staged:
/// paths inside the directory mirror the working tree; a path outside it
/// is dropped only if a file inside shadows it; the rest stay.
pub open spec fn spec_added_lookup(
    t: Seq<(Seq<u8>, Seq<u8>)>,
    ws: Seq<(Seq<u8>, Seq<u8>)>,
    d: Seq<u8>,
    k: Seq<u8>,
) -> Option<Seq<u8>> {
    if under_dir(k, d) {
        match lookup(ws, k) {
            Some(c) => Some(crate::blob::spec_blob_hash(c)),
            None => None,
        }
    } else if exists|f: Seq<u8>|
        #[trigger] crate::table::has_key(ws, f) && under_dir(f, d) && crate::paths::paths_conflict(
            k,
            f,
        ) {
        None
    } else {
        lookup(t, k)
    }
}

impl Index {
    /// Stages the file at `path`: its blob is stored and its entry
    /// replaced. A path gone from the working tree is unstaged instead;
    /// one that was never staged either is `NoSuchFile` — the one failure.
    pub fn add_file(&mut self, path: &Vec<u8>, ws: &crate::workspace::Workspace, store: &mut crate::store::ObjectStore) -> (r: Result<
        (),
        RepoError,
    >)
        requires
            old(self).wf(),
            ws.wf(),
            old(store).wf(),
            valid_path(path@),
        ensures
            final(self).wf(),
            final(store).wf(),
            r is Err <==> (!crate::table::has_key(ws@, path@) && !crate::table::has_key(
                old(self)@,
                path@,
            )),
            match r {
                Ok(_) => match lookup(ws@, path@) {
                    Some(c) => {
                        &&& final(self)@ == spec_upsert(old(self)@, path@, crate::blob::spec_blob_hash(c))
                        &&& crate::blob::spec_blob_hash(c).len() == 20
                        &&& final(store)@ == crate::store::store_write(
                            old(store)@,
                            crate::blob::spec_blob_serial(c),
                        )
                    },
                    None => {
                        &&& final(self)@ == spec_remove(old(self)@, path@)
                        &&& crate::table::has_key(old(self)@, path@)
                        &&& final(store)@ == old(store)@
                    },
                },
                Err(e) => {
                    &&& e == RepoError::NoSuchFile
                    &&& final(store)@ == old(store)@
                    &&& final(self)@ == old(self)@
                },
            },
    {
        match ws.read(path) {
            Some(contents) => {
                let blob = crate::blob::Blob::create(contents, store);
                let h = *blob.hash();
                self.upsert(bytes_clone(path), h);
                Ok(())
            },
            None => {
                if self.remove_exact(path) {
                    Ok(())
                } else {
                    proof {
                        // Removing an absent key leaves the entries alone.
                        crate::table::lemma_lookup_some(old(self)@, path@);
                        assert forall|i: int| 0 <= i < old(self)@.len() implies drop_pred(path@)(
                            #[trigger] old(self)@[i],
                        ) by {}
                        crate::table::lemma_filter_all(old(self)@, drop_pred(path@));
                    }
                    Err(RepoError::NoSuchFile)
                }
            },
        }
    }

    /// Stages `path`: one file, or every file under a directory — in which
    /// case entries for files that vanished from that directory are pruned.
    pub fn add(&mut self, path: &Vec<u8>, ws: &crate::workspace::Workspace, store: &mut crate::store::ObjectStore) -> (r: Result<
        (),
        RepoError,
    >)
        requires
            old(self).wf(),
            ws.wf(),
            old(store).wf(),
            valid_path(path@) || path@.len() == 0,
        ensures
            final(self).wf(),
            final(store).wf(),
            r is Err <==> (!spec_is_dir(ws@, path@) && !crate::table::has_key(ws@, path@)
                && !crate::table::has_key(old(self)@, path@)),
            old(store)@.submap_of(final(store)@),
            match r {
                Ok(_) => {
                    &&& (spec_is_dir(ws@, path@) ==> forall|k: Seq<u8>|
                        #[trigger] lookup(final(self)@, k) == spec_added_lookup(
                            old(self)@,
                            ws@,
                            path@,
                            k,
                        ))
                    &&& (spec_is_dir(ws@, path@) ==> forall|k: Seq<u8>|
                        #[trigger] crate::table::has_key(ws@, k) && under_dir(k, path@)
                            ==> match lookup(ws@, k) {
                            Some(c) => final(store)@.dom().contains(
                                crate::blob::spec_blob_hash(c),
                            ) && (crate::hash::digest_injective() ==> final(store)@[
                                crate::blob::spec_blob_hash(c)] == crate::blob::spec_blob_serial(
                                c,
                            )),
                            None => true,
                        })
                    &&& (!spec_is_dir(ws@, path@) ==> match lookup(ws@, path@) {
                        Some(c) => {
                            &&& final(self)@ == spec_upsert(
                                old(self)@,
                                path@,
                                crate::blob::spec_blob_hash(c),
                            )
                            &&& final(store)@ == crate::store::store_write(
                                old(store)@,
                                crate::blob::spec_blob_serial(c),
                            )
                        },
                        None => {
                            &&& final(self)@ == spec_remove(old(self)@, path@)
                            &&& final(store)@ == old(store)@
                        },
                    })
                },
                Err(e) => {
                    &&& e == RepoError::NoSuchFile
                    &&& final(self)@ == old(self)@
                    &&& final(store)@ == old(store)@
                },
            },
    {
        let ghost t0 = self@;
        if ws.is_dir(path) {
            let files = ws.files_under(path);
            let ghost all = crate::bytes::views(files@);
            proof {
                crate::table::lemma_filter_contained(
                    crate::workspace::keys_of(ws@),
                    |p: Seq<u8>| under_dir(p, path@),
                );
                crate::workspace::keys_of(ws@).filter_lemma(|p: Seq<u8>| under_dir(p, path@));
                crate::table::lemma_lookup_all(ws@);
            }
            let n = files.len();
            let mut i: usize = 0;
            while i < n
                invariant
                    n == all.len(),
                    all == crate::bytes::views(files@),
                    all == crate::workspace::keys_of(ws@).filter(
                        |p: Seq<u8>| under_dir(p, path@),
                    ),
                    i <= n,
                    self.wf(),
                    store.wf(),
                    ws.wf(),
                    valid_path(path@) || path@.len() == 0,
                    forall|x: int|
                        0 <= x < all.len() ==> crate::table::has_key(ws@, #[trigger] all[x])
                            && under_dir(all[x], path@),
                    old(store)@.submap_of(store@),
                    forall|x: int|
                        0 <= x < i ==> match lookup(ws@, #[trigger] all[x]) {
                            Some(c) => store@.dom().contains(crate::blob::spec_blob_hash(c)) && (
                            crate::hash::digest_injective() ==> store@[crate::blob::spec_blob_hash(
                                c,
                            )] == crate::blob::spec_blob_serial(c)),
                            None => true,
                        },
                    forall|k: Seq<u8>|
                        #[trigger] lookup(self@, k) == spec_mid_lookup(
                            t0,
                            ws@,
                            all.subrange(0, i as int),
                            k,
                        ),
                decreases n - i,
            {
                let f = bytes_clone(&files[i]);
                proof {
                    assert(all[i as int] == files@[i as int]@);
                    assert(crate::table::has_key(ws@, f@));
                    crate::table::lemma_lookup_some(ws@, f@);
                    let x = choose|x: int| 0 <= x < ws@.len() && (#[trigger] ws@[x]).0 == f@;
                    assert(valid_path(f@));
                }
                let ghost mid_before = self@;
                let ghost store_pre = store@;
                proof {
                    store.lemma_wf_hashes();
                }
                match self.add_file(&f, ws, store) {
                    Ok(_) => {},
                    Err(_) => {
                        // Every listed path is in the working tree, so the
                        // one failure cannot arise.
                        assert(false);
                        vstd::pervasive::unreached()
                    },
                }
                proof {
                    let done = all.subrange(0, i as int);
                    let done2 = all.subrange(0, i + 1);
                    assert(done2 =~= done.push(f@));
                    let c = lookup(ws@, f@).unwrap();
                    crate::store::lemma_submap_grows(old(store)@, store_pre);
                    crate::store::lemma_write_grows(store_pre, crate::blob::spec_blob_serial(c));
                    crate::store::lemma_grows_trans(old(store)@, store_pre, store@);
                    crate::store::lemma_grows_submap(old(store)@, store@);
                    if crate::hash::digest_injective() {
                        crate::store::lemma_store_write_exact(
                            store_pre,
                            crate::blob::spec_blob_serial(c),
                        );
                    }
                    assert forall|x: int| 0 <= x < i + 1 implies match lookup(
                        ws@,
                        #[trigger] all[x],
                    ) {
                        Some(cx) => store@.dom().contains(crate::blob::spec_blob_hash(cx)) && (
                        crate::hash::digest_injective() ==> store@[crate::blob::spec_blob_hash(cx)]
                            == crate::blob::spec_blob_serial(cx)),
                        None => true,
                    } by {
                        if x < i {
                            match lookup(ws@, all[x]) {
                                Some(cx) => {
                                    assert(store_pre.dom().contains(
                                        crate::blob::spec_blob_hash(cx),
                                    ));
                                },
                                None => {},
                            }
                        } else {
                            assert(all[x] == f@);
                        }
                    }
                    lemma_upsert_props(mid_before, f@, crate::blob::spec_blob_hash(c));
                    assert forall|k: Seq<u8>| #[trigger] lookup(self@, k) == spec_mid_lookup(
                        t0,
                        ws@,
                        done2,
                        k,
                    ) by {
                        if k == f@ {
                            assert(done2.contains(k)) by {
                                assert(done2[done2.len() - 1] == k);
                            }
                        } else if crate::paths::paths_conflict(k, f@) {
                            assert(lookup(self@, k) is None);
                            assert(spec_mid_lookup(t0, ws@, done2, k) is None) by {
                                if done2.contains(k) {
                                    // Two working-tree files never conflict.
                                    let y = choose|y: int|
                                        0 <= y < done2.len() && done2[y] == k;
                                    if y < done.len() {
                                        assert(done[y] == k);
                                        assert(crate::table::has_key(ws@, k));
                                    } else {
                                        assert(k == f@);
                                    }
                                    crate::table::lemma_lookup_some(ws@, k);
                                    crate::table::lemma_lookup_some(ws@, f@);
                                    let a = choose|a: int|
                                        0 <= a < ws@.len() && (#[trigger] ws@[a]).0 == k;
                                    let b = choose|b: int|
                                        0 <= b < ws@.len() && (#[trigger] ws@[b]).0 == f@;
                                    assert(a != b);
                                    assert(false);
                                }
                                assert(exists|g: Seq<u8>|
                                    done2.contains(g) && crate::paths::paths_conflict(k, g)) by {
                                    assert(done2.contains(f@)) by {
                                        assert(done2[done2.len() - 1] == f@);
                                    }
                                }
                            }
                        } else {
                            assert(lookup(self@, k) == lookup(mid_before, k));
                            assert(done2.contains(k) == done.contains(k)) by {
                                if done2.contains(k) {
                                    let y = choose|y: int|
                                        0 <= y < done2.len() && done2[y] == k;
                                    if y < done.len() {
                                        assert(done[y] == k);
                                        assert(done.contains(k));
                                    }
                                } else if done.contains(k) {
                                    let y = choose|y: int| 0 <= y < done.len() && done[y] == k;
                                    assert(done2[y] == k);
                                }
                            }
                            assert((exists|g: Seq<u8>|
                                done2.contains(g) && crate::paths::paths_conflict(k, g)) == (
                            exists|g: Seq<u8>|
                                done.contains(g) && crate::paths::paths_conflict(k, g))) by {
                                if exists|g: Seq<u8>|
                                    done2.contains(g) && crate::paths::paths_conflict(k, g) {
                                    let g = choose|g: Seq<u8>|
                                        done2.contains(g) && crate::paths::paths_conflict(k, g);
                                    if g == f@ {
                                        assert(false);
                                    } else {
                                        let y = choose|y: int|
                                            0 <= y < done2.len() && done2[y] == g;
                                        assert(done[y] == g);
                                        assert(done.contains(g));
                                    }
                                } else if exists|g: Seq<u8>|
                                    done.contains(g) && crate::paths::paths_conflict(k, g) {
                                    let g = choose|g: Seq<u8>|
                                        done.contains(g) && crate::paths::paths_conflict(k, g);
                                    let y = choose|y: int| 0 <= y < done.len() && done[y] == g;
                                    assert(done2[y] == g);
                                    assert(done2.contains(g));
                                }
                            }
                        }
                    }
                }
                i = i + 1;
            }
            proof {
                assert(all.subrange(0, n as int) =~= all);
            }
            let ghost mid = self@;
            self.remove_deleted_files(path, ws);
            proof {
                lemma_prune_props(mid, path@, ws@);
                assert forall|k: Seq<u8>| #[trigger] lookup(self@, k) == spec_added_lookup(
                    t0,
                    ws@,
                    path@,
                    k,
                ) by {
                    crate::table::lemma_lookup_some(ws@, k);
                    if under_dir(k, path@) {
                        if crate::table::has_key(ws@, k) {
                            // Every surviving file under the directory was staged.
                            assert(all.contains(k)) by {
                                let x = choose|x: int|
                                    0 <= x < ws@.len() && (#[trigger] ws@[x]).0 == k;
                                assert(crate::workspace::keys_of(ws@)[x] == k);
                                crate::workspace::keys_of(ws@).filter_lemma(
                                    |p: Seq<u8>| under_dir(p, path@),
                                );
                            }
                        } else {
                            assert(lookup(self@, k) is None);
                            assert(!all.contains(k)) by {
                                if all.contains(k) {
                                    let y = choose|y: int| 0 <= y < all.len() && all[y] == k;
                                }
                            }
                        }
                    } else {
                        // Outside the directory pruning never applies.
                        assert(lookup(self@, k) == lookup(mid, k)) by {
                            if path@.len() == 0 {
                                assert(under_dir(k, path@));
                            }
                        }
                        assert((exists|g: Seq<u8>|
                            all.contains(g) && crate::paths::paths_conflict(k, g)) == (exists|
                            f: Seq<u8>,
                        |
                            #[trigger] crate::table::has_key(ws@, f) && under_dir(f, path@)
                                && crate::paths::paths_conflict(k, f))) by {
                            if exists|g: Seq<u8>|
                                all.contains(g) && crate::paths::paths_conflict(k, g) {
                                let g = choose|g: Seq<u8>|
                                    all.contains(g) && crate::paths::paths_conflict(k, g);
                                let y = choose|y: int| 0 <= y < all.len() && all[y] == g;
                                assert(crate::table::has_key(ws@, g) && under_dir(g, path@)
                                    && crate::paths::paths_conflict(k, g));
                            } else if exists|f: Seq<u8>|
                                #[trigger] crate::table::has_key(ws@, f) && under_dir(f, path@)
                                    && crate::paths::paths_conflict(k, f) {
                                let f = choose|f: Seq<u8>|
                                    #[trigger] crate::table::has_key(ws@, f) && under_dir(
                                        f,
                                        path@,
                                    ) && crate::paths::paths_conflict(k, f);
                                crate::table::lemma_lookup_some(ws@, f);
                                let x = choose|x: int|
                                    0 <= x < ws@.len() && (#[trigger] ws@[x]).0 == f;
                                assert(crate::workspace::keys_of(ws@)[x] == f);
                                crate::workspace::keys_of(ws@).filter_lemma(
                                    |p: Seq<u8>| under_dir(p, path@),
                                );
                                assert(all.contains(f));
                            }
                        }
                    }
                }
                assert forall|k: Seq<u8>|
                    #[trigger] crate::table::has_key(ws@, k) && under_dir(k, path@) implies match lookup(
                    ws@,
                    k,
                ) {
                    Some(c) => store@.dom().contains(crate::blob::spec_blob_hash(c)) && (
                    crate::hash::digest_injective() ==> store@[crate::blob::spec_blob_hash(c)]
                        == crate::blob::spec_blob_serial(c)),
                    None => true,
                } by {
                    crate::table::lemma_lookup_some(ws@, k);
                    let x = choose|x: int| 0 <= x < ws@.len() && (#[trigger] ws@[x]).0 == k;
                    assert(crate::workspace::keys_of(ws@)[x] == k);
                    crate::workspace::keys_of(ws@).filter_lemma(
                        |p: Seq<u8>| under_dir(p, path@),
                    );
                    assert(all.contains(k));
                    let y = choose|y: int| 0 <= y < all.len() && all[y] == k;
                }
            }
            Ok(())
        } else {
            proof {
                if path@.len() == 0 {
                    assert(spec_is_dir(ws@, path@));
                }
            }
            self.add_file(path, ws, store)
        }
    }

    /// Drops every staged entry under `dir` whose file is no longer in the
    /// working tree.
    pub fn remove_deleted_files(&mut self, dir: &Vec<u8>, ws: &crate::workspace::Workspace)
        requires
            old(self).wf(),
        ensures
            final(self)@ == spec_prune(old(self)@, dir@, ws@),
            final(self).wf(),
    {
        proof {
            lemma_prune_props(self@, dir@, ws@);
        }
        let ghost t = self@;
        let mut out: Vec<IndexFile> = Vec::new();
        let n = self.files.len();
        let mut i: usize = 0;
        while i < n
            invariant
                n == self@.len(),
                t == self@,
                i <= n,
                entry_views(out@) == t.subrange(0, i as int).filter(prune_pred(dir@, ws@)),
            decreases n - i,
        {
            proof {
                assert(self@[i as int] == self.files@[i as int]@);
                let pre = t.subrange(0, i as int);
                let cur = t.subrange(0, i + 1);
                assert(cur =~= pre.push(t[i as int]));
                pre.lemma_filter_push(t[i as int], prune_pred(dir@, ws@));
            }
            let keep = {
                if !path_under_dir(&self.files[i].path, dir) {
                    true
                } else {
                    ws.is_file(&self.files[i].path)
                }
            };
            if keep {
                let p = bytes_clone(&self.files[i].path);
                let h = self.files[i].hash;
                let ghost old_out = entry_views(out@);
                out.push(IndexFile { path: p, hash: h });
                proof {
                    assert(entry_views(out@) =~= old_out.push(t[i as int]));
                    assert(entry_views(out@) =~= t.subrange(0, i + 1).filter(
                        prune_pred(dir@, ws@),
                    ));
                }
            } else {
                proof {
                    assert(!(prune_pred(dir@, ws@)(t[i as int])));
                    assert(entry_views(out@) =~= t.subrange(0, i + 1).filter(
                        prune_pred(dir@, ws@),
                    ));
                }
            }
            i = i + 1;
        }
        proof {
            assert(t.subrange(0, n as int) =~= t);
        }
        self.files = out;
    }
}

/// What one staged path looks up to midway through staging a directory:
/// the paths in `done` mirror the working tree, a path they shadow is
/// gone, and the rest are as before.
pub open spec fn spec_mid_lookup(
    t: Seq<(Seq<u8>, Seq<u8>)>,
    ws: Seq<(Seq<u8>, Seq<u8>)>,
    done: Seq<Seq<u8>>,
    k: Seq<u8>,
) -> Option<Seq<u8>> {
    if done.contains(k) {
        match lookup(ws, k) {
            Some(c) => Some(crate::blob::spec_blob_hash(c)),
            None => None,
        }
    } else if exists|g: Seq<u8>| done.contains(g) && crate::paths::paths_conflict(k, g) {
        None
    } else {
        lookup(t, k)
    }
}

/// Staging the same file twice leaves the index file byte-identical: the
/// second upsert is the first one over again.
pub proof fn lemma_index_add_idempotent(t: Seq<(Seq<u8>, Seq<u8>)>, p: Seq<u8>, h: Seq<u8>)
    requires
        index_entries_wf(t),
        valid_path(p),
        h.len() == 20,
    ensures
        spec_upsert(spec_upsert(t, p, h), p, h) == spec_upsert(t, p, h),
        spec_index_serial(spec_upsert(spec_upsert(t, p, h), p, h)) == spec_index_serial(
            spec_upsert(t, p, h),
        ),
{
    let u1 = spec_upsert(t, p, h);
    lemma_upsert_props(t, p, h);
    lemma_upsert_props(u1, p, h);
    let u2 = spec_upsert(u1, p, h);
    assert forall|k: Seq<u8>| #[trigger] lookup(u2, k) == lookup(u1, k) by {
        if k != p {
            if crate::paths::paths_conflict(k, p) {
                assert(lookup(u1, k) is None);
            }
        }
    }
    crate::table::lemma_table_ext(u2, u1);
}


/// The length of the longest staged path.
pub open spec fn spec_max_key_len(t: Seq<(Seq<u8>, Seq<u8>)>) -> nat
    decreases t.len(),
{
    if t.len() == 0 {
        0
    } else if t.last().0.len() > spec_max_key_len(t.drop_last()) {
        t.last().0.len()
    } else {
        spec_max_key_len(t.drop_last())
    }
}

pub proof fn lemma_max_key_len(t: Seq<(Seq<u8>, Seq<u8>)>)
    ensures
        forall|i: int| 0 <= i < t.len() ==> (#[trigger] t[i]).0.len() <= spec_max_key_len(t),
    decreases t.len(),
{
    if t.len() > 0 {
        lemma_max_key_len(t.drop_last());
        assert forall|i: int| 0 <= i < t.len() implies (#[trigger] t[i]).0.len()
            <= spec_max_key_len(t) by {
            if i < t.len() - 1 {
                assert(t.drop_last()[i] == t[i]);
            }
        }
    }
}


/// The persisted lines of an index, one per entry.
pub open spec fn spec_index_lines_of(t: Seq<(Seq<u8>, Seq<u8>)>) -> Seq<Seq<u8>> {
    t.map_values(|e: (Seq<u8>, Seq<u8>)| spec_index_line(e))
}

proof fn lemma_index_serial_split(t: Seq<(Seq<u8>, Seq<u8>)>, extra: Seq<u8>)
    requires
        forall|i: int| 0 <= i < t.len() ==> valid_path((#[trigger] t[i]).0),
    ensures
        split_at_seps(spec_index_serial(t) + extra, 10) == spec_index_lines_of(t) + split_at_seps(
            extra,
            10,
        ),
    decreases t.len(),
{
    if t.len() == 0 {
        assert(spec_index_serial(t) + extra =~= extra);
        assert(spec_index_lines_of(t) + split_at_seps(extra, 10) =~= split_at_seps(extra, 10));
    } else {
        let d = t.drop_last();
        let line = spec_index_line(t.last());
        assert forall|i: int| 0 <= i < d.len() implies valid_path((#[trigger] d[i]).0) by {
            assert(d[i] == t[i]);
        }
        assert(valid_path(t[t.len() - 1].0));
        lemma_index_serial_split(d, line + seq![10u8] + extra);
        assert(spec_index_serial(t) + extra =~= spec_index_serial(d) + (line + seq![10u8]
            + extra));
        crate::bytes::lemma_split_append(line, extra, 10);
        assert(crate::bytes::no_byte(line, 10)) by {
            lemma_index_line_clean(t.last());
        }
        crate::bytes::lemma_split_nosep(line, 10);
        assert(split_at_seps(line + seq![10u8] + extra, 10) =~= seq![line] + split_at_seps(
            extra,
            10,
        ));
        assert(spec_index_lines_of(d) + (seq![line] + split_at_seps(extra, 10))
            =~= spec_index_lines_of(t) + split_at_seps(extra, 10)) by {
            assert(spec_index_lines_of(t) =~= spec_index_lines_of(d).push(line));
        }
    }
}

/// An index line holds no newline, and a separating space only between the
/// path and the hex digits.
proof fn lemma_index_line_clean(e: (Seq<u8>, Seq<u8>))
    requires
        valid_path(e.0) || crate::bytes::no_byte(e.0, 10),
    ensures
        crate::bytes::no_byte(spec_index_line(e), 10),
{
    let line = spec_index_line(e);
    crate::hash::lemma_hex_round_trip(e.1);
    assert forall|i: int| 0 <= i < line.len() implies #[trigger] line[i] != 10 by {
        if i < e.0.len() {
            assert(line[i] == e.0[i]);
        } else if i == e.0.len() {
        } else {
            assert(line[i] == hex_of(e.1)[i - e.0.len() - 1]);
            assert(crate::hash::is_hex_digit(hex_of(e.1)[i - e.0.len() - 1]));
        }
    }
}

/// One persisted line reads back as the entry it was written from.
#[verifier::rlimit(100)]
proof fn lemma_index_line_round_trip(e: (Seq<u8>, Seq<u8>))
    requires
        valid_path(e.0),
        e.1.len() == 20,
    ensures
        spec_parse_index_line(spec_index_line(e)) == Some(e),
{
    let line = spec_index_line(e);
    crate::hash::lemma_hex_round_trip(e.1);
    crate::bytes::lemma_split_append(e.0, hex_of(e.1), 32);
    assert(crate::bytes::no_byte(e.0, 32));
    crate::bytes::lemma_split_nosep(e.0, 32);
    assert(crate::bytes::no_byte(hex_of(e.1), 32)) by {
        assert forall|i: int| 0 <= i < hex_of(e.1).len() implies #[trigger] hex_of(e.1)[i]
            != 32 by {
            assert(crate::hash::is_hex_digit(hex_of(e.1)[i]));
        }
    }
    crate::bytes::lemma_split_nosep(hex_of(e.1), 32);
    let toks = split_at_seps(line, 32);
    assert(toks =~= seq![e.0, hex_of(e.1)]);
    assert(toks[0] == e.0 && toks[1] == hex_of(e.1));
    assert(spec_parse_index_line(line) == Some((e.0, hex_val_of(hex_of(e.1)))));
    assert((e.0, hex_val_of(hex_of(e.1))) == e);
}

/// Writing the index and reading it back yields the same entries: the
/// persisted text loses nothing of a well-formed index.
pub proof fn lemma_index_round_trip(t: Seq<(Seq<u8>, Seq<u8>)>)
    requires
        index_entries_wf(t),
    ensures
        spec_parse_index(spec_index_serial(t)) == Some(t),
{
    let content = spec_index_serial(t);
    lemma_index_serial_split(t, Seq::empty());
    assert(content + Seq::<u8>::empty() =~= content);
    assert(split_at_seps(Seq::<u8>::empty(), 10) =~= seq![Seq::<u8>::empty()]);
    let parts = split_at_seps(content, 10);
    assert(parts =~= spec_index_lines_of(t).push(Seq::<u8>::empty()));
    assert(parts.last() =~= Seq::<u8>::empty());
    assert(spec_index_lines(content) =~= spec_index_lines_of(t));
    lemma_parse_lines_of(t, t.len() as int);
    assert(spec_index_lines_of(t).subrange(0, t.len() as int) =~= spec_index_lines_of(t));
}

proof fn lemma_parse_lines_of(t: Seq<(Seq<u8>, Seq<u8>)>, n: int)
    requires
        index_entries_wf(t),
        0 <= n <= t.len(),
    ensures
        spec_parse_index_lines(spec_index_lines_of(t).subrange(0, n)) == Some(t.subrange(0, n)),
    decreases n,
{
    if n == 0 {
        assert(spec_index_lines_of(t).subrange(0, 0) =~= Seq::<Seq<u8>>::empty());
        assert(t.subrange(0, 0) =~= Seq::<(Seq<u8>, Seq<u8>)>::empty());
    } else {
        lemma_parse_lines_of(t, n - 1);
        let lines = spec_index_lines_of(t).subrange(0, n);
        assert(lines.drop_last() =~= spec_index_lines_of(t).subrange(0, n - 1));
        assert(lines.last() == spec_index_line(t[n - 1]));
        lemma_index_line_round_trip(t[n - 1]);
        assert(t.subrange(0, n) =~= t.subrange(0, n - 1).push(t[n - 1]));
    }
}


/// Staging a directory twice, with no change to the working tree between,
/// leaves the index byte-identical: what the first staging settled, the
/// second finds already settled.
pub proof fn lemma_dir_add_idempotent(
    t0: Seq<(Seq<u8>, Seq<u8>)>,
    t1: Seq<(Seq<u8>, Seq<u8>)>,
    t2: Seq<(Seq<u8>, Seq<u8>)>,
    ws: Seq<(Seq<u8>, Seq<u8>)>,
    d: Seq<u8>,
)
    requires
        index_entries_wf(t1),
        index_entries_wf(t2),
        forall|k: Seq<u8>| #[trigger] lookup(t1, k) == spec_added_lookup(t0, ws, d, k),
        forall|k: Seq<u8>| #[trigger] lookup(t2, k) == spec_added_lookup(t1, ws, d, k),
    ensures
        t2 == t1,
        spec_index_serial(t2) == spec_index_serial(t1),
{
    assert forall|k: Seq<u8>| #[trigger] lookup(t2, k) == lookup(t1, k) by {
        if under_dir(k, d) {
        } else if exists|f: Seq<u8>|
            #[trigger] crate::table::has_key(ws, f) && under_dir(f, d)
                && crate::paths::paths_conflict(k, f) {
            assert(lookup(t1, k) is None);
        }
    }
    crate::table::lemma_table_ext(t2, t1);
}

} // verus!
