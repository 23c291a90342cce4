use vstd::prelude::*;

use crate::bytes::{bytes_eq, bytes_has_prefix, bytes_range, is_prefix, push_all};
use crate::errors::RepoError;

verus! {

/// `".rygit"`
pub open spec fn spec_rygit_path() -> Seq<u8> {
    seq![46u8, 114, 121, 103, 105, 116]
}

/// The repository metadata directory, relative to the repository root.
pub fn rygit_path() -> (r: Vec<u8>)
    ensures
        r@ == spec_rygit_path(),
{
    let mut v: Vec<u8> = Vec::new();
    v.push(46);
    v.push(114);
    v.push(121);
    v.push(103);
    v.push(105);
    v.push(116);
    assert(v@ =~= spec_rygit_path());
    v
}

/// `".rygit/objects"`
pub open spec fn spec_objects_path() -> Seq<u8> {
    seq![46u8, 114, 121, 103, 105, 116, 47, 111, 98, 106, 101, 99, 116, 115]
}

/// The object store directory.
pub fn objects_path() -> (r: Vec<u8>)
    ensures
        r@ == spec_objects_path(),
{
    let mut v: Vec<u8> = Vec::new();
    v.push(46);
    v.push(114);
    v.push(121);
    v.push(103);
    v.push(105);
    v.push(116);
    v.push(47);
    v.push(111);
    v.push(98);
    v.push(106);
    v.push(101);
    v.push(99);
    v.push(116);
    v.push(115);
    assert(v@ =~= spec_objects_path());
    v
}

/// `".rygit/refs"`
pub open spec fn spec_refs_path() -> Seq<u8> {
    seq![46u8, 114, 121, 103, 105, 116, 47, 114, 101, 102, 115]
}

/// The refs directory.
pub fn refs_path() -> (r: Vec<u8>)
    ensures
        r@ == spec_refs_path(),
{
    let mut v: Vec<u8> = Vec::new();
    v.push(46);
    v.push(114);
    v.push(121);
    v.push(103);
    v.push(105);
    v.push(116);
    v.push(47);
    v.push(114);
    v.push(101);
    v.push(102);
    v.push(115);
    assert(v@ =~= spec_refs_path());
    v
}

/// `".rygit/HEAD"`
pub open spec fn spec_head_path() -> Seq<u8> {
    seq![46u8, 114, 121, 103, 105, 116, 47, 72, 69, 65, 68]
}

/// The HEAD file.
pub fn head_path() -> (r: Vec<u8>)
    ensures
        r@ == spec_head_path(),
{
    let mut v: Vec<u8> = Vec::new();
    v.push(46);
    v.push(114);
    v.push(121);
    v.push(103);
    v.push(105);
    v.push(116);
    v.push(47);
    v.push(72);
    v.push(69);
    v.push(65);
    v.push(68);
    assert(v@ =~= spec_head_path());
    v
}

/// `".rygit/index"`
pub open spec fn spec_index_path() -> Seq<u8> {
    seq![46u8, 114, 121, 103, 105, 116, 47, 105, 110, 100, 101, 120]
}

/// The staging index file.
pub fn index_path() -> (r: Vec<u8>)
    ensures
        r@ == spec_index_path(),
{
    let mut v: Vec<u8> = Vec::new();
    v.push(46);
    v.push(114);
    v.push(121);
    v.push(103);
    v.push(105);
    v.push(116);
    v.push(47);
    v.push(105);
    v.push(110);
    v.push(100);
    v.push(101);
    v.push(120);
    assert(v@ =~= spec_index_path());
    v
}

/// `".rygit/refs/heads/"`
pub open spec fn spec_heads_prefix() -> Seq<u8> {
    seq![46u8, 114, 121, 103, 105, 116, 47, 114, 101, 102, 115, 47, 104, 101, 97, 100, 115, 47]
}

/// The directory that holds one ref file per branch, with a trailing separator.
pub fn heads_prefix() -> (r: Vec<u8>)
    ensures
        r@ == spec_heads_prefix(),
{
    let mut v: Vec<u8> = Vec::new();
    v.push(46);
    v.push(114);
    v.push(121);
    v.push(103);
    v.push(105);
    v.push(116);
    v.push(47);
    v.push(114);
    v.push(101);
    v.push(102);
    v.push(115);
    v.push(47);
    v.push(104);
    v.push(101);
    v.push(97);
    v.push(100);
    v.push(115);
    v.push(47);
    assert(v@ =~= spec_heads_prefix());
    v
}

/// `"ref: refs/heads/"`
pub open spec fn spec_head_content_prefix() -> Seq<u8> {
    seq![114u8, 101, 102, 58, 32, 114, 101, 102, 115, 47, 104, 101, 97, 100, 115, 47]
}

/// What HEAD holds before the current branch name.
pub fn head_content_prefix() -> (r: Vec<u8>)
    ensures
        r@ == spec_head_content_prefix(),
{
    let mut v: Vec<u8> = Vec::new();
    v.push(114);
    v.push(101);
    v.push(102);
    v.push(58);
    v.push(32);
    v.push(114);
    v.push(101);
    v.push(102);
    v.push(115);
    v.push(47);
    v.push(104);
    v.push(101);
    v.push(97);
    v.push(100);
    v.push(115);
    v.push(47);
    assert(v@ =~= spec_head_content_prefix());
    v
}

// ----------------------------------------------------------------------------
// Well-formed repository-relative paths
// ----------------------------------------------------------------------------

/// A well-formed repository-relative path: one or more nonempty components
/// separated by single `/` bytes, free of NUL, newline and space (the index
/// and object formats reserve those bytes as terminators).
pub open spec fn valid_path(s: Seq<u8>) -> bool {
    &&& s.len() > 0
    &&& s[0] != 47
    &&& s[s.len() - 1] != 47
    &&& forall|i: int| 0 <= i < s.len() ==> #[trigger] s[i] != 0 && s[i] != 10 && s[i] != 32
    &&& forall|i: int| 0 < i < s.len() ==> !(#[trigger] s[i] == 47 && s[i - 1] == 47)
}

/// A well-formed single file or directory name: a path of one component.
pub open spec fn valid_name(s: Seq<u8>) -> bool {
    valid_path(s) && forall|i: int| 0 <= i < s.len() ==> #[trigger] s[i] != 47
}

/// `p` lies strictly inside directory `d`; the empty path is the
/// repository root and holds everything.
pub open spec fn under_dir(p: Seq<u8>, d: Seq<u8>) -> bool {
    if d.len() == 0 {
        true
    } else {
        is_prefix(d.push(47u8), p)
    }
}

/// Tests whether path `p` lies strictly inside directory `d`.
pub fn path_under_dir(p: &Vec<u8>, d: &Vec<u8>) -> (r: bool)
    ensures
        r == under_dir(p@, d@),
{
    if d.len() == 0 {
        true
    } else {
        let mut dd: Vec<u8> = crate::bytes::bytes_clone(d);
        dd.push(47);
        assert(dd@ =~= d@.push(47u8));
        bytes_has_prefix(p, &dd)
    }
}

/// Lying inside a directory inside a directory is lying inside the outer one.
pub proof fn lemma_under_dir_trans(k: Seq<u8>, d2: Seq<u8>, d: Seq<u8>)
    requires
        under_dir(k, d2),
        under_dir(d2, d),
    ensures
        under_dir(k, d),
{
    if d.len() > 0 {
        assert(is_prefix(d2.push(47u8), k));
        assert(is_prefix(d.push(47u8), d2));
        assert(is_prefix(d2, k)) by {
            assert(k.subrange(0, d2.len() as int) =~= d2) by {
                assert forall|i: int| 0 <= i < d2.len() implies k[i] == d2[i] by {
                    assert(k.subrange(0, d2.len() as int + 1) == d2.push(47u8));
                    assert(k.subrange(0, d2.len() as int + 1)[i] == k[i]);
                }
            }
        }
        crate::bytes::lemma_prefix_trans(d.push(47u8), d2, k);
    }
}

/// Two distinct paths conflict when one is a directory prefix of the other:
/// no working tree can hold files at both.
pub open spec fn paths_conflict(a: Seq<u8>, b: Seq<u8>) -> bool {
    under_dir(a, b) || under_dir(b, a)
}

/// `a` is `p` itself or a directory that holds `p`.
pub open spec fn is_ancestor_dir(a: Seq<u8>, p: Seq<u8>) -> bool {
    a == p || under_dir(p, a)
}

// ----------------------------------------------------------------------------
// Trimming whitespace
// ----------------------------------------------------------------------------

pub open spec fn is_ws(c: u8) -> bool {
    c == 32 || c == 10 || c == 13 || c == 9
}

pub open spec fn trim_end_ws(s: Seq<u8>) -> Seq<u8>
    decreases s.len(),
{
    if s.len() > 0 && is_ws(s.last()) {
        trim_end_ws(s.drop_last())
    } else {
        s
    }
}

pub open spec fn trim_start_ws(s: Seq<u8>) -> Seq<u8>
    decreases s.len(),
{
    if s.len() > 0 && is_ws(s[0]) {
        trim_start_ws(s.drop_first())
    } else {
        s
    }
}

/// `s` without leading and trailing whitespace.
pub open spec fn trim_ws(s: Seq<u8>) -> Seq<u8> {
    trim_start_ws(trim_end_ws(s))
}

proof fn lemma_trim_end_at(s: Seq<u8>, j: int)
    requires
        0 <= j <= s.len(),
        forall|i: int| j <= i < s.len() ==> is_ws(#[trigger] s[i]),
        j > 0 ==> !is_ws(s[j - 1]),
    ensures
        trim_end_ws(s) == s.subrange(0, j),
    decreases s.len() - j,
{
    if j == s.len() {
        if s.len() > 0 && is_ws(s.last()) {
            assert(false);
        }
        assert(s.subrange(0, j) =~= s);
    } else {
        assert(is_ws(s.last()));
        lemma_trim_end_at(s.drop_last(), j);
        assert(s.drop_last().subrange(0, j) =~= s.subrange(0, j));
    }
}

proof fn lemma_trim_start_at(s: Seq<u8>, j: int)
    requires
        0 <= j <= s.len(),
        forall|i: int| 0 <= i < j ==> is_ws(#[trigger] s[i]),
        j < s.len() ==> !is_ws(s[j]),
    ensures
        trim_start_ws(s) == s.skip(j),
    decreases j,
{
    if j == 0 {
        if s.len() > 0 && is_ws(s[0]) {
            assert(false);
        }
        assert(s.skip(0) =~= s);
    } else {
        assert(is_ws(s[0]));
        lemma_trim_start_at(s.drop_first(), j - 1);
        assert(s.drop_first().skip(j - 1) =~= s.skip(j));
    }
}

fn byte_is_ws(c: u8) -> (r: bool)
    ensures
        r == is_ws(c),
{
    c == 32 || c == 10 || c == 13 || c == 9
}

/// Strips leading and trailing whitespace.
pub fn trim_bytes(s: &Vec<u8>) -> (r: Vec<u8>)
    ensures
        r@ == trim_ws(s@),
{
    let mut hi: usize = s.len();
    loop
        invariant
            hi <= s@.len(),
            forall|i: int| hi <= i < s@.len() ==> is_ws(#[trigger] s@[i]),
        ensures
            hi <= s@.len(),
            forall|i: int| hi <= i < s@.len() ==> is_ws(#[trigger] s@[i]),
            hi > 0 ==> !is_ws(s@[hi - 1]),
        decreases hi,
    {
        if hi == 0 {
            break;
        }
        if !byte_is_ws(s[hi - 1]) {
            break;
        }
        hi = hi - 1;
    }
    let mut lo: usize = 0;
    loop
        invariant
            lo <= hi <= s@.len(),
            forall|i: int| hi <= i < s@.len() ==> is_ws(#[trigger] s@[i]),
            hi > 0 ==> !is_ws(s@[hi - 1]),
            forall|i: int| 0 <= i < lo ==> is_ws(#[trigger] s@[i]),
        ensures
            lo <= hi <= s@.len(),
            forall|i: int| 0 <= i < lo ==> is_ws(#[trigger] s@[i]),
            lo < hi ==> !is_ws(s@[lo as int]),
            hi <= s@.len(),
            forall|i: int| hi <= i < s@.len() ==> is_ws(#[trigger] s@[i]),
            hi > 0 ==> !is_ws(s@[hi - 1]),
        decreases hi - lo,
    {
        if lo >= hi {
            break;
        }
        if !byte_is_ws(s[lo]) {
            break;
        }
        lo = lo + 1;
    }
    let r = bytes_range(s, lo, hi);
    proof {
        lemma_trim_end_at(s@, hi as int);
        let t = s@.subrange(0, hi as int);
        lemma_trim_start_at(t, lo as int);
        assert(t.skip(lo as int) =~= s@.subrange(lo as int, hi as int));
    }
    r
}

// ----------------------------------------------------------------------------
// HEAD and ref paths
// ----------------------------------------------------------------------------

/// The path of the ref file that HEAD points at: HEAD must hold
/// `"ref: <relative-ref-path>"`; the result is that path inside the
/// metadata directory.
pub fn head_ref_path(head: &Vec<u8>) -> (r: Result<Vec<u8>, RepoError>)
    ensures
        match r {
            Ok(p) => {
                &&& head@.len() >= 5
                &&& head@.subrange(0, 5) == seq![114u8, 101, 102, 58, 32]
                &&& p@ == spec_rygit_path() + seq![47u8] + trim_ws(head@.skip(5))
            },
            Err(e) => {
                &&& e == RepoError::MissingOrInvalidRef
                &&& !(head@.len() >= 5 && head@.subrange(0, 5) == seq![114u8, 101, 102, 58, 32])
            },
        },
{
    // "ref: "
    let mut tag: Vec<u8> = Vec::new();
    tag.push(114);
    tag.push(101);
    tag.push(102);
    tag.push(58);
    tag.push(32);
    assert(tag@ =~= seq![114u8, 101, 102, 58, 32]);
    if !bytes_has_prefix(head, &tag) {
        return Err(RepoError::MissingOrInvalidRef);
    }
    let rest = bytes_range(head, 5, head.len());
    assert(rest@ =~= head@.skip(5));
    let trimmed = trim_bytes(&rest);
    let mut p = rygit_path();
    p.push(47);
    push_all(&mut p, &trimmed);
    Ok(p)
}

// ----------------------------------------------------------------------------
// Finding the repository root
// ----------------------------------------------------------------------------

pub open spec fn contains_path(l: Seq<Vec<u8>>, p: Seq<u8>) -> bool {
    exists|i: int| 0 <= i < l.len() && l[i]@ == p
}

fn path_list_contains(l: &Vec<Vec<u8>>, p: &Vec<u8>) -> (r: bool)
    ensures
        r == contains_path(l@, p@),
{
    let n = l.len();
    for i in 0..n
        invariant
            n == l@.len(),
            forall|j: int| 0 <= j < i ==> l@[j]@ != p@,
    {
        if bytes_eq(&l[i], p) {
            return true;
        }
    }
    false
}

/// The nearest ancestor directory of `start` (including `start` itself, and
/// the root, written as the empty path) that holds a metadata directory.
///
/// `metadata_dirs` lists every directory that holds one; the caller gathers
/// it from the live filesystem.
pub fn discover_repository_root_from(start: &Vec<u8>, metadata_dirs: &Vec<Vec<u8>>) -> (r: Result<
    Vec<u8>,
    RepoError,
>)
    ensures
        match r {
            Ok(p) => {
                &&& contains_path(metadata_dirs@, p@)
                &&& is_ancestor_dir(p@, start@)
                &&& forall|q: Seq<u8>|
                    is_ancestor_dir(q, start@) && contains_path(metadata_dirs@, q) ==> q.len()
                        <= p@.len()
            },
            Err(e) => {
                &&& e == RepoError::NotARepository
                &&& forall|q: Seq<u8>|
                    is_ancestor_dir(q, start@) ==> !contains_path(metadata_dirs@, q)
            },
        },
{
    let mut p = crate::bytes::bytes_clone(start);
    loop
        invariant
            is_ancestor_dir(p@, start@),
            forall|q: Seq<u8>|
                is_ancestor_dir(q, start@) && q.len() > p@.len() ==> !contains_path(
                    metadata_dirs@,
                    q,
                ),
        ensures
            (forall|q: Seq<u8>|
                is_ancestor_dir(q, start@) ==> !contains_path(metadata_dirs@, q)),
        decreases p@.len() + 1,
    {
        if path_list_contains(metadata_dirs, &p) {
            proof {
                assert forall|q: Seq<u8>|
                    is_ancestor_dir(q, start@) && contains_path(metadata_dirs@, q) implies q.len()
                    <= p@.len() by {}
            }
            return Ok(p);
        }
        if p.len() == 0 {
            proof {
                assert forall|q: Seq<u8>| is_ancestor_dir(q, start@) implies !contains_path(
                    metadata_dirs@,
                    q,
                ) by {
                    if q.len() == 0 {
                        assert(q =~= p@);
                    }
                }
            }
            break;
        }
        // Cut at the last separator; without one, the root remains.
        let ghost old_p = p@;
        let mut j: usize = p.len();
        loop
            invariant
                j <= p@.len(),
                p@ == old_p,
                forall|i: int| j <= i < p@.len() ==> p@[i] != 47,
            ensures
                j <= p@.len(),
                p@ == old_p,
                forall|i: int| j <= i < p@.len() ==> p@[i] != 47,
                j > 0 ==> p@[j - 1] == 47,
            decreases j,
        {
            if j == 0 {
                break;
            }
            if p[j - 1] == 47 {
                break;
            }
            j = j - 1;
        }
        let parent = if j == 0 {
            Vec::new()
        } else {
            bytes_range(&p, 0, j - 1)
        };
        proof {
            lemma_parent_step(old_p, start@, parent@, j as int);
        }
        p = parent;
    }
    Err(RepoError::NotARepository)
}

/// After cutting `p` at its last separator, every ancestor of `start` longer
/// than the cut is `p` itself or sits impossibly between two component
/// boundaries.
proof fn lemma_parent_step(p: Seq<u8>, start: Seq<u8>, parent: Seq<u8>, j: int)
    requires
        is_ancestor_dir(p, start),
        p.len() > 0,
        0 <= j <= p.len(),
        forall|i: int| j <= i < p.len() ==> p[i] != 47,
        parent == if j == 0 {
            Seq::<u8>::empty()
        } else {
            p.subrange(0, j - 1)
        },
        j > 0 ==> p[j - 1] == 47,
    ensures
        is_ancestor_dir(parent, start),
        forall|q: Seq<u8>|
            is_ancestor_dir(q, start) && q.len() > parent.len() && q != p ==> q.len() > p.len(),
{
    // parent is an ancestor of p, hence of start.
    assert(is_ancestor_dir(parent, start)) by {
        if parent.len() == 0 {
            if start.len() > 0 {
                assert(under_dir(start, parent));
            } else {
                assert(p == start);
                assert(false);
            }
        } else {
            // p is a prefix of start (or equal), and parent ++ "/" is a prefix of p.
            assert(is_prefix(parent.push(47u8), p)) by {
                assert(parent.push(47u8) =~= p.subrange(0, j));
            }
            if p == start {
                assert(under_dir(start, parent));
            } else {
                assert(is_prefix(p.push(47u8), start));
                assert(is_prefix(parent.push(47u8), start)) by {
                    assert forall|i: int| 0 <= i < j implies start[i] == p[i] by {
                        assert(start.subrange(0, p.len() as int + 1) == p.push(47u8));
                        assert(start.subrange(0, p.len() as int + 1)[i] == start[i]);
                    }
                    assert(start.subrange(0, j) =~= parent.push(47u8));
                }
                assert(under_dir(start, parent));
            }
        }
    }
    assert forall|q: Seq<u8>|
        is_ancestor_dir(q, start) && q.len() > parent.len() && q != p implies q.len() > p.len() by {
        if q.len() <= p.len() {
            // Both q and p are ancestor prefixes of start; the shorter is a
            // prefix of the longer, and ends at a separator inside p.
            lemma_ancestor_is_prefix(q, start);
            lemma_ancestor_is_prefix(p, start);
            if q.len() == p.len() {
                assert(q =~= p) by {
                    assert(start.subrange(0, q.len() as int) == q);
                    assert(start.subrange(0, p.len() as int) == p);
                }
                assert(false);
            } else {
                // q.len() < p.len() <= start.len(); start[q.len()] == 47.
                assert(under_dir(start, q));
                assert(q.len() < start.len());
                assert(start[q.len() as int] == 47) by {
                    assert(is_prefix(q.push(47u8), start));
                    assert(start.subrange(0, q.len() as int + 1) == q.push(47u8));
                    assert(start.subrange(0, q.len() as int + 1)[q.len() as int] == 47);
                }
                // p is a prefix of start, so p[q.len()] == 47 as well.
                assert(p[q.len() as int] == 47) by {
                    if p == start {
                    } else {
                        assert(is_prefix(p.push(47u8), start));
                        assert(start.subrange(0, p.len() as int + 1) == p.push(47u8));
                        assert(start.subrange(0, p.len() as int + 1)[q.len() as int] == start[q.len() as int]);
                    }
                }
                // The last separator of p is at j - 1 >= q.len(), so
                // parent.len() == j - 1 >= q.len(), contradicting the bound.
                assert(q.len() < j);
                assert(false);
            }
        }
    }
}

/// An ancestor directory is literally an initial segment of the path.
pub proof fn lemma_ancestor_is_prefix(a: Seq<u8>, p: Seq<u8>)
    requires
        is_ancestor_dir(a, p),
    ensures
        is_prefix(a, p),
{
    if a == p {
        assert(p.subrange(0, a.len() as int) =~= a);
    } else if a.len() == 0 {
        assert(p.subrange(0, 0) =~= a);
    } else {
        assert(is_prefix(a.push(47u8), p));
        assert(p.subrange(0, a.len() as int) =~= a) by {
            assert forall|i: int| 0 <= i < a.len() implies p[i] == a[i] by {
                assert(p.subrange(0, a.len() as int + 1) == a.push(47u8));
                assert(p.subrange(0, a.len() as int + 1)[i] == p[i]);
            }
        }
    }
}

/// Whether `p` is a well-formed repository-relative path.
pub fn path_is_valid(p: &Vec<u8>) -> (r: bool)
    ensures
        r == valid_path(p@),
{
    if p.len() == 0 {
        return false;
    }
    if p[0] == 47 || p[p.len() - 1] == 47 {
        return false;
    }
    let n = p.len();
    for i in 0..n
        invariant
            n == p@.len(),
            forall|j: int| 0 <= j < i ==> #[trigger] p@[j] != 0 && p@[j] != 10 && p@[j] != 32,
            forall|j: int| 0 < j < i ==> !(#[trigger] p@[j] == 47 && p@[j - 1] == 47),
    {
        let c = p[i];
        if c == 0 || c == 10 || c == 32 {
            return false;
        }
        if i > 0 && c == 47 && p[i - 1] == 47 {
            return false;
        }
    }
    true
}

} // verus!
