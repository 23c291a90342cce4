use vstd::prelude::*;

use crate::bytes::bytes_clone;
use crate::bytes::bytes_eq;
use crate::bytes::bytes_has_prefix;
use crate::bytes::bytes_range;
use crate::bytes::is_prefix;
use crate::bytes::push_all;
use crate::errors::RepoError;
use crate::hash::hex_digits_ok;
use crate::hash::hex_of;
use crate::hash::hex_val_of;
use crate::paths::head_content_prefix;
use crate::paths::spec_head_content_prefix;
use crate::paths::valid_path;
use crate::store::ObjectStore;
use crate::table::has_key;
use crate::table::lookup;
use crate::table::unique_keys;
use crate::workspace::pair_views;
use crate::workspace::Workspace;

verus! {

/// A named pointer at a commit.
pub struct Branch {
    name: Vec<u8>,
    commit_hash: crate::hash::Hash,
}

/// The branch name HEAD points at, if HEAD is well-formed.
pub open spec fn spec_head_branch_name(head: Seq<u8>) -> Option<Seq<u8>> {
    if is_prefix(spec_head_content_prefix(), head) {
        Some(head.skip(spec_head_content_prefix().len() as int))
    } else {
        None
    }
}

/// HEAD resolves: it is well-formed, its branch has a ref, and the ref
/// holds a valid hash.
pub open spec fn spec_resolvable(head: Seq<u8>, refs: Seq<(Seq<u8>, Seq<u8>)>) -> bool {
    match spec_head_branch_name(head) {
        Some(n) => match lookup(refs, n) {
            Some(c) => c.len() == 40 && hex_digits_ok(c),
            None => false,
        },
        None => false,
    }
}

impl Branch {
    pub closed spec fn name_view(&self) -> Seq<u8> {
        self.name@
    }

    pub closed spec fn hash_view(&self) -> Seq<u8> {
        self.commit_hash@
    }

    pub fn name(&self) -> (r: &Vec<u8>)
        ensures
            r@ == self.name_view(),
    {
        &self.name
    }

    pub fn commit_hash(&self) -> (r: &crate::hash::Hash)
        ensures
            r@ == self.hash_view(),
    {
        &self.commit_hash
    }

    /// The branch name HEAD holds, if HEAD is well-formed.
    pub fn current_name(head: &Vec<u8>) -> (r: Option<Vec<u8>>)
        ensures
            match r {
                Some(n) => spec_head_branch_name(head@) == Some(n@),
                None => spec_head_branch_name(head@) is None,
            },
    {
        let prefix = head_content_prefix();
        if !bytes_has_prefix(head, &prefix) {
            return None;
        }
        let name = bytes_range(head, prefix.len(), head.len());
        assert(name@ =~= head@.skip(spec_head_content_prefix().len() as int));
        Some(name)
    }

    /// The branch HEAD points at, resolved through its ref file. The one
    /// failure comes exactly when HEAD does not resolve.
    pub fn current(head: &Vec<u8>, refs: &Vec<(Vec<u8>, Vec<u8>)>) -> (r: Result<
        Branch,
        RepoError,
    >)
        ensures
            r is Ok <==> spec_resolvable(head@, pair_views(refs@)),
            match r {
                Ok(b) => {
                    &&& spec_head_branch_name(head@) == Some(b.name_view())
                    &&& match lookup(pair_views(refs@), b.name_view()) {
                        Some(c) => c.len() == 40 && hex_digits_ok(c) && b.hash_view()
                            == hex_val_of(c),
                        None => false,
                    }
                },
                Err(e) => e == RepoError::MissingOrInvalidRef,
            },
    {
        let prefix = head_content_prefix();
        if !bytes_has_prefix(head, &prefix) {
            return Err(RepoError::MissingOrInvalidRef);
        }
        let name = bytes_range(head, prefix.len(), head.len());
        assert(name@ =~= head@.skip(spec_head_content_prefix().len() as int));
        let content = match table_lookup(refs, &name) {
            Some(c) => c,
            None => {
                return Err(RepoError::MissingOrInvalidRef);
            },
        };
        let commit_hash = match crate::hash::Hash::from_hex(&content) {
            Ok(h) => h,
            Err(_) => {
                return Err(RepoError::MissingOrInvalidRef);
            },
        };
        Ok(Branch { name, commit_hash })
    }

    /// Writes a new ref for `name` pointing at the current branch's
    /// commit; it fails exactly when HEAD does not resolve, and the new
    /// branch carries the current branch's hash.
    pub fn create(name: &Vec<u8>, head: &Vec<u8>, refs: &mut Vec<(Vec<u8>, Vec<u8>)>) -> (r:
        Result<Branch, RepoError>)
        requires
            unique_keys(pair_views(old(refs)@)),
        ensures
            unique_keys(pair_views(final(refs)@)),
            r is Ok <==> spec_resolvable(head@, pair_views(old(refs)@)),
            match r {
                Ok(b) => {
                    &&& b.name_view() == name@
                    &&& match spec_head_branch_name(head@) {
                        Some(cur) => match lookup(pair_views(old(refs)@), cur) {
                            Some(c) => b.hash_view() == hex_val_of(c),
                            None => false,
                        },
                        None => false,
                    }
                    &&& lookup(pair_views(final(refs)@), name@) == Some(hex_of(b.hash_view()))
                    &&& forall|k: Seq<u8>|
                        k != name@ ==> #[trigger] lookup(pair_views(final(refs)@), k) == lookup(
                            pair_views(old(refs)@),
                            k,
                        )
                },
                Err(e) => {
                    &&& e == RepoError::MissingOrInvalidRef
                    &&& final(refs)@ == old(refs)@
                },
            },
    {
        let current = match Branch::current(head, refs) {
            Ok(b) => b,
            Err(e) => {
                return Err(e);
            },
        };
        let hex = current.commit_hash.to_hex();
        table_set(refs, name, hex);
        let b = Branch { name: bytes_clone(name), commit_hash: current.commit_hash };
        Ok(b)
    }

    /// The branch of the given name, with its commit hash.
    pub fn find_by_name(name: &Vec<u8>, refs: &Vec<(Vec<u8>, Vec<u8>)>) -> (r: Result<
        Branch,
        RepoError,
    >)
        ensures
            match r {
                Ok(b) => {
                    &&& b.name_view() == name@
                    &&& match lookup(pair_views(refs@), name@) {
                        Some(c) => c.len() == 40 && hex_digits_ok(c) && b.hash_view()
                            == hex_val_of(c),
                        None => false,
                    }
                },
                Err(e) => {
                    ||| (e == RepoError::BranchNotFound && !has_key(pair_views(refs@), name@))
                    ||| (e == RepoError::MissingOrInvalidRef && match lookup(
                        pair_views(refs@),
                        name@,
                    ) {
                        Some(c) => !(c.len() == 40 && hex_digits_ok(c)),
                        None => false,
                    })
                },
            },
    {
        let content = match table_lookup(refs, name) {
            Some(c) => c,
            None => {
                return Err(RepoError::BranchNotFound);
            },
        };
        let commit_hash = match crate::hash::Hash::from_hex(&content) {
            Ok(h) => h,
            Err(_) => {
                return Err(RepoError::MissingOrInvalidRef);
            },
        };
        Ok(Branch { name: bytes_clone(name), commit_hash })
    }

    /// Every branch, in ref order; it fails exactly when some ref holds no
    /// valid hash.
    pub fn list(refs: &Vec<(Vec<u8>, Vec<u8>)>) -> (r: Result<Vec<Branch>, RepoError>)
        ensures
            r is Ok <==> (forall|i: int|
                0 <= i < refs@.len() ==> (#[trigger] refs@[i]).1@.len() == 40 && hex_digits_ok(
                    refs@[i].1@,
                )),
            match r {
                Ok(bs) => {
                    &&& bs@.len() == refs@.len()
                    &&& forall|i: int|
                        0 <= i < bs@.len() ==> (#[trigger] bs@[i]).name_view() == refs@[i].0@
                            && bs@[i].hash_view() == hex_val_of(refs@[i].1@)
                },
                Err(e) => e == RepoError::MissingOrInvalidRef,
            },
    {
        let mut bs: Vec<Branch> = Vec::new();
        let n = refs.len();
        let mut i: usize = 0;
        while i < n
            invariant
                n == refs@.len(),
                i <= n,
                bs@.len() == i,
                forall|j: int|
                    0 <= j < i ==> (#[trigger] refs@[j]).1@.len() == 40 && hex_digits_ok(
                        refs@[j].1@,
                    ),
                forall|j: int|
                    0 <= j < i ==> (#[trigger] bs@[j]).name_view() == refs@[j].0@
                        && bs@[j].hash_view() == hex_val_of(refs@[j].1@),
            decreases n - i,
        {
            let commit_hash = match crate::hash::Hash::from_hex(&refs[i].1) {
                Ok(h) => h,
                Err(_) => {
                    assert(!((#[trigger] refs@[i as int]).1@.len() == 40 && hex_digits_ok(
                        refs@[i as int].1@,
                    )));
                    return Err(RepoError::MissingOrInvalidRef);
                },
            };
            bs.push(Branch { name: bytes_clone(&refs[i].0), commit_hash });
            i = i + 1;
        }
        Ok(bs)
    }

    /// Clears the working tree — uncommitted work included — and fills it
    /// with the named branch's committed files, then repoints HEAD: after
    /// success the working tree holds exactly the committed tree's files,
    /// each path mapped to its blob's body.
    pub fn switch(
        name: &Vec<u8>,
        head: &mut Vec<u8>,
        refs: &Vec<(Vec<u8>, Vec<u8>)>,
        store: &ObjectStore,
        ws: &mut Workspace,
    ) -> (r: Result<(), RepoError>)
        requires
            store.wf(),
            old(ws).wf(),
        ensures
            final(ws).wf(),
            (r matches Err(e2) && e2 == RepoError::BranchNotFound) <==> !has_key(
                pair_views(refs@),
                name@,
            ),
            match lookup(pair_views(refs@), name@) {
                Some(c) => r is Ok <==> spec_switch_ready(store@, c),
                None => true,
            },
            match r {
                Ok(_) => {
                    &&& final(head)@ == spec_head_content_prefix() + name@
                    &&& match lookup(pair_views(refs@), name@) {
                        Some(c) => {
                            &&& c.len() == 40 && hex_digits_ok(c)
                            &&& store@.dom().contains(hex_val_of(c))
                            &&& exists|t: crate::tree::Tree|
                                #[trigger] spec_switched_state(
                                    t,
                                    hex_val_of(c),
                                    store@,
                                    final(ws)@,
                                )
                        },
                        None => false,
                    }
                },
                Err(e) => {
                    &&& final(head)@ == old(head)@
                    &&& (e == RepoError::BranchNotFound || e == RepoError::MissingOrInvalidRef
                        || e == RepoError::InvalidObjectFormat || e == RepoError::IOFailure)
                },
            },
    {
        // Every file goes; the metadata lives outside the model.
        let mut cleared = Workspace::new();
        core::mem::swap(ws, &mut cleared);
        let branch = match Branch::find_by_name(name, refs) {
            Ok(b) => b,
            Err(e) => {
                return Err(e);
            },
        };
        let commit = match crate::commit::Commit::load(&branch.commit_hash, store) {
            Ok(c) => c,
            Err(e) => {
                return Err(e);
            },
        };
        let tree = match commit.tree(store) {
            Ok(t) => t,
            Err(e) => {
                return Err(e);
            },
        };
        let flat = tree.entries_flattened();
        let ghost pv = crate::workspace::pair_views(flat@);
        let ghost cg = lookup(pair_views(refs@), name@).unwrap();
        proof {
            assert(pv == tree.flat());
            assert(lookup(Seq::<(Seq<u8>, Seq<u8>)>::empty(), Seq::<u8>::empty()) is None);
            assert(lookup(pair_views(refs@), name@) == Some(cg));
            assert(hex_val_of(cg) == branch.commit_hash@);
        }
        let n = flat.len();
        let mut i: usize = 0;
        while i < n
            invariant
                n == pv.len(),
                pv == crate::workspace::pair_views(flat@),
                pv == tree.flat(),
                i <= n,
                store.wf(),
                ws.wf(),
                has_key(pair_views(refs@), name@),
                lookup(pair_views(refs@), name@) == Some(cg),
                cg.len() == 40 && hex_digits_ok(cg),
                store@.dom().contains(hex_val_of(cg)),
                crate::commit::spec_parse_commit(store@[hex_val_of(cg)]) matches Some(pc) && pc.0
                    == tree.hash_view(),
                crate::tree::spec_tree_loadable(store@, tree.hash_view()) is Ok,
                crate::tree::stored_tree(store@, tree),
                forall|x: int, y: int|
                    0 <= x < y < pv.len() ==> (#[trigger] pv[x]).0 != (#[trigger] pv[y]).0,
                forall|x: int| 0 <= x < pv.len() ==> valid_path((#[trigger] pv[x]).0),
                forall|x: int| 0 <= x < pv.len() ==> (#[trigger] pv[x]).1.len() == 20,
                forall|x: int, y: int|
                    0 <= x < pv.len() && 0 <= y < pv.len() && x != y ==> (#[trigger] pv[x]).0 != (
                    #[trigger] pv[y]).0 && !crate::paths::under_dir(pv[x].0, pv[y].0),
                forall|j: int|
                    0 <= j < i ==> store@.dom().contains((#[trigger] pv[j]).1)
                        && crate::blob::spec_object_body(store@[pv[j].1]) is Some && lookup(
                        ws@,
                        pv[j].0,
                    ) == crate::blob::spec_object_body(store@[pv[j].1]),
                forall|k: Seq<u8>|
                    !(exists|j: int| 0 <= j < i && (#[trigger] pv[j]).0 == k) ==> #[trigger] lookup(
                        ws@,
                        k,
                    ) is None,
            decreases n - i,
        {
            proof {
                assert(pv[i as int] == (flat@[i as int].0@, flat@[i as int].1@));
            }
            let path = bytes_clone(&flat[i].0);
            let hash = match crate::hash::Hash::from_bytes(&flat[i].1) {
                Some(h) => h,
                None => {
                    assert(false);
                    vstd::pervasive::unreached()
                },
            };
            let blob = crate::blob::Blob::of_hash(hash);
            let body = match blob.body(store) {
                Ok(b) => b,
                Err(e) => {
                    proof {
                        crate::table::lemma_lookup_at(pv, i as int);
                        assert(lookup(tree.flat(), pv[i as int].0) == Some(pv[i as int].1));
                        assert(!spec_switch_ready(store@, cg));
                    }
                    return Err(e);
                },
            };
            let ghost ws_before = ws@;
            ws.set_file(path, body);
            proof {
                assert forall|j: int|
                    0 <= j < i + 1 implies store@.dom().contains((#[trigger] pv[j]).1)
                    && crate::blob::spec_object_body(store@[pv[j].1]) is Some && lookup(
                    ws@,
                    pv[j].0,
                ) == crate::blob::spec_object_body(store@[pv[j].1]) by {
                    if j < i {
                        assert(pv[j].0 != pv[i as int].0 && !crate::paths::paths_conflict(
                            pv[j].0,
                            pv[i as int].0,
                        ));
                        assert(lookup(ws@, pv[j].0) == lookup(ws_before, pv[j].0));
                    }
                }
                assert forall|k: Seq<u8>|
                    !(exists|j: int| 0 <= j < i + 1 && (#[trigger] pv[j]).0 == k)
                    implies #[trigger] lookup(ws@, k) is None by {
                    assert(k != pv[i as int].0);
                    assert(!(exists|j: int| 0 <= j < i && (#[trigger] pv[j]).0 == k));
                    if !crate::paths::paths_conflict(k, pv[i as int].0) {
                        assert(lookup(ws@, k) == lookup(ws_before, k));
                    }
                }
            }
            i = i + 1;
        }
        let mut new_head = head_content_prefix();
        push_all(&mut new_head, name);
        core::mem::swap(head, &mut new_head);
        proof {
            let ghost c = lookup(pair_views(refs@), name@).unwrap();
            crate::table::lemma_lookup_all(pv);
            assert(crate::table::unique_keys(pv)) by {
                assert forall|x: int, y: int| 0 <= x < y < pv.len() implies (#[trigger] pv[x]).0
                    != (#[trigger] pv[y]).0 by {}
            }
            assert(spec_switch_ready(store@, cg)) by {
                assert forall|t2: crate::tree::Tree|
                    #[trigger] crate::tree::stored_tree(store@, t2) && t2.hash_view()
                        == tree.hash_view() implies (forall|k: Seq<u8>|
                    match #[trigger] lookup(t2.flat(), k) {
                        Some(hb) => store@.dom().contains(hb)
                            && crate::blob::spec_object_body(store@[hb]) is Some,
                        None => true,
                    }) by {
                    crate::tree::lemma_stored_tree_unique(store@, t2, tree);
                    crate::tree::lemma_like_same_flat(t2, tree);
                    assert(t2.flat() == tree.flat());
                    assert forall|k: Seq<u8>| match #[trigger] lookup(t2.flat(), k) {
                        Some(hb) => store@.dom().contains(hb)
                            && crate::blob::spec_object_body(store@[hb]) is Some,
                        None => true,
                    } by {
                        crate::table::lemma_lookup_some(pv, k);
                        match lookup(pv, k) {
                            Some(hb) => {
                                let j = choose|j: int|
                                    0 <= j < pv.len() && #[trigger] pv[j] == (k, hb);
                            },
                            None => {},
                        }
                    }
                }
            }
            assert(spec_switched_state(tree, hex_val_of(c), store@, ws@)) by {
                assert forall|k: Seq<u8>| match #[trigger] lookup(tree.flat(), k) {
                    Some(hb) => store@.dom().contains(hb) && crate::blob::spec_object_body(
                        store@[hb],
                    ) is Some && lookup(ws@, k) == crate::blob::spec_object_body(store@[hb]),
                    None => lookup(ws@, k) is None,
                } by {
                    crate::table::lemma_lookup_some(pv, k);
                    match lookup(pv, k) {
                        Some(hb) => {
                            let j = choose|j: int| 0 <= j < pv.len() && #[trigger] pv[j] == (k, hb);
                            assert(lookup(pv, pv[j].0) == Some(pv[j].1));
                        },
                        None => {
                            assert(!(exists|j: int|
                                0 <= j < pv.len() && (#[trigger] pv[j]).0 == k));
                        },
                    }
                }
            }
        }
        Ok(())
    }
}

/// The store contents a switch to a branch with ref content `c` needs:
/// the content is a 40-digit hash whose commit is stored and parses, the
/// commit's tree loads, and — through any tree the store pins under the
/// commit's tree hash — every flattened file's blob is present with a
/// well-formed body.
pub open spec fn spec_switch_ready(store: Map<Seq<u8>, Seq<u8>>, c: Seq<u8>) -> bool {
    &&& c.len() == 40 && hex_digits_ok(c)
    &&& store.dom().contains(hex_val_of(c))
    &&& match crate::commit::spec_parse_commit(store[hex_val_of(c)]) {
        Some(pc) => {
            &&& crate::tree::spec_tree_loadable(store, pc.0) is Ok
            &&& forall|t: crate::tree::Tree|
                #[trigger] crate::tree::stored_tree(store, t) && t.hash_view() == pc.0
                    ==> forall|k: Seq<u8>|
                    match #[trigger] lookup(t.flat(), k) {
                        Some(hb) => store.dom().contains(hb)
                            && crate::blob::spec_object_body(store[hb]) is Some,
                        None => true,
                    }
        },
        None => false,
    }
}

/// `t` is the committed tree of the commit stored at `ch`, and `wst`
/// holds exactly its files: each flattened path maps to its blob's body,
/// and nothing else is there.
pub open spec fn spec_switched_state(
    t: crate::tree::Tree,
    ch: Seq<u8>,
    store: Map<Seq<u8>, Seq<u8>>,
    wst: Seq<(Seq<u8>, Seq<u8>)>,
) -> bool {
    &&& t.wf()
    &&& store.dom().contains(t.hash_view())
    &&& crate::tree::spec_tree_serial(crate::tree::triples(t.entries_view())) == store[t.hash_view()]
    &&& match crate::commit::spec_parse_commit(store[ch]) {
        Some(pc) => t.hash_view() == pc.0,
        None => false,
    }
    &&& forall|k: Seq<u8>|
        match #[trigger] lookup(t.flat(), k) {
            Some(hb) => store.dom().contains(hb) && crate::blob::spec_object_body(store[hb]) is Some
                && lookup(wst, k) == crate::blob::spec_object_body(store[hb]),
            None => lookup(wst, k) is None,
        }
}

/// The value stored under `k`, copied out.
pub fn table_lookup(t: &Vec<(Vec<u8>, Vec<u8>)>, k: &Vec<u8>) -> (r: Option<Vec<u8>>)
    ensures
        match r {
            Some(v) => lookup(pair_views(t@), k@) == Some(v@),
            None => !has_key(pair_views(t@), k@),
        },
{
    proof {
        crate::table::lemma_lookup_some(pair_views(t@), k@);
    }
    let n = t.len();
    for i in 0..n
        invariant
            n == t@.len(),
            forall|j: int| 0 <= j < i ==> (#[trigger] pair_views(t@)[j]).0 != k@,
    {
        proof {
            assert(pair_views(t@)[i as int] == (t@[i as int].0@, t@[i as int].1@));
        }
        if bytes_eq(&t[i].0, k) {
            proof {
                crate::table::lemma_lookup_at(pair_views(t@), i as int);
            }
            return Some(bytes_clone(&t[i].1));
        }
    }
    None
}

/// Sets `k` to `v`, replacing an existing entry or appending a new one.
pub fn table_set(t: &mut Vec<(Vec<u8>, Vec<u8>)>, k: &Vec<u8>, v: Vec<u8>)
    requires
        unique_keys(pair_views(old(t)@)),
    ensures
        unique_keys(pair_views(final(t)@)),
        lookup(pair_views(final(t)@), k@) == Some(v@),
        forall|k2: Seq<u8>|
            k2 != k@ ==> #[trigger] lookup(pair_views(final(t)@), k2) == lookup(
                pair_views(old(t)@),
                k2,
            ),
{
    let n = t.len();
    let mut i: usize = 0;
    while i < n
        invariant
            n == t@.len(),
            i <= n,
            unique_keys(pair_views(t@)),
            t@ == old(t)@,
            forall|j: int| 0 <= j < i ==> (#[trigger] pair_views(t@)[j]).0 != k@,
        decreases n - i,
    {
        proof {
            assert(pair_views(t@)[i as int] == (t@[i as int].0@, t@[i as int].1@));
        }
        if bytes_eq(&t[i].0, k) {
            let ghost old_view = pair_views(t@);
            let kc = bytes_clone(k);
            t.set(i, (kc, v));
            proof {
                assert(pair_views(t@) =~= old_view.update(i as int, (k@, v@)));
                assert(unique_keys(pair_views(t@))) by {
                    assert forall|a: int, b: int|
                        0 <= a < b < pair_views(t@).len() implies (#[trigger] pair_views(
                        t@,
                    )[a]).0 != (#[trigger] pair_views(t@)[b]).0 by {
                        if a != i as int && b != i as int {
                            assert(pair_views(t@)[a] == old_view[a]);
                            assert(pair_views(t@)[b] == old_view[b]);
                        } else if a == i as int {
                            assert(pair_views(t@)[b] == old_view[b]);
                            assert(old_view[i as int].0 == k@);
                        } else {
                            assert(pair_views(t@)[a] == old_view[a]);
                            assert(old_view[i as int].0 == k@);
                        }
                    }
                }
                crate::table::lemma_lookup_at(pair_views(t@), i as int);
                assert forall|k2: Seq<u8>| k2 != k@ implies #[trigger] lookup(
                    pair_views(t@),
                    k2,
                ) == lookup(old_view, k2) by {
                    crate::table::lemma_lookup_some(pair_views(t@), k2);
                    crate::table::lemma_lookup_some(old_view, k2);
                    crate::table::lemma_lookup_all(pair_views(t@));
                    crate::table::lemma_lookup_all(old_view);
                    match lookup(old_view, k2) {
                        Some(v2) => {
                            let j = choose|j: int|
                                0 <= j < old_view.len() && #[trigger] old_view[j] == (k2, v2);
                            assert(pair_views(t@)[j] == (k2, v2));
                        },
                        None => {
                            if lookup(pair_views(t@), k2) is Some {
                                let j = choose|j: int|
                                    0 <= j < pair_views(t@).len() && (#[trigger] pair_views(
                                    t@,
                                    )[j]).0 == k2;
                                assert(old_view[j].0 == k2);
                            }
                        },
                    }
                }
            }
            return ;
        }
        i = i + 1;
    }
    let ghost old_view = pair_views(t@);
    let kc = bytes_clone(k);
    t.push((kc, v));
    proof {
        assert(pair_views(t@) =~= old_view + seq![(k@, v@)]);
        crate::table::lemma_lookup_append(old_view, seq![(k@, v@)], k@);
        crate::table::lemma_lookup_some(old_view, k@);
        if has_key(old_view, k@) {
            let j = choose|j: int| 0 <= j < old_view.len() && (#[trigger] old_view[j]).0 == k@;
        }
        assert(lookup(seq![(k@, v@)], k@) == Some(v@)) by {
            assert(seq![(k@, v@)][0] == (k@, v@));
        }
        assert forall|k2: Seq<u8>| k2 != k@ implies #[trigger] lookup(pair_views(t@), k2)
            == lookup(old_view, k2) by {
            crate::table::lemma_lookup_append(old_view, seq![(k@, v@)], k2);
            assert(lookup(seq![(k@, v@)], k2) is None) by {
                assert(seq![(k@, v@)][0] == (k@, v@));
                assert(seq![(k@, v@)].drop_first() =~= Seq::<(Seq<u8>, Seq<u8>)>::empty());
                assert(lookup(Seq::<(Seq<u8>, Seq<u8>)>::empty(), k2) is None);
            }
        }
        assert(unique_keys(pair_views(t@))) by {
            assert forall|a: int, b: int|
                0 <= a < b < pair_views(t@).len() implies (#[trigger] pair_views(t@)[a]).0 != (
            #[trigger] pair_views(t@)[b]).0 by {
                if b == old_view.len() as int {
                    assert(pair_views(t@)[a] == old_view[a]);
                    assert(old_view[a].0 != k@);
                } else {
                    assert(pair_views(t@)[a] == old_view[a]);
                    assert(pair_views(t@)[b] == old_view[b]);
                }
            }
        }
    }
}

} // verus!
