use vstd::prelude::*;

use crate::bytes::dec_digits;
use crate::bytes::split_at_seps;
use crate::bytes::lex_lt;
use crate::bytes::push_all;
use crate::bytes::u64_to_dec;
use crate::errors::RepoError;
use crate::hash::sha1_of;
use crate::objects::spec_object_hash;
use crate::objects::Object;
use crate::paths::under_dir;
use crate::paths::valid_name;
use crate::table::lookup;

verus! {

/// Whether a tree entry points at a file or a nested directory.
#[derive(Debug, Clone, PartialEq, Eq)]
pub enum EntryMode {
    File,
    Directory,
}

/// `"100644"` for a file, `"40000"` for a directory.
pub open spec fn spec_mode_bytes(is_dir: bool) -> Seq<u8> {
    if is_dir {
        seq![52u8, 48, 48, 48, 48]
    } else {
        seq![49u8, 48, 48, 54, 52, 52]
    }
}

/// `"tree "`
pub open spec fn spec_tree_tag() -> Seq<u8> {
    seq![116u8, 114, 101, 101, 32]
}

/// One serialized entry: `"<mode> <name>\0<20-byte hash>"`, from a
/// `(is-directory, name, hash)` triple.
pub open spec fn spec_record(t: (bool, Seq<u8>, Seq<u8>)) -> Seq<u8> {
    spec_mode_bytes(t.0) + seq![32u8] + t.1 + seq![0u8] + t.2
}

/// The concatenated records of a tree's entries.
pub open spec fn spec_records(ts: Seq<(bool, Seq<u8>, Seq<u8>)>) -> Seq<u8>
    decreases ts.len(),
{
    if ts.len() == 0 {
        Seq::empty()
    } else {
        spec_records(ts.drop_last()) + spec_record(ts.last())
    }
}

/// The serialized form of a tree: `"tree <body-length>\0"` then the records.
pub open spec fn spec_tree_serial(ts: Seq<(bool, Seq<u8>, Seq<u8>)>) -> Seq<u8> {
    spec_tree_tag() + dec_digits(spec_records(ts).len()) + seq![0u8] + spec_records(ts)
}

/// Well-formed triples: valid single names in strictly ascending order,
/// 20-byte hashes.
pub open spec fn triples_wf(ts: Seq<(bool, Seq<u8>, Seq<u8>)>) -> bool {
    &&& forall|i: int|
        0 <= i < ts.len() ==> valid_name((#[trigger] ts[i]).1) && ts[i].2.len() == 20
    &&& forall|i: int, j: int| 0 <= i < j < ts.len() ==> lex_lt((#[trigger] ts[i]).1, (#[trigger] ts[j]).1)
}

/// One entry of a tree: a name and the object stored under it.
#[derive(Debug, PartialEq, Eq)]
pub struct TreeEntry {
    object: Object,
    name: Vec<u8>,
}

/// One directory snapshot: its content hash and its sorted entries.
#[derive(Debug, PartialEq, Eq)]
pub struct Tree {
    hash: crate::hash::Hash,
    entries: Vec<TreeEntry>,
}

/// The `(is-directory, name, hash)` triple an entry serializes as.
pub closed spec fn entry_triple(e: TreeEntry) -> (bool, Seq<u8>, Seq<u8>) {
    (e.object is Tree, e.name@, spec_object_hash(e.object))
}

pub closed spec fn triples(es: Seq<TreeEntry>) -> Seq<(bool, Seq<u8>, Seq<u8>)> {
    es.map_values(|e: TreeEntry| entry_triple(e))
}

/// A well-formed object: blobs always are; trees must be.
pub closed spec fn obj_wf(o: Object) -> bool
    decreases o,
{
    match o {
        Object::Blob(_) => true,
        Object::Tree(t) => tree_wf(t),
    }
}

/// A well-formed tree: its hash is the digest of its serialized form, its
/// triples are well-formed, and so is every nested object.
pub closed spec fn tree_wf(t: Tree) -> bool
    decreases t,
{
    &&& t.hash@ == sha1_of(spec_tree_serial(triples(t.entries@)))
    &&& triples_wf(triples(t.entries@))
    &&& forall|i: int| 0 <= i < t.entries@.len() ==> obj_wf((#[trigger] t.entries@[i]).object)
}

// ----------------------------------------------------------------------------
// Flattening
// ----------------------------------------------------------------------------

/// The files a list of entries holds, as full (path, hash) pairs: each
/// blob under its prefixed name, each subtree flattened one level deeper.
pub closed spec fn flat_entries(es: Seq<TreeEntry>, prefix: Seq<u8>) -> Seq<(Seq<u8>, Seq<u8>)>
    decreases es,
{
    if es.len() == 0 {
        Seq::empty()
    } else {
        flat_entries(es.drop_last(), prefix) + flat_one(es.last(), prefix)
    }
}

pub closed spec fn flat_one(e: TreeEntry, prefix: Seq<u8>) -> Seq<(Seq<u8>, Seq<u8>)>
    decreases e,
{
    match e.object {
        Object::Blob(b) => seq![(prefix + e.name@, b@)],
        Object::Tree(t) => flat_entries(t.entries@, prefix + e.name@ + seq![47u8]),
    }
}

/// The directory prefix that keys under `d` begin with.
pub open spec fn dir_prefix(d: Seq<u8>) -> Seq<u8> {
    if d.len() == 0 {
        Seq::empty()
    } else {
        d + seq![47u8]
    }
}

impl TreeEntry {
    /// Whether the entry points at a file or a directory.
    pub fn mode(&self) -> (m: EntryMode)
        ensures
            (m is Directory) == self.triple().0,
    {
        match self.object {
            Object::Blob(_) => EntryMode::File,
            Object::Tree(_) => EntryMode::Directory,
        }
    }

    /// The entry's triple, for reasoning about its serialized form.
    pub open spec fn triple(&self) -> (bool, Seq<u8>, Seq<u8>) {
        entry_triple(*self)
    }

    pub fn object(&self) -> (r: &Object)
        ensures
            *r == self.obj(),
    {
        &self.object
    }

    /// The entry's object, for specifications.
    pub closed spec fn obj(&self) -> Object {
        self.object
    }

    pub fn hash(&self) -> (h: &crate::hash::Hash)
        ensures
            h@ == self.triple().2,
    {
        self.object.hash()
    }

    pub fn name(&self) -> (r: &Vec<u8>)
        ensures
            r@ == self.triple().1,
    {
        &self.name
    }
}

impl Tree {
    pub closed spec fn hash_view(&self) -> Seq<u8> {
        self.hash@
    }

    pub closed spec fn entries_view(&self) -> Seq<TreeEntry> {
        self.entries@
    }

    pub open spec fn wf(&self) -> bool {
        tree_wf(*self)
    }

    /// What this tree's entries flatten to, keyed from the repository root.
    pub open spec fn flat(&self) -> Seq<(Seq<u8>, Seq<u8>)> {
        flat_entries(self.entries_view(), Seq::empty())
    }

    pub fn hash(&self) -> (h: &crate::hash::Hash)
        ensures
            h@ == self.hash_view(),
    {
        &self.hash
    }

    pub fn entries(&self) -> (r: &Vec<TreeEntry>)
        ensures
            r@ == self.entries_view(),
    {
        &self.entries
    }

    /// A tree's hash is the digest of its serialized entries, and its
    /// entries are well-formed triples.
    pub proof fn lemma_wf_unfold(&self)
        requires
            self.wf(),
        ensures
            self.hash_view() == sha1_of(spec_tree_serial(triples(self.entries_view()))),
            triples_wf(triples(self.entries_view())),
            forall|i: int|
                0 <= i < self.entries_view().len() ==> obj_wf(
                    (#[trigger] self.entries_view()[i]).obj(),
                ),
    {
    }
}

/// Writes the serialized form of a sorted entry list.
pub fn tree_serialize(entries: &Vec<TreeEntry>) -> (r: Vec<u8>)
    ensures
        r@ == spec_tree_serial(triples(entries@)),
{
    let mut body: Vec<u8> = Vec::new();
    let n = entries.len();
    let mut i: usize = 0;
    while i < n
        invariant
            n == entries@.len(),
            i <= n,
            body@ == spec_records(triples(entries@).subrange(0, i as int)),
        decreases n - i,
    {
        let ghost body0 = body@;
        let ghost tr = entry_triple(entries@[i as int]);
        let e = &entries[i];
        match &e.object {
            Object::Blob(_) => {
                body.push(49);
                body.push(48);
                body.push(48);
                body.push(54);
                body.push(52);
                body.push(52);
            },
            Object::Tree(_) => {
                body.push(52);
                body.push(48);
                body.push(48);
                body.push(48);
                body.push(48);
            },
        }
        proof {
            assert(body@ =~= body0 + spec_mode_bytes(tr.0));
        }
        body.push(32);
        push_all(&mut body, &e.name);
        body.push(0);
        proof {
            assert(body@ =~= body0 + spec_mode_bytes(tr.0) + seq![32u8] + tr.1 + seq![0u8]);
        }
        let ghost mid = body@;
        let h = e.object.hash();
        let hb = h.as_bytes();
        let mut x: usize = 0;
        while x < 20
            invariant
                x <= 20,
                hb@ == tr.2,
                hb@.len() == 20,
                body@ == mid + hb@.subrange(0, x as int),
            decreases 20 - x,
        {
            body.push(hb[x]);
            assert(body@ =~= mid + hb@.subrange(0, x + 1));
            x = x + 1;
        }
        proof {
            hash_len_fact(*h);
            assert(hb@.subrange(0, 20) =~= hb@);
            let ts = triples(entries@);
            let cur = ts.subrange(0, i + 1);
            assert(cur.drop_last() =~= ts.subrange(0, i as int));
            assert(cur.last() == ts[i as int]);
            assert(ts[i as int] == tr);
            assert(body@ =~= spec_records(ts.subrange(0, i as int)) + spec_record(tr));
            assert(body@ =~= spec_records(cur));
        }
        i = i + 1;
    }
    proof {
        assert(triples(entries@).subrange(0, n as int) =~= triples(entries@));
    }
    let mut r: Vec<u8> = Vec::new();
    r.push(116);
    r.push(114);
    r.push(101);
    r.push(101);
    r.push(32);
    assert(r@ =~= spec_tree_tag());
    let len = u64_to_dec(body.len() as u64);
    push_all(&mut r, &len);
    r.push(0);
    push_all(&mut r, &body);
    assert(r@ =~= spec_tree_serial(triples(entries@)));
    r
}

proof fn hash_len_fact(h: crate::hash::Hash)
    ensures
        h@.len() == 20,
{
    h.lemma_len();
}

/// The same set of (name, hash) pairs, fed in any order, serializes to the
/// same bytes and hence the same hash: sorting by name leaves exactly one
/// well-formed arrangement.
pub proof fn lemma_tree_determinism(
    ts1: Seq<(bool, Seq<u8>, Seq<u8>)>,
    ts2: Seq<(bool, Seq<u8>, Seq<u8>)>,
)
    requires
        triples_wf(ts1),
        triples_wf(ts2),
        ts1.to_multiset() == ts2.to_multiset(),
    ensures
        ts1 == ts2,
        spec_tree_serial(ts1) == spec_tree_serial(ts2),
        sha1_of(spec_tree_serial(ts1)) == sha1_of(spec_tree_serial(ts2)),
{
    lemma_name_sorted_unique(ts1, ts2);
}

/// Two lists of triples with strictly ascending names and the same
/// multiset of triples are the same list.
proof fn lemma_name_sorted_unique(ts1: Seq<(bool, Seq<u8>, Seq<u8>)>, ts2: Seq<(bool, Seq<u8>, Seq<u8>)>)
    requires
        triples_wf(ts1),
        triples_wf(ts2),
        ts1.to_multiset() == ts2.to_multiset(),
    ensures
        ts1 == ts2,
    decreases ts1.len(),
{
    broadcast use vstd::seq_lib::group_to_multiset_ensures;

    ts1.to_multiset_ensures();
    ts2.to_multiset_ensures();
    if ts1.len() == 0 {
        assert(ts2.to_multiset().len() == 0);
        assert(ts1 =~= ts2);
    } else {
        assert(ts2.len() > 0) by {
            assert(ts1.to_multiset().len() == ts1.len());
            assert(ts2.to_multiset().len() == ts2.len());
        }
        let x = ts1.last();
        let y = ts2.last();
        assert(ts1.to_multiset().contains(x)) by {
            assert(ts1.contains(x)) by {
                assert(ts1[ts1.len() - 1] == x);
            }
        }
        assert(ts2.contains(x));
        let i = choose|i: int| 0 <= i < ts2.len() && ts2[i] == x;
        assert(ts2.to_multiset().contains(y)) by {
            assert(ts2.contains(y)) by {
                assert(ts2[ts2.len() - 1] == y);
            }
        }
        assert(ts1.contains(y));
        let j = choose|j: int| 0 <= j < ts1.len() && ts1[j] == y;
        assert(x == y) by {
            if i < ts2.len() - 1 {
                assert(lex_lt(ts2[i].1, y.1));
                if j < ts1.len() - 1 {
                    assert(lex_lt(ts1[j].1, x.1));
                    crate::bytes::lemma_lex_lt_transitive(x.1, y.1, x.1);
                    crate::bytes::lemma_lex_lt_irreflexive(x.1, x.1);
                } else {
                    assert(y == x);
                }
            }
        }
        let d1 = ts1.drop_last();
        let d2 = ts2.drop_last();
        assert(d1.to_multiset() =~= ts1.to_multiset().remove(x)) by {
            assert(ts1.remove(ts1.len() - 1) =~= d1);
        }
        assert(d2.to_multiset() =~= ts2.to_multiset().remove(y)) by {
            assert(ts2.remove(ts2.len() - 1) =~= d2);
        }
        assert(triples_wf(d1)) by {
            assert forall|a: int| 0 <= a < d1.len() implies valid_name((#[trigger] d1[a]).1)
                && d1[a].2.len() == 20 by {
                assert(d1[a] == ts1[a]);
            }
            assert forall|a: int, b: int| 0 <= a < b < d1.len() implies lex_lt(
                (#[trigger] d1[a]).1,
                (#[trigger] d1[b]).1,
            ) by {
                assert(d1[a] == ts1[a] && d1[b] == ts1[b]);
            }
        }
        assert(triples_wf(d2)) by {
            assert forall|a: int| 0 <= a < d2.len() implies valid_name((#[trigger] d2[a]).1)
                && d2[a].2.len() == 20 by {
                assert(d2[a] == ts2[a]);
            }
            assert forall|a: int, b: int| 0 <= a < b < d2.len() implies lex_lt(
                (#[trigger] d2[a]).1,
                (#[trigger] d2[b]).1,
            ) by {
                assert(d2[a] == ts2[a] && d2[b] == ts2[b]);
            }
        }
        lemma_name_sorted_unique(d1, d2);
        assert forall|a: int| 0 <= a < ts1.len() implies ts1[a] == ts2[a] by {
            if a < ts1.len() - 1 {
                assert(ts1[a] == d1[a] && ts2[a] == d2[a]);
            }
        }
        assert(ts1 =~= ts2);
    }
}

/// What `find` resolves a component path to: the blob entry at its end.
pub open spec fn spec_find(es: Seq<TreeEntry>, parts: Seq<Seq<u8>>) -> Option<TreeEntry>
    decreases parts.len(),
{
    if parts.len() == 0 {
        None
    } else {
        match first_named(es, parts[0]) {
            None => None,
            Some(e) => {
                if parts.len() == 1 {
                    match e.obj() {
                        Object::Blob(_) => Some(e),
                        Object::Tree(_) => None,
                    }
                } else {
                    match e.obj() {
                        Object::Blob(_) => None,
                        Object::Tree(t) => spec_find(t.entries_view(), parts.drop_first()),
                    }
                }
            },
        }
    }
}

/// The first entry with the given name.
pub closed spec fn first_named(es: Seq<TreeEntry>, name: Seq<u8>) -> Option<TreeEntry>
    decreases es.len(),
{
    if es.len() == 0 {
        None
    } else if es[0].name@ == name {
        Some(es[0])
    } else {
        first_named(es.drop_first(), name)
    }
}


// ----------------------------------------------------------------------------
// Building a tree from the staging index
// ----------------------------------------------------------------------------

/// One built entry is right for directory `dir` of index `ix`: a blob entry
/// carries the staged hash of its path; a tree entry carries a well-formed
/// subtree whose flattening mirrors the staged paths under it.
spec fn entry_ok(e: TreeEntry, dir: Seq<u8>, ix: Seq<(Seq<u8>, Seq<u8>)>) -> bool {
    &&& valid_name(e.name@)
    &&& obj_wf(e.object)
    &&& match e.object {
        Object::Blob(b) => lookup(ix, dir_prefix(dir) + e.name@) == Some(b@) && b@.len() == 20,
        Object::Tree(t) => {
            let d2 = dir_prefix(dir) + e.name@;
            forall|k: Seq<u8>|
                #[trigger] lookup(flat_entries(t.entries@, dir_prefix(d2)), k) == (
                if under_dir(k, d2) {
                    lookup(ix, k)
                } else {
                    None
                })
        },
    }
}

/// Some blob entry of `es` stands for the file at `p`.
spec fn covers_file(es: Seq<TreeEntry>, dir: Seq<u8>, p: Seq<u8>) -> bool {
    exists|x: int|
        0 <= x < es.len() && (#[trigger] es[x]).object is Blob && dir_prefix(dir) + es[x].name@
            == p
}

/// Some tree entry of `es` stands for the child directory `c`.
spec fn covers_dir(es: Seq<TreeEntry>, dir: Seq<u8>, c: Seq<u8>) -> bool {
    exists|x: int|
        0 <= x < es.len() && (#[trigger] es[x]).object is Tree && dir_prefix(dir) + es[x].name@
            == c
}

/// Looking a key up in a flattening where no entry's own flattening holds
/// it finds nothing.
proof fn lemma_flat_none(es: Seq<TreeEntry>, prefix: Seq<u8>, k: Seq<u8>)
    requires
        forall|x: int|
            0 <= x < es.len() ==> lookup(flat_one(#[trigger] es[x], prefix), k) is None,
    ensures
        lookup(flat_entries(es, prefix), k) is None,
    decreases es.len(),
{
    if es.len() > 0 {
        assert forall|x: int|
            0 <= x < es.drop_last().len() implies lookup(
            flat_one(#[trigger] es.drop_last()[x], prefix),
            k,
        ) is None by {
            assert(es.drop_last()[x] == es[x]);
        }
        lemma_flat_none(es.drop_last(), prefix, k);
        crate::table::lemma_lookup_append(
            flat_entries(es.drop_last(), prefix),
            flat_one(es.last(), prefix),
            k,
        );
        assert(es[es.len() - 1] == es.last());
    }
}

/// Looking a key up in a flattening finds what the first entry holding it
/// holds.
proof fn lemma_flat_at(es: Seq<TreeEntry>, prefix: Seq<u8>, k: Seq<u8>, x: int, v: Seq<u8>)
    requires
        0 <= x < es.len(),
        lookup(flat_one(es[x], prefix), k) == Some(v),
        forall|y: int| 0 <= y < x ==> lookup(flat_one(#[trigger] es[y], prefix), k) is None,
    ensures
        lookup(flat_entries(es, prefix), k) == Some(v),
    decreases es.len(),
{
    crate::table::lemma_lookup_append(
        flat_entries(es.drop_last(), prefix),
        flat_one(es.last(), prefix),
        k,
    );
    if x == es.len() - 1 {
        assert forall|y: int|
            0 <= y < es.drop_last().len() implies lookup(
            flat_one(#[trigger] es.drop_last()[y], prefix),
            k,
        ) is None by {
            assert(es.drop_last()[y] == es[y]);
        }
        lemma_flat_none(es.drop_last(), prefix, k);
        assert(es.last() == es[x]);
    } else {
        assert(es.drop_last()[x] == es[x]);
        assert forall|y: int| 0 <= y < x implies lookup(
            flat_one(#[trigger] es.drop_last()[y], prefix),
            k,
        ) is None by {
            assert(es.drop_last()[y] == es[y]);
        }
        lemma_flat_at(es.drop_last(), prefix, k, x, v);
    }
}

/// What one blob entry's flattening holds.
proof fn lemma_flat_one_blob(e: TreeEntry, prefix: Seq<u8>, k: Seq<u8>)
    requires
        e.object is Blob,
    ensures
        lookup(flat_one(e, prefix), k) == (if k == prefix + e.name@ {
            Some(e.object->Blob_0@)
        } else {
            None::<Seq<u8>>
        }),
{
    let s = flat_one(e, prefix);
    assert(s[0] == (prefix + e.name@, e.object->Blob_0@));
    assert(s.drop_first() =~= Seq::<(Seq<u8>, Seq<u8>)>::empty());
    assert(lookup(Seq::<(Seq<u8>, Seq<u8>)>::empty(), k) is None);
}

/// A level of entries that covers exactly the staged paths under `dir`
/// flattens to exactly those paths.
#[verifier::rlimit(100)]
proof fn lemma_level_flat(es: Seq<TreeEntry>, dir: Seq<u8>, ix: Seq<(Seq<u8>, Seq<u8>)>)
    requires
        crate::index::index_entries_wf(ix),
        dir.len() == 0 || crate::paths::valid_path(dir),
        forall|x: int| 0 <= x < es.len() ==> entry_ok(#[trigger] es[x], dir, ix),
        forall|x: int, y: int|
            0 <= x < y < es.len() ==> lex_lt((#[trigger] es[x]).name@, (#[trigger] es[y]).name@),
        forall|k: Seq<u8>|
            crate::index::is_direct_file_of(k, dir) && #[trigger] crate::table::has_key(ix, k)
                ==> covers_file(es, dir, k),
        forall|i: int|
            0 <= i < ix.len() && crate::index::has_child_dir((#[trigger] ix[i]).0, dir)
                ==> covers_dir(es, dir, crate::index::child_dir_of(ix[i].0, dir)),
    ensures
        forall|k: Seq<u8>|
            #[trigger] lookup(flat_entries(es, dir_prefix(dir)), k) == (if under_dir(k, dir) {
                lookup(ix, k)
            } else {
                None
            }),
{
    let dirp = dir_prefix(dir);
    // Every entry's own key set lies under `dir`.
    assert forall|x: int| 0 <= x < es.len() implies under_dir(
        dirp + (#[trigger] es[x]).name@,
        dir,
    ) by {
        if dir.len() > 0 {
            assert((dirp + es[x].name@).subrange(0, dir.len() as int + 1) =~= dir.push(47u8));
        }
    }
    assert forall|k: Seq<u8>| #[trigger] lookup(flat_entries(es, dirp), k) == (
    if under_dir(k, dir) {
        lookup(ix, k)
    } else {
        None
    }) by {
        crate::table::lemma_lookup_some(ix, k);
        if !under_dir(k, dir) {
            assert forall|x: int|
                0 <= x < es.len() implies lookup(flat_one(#[trigger] es[x], dirp), k) is None by {
                let e = es[x];
                match e.object {
                    Object::Blob(_) => {
                        lemma_flat_one_blob(e, dirp, k);
                        assert(k != dirp + e.name@);
                    },
                    Object::Tree(_) => {
                        let d2 = dirp + e.name@;
                        if under_dir(k, d2) {
                            crate::paths::lemma_under_dir_trans(k, d2, dir);
                        }
                    },
                }
            }
            lemma_flat_none(es, dirp, k);
        } else {
            // k == dirp + rest
            let rest = k.skip(dirp.len() as int);
            assert(k =~= dirp + rest) by {
                if dir.len() > 0 {
                    assert(k.subrange(0, dir.len() as int + 1) == dir.push(47u8));
                    assert forall|i: int| 0 <= i < dirp.len() implies k[i] == dirp[i] by {
                        assert(k.subrange(0, dir.len() as int + 1)[i] == k[i]);
                    }
                }
            }
            crate::bytes::lemma_find_byte(rest, 47);
            let f = crate::bytes::find_byte(rest, 47);
            if f == -1 {
                // A direct file position.
                assert(crate::index::is_direct_file_of(k, dir)) by {
                    assert(k.skip(crate::index::dir_skip(dir)) =~= rest);
                }
                match lookup(ix, k) {
                    Some(v) => {
                        assert(covers_file(es, dir, k));
                        let x0 = choose|x: int|
                            0 <= x < es.len() && (#[trigger] es[x]).object is Blob && dirp
                                + es[x].name@ == k;
                        lemma_flat_one_blob(es[x0], dirp, k);
                        assert(lookup(flat_one(es[x0], dirp), k) == Some(v)) by {
                            assert(lookup(ix, dirp + es[x0].name@) == Some(
                                es[x0].object->Blob_0@,
                            ));
                        }
                        assert forall|y: int| 0 <= y < x0 implies lookup(
                            flat_one(#[trigger] es[y], dirp),
                            k,
                        ) is None by {
                            lemma_segment_none_for_file(es, dir, ix, k, rest, x0, y);
                        }
                        lemma_flat_at(es, dirp, k, x0, v);
                    },
                    None => {
                        assert forall|x: int|
                            0 <= x < es.len() implies lookup(
                            flat_one(#[trigger] es[x], dirp),
                            k,
                        ) is None by {
                            let e = es[x];
                            match e.object {
                                Object::Blob(_) => {
                                    lemma_flat_one_blob(e, dirp, k);
                                    if k == dirp + e.name@ {
                                        assert(lookup(ix, k) is Some);
                                    }
                                },
                                Object::Tree(_) => {
                                    let d2 = dirp + e.name@;
                                    if under_dir(k, d2) {
                                        assert(crate::bytes::is_prefix(d2.push(47u8), k));
                                        assert(rest[e.name@.len() as int] == 47) by {
                                            assert(k.subrange(0, d2.len() as int + 1) == d2.push(
                                                47u8,
                                            ));
                                            assert(k.subrange(0, d2.len() as int + 1)[d2.len() as int]
                                                == k[d2.len() as int]);
                                            assert(rest[e.name@.len() as int] == k[dirp.len() as int + e.name@.len() as int]);
                                        }
                                        assert(false);
                                    }
                                },
                            }
                        }
                        lemma_flat_none(es, dirp, k);
                    },
                }
            } else {
                // k sits inside a child directory.
                assert(0 <= f < rest.len() && rest[f] == 47);
                match lookup(ix, k) {
                    Some(v) => {
                        let i = choose|i: int| 0 <= i < ix.len() && (#[trigger] ix[i]).0 == k;
                        assert(crate::index::has_child_dir(ix[i].0, dir)) by {
                            assert(k.skip(crate::index::dir_skip(dir)) =~= rest);
                        }
                        let c = crate::index::child_dir_of(k, dir);
                        assert(c =~= dirp + rest.subrange(0, f)) by {
                            assert(k.skip(crate::index::dir_skip(dir)) =~= rest);
                        }
                        assert(covers_dir(es, dir, c));
                        let x0 = choose|x: int|
                            0 <= x < es.len() && (#[trigger] es[x]).object is Tree && dirp
                                + es[x].name@ == c;
                        // k lies under the child directory c.
                        assert(under_dir(k, c)) by {
                            assert(k.subrange(0, c.len() as int + 1) =~= c.push(47u8)) by {
                                assert(k[c.len() as int] == rest[f]);
                            }
                        }
                        assert(lookup(flat_one(es[x0], dirp), k) == Some(v)) by {
                            let t = es[x0].object->Tree_0;
                            assert(lookup(flat_entries(t.entries@, dir_prefix(c)), k) == (
                            if under_dir(k, c) {
                                lookup(ix, k)
                            } else {
                                None
                            }));
                        }
                        assert forall|y: int| 0 <= y < x0 implies lookup(
                            flat_one(#[trigger] es[y], dirp),
                            k,
                        ) is None by {
                            lemma_segment_none_for_dir(es, dir, ix, k, rest, f, x0, y);
                        }
                        lemma_flat_at(es, dirp, k, x0, v);
                    },
                    None => {
                        assert forall|x: int|
                            0 <= x < es.len() implies lookup(
                            flat_one(#[trigger] es[x], dirp),
                            k,
                        ) is None by {
                            let e = es[x];
                            match e.object {
                                Object::Blob(_) => {
                                    lemma_flat_one_blob(e, dirp, k);
                                    if k == dirp + e.name@ {
                                        assert(rest =~= e.name@);
                                        assert(rest[f] != 47);
                                    }
                                },
                                Object::Tree(_) => {
                                    let d2 = dirp + e.name@;
                                    if under_dir(k, d2) {
                                        assert(lookup(flat_one(e, dirp), k) == lookup(ix, k));
                                    }
                                },
                            }
                        }
                        lemma_flat_none(es, dirp, k);
                    },
                }
            }
        }
    }
}

/// No entry before the blob entry for a direct file holds the file's key.
proof fn lemma_segment_none_for_file(
    es: Seq<TreeEntry>,
    dir: Seq<u8>,
    ix: Seq<(Seq<u8>, Seq<u8>)>,
    k: Seq<u8>,
    rest: Seq<u8>,
    x0: int,
    y: int,
)
    requires
        forall|x: int| 0 <= x < es.len() ==> entry_ok(#[trigger] es[x], dir, ix),
        forall|x: int, z: int|
            0 <= x < z < es.len() ==> lex_lt((#[trigger] es[x]).name@, (#[trigger] es[z]).name@),
        0 <= x0 < es.len(),
        0 <= y < x0,
        k == dir_prefix(dir) + rest,
        crate::bytes::no_byte(rest, 47),
        dir_prefix(dir) + es[x0].name@ == k,
    ensures
        lookup(flat_one(es[y], dir_prefix(dir)), k) is None,
{
    let dirp = dir_prefix(dir);
    let e = es[y];
    assert(es[x0].name@ =~= rest) by {
        assert forall|i: int| 0 <= i < es[x0].name@.len() implies es[x0].name@[i] == rest[i] by {
            assert((dirp + es[x0].name@)[dirp.len() as int + i] == (dirp + rest)[dirp.len() as int + i]);
        }
    }
    match e.object {
        Object::Blob(_) => {
            lemma_flat_one_blob(e, dirp, k);
            if k == dirp + e.name@ {
                assert(e.name@ =~= rest) by {
                    assert forall|i: int| 0 <= i < e.name@.len() implies e.name@[i] == rest[i] by {
                        assert((dirp + e.name@)[dirp.len() as int + i] == (dirp + rest)[dirp.len() as int + i]);
                    }
                }
                assert(lex_lt(es[y].name@, es[x0].name@));
                crate::bytes::lemma_lex_lt_irreflexive(es[y].name@, es[x0].name@);
                assert(false);
            }
        },
        Object::Tree(_) => {
            let d2 = dirp + e.name@;
            if under_dir(k, d2) {
                assert(crate::bytes::is_prefix(d2.push(47u8), k));
                assert(rest[e.name@.len() as int] == 47) by {
                    assert(k.subrange(0, d2.len() as int + 1) == d2.push(47u8));
                    assert(k.subrange(0, d2.len() as int + 1)[d2.len() as int] == k[d2.len() as int]);
                    assert(rest[e.name@.len() as int] == k[dirp.len() as int + e.name@.len() as int]);
                }
                assert(false);
            }
        },
    }
}

/// No entry before the subtree entry for a child directory holds a key
/// inside that directory.
proof fn lemma_segment_none_for_dir(
    es: Seq<TreeEntry>,
    dir: Seq<u8>,
    ix: Seq<(Seq<u8>, Seq<u8>)>,
    k: Seq<u8>,
    rest: Seq<u8>,
    f: int,
    x0: int,
    y: int,
)
    requires
        forall|x: int| 0 <= x < es.len() ==> entry_ok(#[trigger] es[x], dir, ix),
        forall|x: int, z: int|
            0 <= x < z < es.len() ==> lex_lt((#[trigger] es[x]).name@, (#[trigger] es[z]).name@),
        0 <= x0 < es.len(),
        0 <= y < x0,
        k == dir_prefix(dir) + rest,
        0 <= f < rest.len(),
        rest[f] == 47,
        forall|j: int| 0 <= j < f ==> #[trigger] rest[j] != 47,
        es[x0].object is Tree,
        dir_prefix(dir) + es[x0].name@ == dir_prefix(dir) + rest.subrange(0, f),
    ensures
        lookup(flat_one(es[y], dir_prefix(dir)), k) is None,
{
    let dirp = dir_prefix(dir);
    let e = es[y];
    assert(es[x0].name@ =~= rest.subrange(0, f)) by {
        assert forall|i: int| 0 <= i < es[x0].name@.len() implies es[x0].name@[i]
            == rest.subrange(0, f)[i] by {
            assert((dirp + es[x0].name@)[dirp.len() as int + i] == (dirp + rest.subrange(0, f))[dirp.len() as int + i]);
        }
    }
    match e.object {
        Object::Blob(_) => {
            lemma_flat_one_blob(e, dirp, k);
            if k == dirp + e.name@ {
                assert(e.name@ =~= rest) by {
                    assert forall|i: int| 0 <= i < e.name@.len() implies e.name@[i] == rest[i] by {
                        assert((dirp + e.name@)[dirp.len() as int + i] == (dirp + rest)[dirp.len() as int + i]);
                    }
                }
                assert(valid_name(e.name@));
                assert(e.name@[f] != 47);
                assert(false);
            }
        },
        Object::Tree(_) => {
            let d2 = dirp + e.name@;
            if under_dir(k, d2) {
                // Then e's name would be the same first component as x0's.
                assert(crate::bytes::is_prefix(d2.push(47u8), k));
                assert forall|i: int| 0 <= i < e.name@.len() implies e.name@[i] == rest[i] by {
                    assert(k.subrange(0, d2.len() as int + 1) == d2.push(47u8));
                    assert(k.subrange(0, d2.len() as int + 1)[dirp.len() as int + i] == k[dirp.len() as int + i]);
                }
                assert(rest[e.name@.len() as int] == 47) by {
                    assert(k.subrange(0, d2.len() as int + 1) == d2.push(47u8));
                    assert(k.subrange(0, d2.len() as int + 1)[d2.len() as int] == k[d2.len() as int]);
                }
                assert(e.name@.len() == f) by {
                    crate::bytes::lemma_find_byte_unique(rest, 47, f);
                    assert(valid_name(e.name@));
                    if e.name@.len() < f {
                        assert(rest[e.name@.len() as int] != 47);
                    } else if e.name@.len() > f {
                        assert(e.name@[f] == rest[f]);
                        assert(e.name@[f] != 47);
                    }
                }
                assert(e.name@ =~= es[x0].name@);
                assert(lex_lt(es[y].name@, es[x0].name@));
                crate::bytes::lemma_lex_lt_irreflexive(es[y].name@, es[x0].name@);
                assert(false);
            }
        },
    }
}


/// The name of `p` inside directory `dir`.
fn strip_dir(p: &Vec<u8>, dir: &Vec<u8>) -> (r: Vec<u8>)
    requires
        under_dir(p@, dir@),
    ensures
        r@ == p@.skip(crate::index::dir_skip(dir@)),
        p@ == dir_prefix(dir@) + r@,
{
    if dir.len() == 0 {
        let r = crate::bytes::bytes_clone(p);
        proof {
            assert(p@.skip(0) =~= p@);
            assert(dir_prefix(dir@) + p@ =~= p@);
        }
        r
    } else {
        let pl = p.len();
        proof {
            assert(crate::bytes::is_prefix(dir@.push(47u8), p@));
            assert(dir@.len() + 1 <= pl);
        }
        let r = crate::bytes::bytes_range(p, dir.len() + 1, p.len());
        proof {
            assert(r@ =~= p@.skip(dir@.len() as int + 1));
            assert(p@ =~= dir_prefix(dir@) + r@) by {
                assert forall|i: int| 0 <= i < dir@.len() + 1 implies p@[i] == dir@.push(47u8)[i] by {
                    assert(p@.subrange(0, dir@.len() as int + 1) == dir@.push(47u8));
                    assert(p@.subrange(0, dir@.len() as int + 1)[i] == p@[i]);
                }
            }
        }
        r
    }
}

/// A direct file's name inside its directory is a well-formed name.
proof fn lemma_strip_name_valid(p: Seq<u8>, dir: Seq<u8>)
    requires
        crate::paths::valid_path(p),
        under_dir(p, dir),
        crate::bytes::no_byte(p.skip(crate::index::dir_skip(dir)), 47),
    ensures
        valid_name(p.skip(crate::index::dir_skip(dir))),
{
    let skip = crate::index::dir_skip(dir);
    let name = p.skip(skip);
    if dir.len() > 0 {
        assert(crate::bytes::is_prefix(dir.push(47u8), p));
        if p.len() == dir.len() + 1 {
            assert(p[p.len() - 1] == dir.push(47u8)[dir.len() as int]) by {
                assert(p.subrange(0, dir.len() as int + 1) == dir.push(47u8));
                assert(p.subrange(0, dir.len() as int + 1)[dir.len() as int] == p[dir.len() as int]);
            }
            assert(false);
        }
    }
    assert(name.len() > 0);
    assert forall|i: int| 0 <= i < name.len() implies #[trigger] name[i] != 0 && name[i] != 10
        && name[i] != 32 by {
        assert(name[i] == p[skip + i]);
    }
    assert(name[0] != 47);
    assert(name[name.len() - 1] != 47);
    assert forall|i: int| 0 < i < name.len() implies !(#[trigger] name[i] == 47 && name[i - 1]
        == 47) by {
        assert(name[i] == p[skip + i]);
    }
}

/// The child directory of `dir` on the way to `p` is a well-formed path
/// under `dir`, shorter than `p`, whose own name holds no separator.
proof fn lemma_child_dir_valid(p: Seq<u8>, dir: Seq<u8>)
    requires
        crate::paths::valid_path(p),
        crate::index::has_child_dir(p, dir),
    ensures
        crate::paths::valid_path(crate::index::child_dir_of(p, dir)),
        under_dir(crate::index::child_dir_of(p, dir), dir),
        crate::index::child_dir_of(p, dir).len() < p.len(),
        crate::index::child_dir_of(p, dir).len() > dir.len(),
        under_dir(p, crate::index::child_dir_of(p, dir)),
        crate::bytes::no_byte(
            crate::index::child_dir_of(p, dir).skip(crate::index::dir_skip(dir)),
            47,
        ),
        crate::index::child_dir_of(p, dir) == dir_prefix(dir) + crate::index::child_dir_of(
            p,
            dir,
        ).skip(crate::index::dir_skip(dir)),
{
    let skip = crate::index::dir_skip(dir);
    let rest = p.skip(skip);
    crate::bytes::lemma_find_byte(rest, 47);
    let f = crate::bytes::find_byte(rest, 47);
    let c = crate::index::child_dir_of(p, dir);
    assert(c =~= p.subrange(0, skip + f));
    if dir.len() > 0 {
        assert(crate::bytes::is_prefix(dir.push(47u8), p));
        assert forall|i: int| 0 <= i < skip implies p[i] == dir.push(47u8)[i] by {
            assert(p.subrange(0, dir.len() as int + 1) == dir.push(47u8));
            assert(p.subrange(0, dir.len() as int + 1)[i] == p[i]);
        }
    }
    // The first byte of `rest` is not a separator, so f >= 1.
    assert(rest[0] == p[skip]);
    assert(f >= 1) by {
        if f == 0 {
            if skip == 0 {
                assert(p[0] != 47);
            } else {
                assert(p[skip - 1] == 47);
                assert(!(p[skip] == 47 && p[skip - 1] == 47));
            }
            assert(false);
        }
    }
    assert(c.len() == skip + f);
    assert(c.len() < p.len());
    assert(crate::paths::valid_path(c)) by {
        assert(c[0] == p[0]);
        assert(c[c.len() - 1] == p[skip + f - 1]);
        assert(c[c.len() - 1] == rest[f - 1]) by {
            assert(rest[f - 1] == p[skip + f - 1]);
        }
        assert(rest[f - 1] != 47);
        assert forall|i: int| 0 <= i < c.len() implies #[trigger] c[i] != 0 && c[i] != 10 && c[i]
            != 32 by {
            assert(c[i] == p[i]);
        }
        assert forall|i: int| 0 < i < c.len() implies !(#[trigger] c[i] == 47 && c[i - 1] == 47) by {
            assert(c[i] == p[i] && c[i - 1] == p[i - 1]);
        }
    }
    assert(under_dir(c, dir)) by {
        if dir.len() > 0 {
            assert(c.subrange(0, dir.len() as int + 1) =~= dir.push(47u8)) by {
                assert forall|i: int| 0 <= i < dir.len() + 1 implies c[i] == dir.push(47u8)[i] by {
                    assert(c[i] == p[i]);
                }
            }
        }
    }
    assert(under_dir(p, c)) by {
        assert(p.subrange(0, c.len() as int + 1) =~= c.push(47u8)) by {
            assert forall|i: int| 0 <= i < c.len() + 1 implies p[i] == c.push(47u8)[i] by {
                if i < c.len() {
                    assert(c[i] == p[i]);
                } else {
                    assert(p[skip + f] == rest[f]);
                }
            }
        }
    }
    assert(crate::bytes::no_byte(c.skip(skip), 47)) by {
        assert forall|i: int| 0 <= i < c.skip(skip).len() implies #[trigger] c.skip(skip)[i]
            != 47 by {
            assert(c.skip(skip)[i] == c[skip + i]);
            assert(c[skip + i] == p[skip + i]);
            assert(p[skip + i] == rest[i]);
        }
    }
    assert(c =~= dir_prefix(dir) + c.skip(skip)) by {
        assert forall|i: int| 0 <= i < c.len() implies c[i] == (dir_prefix(dir) + c.skip(skip))[i] by {
            if i < skip {
                assert(c[i] == p[i]);
            } else {
                assert(c.skip(skip)[i - skip] == c[i]);
            }
        }
    }
}

impl Tree {
    /// Builds the tree of the whole staging index and stores every new
    /// tree object: the committed tree holds exactly the staged paths.
    pub fn create(index: &crate::index::Index, store: &mut crate::store::ObjectStore) -> (t:
        Tree)
        requires
            index.wf(),
            old(store).wf(),
        ensures
            final(store).wf(),
            old(store)@.submap_of(final(store)@),
            t.wf(),
            final(store)@.dom().contains(t.hash_view()),
            crate::hash::digest_injective() ==> stored_tree(final(store)@, t),
            forall|k: Seq<u8>| #[trigger] lookup(t.flat(), k) == lookup(index@, k),
    {
        let root: Vec<u8> = Vec::new();
        let t = Tree::create_recursive(&root, index, store);
        proof {
            assert(dir_prefix(root@) =~= Seq::<u8>::empty());
            assert forall|k: Seq<u8>| #[trigger] lookup(t.flat(), k) == lookup(index@, k) by {
                assert(under_dir(k, root@));
            }
        }
        t
    }

    /// Builds the tree of one staged directory, bottom up.
    #[verifier::rlimit(100)]
    fn create_recursive(dir: &Vec<u8>, index: &crate::index::Index, store: &mut crate::store::ObjectStore) -> (t:
        Tree)
        requires
            index.wf(),
            old(store).wf(),
            dir@.len() == 0 || crate::paths::valid_path(dir@),
            dir@.len() <= crate::index::spec_max_key_len(index@) + 1,
        ensures
            final(store).wf(),
            old(store)@.submap_of(final(store)@),
            t.wf(),
            final(store)@.dom().contains(t.hash_view()),
            crate::hash::digest_injective() ==> stored_tree(final(store)@, t),
            forall|k: Seq<u8>|
                #[trigger] lookup(flat_entries(t.entries_view(), dir_prefix(dir@)), k) == (
                if under_dir(k, dir@) {
                    lookup(index@, k)
                } else {
                    None
                }),
        decreases crate::index::spec_max_key_len(index@) + 1 - dir@.len(),
    {
        let ghost ix = index@;
        let files = index.indexed_files_in_directory(dir);
        let ghost fvs = crate::bytes::views(files@);
        let dirs_raw = index.indexed_directories_in_directory(dir);
        let dirs = crate::bytes::sort_byte_vecs(dirs_raw);
        let ghost dvs = crate::bytes::views(dirs@);
        let ghost rvs = crate::bytes::views(dirs_raw@);
        proof {
            broadcast use vstd::seq_lib::group_to_multiset_ensures;

            let pred = |p: Seq<u8>| crate::index::is_direct_file_of(p, dir@);
            let keys = crate::workspace::keys_of(ix);
            keys.filter_lemma(pred);
            crate::table::lemma_filter_contained(keys, pred);
            crate::table::lemma_sorted_keys_unique(ix);
            crate::table::lemma_lookup_all(ix);
            // File facts: each listed path is a staged direct file; the
            // list ascends strictly.
            assert forall|a: int| 0 <= a < fvs.len() implies crate::index::is_direct_file_of(
                #[trigger] fvs[a],
                dir@,
            ) && crate::table::has_key(ix, fvs[a]) by {
                assert(keys.contains(fvs[a]));
                let x = choose|x: int| 0 <= x < keys.len() && keys[x] == fvs[a];
                assert(ix[x].0 == fvs[a]);
                crate::table::lemma_lookup_some(ix, fvs[a]);
            }
            assert forall|i: int, j: int| 0 <= i < j < keys.len() implies lex_lt(
                #[trigger] keys[i],
                #[trigger] keys[j],
            ) by {
                assert(keys[i] == ix[i].0 && keys[j] == ix[j].0);
            }
            crate::bytes::lemma_filter_sorted_names(keys, pred);
            // Directory facts: sorted strictly, and they list exactly the
            // child directories that staged paths call for.
            rvs.to_multiset_ensures();
            dvs.to_multiset_ensures();
            assert forall|a: int, b: int| 0 <= a < b < dvs.len() implies lex_lt(
                #[trigger] dvs[a],
                #[trigger] dvs[b],
            ) by {
                if dvs[a] == dvs[b] {
                    crate::bytes::lemma_multiset_two(dvs, a, b);
                    crate::bytes::lemma_distinct_count(rvs);
                }
            }
            assert forall|q: Seq<u8>| dvs.contains(q) == rvs.contains(q) by {
                if dvs.contains(q) {
                    assert(dvs.to_multiset().contains(q));
                }
                if rvs.contains(q) {
                    assert(rvs.to_multiset().contains(q));
                }
            }
            assert forall|a: int| 0 <= a < fvs.len() implies crate::paths::valid_path(
                #[trigger] fvs[a],
            ) by {
                crate::table::lemma_lookup_some(ix, fvs[a]);
                let x = choose|x: int| 0 <= x < ix.len() && (#[trigger] ix[x]).0 == fvs[a];
            }
            crate::index::lemma_max_key_len(ix);
            assert forall|b: int| 0 <= b < dvs.len() implies under_dir(#[trigger] dvs[b], dir@)
                && crate::paths::valid_path(dvs[b]) && crate::bytes::no_byte(
                dvs[b].skip(crate::index::dir_skip(dir@)),
                47,
            ) && dvs[b].len() <= crate::index::spec_max_key_len(ix) && dvs[b].len() > dir@.len() by {
                assert(dvs.contains(dvs[b]));
                let x = choose|x: int|
                    0 <= x < ix.len() && dvs[b] == crate::index::child_dir_of(
                        (#[trigger] ix[x]).0,
                        dir@,
                    ) && crate::index::has_child_dir(ix[x].0, dir@);
                lemma_child_dir_valid(ix[x].0, dir@);
            }
        }
        let mut entries: Vec<TreeEntry> = Vec::new();
        let nf = files.len();
        let nd = dirs.len();
        let mut i: usize = 0;
        let mut j: usize = 0;
        let ghost store0 = store@;
        proof {
            assert(store_le(store0, store@));
        }
        loop
            invariant
                index.wf(),
                ix == index@,
                store.wf(),
                dir@.len() == 0 || crate::paths::valid_path(dir@),
                dir@.len() <= crate::index::spec_max_key_len(ix) + 1,
                nf == fvs.len(),
                nd == dvs.len(),
                fvs == crate::bytes::views(files@),
                dvs == crate::bytes::views(dirs@),
                i <= nf,
                j <= nd,
                store0 == old(store)@,
                store_le(store0, store@),
                // what the listed paths are
                forall|a: int|
                    0 <= a < fvs.len() ==> crate::index::is_direct_file_of(#[trigger] fvs[a], dir@)
                        && crate::table::has_key(ix, fvs[a]) && crate::paths::valid_path(fvs[a]),
                forall|b: int|
                    0 <= b < dvs.len() ==> under_dir(#[trigger] dvs[b], dir@)
                        && crate::paths::valid_path(dvs[b]) && crate::bytes::no_byte(
                        dvs[b].skip(crate::index::dir_skip(dir@)),
                        47,
                    ) && dvs[b].len() <= crate::index::spec_max_key_len(ix) && dvs[b].len()
                        > dir@.len(),
                forall|a: int, b: int|
                    0 <= a < b < fvs.len() ==> lex_lt(#[trigger] fvs[a], #[trigger] fvs[b]),
                forall|a: int, b: int|
                    0 <= a < b < dvs.len() ==> lex_lt(#[trigger] dvs[a], #[trigger] dvs[b]),
                forall|q: Seq<u8>|
                    dvs.contains(q) <==> exists|x: int|
                        0 <= x < ix.len() && q == crate::index::child_dir_of(
                            (#[trigger] ix[x]).0,
                            dir@,
                        ) && crate::index::has_child_dir(ix[x].0, dir@),
                // what has been built
                crate::hash::digest_injective() ==> forall|x: int|
                    0 <= x < entries@.len() ==> entry_stored(store@, #[trigger] entries@[x]),
                forall|x: int| 0 <= x < entries@.len() ==> entry_ok(#[trigger] entries@[x], dir@, ix),
                forall|x: int, y: int|
                    0 <= x < y < entries@.len() ==> lex_lt(
                        (#[trigger] entries@[x]).name@,
                        (#[trigger] entries@[y]).name@,
                    ),
                forall|a: int| 0 <= a < i ==> covers_file(entries@, dir@, #[trigger] fvs[a]),
                forall|b: int| 0 <= b < j ==> covers_dir(entries@, dir@, #[trigger] dvs[b]),
                // the frontier bounds every built name
                forall|x: int|
                    0 <= x < entries@.len() && i < nf ==> lex_lt(
                        (#[trigger] entries@[x]).name@,
                        fvs[i as int].skip(crate::index::dir_skip(dir@)),
                    ),
                forall|x: int|
                    0 <= x < entries@.len() && j < nd ==> lex_lt(
                        (#[trigger] entries@[x]).name@,
                        dvs[j as int].skip(crate::index::dir_skip(dir@)),
                    ),
            ensures
                i == nf,
                j == nd,
                store_le(store0, store@),
                store.wf(),
                forall|x: int| 0 <= x < entries@.len() ==> entry_ok(#[trigger] entries@[x], dir@, ix),
                forall|x: int, y: int|
                    0 <= x < y < entries@.len() ==> lex_lt(
                        (#[trigger] entries@[x]).name@,
                        (#[trigger] entries@[y]).name@,
                    ),
                forall|a: int| 0 <= a < nf ==> covers_file(entries@, dir@, #[trigger] fvs[a]),
                forall|b: int| 0 <= b < nd ==> covers_dir(entries@, dir@, #[trigger] dvs[b]),
            decreases nf - i + nd - j,
        {
            if i >= nf && j >= nd {
                break;
            }
            let take_file: bool = if j >= nd {
                true
            } else if i >= nf {
                false
            } else {
                proof {
                    assert(fvs[i as int] == files@[i as int]@);
                    assert(dvs[j as int] == dirs@[j as int]@);
                    assert(under_dir(files@[i as int]@, dir@));
                    assert(under_dir(dirs@[j as int]@, dir@));
                }
                let name_f = strip_dir(&files[i], dir);
                let name_d = strip_dir(&dirs[j], dir);
                proof {
                    assert(fvs[i as int] == files@[i as int]@);
                    assert(dvs[j as int] == dirs@[j as int]@);
                    assert(crate::index::index_entries_wf(ix));
                    if name_f@ == name_d@ {
                        // A file and a directory of one name cannot both be
                        // staged: their paths would conflict.
                        let q = dvs[j as int];
                        assert(dvs.contains(q)) by {
                            assert(dvs[j as int] == q);
                        }
                        assert(exists|x: int|
                            0 <= x < ix.len() && q == crate::index::child_dir_of(
                                (#[trigger] ix[x]).0,
                                dir@,
                            ) && crate::index::has_child_dir(ix[x].0, dir@));
                        let x = choose|x: int|
                            0 <= x < ix.len() && q == crate::index::child_dir_of(
                                (#[trigger] ix[x]).0,
                                dir@,
                            ) && crate::index::has_child_dir(ix[x].0, dir@);
                        assert(crate::paths::valid_path(ix[x].0));
                        lemma_child_dir_valid(ix[x].0, dir@);
                        assert(under_dir(ix[x].0, q));
                        assert(q =~= fvs[i as int]);
                        crate::table::lemma_lookup_some(ix, fvs[i as int]);
                        let y = choose|y: int|
                            0 <= y < ix.len() && (#[trigger] ix[y]).0 == fvs[i as int];
                        assert(under_dir(ix[x].0, ix[y].0));
                        assert(x != y) by {
                            if x == y {
                                assert(under_dir(ix[x].0, ix[x].0));
                                assert(ix[x].0.len() > q.len());
                            }
                        }
                        assert(false);
                    }
                }
                crate::bytes::bytes_lt(&name_f, &name_d)
            };
            if take_file {
                proof {
                    assert(fvs[i as int] == files@[i as int]@);
                    assert(under_dir(files@[i as int]@, dir@));
                }
                let name = strip_dir(&files[i], dir);
                let h = match index.lookup_hash(&files[i]) {
                    Some(h) => h,
                    None => {
                        proof {
                            crate::table::lemma_lookup_some(ix, fvs[i as int]);
                        }
                        // Every listed path is staged, so this arm is dead.
                        vstd::pervasive::unreached()
                    },
                };
                proof {
                    h.lemma_len();
                    lemma_strip_name_valid(fvs[i as int], dir@);
                    crate::table::lemma_lookup_some(ix, fvs[i as int]);
                    let x = choose|x: int|
                        0 <= x < ix.len() && (#[trigger] ix[x]).0 == fvs[i as int];
                    assert(crate::paths::valid_path(fvs[i as int]));
                }
                let entry = TreeEntry { object: Object::Blob(crate::blob::Blob::of_hash(h)), name };
                let ghost old_entries = entries@;
                proof {
                    assert forall|a: int| 0 <= a < fvs.len() implies under_dir(
                        #[trigger] fvs[a],
                        dir@,
                    ) by {}
                    lemma_merge_step_facts(
                        entries@,
                        entries@.push(entry),
                        entry,
                        dir@,
                        ix,
                        fvs,
                        dvs,
                        i as int,
                        j as int,
                        true,
                    );
                }
                entries.push(entry);
                proof {
                    assert(entries@ =~= old_entries.push(entry));
                    assert(entry_stored(store@, entry));
                }
                i = i + 1;
            } else {
                proof {
                    assert(dvs[j as int] == dirs@[j as int]@);
                    assert(under_dir(dirs@[j as int]@, dir@));
                }
                let ghost store_mid = store@;
                let sub = Tree::create_recursive(&dirs[j], index, store);
                proof {
                    lemma_submap_le(store_mid, store@);
                    lemma_submap_trans(store0, store_mid, store@);
                }
                let name = strip_dir(&dirs[j], dir);
                proof {
                    assert(dvs[j as int] == dirs@[j as int]@);
                    lemma_strip_name_valid(dvs[j as int], dir@);
                    if i < nf {
                        // The file frontier sorts strictly after this name.
                        let skip = crate::index::dir_skip(dir@);
                        crate::bytes::lemma_lex_lt_trichotomy(
                            fvs[i as int].skip(skip),
                            dvs[j as int].skip(skip),
                        );
                    }
                }
                let entry = TreeEntry { object: Object::Tree(sub), name };
                let ghost old_entries = entries@;
                proof {
                    assert(entry_ok(entry, dir@, ix)) by {
                        assert(dir_prefix(dir@) + entry.name@ =~= dvs[j as int]);
                    }
                    assert forall|a: int| 0 <= a < fvs.len() implies under_dir(
                        #[trigger] fvs[a],
                        dir@,
                    ) by {}
                    if i < nf {
                        assert(lex_lt(entry.name@, fvs[i as int].skip(crate::index::dir_skip(dir@))));
                    }
                    lemma_merge_step_facts(
                        entries@,
                        entries@.push(entry),
                        entry,
                        dir@,
                        ix,
                        fvs,
                        dvs,
                        i as int,
                        j as int,
                        false,
                    );
                }
                entries.push(entry);
                proof {
                    assert(entries@ =~= old_entries.push(entry));
                    if crate::hash::digest_injective() {
                        assert forall|x: int| 0 <= x < entries@.len() implies entry_stored(
                            store@,
                            #[trigger] entries@[x],
                        ) by {
                            if x < entries@.len() - 1 {
                                assert(entry_stored(store_mid, entries@[x]));
                                match entries@[x].object {
                                    Object::Blob(_) => {},
                                    Object::Tree(st) => {
                                        lemma_stored_tree_grows(store_mid, store@, st);
                                    },
                                }
                            } else {
                                assert(stored_tree(store@, sub));
                            }
                        }
                    }
                }
                j = j + 1;
            }
        }
        // Serialize, hash and store this level.
        let serial = tree_serialize(&entries);
        let ghost store_mid = store@;
        proof {
            store.lemma_wf_hashes();
        }
        let hash = store.write_object(&serial);
        proof {
            lemma_store_write_le(store_mid, serial@);
            lemma_submap_trans(old(store)@, store_mid, store@);
            lemma_store_le_submap(old(store)@, store@);
        }
        let ghost es_final = entries@;
        proof {
            assert(triples_wf(triples(es_final))) by {
                assert forall|x: int| 0 <= x < triples(es_final).len() implies valid_name(
                    (#[trigger] triples(es_final)[x]).1,
                ) && triples(es_final)[x].2.len() == 20 by {
                    assert(triples(es_final)[x] == entry_triple(es_final[x]));
                    assert(entry_ok(es_final[x], dir@, ix));
                    match es_final[x].object {
                        Object::Blob(b) => {},
                        Object::Tree(st) => {
                            st.hash.lemma_len();
                        },
                    }
                }
                assert forall|x: int, y: int|
                    0 <= x < y < triples(es_final).len() implies lex_lt(
                    (#[trigger] triples(es_final)[x]).1,
                    (#[trigger] triples(es_final)[y]).1,
                ) by {
                    assert(triples(es_final)[x] == entry_triple(es_final[x]));
                    assert(triples(es_final)[y] == entry_triple(es_final[y]));
                }
            }
            // Coverage turns the built level into the staged table.
            assert forall|k: Seq<u8>|
                crate::index::is_direct_file_of(k, dir@) && #[trigger] crate::table::has_key(
                    ix,
                    k,
                ) implies covers_file(es_final, dir@, k) by {
                let pred = |p: Seq<u8>| crate::index::is_direct_file_of(p, dir@);
                let keys = crate::workspace::keys_of(ix);
                crate::table::lemma_lookup_some(ix, k);
                let x = choose|x: int| 0 <= x < ix.len() && (#[trigger] ix[x]).0 == k;
                assert(keys[x] == k);
                keys.filter_lemma(pred);
                assert(fvs.contains(k));
                let a = choose|a: int| 0 <= a < fvs.len() && fvs[a] == k;
                assert(covers_file(es_final, dir@, fvs[a]));
            }
            assert forall|x: int|
                0 <= x < ix.len() && crate::index::has_child_dir((#[trigger] ix[x]).0, dir@)
                implies covers_dir(
                es_final,
                dir@,
                crate::index::child_dir_of(ix[x].0, dir@),
            ) by {
                let c = crate::index::child_dir_of(ix[x].0, dir@);
                assert(dvs.contains(c));
                let b = choose|b: int| 0 <= b < dvs.len() && dvs[b] == c;
                assert(covers_dir(es_final, dir@, dvs[b]));
            }
            lemma_level_flat(es_final, dir@, ix);
        }
        let t = Tree { hash, entries };
        proof {
            assert(t.entries@ == es_final);
            assert(t.wf());
            if crate::hash::digest_injective() {
                crate::store::lemma_store_write_exact(store_mid, serial@);
                assert(store@[t.hash@] == spec_tree_serial(triples(es_final)));
                lemma_store_le_submap(store_mid, store@);
                assert forall|x: int| 0 <= x < t.entries@.len() implies entry_stored(
                    store@,
                    #[trigger] t.entries@[x],
                ) by {
                    assert(entry_stored(store_mid, es_final[x]));
                    match t.entries@[x].object {
                        Object::Blob(_) => {},
                        Object::Tree(st) => {
                            lemma_stored_tree_grows(store_mid, store@, st);
                        },
                    }
                }
                assert(stored_tree(store@, t));
            }
        }
        t
    }
}

/// One merge step keeps every loop fact: the new entry is in order, and
/// everything already covered stays covered.
#[verifier::rlimit(100)]
proof fn lemma_merge_step_facts(
    old_entries: Seq<TreeEntry>,
    new_entries: Seq<TreeEntry>,
    entry: TreeEntry,
    dir: Seq<u8>,
    ix: Seq<(Seq<u8>, Seq<u8>)>,
    fvs: Seq<Seq<u8>>,
    dvs: Seq<Seq<u8>>,
    i: int,
    j: int,
    took_file: bool,
)
    requires
        new_entries == old_entries.push(entry),
        entry_ok(entry, dir, ix),
        0 <= i <= fvs.len(),
        0 <= j <= dvs.len(),
        took_file ==> i < fvs.len() && entry.object is Blob && entry.name@ == fvs[i].skip(
            crate::index::dir_skip(dir),
        ) && fvs[i] == dir_prefix(dir) + entry.name@,
        !took_file ==> j < dvs.len() && entry.object is Tree && entry.name@ == dvs[j].skip(
            crate::index::dir_skip(dir),
        ) && dvs[j] == dir_prefix(dir) + entry.name@,
        took_file && j < dvs.len() ==> lex_lt(
            entry.name@,
            dvs[j].skip(crate::index::dir_skip(dir)),
        ),
        !took_file && i < fvs.len() ==> lex_lt(
            entry.name@,
            fvs[i].skip(crate::index::dir_skip(dir)),
        ),
        forall|a: int, b: int| 0 <= a < b < fvs.len() ==> lex_lt(#[trigger] fvs[a], #[trigger] fvs[b]),
        forall|a: int, b: int| 0 <= a < b < dvs.len() ==> lex_lt(#[trigger] dvs[a], #[trigger] dvs[b]),
        forall|a: int| 0 <= a < fvs.len() ==> under_dir(#[trigger] fvs[a], dir),
        forall|a: int| 0 <= a < dvs.len() ==> under_dir(#[trigger] dvs[a], dir),
        forall|x: int| 0 <= x < old_entries.len() ==> entry_ok(#[trigger] old_entries[x], dir, ix),
        forall|x: int, y: int|
            0 <= x < y < old_entries.len() ==> lex_lt(
                (#[trigger] old_entries[x]).name@,
                (#[trigger] old_entries[y]).name@,
            ),
        forall|a: int| 0 <= a < i ==> covers_file(old_entries, dir, #[trigger] fvs[a]),
        forall|b: int| 0 <= b < j ==> covers_dir(old_entries, dir, #[trigger] dvs[b]),
        forall|x: int|
            0 <= x < old_entries.len() && i < fvs.len() ==> lex_lt(
                (#[trigger] old_entries[x]).name@,
                fvs[i].skip(crate::index::dir_skip(dir)),
            ),
        forall|x: int|
            0 <= x < old_entries.len() && j < dvs.len() ==> lex_lt(
                (#[trigger] old_entries[x]).name@,
                dvs[j].skip(crate::index::dir_skip(dir)),
            ),
    ensures
        forall|x: int| 0 <= x < new_entries.len() ==> entry_ok(#[trigger] new_entries[x], dir, ix),
        forall|x: int, y: int|
            0 <= x < y < new_entries.len() ==> lex_lt(
                (#[trigger] new_entries[x]).name@,
                (#[trigger] new_entries[y]).name@,
            ),
        forall|a: int|
            0 <= a < (if took_file {
                i + 1
            } else {
                i
            }) ==> covers_file(new_entries, dir, #[trigger] fvs[a]),
        forall|b: int|
            0 <= b < (if took_file {
                j
            } else {
                j + 1
            }) ==> covers_dir(new_entries, dir, #[trigger] dvs[b]),
        forall|x: int|
            0 <= x < new_entries.len() && (if took_file {
                i + 1
            } else {
                i
            }) < fvs.len() ==> lex_lt(
                (#[trigger] new_entries[x]).name@,
                fvs[(if took_file {
                    i + 1
                } else {
                    i
                })].skip(crate::index::dir_skip(dir)),
            ),
        forall|x: int|
            0 <= x < new_entries.len() && (if took_file {
                j
            } else {
                j + 1
            }) < dvs.len() ==> lex_lt(
                (#[trigger] new_entries[x]).name@,
                dvs[(if took_file {
                    j
                } else {
                    j + 1
                })].skip(crate::index::dir_skip(dir)),
            ),
{
    let dirp = dir_prefix(dir);
    let skip = crate::index::dir_skip(dir);
    let m = old_entries.len() as int;
    assert(new_entries[m] == entry);
    assert forall|x: int| 0 <= x < m implies new_entries[x] == old_entries[x] by {}
    // Names of listed paths strictly ascend, with the prefix cancelled.
    assert forall|a: int, b: int| 0 <= a < b < fvs.len() implies lex_lt(
        #[trigger] fvs[a].skip(skip),
        #[trigger] fvs[b].skip(skip),
    ) by {
        assert(fvs[a] =~= dirp + fvs[a].skip(skip)) by {
            lemma_under_split(fvs[a], dir);
        }
        assert(fvs[b] =~= dirp + fvs[b].skip(skip)) by {
            lemma_under_split(fvs[b], dir);
        }
        crate::bytes::lemma_lex_lt_cancel(dirp, fvs[a].skip(skip), fvs[b].skip(skip));
    }
    assert forall|a: int, b: int| 0 <= a < b < dvs.len() implies lex_lt(
        #[trigger] dvs[a].skip(skip),
        #[trigger] dvs[b].skip(skip),
    ) by {
        assert(dvs[a] =~= dirp + dvs[a].skip(skip)) by {
            lemma_under_split(dvs[a], dir);
        }
        assert(dvs[b] =~= dirp + dvs[b].skip(skip)) by {
            lemma_under_split(dvs[b], dir);
        }
        crate::bytes::lemma_lex_lt_cancel(dirp, dvs[a].skip(skip), dvs[b].skip(skip));
    }
    if took_file {
        assert forall|x: int| 0 <= x < m implies lex_lt(
            (#[trigger] new_entries[x]).name@,
            entry.name@,
        ) by {
            assert(old_entries[x].name@ == new_entries[x].name@);
        }
    } else {
        assert forall|x: int| 0 <= x < m implies lex_lt(
            (#[trigger] new_entries[x]).name@,
            entry.name@,
        ) by {
            assert(old_entries[x].name@ == new_entries[x].name@);
        }
    }
    assert forall|a: int|
        0 <= a < (if took_file {
            i + 1
        } else {
            i
        }) implies covers_file(new_entries, dir, #[trigger] fvs[a]) by {
        if took_file && a == i {
            assert(new_entries[m].object is Blob && dirp + new_entries[m].name@ == fvs[a]);
        } else {
            assert(covers_file(old_entries, dir, fvs[a]));
            let x = choose|x: int|
                0 <= x < old_entries.len() && (#[trigger] old_entries[x]).object is Blob && dirp
                    + old_entries[x].name@ == fvs[a];
            assert(new_entries[x].object is Blob && dirp + new_entries[x].name@ == fvs[a]);
        }
    }
    assert forall|b: int|
        0 <= b < (if took_file {
            j
        } else {
            j + 1
        }) implies covers_dir(new_entries, dir, #[trigger] dvs[b]) by {
        if !took_file && b == j {
            assert(new_entries[m].object is Tree && dirp + new_entries[m].name@ == dvs[b]);
        } else {
            assert(covers_dir(old_entries, dir, dvs[b]));
            let x = choose|x: int|
                0 <= x < old_entries.len() && (#[trigger] old_entries[x]).object is Tree && dirp
                    + old_entries[x].name@ == dvs[b];
            assert(new_entries[x].object is Tree && dirp + new_entries[x].name@ == dvs[b]);
        }
    }
    // New frontiers still bound every name.
    if took_file {
        if i + 1 < fvs.len() {
            assert(lex_lt(fvs[i].skip(skip), fvs[i + 1].skip(skip)));
            assert forall|x: int| 0 <= x < new_entries.len() implies lex_lt(
                (#[trigger] new_entries[x]).name@,
                fvs[i + 1].skip(skip),
            ) by {
                if x < m {
                    crate::bytes::lemma_lex_lt_transitive(
                        new_entries[x].name@,
                        fvs[i].skip(skip),
                        fvs[i + 1].skip(skip),
                    );
                }
            }
        }
        if j < dvs.len() {
            assert forall|x: int| 0 <= x < new_entries.len() implies lex_lt(
                (#[trigger] new_entries[x]).name@,
                dvs[j].skip(skip),
            ) by {
                if x < m {
                } else {
                    assert(lex_lt(entry.name@, dvs[j].skip(skip)));
                }
            }
        }
    } else {
        if j + 1 < dvs.len() {
            assert(lex_lt(dvs[j].skip(skip), dvs[j + 1].skip(skip)));
            assert forall|x: int| 0 <= x < new_entries.len() implies lex_lt(
                (#[trigger] new_entries[x]).name@,
                dvs[j + 1].skip(skip),
            ) by {
                if x < m {
                    crate::bytes::lemma_lex_lt_transitive(
                        new_entries[x].name@,
                        dvs[j].skip(skip),
                        dvs[j + 1].skip(skip),
                    );
                }
            }
        }
        if i < fvs.len() {
            assert forall|x: int| 0 <= x < new_entries.len() implies lex_lt(
                (#[trigger] new_entries[x]).name@,
                fvs[i].skip(skip),
            ) by {
                if x < m {
                } else {
                    assert(lex_lt(entry.name@, fvs[i].skip(skip)));
                }
            }
        }
    }
}

/// A path under a directory is the directory's prefix plus its remainder.
proof fn lemma_under_split(p: Seq<u8>, dir: Seq<u8>)
    requires
        under_dir(p, dir),
    ensures
        p == dir_prefix(dir) + p.skip(crate::index::dir_skip(dir)),
{
    let skip = crate::index::dir_skip(dir);
    if dir.len() == 0 {
        assert(p =~= dir_prefix(dir) + p.skip(0));
    } else {
        assert(crate::bytes::is_prefix(dir.push(47u8), p));
        assert(p =~= dir_prefix(dir) + p.skip(skip)) by {
            assert forall|x: int| 0 <= x < p.len() implies p[x] == (dir_prefix(dir) + p.skip(
                skip,
            ))[x] by {
                if x < skip {
                    assert(p.subrange(0, dir.len() as int + 1) == dir.push(47u8));
                    assert(p.subrange(0, dir.len() as int + 1)[x] == p[x]);
                } else {
                    assert(p.skip(skip)[x - skip] == p[x]);
                }
            }
        }
    }
}


/// Nothing stored is lost or changed from `a` to `b`.
spec fn store_le(a: Map<Seq<u8>, Seq<u8>>, b: Map<Seq<u8>, Seq<u8>>) -> bool {
    forall|k: Seq<u8>| #[trigger] a.dom().contains(k) ==> b.dom().contains(k) && b[k] == a[k]
}

/// What sits under a submap of a submap sits under the whole.
proof fn lemma_submap_trans(a: Map<Seq<u8>, Seq<u8>>, b: Map<Seq<u8>, Seq<u8>>, c: Map<Seq<u8>, Seq<u8>>)
    requires
        store_le(a, b),
        store_le(b, c),
    ensures
        store_le(a, c),
{
}

/// The two phrasings of growth agree.
proof fn lemma_store_le_submap(a: Map<Seq<u8>, Seq<u8>>, b: Map<Seq<u8>, Seq<u8>>)
    requires
        store_le(a, b),
    ensures
        a.submap_of(b),
{
    assert forall|k: Seq<u8>| #[trigger] a.dom().contains(k) implies #[trigger] b.dom().contains(
        k,
    ) && a[k] == b[k] by {}
}

/// A write grows the store.
proof fn lemma_store_write_le(m: Map<Seq<u8>, Seq<u8>>, serial: Seq<u8>)
    ensures
        store_le(m, crate::store::store_write(m, serial)),
{
    let w = crate::store::store_write(m, serial);
    assert forall|k: Seq<u8>| #[trigger] m.dom().contains(k) implies w.dom().contains(k) && w[k]
        == m[k] by {
        if !m.dom().contains(crate::hash::sha1_of(serial)) {
            assert(k != crate::hash::sha1_of(serial));
        }
    }
}


/// A callee that promises the submap relation grew the store.
proof fn lemma_submap_le(a: Map<Seq<u8>, Seq<u8>>, b: Map<Seq<u8>, Seq<u8>>)
    requires
        a.submap_of(b),
    ensures
        store_le(a, b),
{
    assert forall|k: Seq<u8>| #[trigger] a.dom().contains(k) implies b.dom().contains(k) && b[k]
        == a[k] by {
        assert(a.dom().contains(k));
    }
}


// ----------------------------------------------------------------------------
// Flattening and finding, executably
// ----------------------------------------------------------------------------

/// Appends the flattening of `entries` under `prefix` to `out`.
fn flatten_into(entries: &Vec<TreeEntry>, prefix: &Vec<u8>, out: &mut Vec<(Vec<u8>, Vec<u8>)>)
    ensures
        crate::workspace::pair_views(final(out)@) == crate::workspace::pair_views(old(out)@)
            + flat_entries(entries@, prefix@),
    decreases entries,
{
    let n = entries.len();
    let mut i: usize = 0;
    while i < n
        invariant
            n == entries@.len(),
            i <= n,
            crate::workspace::pair_views(out@) == crate::workspace::pair_views(old(out)@)
                + flat_entries(entries@.subrange(0, i as int), prefix@),
        decreases n - i,
    {
        proof {
            let pre = entries@.subrange(0, i as int);
            let cur = entries@.subrange(0, i + 1);
            assert(cur.drop_last() =~= pre);
            assert(cur.last() == entries@[i as int]);
        }
        let e = &entries[i];
        match &e.object {
            Object::Blob(b) => {
                let mut key = crate::bytes::bytes_clone(prefix);
                crate::bytes::push_all(&mut key, &e.name);
                let hb = b.hash().to_vec();
                let ghost old_out = crate::workspace::pair_views(out@);
                out.push((key, hb));
                proof {
                    assert(crate::workspace::pair_views(out@) =~= old_out.push(
                        (prefix@ + entries@[i as int].name@, b@),
                    ));
                    assert(flat_one(entries@[i as int], prefix@) =~= seq![
                        (prefix@ + entries@[i as int].name@, b@),
                    ]);
                    assert(flat_entries(entries@.subrange(0, i + 1), prefix@) =~= flat_entries(
                        entries@.subrange(0, i as int),
                        prefix@,
                    ) + flat_one(entries@[i as int], prefix@));
                    assert(crate::workspace::pair_views(out@) =~= crate::workspace::pair_views(
                        old(out)@,
                    ) + flat_entries(entries@.subrange(0, i + 1), prefix@));
                }
            },
            Object::Tree(t) => {
                let mut prefix2 = crate::bytes::bytes_clone(prefix);
                crate::bytes::push_all(&mut prefix2, &e.name);
                prefix2.push(47);
                proof {
                    assert(prefix2@ =~= prefix@ + entries@[i as int].name@ + seq![47u8]);
                }
                flatten_into(&t.entries, &prefix2, out);
                proof {
                    assert(flat_one(entries@[i as int], prefix@) == flat_entries(
                        t.entries@,
                        prefix2@,
                    ));
                    assert(flat_entries(entries@.subrange(0, i + 1), prefix@) =~= flat_entries(
                        entries@.subrange(0, i as int),
                        prefix@,
                    ) + flat_one(entries@[i as int], prefix@));
                    assert(crate::workspace::pair_views(out@) =~= crate::workspace::pair_views(
                        old(out)@,
                    ) + flat_entries(entries@.subrange(0, i + 1), prefix@));
                }
            },
        }
        i = i + 1;
    }
    proof {
        assert(entries@.subrange(0, n as int) =~= entries@);
    }
}

impl Tree {
    /// Every file this tree holds, as (path, hash) pairs keyed from the
    /// repository root: for a well-formed tree, one well-formed path per
    /// blob leaf, no path repeated or inside another.
    pub fn entries_flattened(&self) -> (r: Vec<(Vec<u8>, Vec<u8>)>)
        ensures
            crate::workspace::pair_views(r@) == self.flat(),
            self.wf() ==> forall|x: int|
                0 <= x < self.flat().len() ==> crate::paths::valid_path(
                    (#[trigger] self.flat()[x]).0,
                ),
            self.wf() ==> forall|x: int, y: int|
                0 <= x < self.flat().len() && 0 <= y < self.flat().len() && x != y ==> (
                #[trigger] self.flat()[x]).0 != (#[trigger] self.flat()[y]).0 && !under_dir(
                    self.flat()[x].0,
                    self.flat()[y].0,
                ),
            self.wf() ==> forall|x: int|
                0 <= x < self.flat().len() ==> (#[trigger] self.flat()[x]).1.len() == 20,
    {
        proof {
            if self.wf() {
                assert(prefix_ok(Seq::<u8>::empty()));
                assert forall|i: int| 0 <= i < self.entries@.len() implies obj_wf(
                    (#[trigger] self.entries@[i]).obj(),
                ) by {}
                lemma_flat_paths_wf(self.entries@, Seq::<u8>::empty());
            }
        }
        let mut out: Vec<(Vec<u8>, Vec<u8>)> = Vec::new();
        let prefix: Vec<u8> = Vec::new();
        flatten_into(&self.entries, &prefix, &mut out);
        proof {
            assert(crate::workspace::pair_views(out@) =~= self.flat());
        }
        out
    }

    /// The blob entry a slash-separated path resolves to inside this tree,
    /// if the path ends at a file.
    pub fn find(&self, path: &Vec<u8>) -> (r: Option<&TreeEntry>)
        ensures
            match r {
                Some(e) => spec_find(self.entries_view(), split_at_seps(path@, 47)) == Some(*e),
                None => spec_find(self.entries_view(), split_at_seps(path@, 47)) is None,
            },
    {
        let parts = crate::bytes::split_bytes(path, 47);
        let np = parts.len();
        let mut cur: &Tree = self;
        let mut i: usize = 0;
        proof {
            assert(crate::bytes::views(parts@).skip(0) =~= crate::bytes::views(parts@));
        }
        loop
            invariant
                np == parts@.len(),
                crate::bytes::views(parts@) == split_at_seps(path@, 47),
                i < np,
                spec_find(self.entries_view(), split_at_seps(path@, 47)) == spec_find(
                    cur.entries_view(),
                    crate::bytes::views(parts@).skip(i as int),
                ),
            decreases np - i,
        {
            proof {
                assert(crate::bytes::views(parts@).skip(i as int)[0] == parts@[i as int]@);
            }
            let e = match find_named(&cur.entries, &parts[i]) {
                Some(e) => e,
                None => {
                    return None;
                },
            };
            if i == np - 1 {
                match &e.object {
                    Object::Blob(_) => {
                        return Some(e);
                    },
                    Object::Tree(_) => {
                        return None;
                    },
                }
            }
            match &e.object {
                Object::Blob(_) => {
                    return None;
                },
                Object::Tree(t) => {
                    proof {
                        assert(crate::bytes::views(parts@).skip(i as int).drop_first()
                            =~= crate::bytes::views(parts@).skip(i + 1));
                    }
                    cur = t;
                },
            }
            i = i + 1;
        }
    }
}

/// Whether the path is short enough to be a staged prefix.
fn index_key_len_ok(path: &Vec<u8>, index: &crate::index::Index) -> (r: bool)
    requires
        index.wf(),
    ensures
        r == (path@.len() <= crate::index::spec_max_key_len(index@) + 1),
{
    let files = index.files();
    let n = files.len();
    let mut longest: usize = 0;
    let mut i: usize = 0;
    proof {
        assert(crate::index::spec_max_key_len(index@.subrange(0, 0)) == 0) by {
            assert(index@.subrange(0, 0) =~= Seq::<(Seq<u8>, Seq<u8>)>::empty());
        }
    }
    while i < n
        invariant
            n == files@.len(),
            crate::index::entry_views(files@) == index@,
            n == index@.len(),
            i <= n,
            longest == crate::index::spec_max_key_len(index@.subrange(0, i as int)),
        decreases n - i,
    {
        proof {
            assert(index@[i as int] == files@[i as int]@);
            let cur = index@.subrange(0, i + 1);
            assert(cur.drop_last() =~= index@.subrange(0, i as int));
            assert(cur.last() == index@[i as int]);
        }
        let l = files[i].path().len();
        if l > longest {
            longest = l;
        }
        i = i + 1;
    }
    proof {
        assert(index@.subrange(0, n as int) =~= index@);
    }
    path.len() <= longest || path.len() == longest + 1
}

/// The first entry of `es` named `name`.
fn find_named<'a>(es: &'a Vec<TreeEntry>, name: &Vec<u8>) -> (r: Option<&'a TreeEntry>)
    ensures
        match r {
            Some(e) => first_named(es@, name@) == Some(*e),
            None => first_named(es@, name@) is None,
        },
{
    let n = es.len();
    let mut i: usize = 0;
    proof {
        assert(es@.skip(0) =~= es@);
    }
    while i < n
        invariant
            n == es@.len(),
            i <= n,
            first_named(es@, name@) == first_named(es@.skip(i as int), name@),
        decreases n - i,
    {
        proof {
            assert(es@.skip(i as int)[0] == es@[i as int]);
            assert(es@.skip(i as int).drop_first() =~= es@.skip(i + 1));
        }
        if crate::bytes::bytes_eq(&es[i].name, name) {
            return Some(&es[i]);
        }
        i = i + 1;
    }
    proof {
        assert(es@.skip(n as int) =~= Seq::<TreeEntry>::empty());
    }
    None
}


// ----------------------------------------------------------------------------
// Reading trees back from the store
// ----------------------------------------------------------------------------

/// Parses one serialized entry starting at `from`: its mode, its
/// NUL-terminated name, its 20 hash bytes, and — for a directory — the
/// stored subtree under that hash.
// ----------------------------------------------------------------------------
// When loading succeeds
// ----------------------------------------------------------------------------

/// The syntactic parse of one record at `from`: its triple and where the
/// next record starts, or nothing where the bytes spell no record — a mode
/// other than the file or directory mode, an unterminated name, or fewer
/// than 20 hash bytes.
pub open spec fn spec_entry_at(data: Seq<u8>, from: int) -> Option<((bool, Seq<u8>, Seq<u8>), int)> {
    let sp = crate::bytes::first_at(data, 32, from);
    if sp == -1 {
        None
    } else {
        let mode = data.subrange(from, sp);
        if mode != spec_mode_bytes(false) && mode != spec_mode_bytes(true) {
            None
        } else {
            let is_dir = mode == spec_mode_bytes(true);
            let ne = crate::bytes::first_at(data, 0, sp + 1);
            if ne == -1 {
                None
            } else if data.len() < ne + 21 {
                None
            } else {
                Some(
                    ((is_dir, data.subrange(sp + 1, ne), data.subrange(ne + 1, ne + 21)), ne + 21),
                )
            }
        }
    }
}

/// What loading one record at `from` yields: the triple and the next
/// position, or the error the bytes are owed. A directory record also
/// needs its subtree to load, one fuel level down.
pub open spec fn spec_entry_outcome(
    store: Map<Seq<u8>, Seq<u8>>,
    data: Seq<u8>,
    from: int,
    fuel: nat,
) -> Result<((bool, Seq<u8>, Seq<u8>), int), RepoError>
    decreases fuel, 0int, 0int,
{
    match spec_entry_at(data, from) {
        None => Err(RepoError::InvalidObjectFormat),
        Some((t, next)) => if t.0 {
            if fuel == 0 {
                Err(RepoError::InvalidObjectFormat)
            } else {
                match spec_load_tree(store, t.2, (fuel - 1) as nat) {
                    Ok(u) => Ok((t, next)),
                    Err(e) => Err(e),
                }
            }
        } else {
            Ok((t, next))
        },
    }
}

/// What loading the records of a tree body from `pos` on yields: their
/// triples, or the first failing record's error.
pub open spec fn spec_body_outcome(
    store: Map<Seq<u8>, Seq<u8>>,
    data: Seq<u8>,
    pos: int,
    fuel: nat,
) -> Result<Seq<(bool, Seq<u8>, Seq<u8>)>, RepoError>
    decreases fuel, 1int, data.len() - pos,
{
    if pos >= data.len() {
        Ok(Seq::empty())
    } else {
        match spec_entry_outcome(store, data, pos, fuel) {
            Err(e) => Err(e),
            Ok((t, next)) => if !(pos < next <= data.len()) {
                Err(RepoError::InvalidObjectFormat)
            } else {
                match spec_body_outcome(store, data, next, fuel) {
                    Err(e) => Err(e),
                    Ok(rest) => Ok(seq![t] + rest),
                }
            },
        }
    }
}

/// The full outcome of loading the tree stored under `h` with `fuel`
/// nesting levels to spend: `IOFailure` where no object sits under `h`,
/// `InvalidObjectFormat` where the bytes break the format — a bad
/// `"tree <body-length>\0"` header, a malformed record, names out of
/// order or not single well-formed components — and otherwise whatever
/// the records' subtrees are owed.
pub open spec fn spec_load_tree(store: Map<Seq<u8>, Seq<u8>>, h: Seq<u8>, fuel: nat) -> Result<
    (),
    RepoError,
>
    decreases fuel, 2int, 0int,
{
    if !store.dom().contains(h) {
        Err(RepoError::IOFailure)
    } else {
        let data = store[h];
        let p = crate::bytes::find_byte(data, 0);
        if p == -1 {
            Err(RepoError::InvalidObjectFormat)
        } else {
            let body_start = p + 1;
            if data.subrange(0, body_start) != spec_tree_tag() + crate::bytes::dec_digits(
                (data.len() - body_start) as nat,
            ) + seq![0u8] {
                Err(RepoError::InvalidObjectFormat)
            } else {
                match spec_body_outcome(store, data, body_start, fuel) {
                    Err(e) => Err(e),
                    Ok(ts) => if triples_wf(ts) {
                        Ok(())
                    } else {
                        Err(RepoError::InvalidObjectFormat)
                    },
                }
            }
        }
    }
}

/// The outcome of loading the tree under `h` with the fuel `Tree::load`
/// spends: one nesting level per stored object, which no acyclic store
/// can exhaust.
pub open spec fn spec_tree_loadable(store: Map<Seq<u8>, Seq<u8>>, h: Seq<u8>) -> Result<
    (),
    RepoError,
> {
    spec_load_tree(store, h, store.dom().len())
}

/// The outcome of resolving a 40-digit ref value to its commit's tree:
/// the commit must be stored under the hash and parse, and the tree the
/// commit names must load.
pub open spec fn spec_ref_tree_outcome(store: Map<Seq<u8>, Seq<u8>>, hv: Seq<u8>) -> Result<
    (),
    RepoError,
> {
    if !store.dom().contains(hv) {
        Err(RepoError::IOFailure)
    } else {
        match crate::commit::spec_parse_commit(store[hv]) {
            None => Err(RepoError::InvalidObjectFormat),
            Some(pc) => spec_tree_loadable(store, pc.0),
        }
    }
}

/// A tree whose serialized form sits in the store at its hash, at every
/// level: what loading yields and what creating leaves behind.
pub closed spec fn stored_tree(store: Map<Seq<u8>, Seq<u8>>, t: Tree) -> bool
    decreases t,
{
    &&& tree_wf(t)
    &&& store.dom().contains(t.hash@)
    &&& store[t.hash@] == spec_tree_serial(triples(t.entries@))
    &&& forall|i: int| 0 <= i < t.entries@.len() ==> entry_stored(store, #[trigger] t.entries@[i])
}

/// The stored-at-hash condition for one entry: trivial for a blob, the
/// whole subtree for a directory.
pub closed spec fn entry_stored(store: Map<Seq<u8>, Seq<u8>>, e: TreeEntry) -> bool
    decreases e,
{
    match e.object {
        Object::Blob(_) => true,
        Object::Tree(t) => stored_tree(store, t),
    }
}

/// What `stored_tree` says of the tree itself.
pub proof fn lemma_stored_tree_parts(store: Map<Seq<u8>, Seq<u8>>, t: Tree)
    requires
        stored_tree(store, t),
    ensures
        t.wf(),
        store.dom().contains(t.hash_view()),
        store[t.hash_view()] == spec_tree_serial(triples(t.entries_view())),
{
}

/// A tree stored in a store stays stored in any extension of it.
pub proof fn lemma_stored_tree_grows(
    m1: Map<Seq<u8>, Seq<u8>>,
    m2: Map<Seq<u8>, Seq<u8>>,
    t: Tree,
)
    requires
        stored_tree(m1, t),
        m1.submap_of(m2),
    ensures
        stored_tree(m2, t),
    decreases t,
{
    assert(m1.dom().contains(t.hash@));
    assert(m2.dom().contains(t.hash@));
    assert(m2[t.hash@] == m1[t.hash@]);
    assert forall|i: int| 0 <= i < t.entries@.len() implies entry_stored(
        m2,
        #[trigger] t.entries@[i],
    ) by {
        match t.entries@[i].object {
            Object::Blob(_) => {},
            Object::Tree(st) => {
                lemma_stored_tree_grows(m1, m2, st);
            },
        }
    }
}

/// Two trees that agree observably at every level: the same hash, and
/// entry for entry the same name, the same file-or-directory mode, the
/// same object hash, with subtrees alike in turn.
pub closed spec fn tree_like(t1: Tree, t2: Tree) -> bool
    decreases t1,
{
    &&& t1.hash@ == t2.hash@
    &&& t1.entries@.len() == t2.entries@.len()
    &&& forall|i: int|
        0 <= i < t1.entries@.len() ==> entry_like(#[trigger] t1.entries@[i], t2.entries@[i])
}

/// Likeness for one entry: equal names, and equal blob hashes or alike
/// subtrees.
pub closed spec fn entry_like(e1: TreeEntry, e2: TreeEntry) -> bool
    decreases e1,
{
    &&& e1.name@ == e2.name@
    &&& match (e1.object, e2.object) {
        (Object::Blob(b1), Object::Blob(b2)) => b1@ == b2@,
        (Object::Tree(s1), Object::Tree(s2)) => tree_like(s1, s2),
        _ => false,
    }
}

/// How deep a tree nests: one level, plus its deepest directory entry.
pub closed spec fn tree_height(t: Tree) -> nat
    decreases t,
{
    1 + entries_height(t.entries@)
}

spec fn entries_height(es: Seq<TreeEntry>) -> nat
    decreases es,
{
    if es.len() == 0 {
        0
    } else {
        let rest = entries_height(es.drop_last());
        let last = entry_height(es.last());
        if rest >= last {
            rest
        } else {
            last
        }
    }
}

spec fn entry_height(e: TreeEntry) -> nat
    decreases e,
{
    match e.object {
        Object::Blob(_) => 0,
        Object::Tree(t) => tree_height(t),
    }
}

proof fn lemma_entries_height_member(es: Seq<TreeEntry>, i: int)
    requires
        0 <= i < es.len(),
    ensures
        entry_height(es[i]) <= entries_height(es),
    decreases es.len(),
{
    if i < es.len() - 1 {
        lemma_entries_height_member(es.drop_last(), i);
        assert(es.drop_last()[i] == es[i]);
    }
}

proof fn lemma_entries_height_le(es: Seq<TreeEntry>, b: nat)
    requires
        forall|i: int| 0 <= i < es.len() ==> entry_height(#[trigger] es[i]) <= b,
    ensures
        entries_height(es) <= b,
    decreases es.len(),
{
    if es.len() > 0 {
        assert forall|i: int| 0 <= i < es.drop_last().len() implies entry_height(
            #[trigger] es.drop_last()[i],
        ) <= b by {
            assert(es.drop_last()[i] == es[i]);
        }
        lemma_entries_height_le(es.drop_last(), b);
        assert(es.last() == es[es.len() - 1]);
    }
}

/// Alike trees nest equally deep.
proof fn lemma_like_height(t1: Tree, t2: Tree)
    requires
        tree_like(t1, t2),
    ensures
        tree_height(t1) == tree_height(t2),
    decreases t1,
{
    lemma_like_entries_height(t1.entries@, t2.entries@);
}

proof fn lemma_like_entries_height(es1: Seq<TreeEntry>, es2: Seq<TreeEntry>)
    requires
        es1.len() == es2.len(),
        forall|i: int| 0 <= i < es1.len() ==> entry_like(#[trigger] es1[i], es2[i]),
    ensures
        entries_height(es1) == entries_height(es2),
    decreases es1,
{
    if es1.len() > 0 {
        assert forall|i: int| 0 <= i < es1.drop_last().len() implies entry_like(
            #[trigger] es1.drop_last()[i],
            es2.drop_last()[i],
        ) by {
            assert(es1.drop_last()[i] == es1[i]);
            assert(es2.drop_last()[i] == es2[i]);
        }
        lemma_like_entries_height(es1.drop_last(), es2.drop_last());
        assert(entry_like(es1.last(), es2.last()));
        lemma_like_entry_height(es1.last(), es2.last());
    }
}

proof fn lemma_like_entry_height(e1: TreeEntry, e2: TreeEntry)
    requires
        entry_like(e1, e2),
    ensures
        entry_height(e1) == entry_height(e2),
    decreases e1,
{
    match (e1.object, e2.object) {
        (Object::Blob(_), Object::Blob(_)) => {},
        (Object::Tree(s1), Object::Tree(s2)) => {
            lemma_like_entries_height(s1.entries@, s2.entries@);
        },
        _ => {
            assert(false);
        },
    }
}

/// The store pins a tree: two stored trees under one hash are alike at
/// every level, because the serialized bytes under the hash pin the
/// triples, and the triples' hashes pin the subtrees in turn.
pub proof fn lemma_stored_tree_unique(store: Map<Seq<u8>, Seq<u8>>, t1: Tree, t2: Tree)
    requires
        stored_tree(store, t1),
        stored_tree(store, t2),
        t1.hash_view() == t2.hash_view(),
    ensures
        tree_like(t1, t2),
    decreases t1,
{
    let ts1 = triples(t1.entries@);
    let ts2 = triples(t2.entries@);
    assert(spec_tree_serial(ts1) == store[t1.hash@]);
    assert(spec_tree_serial(ts2) == store[t1.hash@]);
    lemma_tree_serial_injective(ts1, ts2);
    assert(t1.entries@.len() == t2.entries@.len());
    assert forall|i: int| 0 <= i < t1.entries@.len() implies entry_like(
        #[trigger] t1.entries@[i],
        t2.entries@[i],
    ) by {
        let e1 = t1.entries@[i];
        let e2 = t2.entries@[i];
        assert(ts1[i] == entry_triple(e1));
        assert(ts2[i] == entry_triple(e2));
        assert(entry_stored(store, e1));
        assert(entry_stored(store, e2));
        match (e1.object, e2.object) {
            (Object::Blob(b1), Object::Blob(b2)) => {
                assert(b1@ == spec_object_hash(e1.object));
                assert(b1@ == b2@);
            },
            (Object::Tree(s1), Object::Tree(s2)) => {
                assert(s1.hash@ == spec_object_hash(e1.object));
                assert(s1.hash@ == s2.hash@);
                lemma_stored_tree_unique(store, s1, s2);
            },
            _ => {
                assert(entry_triple(e1).0 == entry_triple(e2).0);
                assert(false);
            },
        }
    }
}

/// Well-formed concatenated records parse back, record by record: the
/// mode holds no space and the name no NUL, so each boundary is found
/// where serialization put it.
#[verifier::rlimit(100)]
proof fn lemma_records_parse(
    store: Map<Seq<u8>, Seq<u8>>,
    data: Seq<u8>,
    pos: int,
    es: Seq<TreeEntry>,
    fuel: nat,
)
    requires
        0 <= pos <= data.len(),
        data.skip(pos) == spec_records(triples(es)),
        triples_wf(triples(es)),
        forall|i: int|
            0 <= i < es.len() ==> match (#[trigger] es[i]).object {
                Object::Tree(sub) => fuel > 0 && spec_load_tree(
                    store,
                    sub.hash@,
                    (fuel - 1) as nat,
                ) is Ok,
                Object::Blob(_) => true,
            },
    ensures
        spec_body_outcome(store, data, pos, fuel) == Ok::<
            Seq<(bool, Seq<u8>, Seq<u8>)>,
            RepoError,
        >(triples(es)),
    decreases es.len(),
{
    let ts = triples(es);
    if es.len() == 0 {
        assert(ts.len() == 0);
        assert(spec_records(ts).len() == 0);
        assert(pos >= data.len());
        assert(Seq::<(bool, Seq<u8>, Seq<u8>)>::empty() =~= ts);
    } else {
        lemma_records_front(ts);
        let t0 = ts[0];
        let e0 = es[0];
        assert(t0 == entry_triple(e0));
        let r0 = spec_record(t0);
        let ml = spec_mode_bytes(t0.0).len() as int;
        let nl = t0.1.len() as int;
        let reclen = ml + 1 + nl + 1 + t0.2.len() as int;
        assert(t0.2.len() == 20);
        assert(r0.len() == reclen);
        let rest_records = spec_records(ts.drop_first());
        assert(data.skip(pos) == r0 + rest_records);
        assert(data.skip(pos).len() == data.len() - pos);
        assert(data.len() - pos == r0.len() + rest_records.len());
        assert forall|x: int| 0 <= x < data.len() - pos implies data[pos + x] == (r0
            + rest_records)[x] by {
            assert(data.skip(pos)[x] == data[pos + x]);
        }
        // The record's regions.
        assert forall|x: int| 0 <= x < ml implies data[pos + x] == spec_mode_bytes(t0.0)[x] by {
            assert((r0 + rest_records)[x] == r0[x]);
        }
        assert(data[pos + ml] == 32) by {
            assert((r0 + rest_records)[ml] == r0[ml]);
        }
        assert forall|y: int| 0 <= y < nl implies data[pos + ml + 1 + y] == t0.1[y] by {
            assert((r0 + rest_records)[ml + 1 + y] == r0[ml + 1 + y]);
        }
        assert(data[pos + ml + 1 + nl] == 0) by {
            assert((r0 + rest_records)[ml + 1 + nl] == r0[ml + 1 + nl]);
        }
        assert forall|z2: int| 0 <= z2 < 20 implies data[pos + ml + 2 + nl + z2] == t0.2[z2] by {
            assert((r0 + rest_records)[ml + 2 + nl + z2] == r0[ml + 2 + nl + z2]);
        }
        // The first space ends the mode: modes hold digits only, and a
        // valid name holds no space.
        assert(valid_name(t0.1));
        let sp = pos + ml;
        assert forall|x: int| pos <= x < sp implies data[x] != 32 by {
            assert(data[x] == spec_mode_bytes(t0.0)[x - pos]);
        }
        crate::bytes::lemma_first_at_found(data, 32, pos, sp);
        assert(data.subrange(pos, sp) =~= spec_mode_bytes(t0.0));
        // The first NUL ends the name.
        let ns = sp + 1;
        let ne = ns + nl;
        assert(data[ne] == 0);
        assert forall|x: int| ns <= x < ne implies data[x] != 0 by {
            assert(data[x] == t0.1[x - ns]);
        }
        crate::bytes::lemma_first_at_found(data, 0, ns, ne);
        let next = ne + 21;
        assert(next == pos + reclen);
        assert(data.len() >= next);
        assert(data.subrange(ns, ne) =~= t0.1);
        assert(data.subrange(ne + 1, ne + 21) =~= t0.2);
        assert(spec_mode_bytes(true).len() != spec_mode_bytes(false).len());
        assert(spec_entry_at(data, pos) == Some((t0, next))) by {
            if t0.0 {
                assert(data.subrange(pos, sp) == spec_mode_bytes(true));
            } else {
                assert(data.subrange(pos, sp) == spec_mode_bytes(false));
            }
        }
        assert(spec_entry_outcome(store, data, pos, fuel) == Ok::<
            ((bool, Seq<u8>, Seq<u8>), int),
            RepoError,
        >((t0, next))) by {
            match e0.object {
                Object::Blob(_) => {
                    assert(!t0.0);
                },
                Object::Tree(sub) => {
                    assert(t0.0);
                    assert(t0.2 == sub.hash@);
                },
            }
        }
        // The rest of the records, one step on.
        let es2 = es.drop_first();
        assert(triples(es2) =~= ts.drop_first());
        assert(data.skip(next) =~= rest_records) by {
            assert forall|x: int| 0 <= x < data.len() - next implies data.skip(next)[x]
                == rest_records[x] by {
                assert(data.skip(next)[x] == data[next + x]);
                assert(data[next + x] == (r0 + rest_records)[reclen + x]);
            }
        }
        assert(triples_wf(triples(es2))) by {
            assert forall|i: int| 0 <= i < triples(es2).len() implies valid_name(
                (#[trigger] triples(es2)[i]).1,
            ) && triples(es2)[i].2.len() == 20 by {
                assert(triples(es2)[i] == ts[i + 1]);
            }
            assert forall|i: int, j: int| 0 <= i < j < triples(es2).len() implies lex_lt(
                (#[trigger] triples(es2)[i]).1,
                (#[trigger] triples(es2)[j]).1,
            ) by {
                assert(triples(es2)[i] == ts[i + 1]);
                assert(triples(es2)[j] == ts[j + 1]);
            }
        }
        assert forall|i: int| 0 <= i < es2.len() implies match (#[trigger] es2[i]).object {
            Object::Tree(sub) => fuel > 0 && spec_load_tree(
                store,
                sub.hash@,
                (fuel - 1) as nat,
            ) is Ok,
            Object::Blob(_) => true,
        } by {
            assert(es2[i] == es[i + 1]);
        }
        lemma_records_parse(store, data, next, es2, fuel);
        assert(pos < data.len());
        assert(spec_body_outcome(store, data, pos, fuel) == Ok::<
            Seq<(bool, Seq<u8>, Seq<u8>)>,
            RepoError,
        >(seq![t0] + triples(es2)));
        assert(seq![t0] + triples(es2) =~= ts);
    }
}

/// A stored tree's serialized form loads, given fuel for its depth.
proof fn lemma_wf_serial_loads(store: Map<Seq<u8>, Seq<u8>>, t: Tree, fuel: nat)
    requires
        stored_tree(store, t),
        fuel >= tree_height(t),
    ensures
        spec_load_tree(store, t.hash@, fuel) is Ok,
    decreases t,
{
    let ts = triples(t.entries@);
    let body = spec_records(ts);
    let data = store[t.hash@];
    assert(data == spec_tree_serial(ts));
    crate::bytes::lemma_dec_digits_wf(body.len());
    let d = crate::bytes::dec_digits(body.len());
    let z = 5 + d.len() as int;
    assert(data[z] == 0);
    assert forall|j: int| 0 <= j < z implies #[trigger] data[j] != 0 by {
        if j < 5 {
            assert(data[j] == spec_tree_tag()[j]);
        } else {
            assert(data[j] == d[j - 5]);
            assert(crate::bytes::is_digit(d[j - 5]));
        }
    }
    crate::bytes::lemma_find_byte_unique(data, 0, z);
    assert(data.skip(z + 1) =~= body);
    assert(data.len() - (z + 1) == body.len());
    assert(data.subrange(0, z + 1) =~= spec_tree_tag() + d + seq![0u8]);
    assert forall|i: int| 0 <= i < t.entries@.len() implies match (
    #[trigger] t.entries@[i]).object {
        Object::Tree(sub) => fuel > 0 && spec_load_tree(store, sub.hash@, (fuel - 1) as nat) is Ok,
        Object::Blob(_) => true,
    } by {
        match t.entries@[i].object {
            Object::Blob(_) => {},
            Object::Tree(sub) => {
                assert(entry_stored(store, t.entries@[i]));
                lemma_entries_height_member(t.entries@, i);
                assert(entry_height(t.entries@[i]) == tree_height(sub));
                lemma_wf_serial_loads(store, sub, (fuel - 1) as nat);
            },
        }
    }
    lemma_records_parse(store, data, z + 1, t.entries@, fuel);
}

/// With an exclusion set of strictly deeper stored ancestors: a stored
/// tree's depth is bounded by the hashes outside the set, because equal
/// hashes pin alike trees and no tree nests one as deep as itself.
proof fn lemma_stored_height(store: Map<Seq<u8>, Seq<u8>>, t: Tree, s: Set<Seq<u8>>)
    requires
        stored_tree(store, t),
        store.dom().finite(),
        s.finite(),
        s.subset_of(store.dom()),
        !s.contains(t.hash@),
        forall|hh: Seq<u8>| #[trigger] s.contains(hh) ==> exists|a: Tree|
            stored_tree(store, a) && a.hash@ == hh && tree_height(a) > tree_height(t),
    ensures
        tree_height(t) <= store.dom().difference(s).len(),
    decreases t,
{
    broadcast use vstd::set::group_set_axioms;

    let rem = store.dom().difference(s);
    assert(rem.finite());
    assert(rem.contains(t.hash@));
    assert(rem.remove(t.hash@).len() == rem.len() - 1);
    assert(rem.len() >= 1);
    let s2 = s.insert(t.hash@);
    assert(store.dom().difference(s2) =~= rem.remove(t.hash@));
    assert forall|i: int| 0 <= i < t.entries@.len() implies entry_height(#[trigger] t.entries@[i])
        <= rem.len() - 1 by {
        match t.entries@[i].object {
            Object::Blob(_) => {},
            Object::Tree(sub) => {
                assert(entry_stored(store, t.entries@[i]));
                lemma_entries_height_member(t.entries@, i);
                assert(tree_height(sub) < tree_height(t));
                assert(sub.hash@ != t.hash@) by {
                    if sub.hash@ == t.hash@ {
                        lemma_stored_tree_unique(store, sub, t);
                        lemma_like_height(sub, t);
                    }
                }
                assert(!s.contains(sub.hash@)) by {
                    if s.contains(sub.hash@) {
                        let a = choose|a: Tree|
                            stored_tree(store, a) && a.hash@ == sub.hash@ && tree_height(a)
                                > tree_height(t);
                        lemma_stored_tree_unique(store, a, sub);
                        lemma_like_height(a, sub);
                    }
                }
                assert(!s2.contains(sub.hash@));
                assert(s2.subset_of(store.dom()));
                assert forall|hh: Seq<u8>| #[trigger] s2.contains(hh) implies exists|a: Tree|
                    stored_tree(store, a) && a.hash@ == hh && tree_height(a) > tree_height(
                    sub,
                ) by {
                    if hh == t.hash@ {
                        assert(stored_tree(store, t) && t.hash@ == hh && tree_height(t)
                            > tree_height(sub));
                    } else {
                        let a = choose|a: Tree|
                            stored_tree(store, a) && a.hash@ == hh && tree_height(a)
                                > tree_height(t);
                        assert(stored_tree(store, a) && a.hash@ == hh && tree_height(a)
                            > tree_height(sub));
                    }
                }
                lemma_stored_height(store, sub, s2);
            },
        }
    }
    lemma_entries_height_le(t.entries@, (rem.len() - 1) as nat);
}

/// A stored tree loads with the fuel `Tree::load` spends: its depth never
/// exceeds the store's object count, because every level sits under a
/// distinct hash.
pub proof fn lemma_stored_tree_loads(store: Map<Seq<u8>, Seq<u8>>, t: Tree)
    requires
        stored_tree(store, t),
        store.dom().finite(),
    ensures
        spec_tree_loadable(store, t.hash_view()) is Ok,
{
    lemma_stored_height(store, t, Set::empty());
    assert(store.dom().difference(Set::empty()) =~= store.dom());
    lemma_wf_serial_loads(store, t, store.dom().len());
}

/// Alike entry lists flatten alike.
proof fn lemma_like_flat(es1: Seq<TreeEntry>, es2: Seq<TreeEntry>, prefix: Seq<u8>)
    requires
        es1.len() == es2.len(),
        forall|i: int| 0 <= i < es1.len() ==> entry_like(#[trigger] es1[i], es2[i]),
    ensures
        flat_entries(es1, prefix) == flat_entries(es2, prefix),
    decreases es1,
{
    if es1.len() > 0 {
        assert forall|i: int| 0 <= i < es1.drop_last().len() implies entry_like(
            #[trigger] es1.drop_last()[i],
            es2.drop_last()[i],
        ) by {
            assert(es1.drop_last()[i] == es1[i]);
            assert(es2.drop_last()[i] == es2[i]);
        }
        lemma_like_flat(es1.drop_last(), es2.drop_last(), prefix);
        assert(entry_like(es1.last(), es2.last()));
        lemma_like_flat_one(es1.last(), es2.last(), prefix);
        assert(flat_entries(es1, prefix) =~= flat_entries(es2, prefix));
    } else {
        assert(flat_entries(es1, prefix) =~= flat_entries(es2, prefix));
    }
}

proof fn lemma_like_flat_one(e1: TreeEntry, e2: TreeEntry, prefix: Seq<u8>)
    requires
        entry_like(e1, e2),
    ensures
        flat_one(e1, prefix) == flat_one(e2, prefix),
    decreases e1,
{
    match (e1.object, e2.object) {
        (Object::Blob(b1), Object::Blob(b2)) => {
            assert(flat_one(e1, prefix) =~= flat_one(e2, prefix));
        },
        (Object::Tree(s1), Object::Tree(s2)) => {
            lemma_like_flat(s1.entries@, s2.entries@, prefix + e1.name@ + seq![47u8]);
        },
        _ => {
            assert(false);
        },
    }
}

/// Alike trees hold the same files: equal hashes and equal flattenings.
pub proof fn lemma_like_same_flat(t1: Tree, t2: Tree)
    requires
        tree_like(t1, t2),
    ensures
        t1.hash_view() == t2.hash_view(),
        t1.flat() == t2.flat(),
{
    lemma_like_flat(t1.entries@, t2.entries@, Seq::empty());
}

fn parse_entry(data: &Vec<u8>, from: usize, store: &crate::store::ObjectStore, fuel: usize) -> (r:
    Result<(TreeEntry, usize), RepoError>)
    requires
        store.wf(),
        from <= data@.len(),
    ensures
        match r {
            Ok((e, next)) => {
                &&& from < next <= data@.len()
                &&& spec_record(e.triple()) == data@.subrange(from as int, next as int)
                &&& obj_wf(e.obj())
                &&& entry_stored(store@, e)
                &&& spec_entry_outcome(store@, data@, from as int, fuel as nat) == Ok::<
                    ((bool, Seq<u8>, Seq<u8>), int),
                    RepoError,
                >((e.triple(), next as int))
            },
            Err(er) => {
                &&& (er == RepoError::InvalidObjectFormat || er == RepoError::IOFailure)
                &&& spec_entry_outcome(store@, data@, from as int, fuel as nat) == Err::<
                    ((bool, Seq<u8>, Seq<u8>), int),
                    RepoError,
                >(er)
            },
        },
    decreases fuel, 0int,
{
    let n = data.len();
    // Mode: bytes up to a space.
    let mut sp = from;
    loop
        invariant
            from <= sp <= n == data@.len(),
            forall|x: int| from <= x < sp ==> data@[x] != 32,
        ensures
            from <= sp <= n,
            forall|x: int| from <= x < sp ==> data@[x] != 32,
            sp < n ==> data@[sp as int] == 32,
            sp < n,
        decreases n - sp,
    {
        if sp >= n {
            proof {
                crate::bytes::lemma_first_at_none(data@, 32, from as int);
            }
            return Err(RepoError::InvalidObjectFormat);
        }
        if data[sp] == 32 {
            break;
        }
        sp = sp + 1;
    }
    proof {
        crate::bytes::lemma_first_at_found(data@, 32, from as int, sp as int);
    }
    let mode = crate::bytes::bytes_range(data, from, sp);
    let is_dir: bool = {
        let mut file_mode: Vec<u8> = Vec::new();
        file_mode.push(49);
        file_mode.push(48);
        file_mode.push(48);
        file_mode.push(54);
        file_mode.push(52);
        file_mode.push(52);
        assert(file_mode@ =~= spec_mode_bytes(false));
        let mut dir_mode: Vec<u8> = Vec::new();
        dir_mode.push(52);
        dir_mode.push(48);
        dir_mode.push(48);
        dir_mode.push(48);
        dir_mode.push(48);
        assert(dir_mode@ =~= spec_mode_bytes(true));
        if crate::bytes::bytes_eq(&mode, &file_mode) {
            false
        } else if crate::bytes::bytes_eq(&mode, &dir_mode) {
            true
        } else {
            return Err(RepoError::InvalidObjectFormat);
        }
    };
    // Name: bytes up to a NUL.
    let ns = sp + 1;
    let mut ne = ns;
    loop
        invariant
            ns <= ne <= n == data@.len(),
            forall|x: int| ns <= x < ne ==> data@[x] != 0,
            from <= sp < n,
            crate::bytes::first_at(data@, 32, from as int) == sp as int,
            data@.subrange(from as int, sp as int) == spec_mode_bytes(is_dir),
            ns == sp + 1,
        ensures
            ns <= ne <= n,
            forall|x: int| ns <= x < ne ==> data@[x] != 0,
            ne < n && data@[ne as int] == 0,
        decreases n - ne,
    {
        if ne >= n {
            proof {
                crate::bytes::lemma_first_at_none(data@, 0, ns as int);
            }
            return Err(RepoError::InvalidObjectFormat);
        }
        if data[ne] == 0 {
            break;
        }
        ne = ne + 1;
    }
    proof {
        crate::bytes::lemma_first_at_found(data@, 0, ns as int, ne as int);
    }
    let name = crate::bytes::bytes_range(data, ns, ne);
    // Hash: the next 20 bytes.
    if n - (ne + 1) < 20 {
        return Err(RepoError::InvalidObjectFormat);
    }
    let mut hb: [u8; 20] = [0; 20];
    let hs = ne + 1;
    for x in 0..20usize
        invariant
            hs + 20 <= n == data@.len(),
            forall|y: int| 0 <= y < x ==> hb@[y] == data@[hs + y],
    {
        hb[x] = data[hs + x];
    }
    let h = crate::hash::Hash::new(hb);
    let next = hs + 20;
    let object = if is_dir {
        if fuel == 0 {
            return Err(RepoError::InvalidObjectFormat);
        }
        let sub = match Tree::load_at(&h, store, fuel - 1) {
            Ok(t) => t,
            Err(e) => {
                proof {
                    assert(hb@ =~= data@.subrange(hs as int, next as int));
                }
                return Err(e);
            },
        };
        Object::Tree(sub)
    } else {
        Object::Blob(crate::blob::Blob::of_hash(h))
    };
    let entry = TreeEntry { object, name };
    proof {
        assert(hb@ =~= data@.subrange(hs as int, next as int));
        assert(entry.triple().2 =~= data@.subrange(hs as int, next as int));
        assert(mode@ =~= spec_mode_bytes(is_dir));
        assert(spec_record(entry.triple()) =~= data@.subrange(from as int, next as int)) by {
            assert(mode@ == data@.subrange(from as int, sp as int));
            assert(name@ == data@.subrange(ns as int, ne as int));
            assert forall|x: int|
                0 <= x < next - from implies (spec_mode_bytes(is_dir) + seq![32u8] + name@
                + seq![0u8] + entry.triple().2)[x] == data@.subrange(
                from as int,
                next as int,
            )[x] by {
                let ml = sp - from;
                if x < ml {
                    assert(data@.subrange(from as int, sp as int)[x] == data@[from + x]);
                } else if x == ml {
                } else if x < ml + 1 + (ne - ns) {
                    assert(data@.subrange(ns as int, ne as int)[x - ml - 1] == data@[ns + (x - ml
                        - 1)]);
                } else if x == ml + 1 + (ne - ns) {
                } else {
                    assert(data@.subrange(hs as int, next as int)[x - (ml + 2 + (ne - ns))]
                        == data@[hs + (x - (ml + 2 + (ne - ns)))]);
                }
            }
        }
        let t0 = (
            is_dir,
            data@.subrange(ns as int, ne as int),
            data@.subrange(hs as int, next as int),
        );
        assert(spec_entry_at(data@, from as int) == Some((t0, next as int)));
        assert(entry.triple().0 == t0.0);
        assert(entry.triple().1 == t0.1);
        assert(entry.triple() == t0);
        assert(spec_entry_outcome(store@, data@, from as int, fuel as nat) == Ok::<
            ((bool, Seq<u8>, Seq<u8>), int),
            RepoError,
        >((entry.triple(), next as int)));
    }
    Ok((entry, next))
}

impl TreeEntry {
    /// Builds the entry for one staged path of `dir`: a blob entry with
    /// the staged hash for a direct file, or a subtree entry whose
    /// flattening is the staged table under the path.
    pub fn create(
        path: &Vec<u8>,
        dir: &Vec<u8>,
        index: &crate::index::Index,
        store: &mut crate::store::ObjectStore,
    ) -> (r: Result<TreeEntry, RepoError>)
        requires
            index.wf(),
            old(store).wf(),
            dir@.len() == 0 || crate::paths::valid_path(dir@),
        ensures
            final(store).wf(),
            match r {
                Ok(e) => {
                    &&& obj_wf(e.obj())
                    &&& e.triple().1 == path@.skip(crate::index::dir_skip(dir@))
                    &&& (crate::index::is_direct_file_of(path@, dir@) ==> !e.triple().0
                        && lookup(index@, path@) == Some(e.triple().2))
                    &&& (!crate::index::is_direct_file_of(path@, dir@) ==> e.triple().0 && (
                    match e.obj() {
                        Object::Tree(t) => forall|k: Seq<u8>|
                            #[trigger] lookup(
                                flat_entries(t.entries_view(), dir_prefix(path@)),
                                k,
                            ) == (if under_dir(k, path@) {
                                lookup(index@, k)
                            } else {
                                None
                            }),
                        Object::Blob(_) => false,
                    }))
                },
                Err(e) => {
                    ||| (e == RepoError::NoSuchFile && crate::index::is_direct_file_of(
                        path@,
                        dir@,
                    ) && !crate::table::has_key(index@, path@))
                    ||| (e == RepoError::NoSuchFile && !crate::index::is_direct_file_of(
                        path@,
                        dir@,
                    ) && path@.len() > crate::index::spec_max_key_len(index@) + 1)
                    ||| (e == RepoError::PathOutsideRepository && !crate::index::is_direct_file_of(
                        path@,
                        dir@,
                    ) && !(crate::paths::valid_path(path@) && under_dir(path@, dir@)))
                },
            },
    {
        if crate::index::path_is_direct_file_of(path, dir) {
            match index.lookup_hash(path) {
                Some(h) => {
                    let name = strip_dir(path, dir);
                    return Ok(TreeEntry { object: Object::Blob(crate::blob::Blob::of_hash(h)), name });
                },
                None => {
                    return Err(RepoError::NoSuchFile);
                },
            }
        }
        if !crate::paths::path_is_valid(path) {
            return Err(RepoError::PathOutsideRepository);
        }
        if !crate::paths::path_under_dir(path, dir) {
            return Err(RepoError::PathOutsideRepository);
        }
        proof {
            crate::index::lemma_max_key_len(index@);
        }
        if !index_key_len_ok(path, index) {
            return Err(RepoError::NoSuchFile);
        }
        let sub = Tree::create_recursive(path, index, store);
        let name = strip_dir(path, dir);
        Ok(TreeEntry { object: Object::Tree(sub), name })
    }

    /// Parses one serialized entry starting at `from`, resolving a
    /// directory entry through the store; returns the entry and where the
    /// next record starts.
    pub fn parse(data: &Vec<u8>, from: usize, store: &crate::store::ObjectStore) -> (r: Result<
        (TreeEntry, usize),
        RepoError,
    >)
        requires
            store.wf(),
            from <= data@.len(),
        ensures
            r is Ok <==> spec_entry_outcome(store@, data@, from as int, store@.dom().len()) is Ok,
            match r {
                Ok((e, next)) => {
                    &&& from < next <= data@.len()
                    &&& spec_record(e.triple()) == data@.subrange(from as int, next as int)
                    &&& obj_wf(e.obj())
                    &&& entry_stored(store@, e)
                    &&& spec_entry_outcome(store@, data@, from as int, store@.dom().len())
                        == Ok::<((bool, Seq<u8>, Seq<u8>), int), RepoError>(
                        (e.triple(), next as int),
                    )
                },
                Err(er) => {
                    &&& (er == RepoError::InvalidObjectFormat || er == RepoError::IOFailure)
                    &&& spec_entry_outcome(store@, data@, from as int, store@.dom().len())
                        == Err::<((bool, Seq<u8>, Seq<u8>), int), RepoError>(er)
                },
            },
    {
        let fuel = store.object_count();
        parse_entry(data, from, store, fuel)
    }
}

impl Tree {
    /// Reads the tree stored under `h` back, its subtrees with it, checking
    /// the format as the serialized form defines it.
    fn load_at(h: &crate::hash::Hash, store: &crate::store::ObjectStore, fuel: usize) -> (r:
        Result<Tree, RepoError>)
        requires
            store.wf(),
        ensures
            match r {
                Ok(t) => {
                    &&& t.wf()
                    &&& store@.dom().contains(h@)
                    &&& t.hash_view() == h@
                    &&& spec_tree_serial(triples(t.entries_view())) == store@[h@]
                    &&& stored_tree(store@, t)
                    &&& spec_load_tree(store@, h@, fuel as nat) is Ok
                },
                Err(e) => {
                    &&& (e == RepoError::InvalidObjectFormat || e == RepoError::IOFailure)
                    &&& spec_load_tree(store@, h@, fuel as nat) == Err::<(), RepoError>(e)
                },
            },
        decreases fuel, 1int,
    {
        let data = match store.read_object(h) {
            Ok(d) => d,
            Err(_) => {
                return Err(RepoError::IOFailure);
            },
        };
        // The header must read exactly "tree <body-length>\0".
        let body_start = match crate::bytes::find_byte_at(&data, 0) {
            Some(p) => {
                proof {
                    crate::bytes::lemma_find_byte(data@, 0);
                }
                p + 1
            },
            None => {
                return Err(RepoError::InvalidObjectFormat);
            },
        };
        let body_len = data.len() - body_start;
        let mut expected: Vec<u8> = Vec::new();
        expected.push(116);
        expected.push(114);
        expected.push(101);
        expected.push(101);
        expected.push(32);
        assert(expected@ =~= spec_tree_tag());
        let lend = crate::bytes::u64_to_dec(body_len as u64);
        crate::bytes::push_all(&mut expected, &lend);
        expected.push(0);
        proof {
            assert(expected@ =~= spec_tree_tag() + crate::bytes::dec_digits(body_len as nat)
                + seq![0u8]);
        }
        let header = crate::bytes::bytes_range(&data, 0, body_start);
        if !crate::bytes::bytes_eq(&header, &expected) {
            return Err(RepoError::InvalidObjectFormat);
        }
        proof {
            assert(data@.subrange(0, body_start as int) == spec_tree_tag()
                + crate::bytes::dec_digits((data@.len() - body_start) as nat) + seq![0u8]);
        }
        // Parse records until the body ends.
        let mut entries: Vec<TreeEntry> = Vec::new();
        let mut pos = body_start;
        proof {
            match spec_body_outcome(store@, data@, body_start as int, fuel as nat) {
                Ok(rest) => {
                    assert(triples(entries@) + rest =~= rest);
                },
                Err(_) => {},
            }
        }
        while pos < data.len()
            invariant
                store.wf(),
                body_start <= pos <= data@.len(),
                data@ == store@[h@],
                store@.dom().contains(h@),
                crate::bytes::find_byte(data@, 0) == body_start - 1,
                1 <= body_start <= data@.len(),
                data@.subrange(0, body_start as int) == spec_tree_tag()
                    + crate::bytes::dec_digits((data@.len() - body_start) as nat) + seq![0u8],
                spec_records(triples(entries@)) == data@.subrange(body_start as int, pos as int),
                forall|x: int| 0 <= x < entries@.len() ==> obj_wf((#[trigger] entries@[x]).object),
                forall|x: int|
                    0 <= x < entries@.len() ==> entry_stored(store@, #[trigger] entries@[x]),
                (match spec_body_outcome(store@, data@, pos as int, fuel as nat) {
                    Ok(rest) => spec_body_outcome(store@, data@, body_start as int, fuel as nat)
                        == Ok::<Seq<(bool, Seq<u8>, Seq<u8>)>, RepoError>(
                        triples(entries@) + rest,
                    ),
                    Err(e2) => spec_body_outcome(store@, data@, body_start as int, fuel as nat)
                        == Err::<Seq<(bool, Seq<u8>, Seq<u8>)>, RepoError>(e2),
                }),
            decreases data@.len() - pos,
        {
            let (entry, next) = match parse_entry(&data, pos, store, fuel) {
                Ok(x) => x,
                Err(e) => {
                    proof {
                        assert(spec_body_outcome(store@, data@, pos as int, fuel as nat) == Err::<
                            Seq<(bool, Seq<u8>, Seq<u8>)>,
                            RepoError,
                        >(e));
                        assert(spec_load_tree(store@, h@, fuel as nat) == Err::<(), RepoError>(e));
                    }
                    return Err(e);
                },
            };
            let ghost old_entries = entries@;
            entries.push(entry);
            proof {
                assert(triples(entries@) =~= triples(old_entries).push(
                    entry_triple(entries@[entries@.len() - 1]),
                ));
                assert(triples(entries@).drop_last() =~= triples(old_entries));
                assert(spec_records(triples(entries@)) =~= data@.subrange(
                    body_start as int,
                    next as int,
                ));
                match spec_body_outcome(store@, data@, next as int, fuel as nat) {
                    Ok(rest) => {
                        assert(spec_body_outcome(store@, data@, pos as int, fuel as nat) == Ok::<
                            Seq<(bool, Seq<u8>, Seq<u8>)>,
                            RepoError,
                        >(seq![entry.triple()] + rest));
                        assert(triples(old_entries) + (seq![entry.triple()] + rest) =~= triples(
                            entries@,
                        ) + rest);
                    },
                    Err(e2) => {
                        assert(spec_body_outcome(store@, data@, pos as int, fuel as nat) == Err::<
                            Seq<(bool, Seq<u8>, Seq<u8>)>,
                            RepoError,
                        >(e2));
                    },
                }
            }
            pos = next;
        }
        proof {
            assert(spec_body_outcome(store@, data@, pos as int, fuel as nat) == Ok::<
                Seq<(bool, Seq<u8>, Seq<u8>)>,
                RepoError,
            >(Seq::empty()));
            assert(triples(entries@) + Seq::<(bool, Seq<u8>, Seq<u8>)>::empty() =~= triples(
                entries@,
            ));
            assert(spec_body_outcome(store@, data@, body_start as int, fuel as nat) == Ok::<
                Seq<(bool, Seq<u8>, Seq<u8>)>,
                RepoError,
            >(triples(entries@)));
        }
        // The entries must be strictly sorted well-formed names.
        let mut x: usize = 1;
        while x < entries.len()
            invariant
                forall|a: int, b: int|
                    0 <= a < b < x && b < entries@.len() ==> lex_lt(
                        (#[trigger] entries@[a]).name@,
                        (#[trigger] entries@[b]).name@,
                    ),
                x >= 1,
                store@.dom().contains(h@),
                data@ == store@[h@],
                crate::bytes::find_byte(data@, 0) == body_start - 1,
                1 <= body_start <= data@.len(),
                data@.subrange(0, body_start as int) == spec_tree_tag()
                    + crate::bytes::dec_digits((data@.len() - body_start) as nat) + seq![0u8],
                spec_body_outcome(store@, data@, body_start as int, fuel as nat) == Ok::<
                    Seq<(bool, Seq<u8>, Seq<u8>)>,
                    RepoError,
                >(triples(entries@)),
            decreases entries@.len() - x,
        {
            if !crate::bytes::bytes_lt(&entries[x - 1].name, &entries[x].name) {
                proof {
                    assert(triples(entries@)[x - 1] == entry_triple(entries@[x - 1]));
                    assert(triples(entries@)[x as int] == entry_triple(entries@[x as int]));
                    assert(!lex_lt((triples(entries@)[x - 1]).1, (triples(entries@)[x as int]).1));
                    assert(!triples_wf(triples(entries@)));
                    assert(spec_load_tree(store@, h@, fuel as nat) == Err::<(), RepoError>(
                        RepoError::InvalidObjectFormat,
                    ));
                }
                return Err(RepoError::InvalidObjectFormat);
            }
            proof {
                assert forall|a: int, b: int|
                    0 <= a < b < x + 1 && b < entries@.len() implies lex_lt(
                    (#[trigger] entries@[a]).name@,
                    (#[trigger] entries@[b]).name@,
                ) by {
                    if b == x {
                        if a < x - 1 {
                            crate::bytes::lemma_lex_lt_transitive(
                                entries@[a].name@,
                                entries@[x - 1].name@,
                                entries@[x as int].name@,
                            );
                        }
                    }
                }
            }
            x = x + 1;
        }
        let mut y: usize = 0;
        while y < entries.len()
            invariant
                forall|a: int|
                    0 <= a < y && a < entries@.len() ==> valid_name((#[trigger] entries@[a]).name@),
                store@.dom().contains(h@),
                data@ == store@[h@],
                crate::bytes::find_byte(data@, 0) == body_start - 1,
                1 <= body_start <= data@.len(),
                data@.subrange(0, body_start as int) == spec_tree_tag()
                    + crate::bytes::dec_digits((data@.len() - body_start) as nat) + seq![0u8],
                spec_body_outcome(store@, data@, body_start as int, fuel as nat) == Ok::<
                    Seq<(bool, Seq<u8>, Seq<u8>)>,
                    RepoError,
                >(triples(entries@)),
            decreases entries@.len() - y,
        {
            let ok = {
                let nm = &entries[y].name;
                if crate::paths::path_is_valid(nm) {
                    match crate::bytes::find_byte_at(nm, 47) {
                        Some(_) => {
                            proof {
                                crate::bytes::lemma_find_byte(entries@[y as int].name@, 47);
                            }
                            false
                        },
                        None => {
                            proof {
                                crate::bytes::lemma_find_byte(entries@[y as int].name@, 47);
                            }
                            true
                        },
                    }
                } else {
                    false
                }
            };
            if !ok {
                proof {
                    assert(!valid_name(entries@[y as int].name@));
                    assert(triples(entries@)[y as int] == entry_triple(entries@[y as int]));
                    assert(!triples_wf(triples(entries@)));
                    assert(spec_load_tree(store@, h@, fuel as nat) == Err::<(), RepoError>(
                        RepoError::InvalidObjectFormat,
                    ));
                }
                return Err(RepoError::InvalidObjectFormat);
            }
            y = y + 1;
        }
        let hash = crate::hash::Hash::of(&data);
        let t = Tree { hash, entries };
        proof {
            assert(spec_tree_serial(triples(t.entries@)) =~= data@) by {
                assert(data@.subrange(body_start as int, data@.len() as int) =~= data@.skip(
                    body_start as int,
                ));
                assert(header@ == data@.subrange(0, body_start as int));
                assert(spec_records(triples(t.entries@)).len() == data@.len() - body_start);
                assert(spec_records(triples(t.entries@)).len() == body_len as nat);
                assert(expected@ == spec_tree_tag() + crate::bytes::dec_digits(
                    spec_records(triples(t.entries@)).len(),
                ) + seq![0u8]);
                assert(expected@.len() == body_start);
                assert forall|z: int|
                    0 <= z < data@.len() implies (spec_tree_tag() + crate::bytes::dec_digits(
                    spec_records(triples(t.entries@)).len(),
                ) + seq![0u8] + spec_records(triples(t.entries@)))[z] == data@[z] by {
                    if z < body_start {
                        assert(expected@[z] == data@.subrange(0, body_start as int)[z]);
                        assert(data@.subrange(0, body_start as int)[z] == data@[z]);
                    } else {
                        assert(spec_records(triples(t.entries@))[z - body_start]
                            == data@.subrange(body_start as int, data@.len() as int)[z
                            - body_start]);
                    }
                }
            }
            assert(triples_wf(triples(t.entries@))) by {
                assert forall|a: int| 0 <= a < triples(t.entries@).len() implies valid_name(
                    (#[trigger] triples(t.entries@)[a]).1,
                ) && triples(t.entries@)[a].2.len() == 20 by {
                    assert(triples(t.entries@)[a] == entry_triple(t.entries@[a]));
                    match t.entries@[a].object {
                        Object::Blob(b) => {
                            assert(spec_record(entry_triple(t.entries@[a])).len() >= 0);
                            lemma_triple_hash_len(t.entries@[a]);
                        },
                        Object::Tree(st) => {
                            st.hash.lemma_len();
                        },
                    }
                }
                assert forall|a: int, b: int|
                    0 <= a < b < triples(t.entries@).len() implies lex_lt(
                    (#[trigger] triples(t.entries@)[a]).1,
                    (#[trigger] triples(t.entries@)[b]).1,
                ) by {
                    assert(triples(t.entries@)[a] == entry_triple(t.entries@[a]));
                    assert(triples(t.entries@)[b] == entry_triple(t.entries@[b]));
                }
            }
            assert(t.wf());
            assert(spec_load_tree(store@, h@, fuel as nat) is Ok);
            assert(stored_tree(store@, t));
        }
        Ok(t)
    }

    /// Reads the tree stored under `h` back; nesting deeper than the store
    /// has distinct objects would need a hash cycle, and fails instead.
    pub fn load(h: &crate::hash::Hash, store: &crate::store::ObjectStore) -> (r: Result<
        Tree,
        RepoError,
    >)
        requires
            store.wf(),
        ensures
            r is Ok <==> spec_tree_loadable(store@, h@) is Ok,
            match r {
                Ok(t) => {
                    &&& t.wf()
                    &&& store@.dom().contains(h@)
                    &&& t.hash_view() == h@
                    &&& spec_tree_serial(triples(t.entries_view())) == store@[h@]
                    &&& stored_tree(store@, t)
                },
                Err(e) => {
                    &&& (e == RepoError::InvalidObjectFormat || e == RepoError::IOFailure)
                    &&& spec_tree_loadable(store@, h@) == Err::<(), RepoError>(e)
                },
            },
    {
        let fuel = store.object_count();
        Tree::load_at(h, store, fuel)
    }

    /// The committed tree of the current branch: none while the branch ref
    /// is empty, because nothing was committed yet; otherwise the tree the
    /// ref's commit names.
    pub fn current(head_ref: &Vec<u8>, store: &crate::store::ObjectStore) -> (r: Result<
        Option<Tree>,
        RepoError,
    >)
        requires
            store.wf(),
        ensures
            match r {
                Ok(opt) => match opt {
                    Some(t) => {
                        &&& head_ref@.len() == 40 && crate::hash::hex_digits_ok(head_ref@)
                        &&& store@.dom().contains(crate::hash::hex_val_of(head_ref@))
                        &&& match crate::commit::spec_parse_commit(
                            store@[crate::hash::hex_val_of(head_ref@)],
                        ) {
                            Some(pc) => t.hash_view() == pc.0,
                            None => false,
                        }
                        &&& t.wf()
                        &&& store@.dom().contains(t.hash_view())
                        &&& spec_tree_serial(triples(t.entries_view())) == store@[t.hash_view()]
                        &&& stored_tree(store@, t)
                    },
                    None => head_ref@.len() == 0,
                },
                Err(e) => {
                    &&& head_ref@.len() != 0
                    &&& (e == RepoError::InvalidHash <==> !(head_ref@.len() == 40
                        && crate::hash::hex_digits_ok(head_ref@)))
                    &&& (e == RepoError::InvalidHash || e == RepoError::InvalidObjectFormat
                        || e == RepoError::IOFailure)
                },
            },
            head_ref@.len() == 40 && crate::hash::hex_digits_ok(head_ref@) ==> (r is Ok
                <==> spec_ref_tree_outcome(store@, crate::hash::hex_val_of(head_ref@)) is Ok),
            r matches Err(e2) ==> (head_ref@.len() == 40 && crate::hash::hex_digits_ok(head_ref@)
                ==> spec_ref_tree_outcome(store@, crate::hash::hex_val_of(head_ref@)) == Err::<
                (),
                RepoError,
            >(e2)),
    {
        if head_ref.len() == 0 {
            return Ok(None);
        }
        let h = match crate::hash::Hash::from_hex(head_ref) {
            Ok(h) => h,
            Err(e) => {
                return Err(e);
            },
        };
        let commit = match crate::commit::Commit::load(&h, store) {
            Ok(c) => c,
            Err(e) => {
                return Err(e);
            },
        };
        match commit.tree(store) {
            Ok(t) => Ok(Some(t)),
            Err(e) => Err(e),
        }
    }

    /// This tree's stored body: its serialized bytes with the header
    /// stripped.
    pub fn body(&self, store: &crate::store::ObjectStore) -> (r: Result<Vec<u8>, RepoError>)
        requires
            store.wf(),
        ensures
            match r {
                Ok(d) => {
                    &&& store@.dom().contains(self.hash_view())
                    &&& crate::blob::spec_object_body(store@[self.hash_view()]) == Some(d@)
                },
                Err(e) => {
                    ||| (e == RepoError::IOFailure && !store@.dom().contains(self.hash_view()))
                    ||| (e == RepoError::InvalidObjectFormat && store@.dom().contains(
                        self.hash_view(),
                    ) && crate::blob::spec_object_body(store@[self.hash_view()]) is None)
                },
            },
    {
        let serial = match store.read_object(&self.hash) {
            Ok(d) => d,
            Err(e) => {
                return Err(e);
            },
        };
        let sl = serial.len();
        match crate::bytes::find_byte_at(&serial, 0) {
            Some(p) => {
                proof {
                    crate::bytes::lemma_find_byte(serial@, 0);
                    assert(p < sl);
                }
                let body = crate::bytes::bytes_range(&serial, p + 1, sl);
                assert(body@ =~= serial@.skip(crate::bytes::find_byte(serial@, 0) + 1));
                Ok(body)
            },
            None => Err(RepoError::InvalidObjectFormat),
        }
    }
}

/// A blob entry's hash bytes in a parsed record hold 20 bytes.
proof fn lemma_triple_hash_len(e: TreeEntry)
    requires
        e.object is Blob,
    ensures
        entry_triple(e).2.len() == 20,
{
    let b = e.object->Blob_0;
    b.lemma_hash_len();
}


// ----------------------------------------------------------------------------
// Serialization pins the entries
// ----------------------------------------------------------------------------

proof fn lemma_records_front(ts: Seq<(bool, Seq<u8>, Seq<u8>)>)
    requires
        ts.len() > 0,
    ensures
        spec_records(ts) == spec_record(ts[0]) + spec_records(ts.drop_first()),
    decreases ts.len(),
{
    if ts.len() == 1 {
        assert(ts.drop_last() =~= Seq::<(bool, Seq<u8>, Seq<u8>)>::empty());
        assert(ts.drop_first() =~= Seq::<(bool, Seq<u8>, Seq<u8>)>::empty());
        assert(ts.last() == ts[0]);
        assert(spec_records(ts) =~= spec_record(ts[0]) + spec_records(ts.drop_first()));
    } else {
        let d = ts.drop_last();
        lemma_records_front(d);
        assert(d[0] == ts[0]);
        assert(ts.drop_first().drop_last() =~= d.drop_first());
        assert(ts.drop_first().last() == ts.last());
        assert(ts.drop_first().len() > 0);
        assert(spec_records(ts.drop_first()) == spec_records(ts.drop_first().drop_last())
            + spec_record(ts.drop_first().last()));
        assert(spec_records(ts) =~= spec_record(ts[0]) + spec_records(ts.drop_first()));
    }
}

#[verifier::rlimit(100)]
proof fn lemma_records_injective(ts1: Seq<(bool, Seq<u8>, Seq<u8>)>, ts2: Seq<(bool, Seq<u8>, Seq<u8>)>)
    requires
        triples_wf(ts1),
        triples_wf(ts2),
        spec_records(ts1) == spec_records(ts2),
    ensures
        ts1 == ts2,
    decreases ts1.len(),
{
    if ts1.len() == 0 && ts2.len() == 0 {
        assert(ts1 =~= ts2);
    } else if ts1.len() == 0 || ts2.len() == 0 {
        let nonempty = if ts1.len() == 0 {
            ts2
        } else {
            ts1
        };
        lemma_records_front(nonempty);
        assert(spec_record(nonempty[0]).len() > 0);
        assert(spec_records(ts1).len() == spec_records(ts2).len());
        assert(spec_records(Seq::<(bool, Seq<u8>, Seq<u8>)>::empty()).len() == 0);
        assert(false);
    } else {
        let t1 = ts1[0];
        let t2 = ts2[0];
        lemma_records_front(ts1);
        lemma_records_front(ts2);
        let s = spec_records(ts1);
        let r1 = spec_record(t1);
        let r2 = spec_record(t2);
        // The first byte decides the mode.
        assert(s[0] == r1[0] && s[0] == r2[0]);
        assert(r1[0] == spec_mode_bytes(t1.0)[0]);
        assert(r2[0] == spec_mode_bytes(t2.0)[0]);
        assert(t1.0 == t2.0) by {
            if t1.0 != t2.0 {
                assert(spec_mode_bytes(true)[0] == 52 && spec_mode_bytes(false)[0] == 49);
            }
        }
        let m = spec_mode_bytes(t1.0).len() as int;
        // The name runs to the first NUL after the mode and the space.
        let tail = s.skip(m + 1);
        assert forall|j: int| 0 <= j < t1.1.len() implies #[trigger] tail[j] == t1.1[j] by {
            assert(s[m + 1 + j] == r1[m + 1 + j]);
        }
        assert(tail[t1.1.len() as int] == 0) by {
            assert(s[m + 1 + t1.1.len()] == r1[m + 1 + t1.1.len()]);
        }
        assert forall|j: int| 0 <= j < t2.1.len() implies #[trigger] tail[j] == t2.1[j] by {
            assert(s[m + 1 + j] == r2[m + 1 + j]);
        }
        assert(tail[t2.1.len() as int] == 0) by {
            assert(s[m + 1 + t2.1.len()] == r2[m + 1 + t2.1.len()]);
        }
        assert(t1.1.len() == t2.1.len()) by {
            assert forall|j: int| 0 <= j < t1.1.len() implies #[trigger] tail[j] != 0 by {
                assert(tail[j] == t1.1[j]);
                assert(valid_name(t1.1));
            }
            assert forall|j: int| 0 <= j < t2.1.len() implies #[trigger] tail[j] != 0 by {
                assert(tail[j] == t2.1[j]);
                assert(valid_name(t2.1));
            }
            crate::bytes::lemma_find_byte_unique(tail, 0, t1.1.len() as int);
            crate::bytes::lemma_find_byte_unique(tail, 0, t2.1.len() as int);
        }
        assert forall|j: int| 0 <= j < t1.1.len() implies t1.1[j] == t2.1[j] by {
            assert(tail[j] == t1.1[j]);
            assert(tail[j] == t2.1[j]);
        }
        assert(t1.1 =~= t2.1);
        let n = t1.1.len() as int;
        assert(t1.2 =~= t2.2) by {
            assert forall|j: int| 0 <= j < 20 implies t1.2[j] == t2.2[j] by {
                assert(s[m + 2 + n + j] == r1[m + 2 + n + j]);
                assert(s[m + 2 + n + j] == r2[m + 2 + n + j]);
                assert(r1[m + 2 + n + j] == t1.2[j]);
                assert(r2[m + 2 + n + j] == t2.2[j]);
            }
        }
        assert(t1 == t2);
        assert(r1 == r2);
        assert(spec_records(ts1.drop_first()) =~= spec_records(ts2.drop_first())) by {
            assert(spec_records(ts1.drop_first()) =~= s.skip(r1.len() as int));
            assert(spec_records(ts2.drop_first()) =~= spec_records(ts2).skip(r2.len() as int));
        }
        assert(triples_wf(ts1.drop_first())) by {
            lemma_triples_wf_drop(ts1);
        }
        assert(triples_wf(ts2.drop_first())) by {
            lemma_triples_wf_drop(ts2);
        }
        lemma_records_injective(ts1.drop_first(), ts2.drop_first());
        assert forall|i: int| 0 <= i < ts1.len() implies ts1[i] == ts2[i] by {
            if i > 0 {
                assert(ts1[i] == ts1.drop_first()[i - 1]);
                assert(ts2[i] == ts2.drop_first()[i - 1]);
            }
        }
        assert(ts1 =~= ts2);
    }
}

proof fn lemma_triples_wf_drop(ts: Seq<(bool, Seq<u8>, Seq<u8>)>)
    requires
        triples_wf(ts),
        ts.len() > 0,
    ensures
        triples_wf(ts.drop_first()),
{
    let d = ts.drop_first();
    assert forall|i: int| 0 <= i < d.len() implies valid_name((#[trigger] d[i]).1) && d[i].2.len()
        == 20 by {
        assert(d[i] == ts[i + 1]);
    }
    assert forall|i: int, j: int| 0 <= i < j < d.len() implies lex_lt(
        (#[trigger] d[i]).1,
        (#[trigger] d[j]).1,
    ) by {
        assert(d[i] == ts[i + 1] && d[j] == ts[j + 1]);
    }
}

/// The serialized form pins a tree's entries: two well-formed entry lists
/// with the same bytes are the same list. With the builder's determinism
/// this closes the loop: a stored tree reads back as exactly the entries
/// it was written from.
pub proof fn lemma_tree_serial_injective(
    ts1: Seq<(bool, Seq<u8>, Seq<u8>)>,
    ts2: Seq<(bool, Seq<u8>, Seq<u8>)>,
)
    requires
        triples_wf(ts1),
        triples_wf(ts2),
        spec_tree_serial(ts1) == spec_tree_serial(ts2),
    ensures
        ts1 == ts2,
{
    let s = spec_tree_serial(ts1);
    lemma_serial_strips_to_records(ts1);
    lemma_serial_strips_to_records(ts2);
    assert(spec_records(ts1) =~= spec_records(ts2)) by {
        assert(spec_records(ts1) == s.skip(crate::bytes::find_byte(s, 0) + 1));
        assert(spec_records(ts2) == spec_tree_serial(ts2).skip(
            crate::bytes::find_byte(spec_tree_serial(ts2), 0) + 1,
        ));
    }
    lemma_records_injective(ts1, ts2);
}

/// The body of a tree's serialized form starts right after the first NUL.
proof fn lemma_serial_strips_to_records(ts: Seq<(bool, Seq<u8>, Seq<u8>)>)
    ensures
        spec_records(ts) == spec_tree_serial(ts).skip(
            crate::bytes::find_byte(spec_tree_serial(ts), 0) + 1,
        ),
{
    let s = spec_tree_serial(ts);
    let d = crate::bytes::dec_digits(spec_records(ts).len());
    crate::bytes::lemma_dec_digits_wf(spec_records(ts).len());
    let z = 5 + d.len() as int;
    assert(s[z] == 0);
    assert forall|j: int| 0 <= j < z implies #[trigger] s[j] != 0 by {
        if j < 5 {
            assert(s[j] == spec_tree_tag()[j]);
        } else {
            assert(s[j] == d[j - 5]);
            assert(crate::bytes::is_digit(d[j - 5]));
        }
    }
    crate::bytes::lemma_find_byte_unique(s, 0, z);
    assert(spec_records(ts) =~= s.skip(z + 1));
}


// ----------------------------------------------------------------------------
// The flattening of a well-formed tree is a well-formed path table
// ----------------------------------------------------------------------------

/// A flattening prefix: empty at the root, else a well-formed directory
/// path with its trailing separator.
pub open spec fn prefix_ok(prefix: Seq<u8>) -> bool {
    prefix.len() == 0 || (prefix.last() == 47 && crate::paths::valid_path(prefix.drop_last()))
}

/// `k` starts with `prefix`, then the component `name`, then either ends
/// or descends with a separator.
pub open spec fn key_of_component(k: Seq<u8>, prefix: Seq<u8>, name: Seq<u8>) -> bool {
    &&& crate::bytes::is_prefix(prefix + name, k)
    &&& (k.len() == prefix.len() + name.len() || k[prefix.len() as int + name.len() as int] == 47)
}

/// Joining a directory and a name with a separator stays a valid path.
proof fn lemma_join_path_valid(d: Seq<u8>, name: Seq<u8>)
    requires
        crate::paths::valid_path(d),
        valid_name(name),
    ensures
        crate::paths::valid_path(d + seq![47u8] + name),
{
    let p = d + seq![47u8] + name;
    assert(p[0] == d[0]);
    assert(p[p.len() - 1] == name[name.len() - 1]);
    assert forall|i: int| 0 <= i < p.len() implies #[trigger] p[i] != 0 && p[i] != 10 && p[i]
        != 32 by {
        if i < d.len() {
            assert(p[i] == d[i]);
        } else if i > d.len() {
            assert(p[i] == name[i - d.len() - 1]);
        }
    }
    assert forall|i: int| 0 < i < p.len() implies !(#[trigger] p[i] == 47 && p[i - 1] == 47) by {
        if i < d.len() {
            assert(p[i] == d[i] && p[i - 1] == d[i - 1]);
        } else if i == d.len() {
            assert(p[i - 1] == d[d.len() - 1]);
        } else if i == d.len() + 1 {
            assert(p[i] == name[0]);
        } else {
            assert(p[i] == name[i - d.len() - 1] && p[i - 1] == name[i - d.len() - 2]);
        }
    }
}

/// Keys under distinct components of one directory never collide, and
/// neither can hold the other.
proof fn lemma_distinct_component_keys(
    k1: Seq<u8>,
    k2: Seq<u8>,
    prefix: Seq<u8>,
    n1: Seq<u8>,
    n2: Seq<u8>,
)
    requires
        key_of_component(k1, prefix, n1),
        key_of_component(k2, prefix, n2),
        valid_name(n1),
        valid_name(n2),
        n1 != n2,
    ensures
        k1 != k2,
        !under_dir(k1, k2),
        !under_dir(k2, k1),
{
    let p = prefix.len() as int;
    assert forall|j: int| 0 <= j < n1.len() implies k1[p + j] == n1[j] by {
        assert(k1.subrange(0, p + n1.len()) == prefix + n1);
        assert(k1.subrange(0, p + n1.len())[p + j] == k1[p + j]);
    }
    assert forall|j: int| 0 <= j < n2.len() implies k2[p + j] == n2[j] by {
        assert(k2.subrange(0, p + n2.len()) == prefix + n2);
        assert(k2.subrange(0, p + n2.len())[p + j] == k2[p + j]);
    }
    // If the keys agreed far enough, the names would be the same
    // component: whichever is shorter would end at a separator inside the
    // other, which a name cannot.
    assert(k1 != k2) by {
        if k1 == k2 {
            lemma_same_component(k1, p, n1, n2);
        }
    }
    assert(!under_dir(k1, k2)) by {
        if under_dir(k1, k2) {
            assert(crate::bytes::is_prefix(k2.push(47u8), k1));
            assert forall|j: int| 0 <= j < k2.len() + 1 implies k1[j] == k2.push(47u8)[j] by {
                assert(k1.subrange(0, k2.len() as int + 1) == k2.push(47u8));
                assert(k1.subrange(0, k2.len() as int + 1)[j] == k1[j]);
            }
            lemma_same_component(k1, p, n1, n2);
        }
    }
    assert(!under_dir(k2, k1)) by {
        if under_dir(k2, k1) {
            assert(crate::bytes::is_prefix(k1.push(47u8), k2));
            assert forall|j: int| 0 <= j < k1.len() + 1 implies k2[j] == k1.push(47u8)[j] by {
                assert(k2.subrange(0, k1.len() as int + 1) == k1.push(47u8));
                assert(k2.subrange(0, k1.len() as int + 1)[j] == k2[j]);
            }
            lemma_same_component(k2, p, n2, n1);
        }
    }
}

/// A byte string whose bytes from `p` spell `n1` up to an end-or-separator
/// and also `n2` up to an end-or-separator forces `n1 == n2`.
proof fn lemma_same_component(k: Seq<u8>, p: int, n1: Seq<u8>, n2: Seq<u8>)
    requires
        0 <= p,
        valid_name(n1),
        valid_name(n2),
        p + n1.len() <= k.len(),
        p + n2.len() <= k.len(),
        forall|j: int| 0 <= j < n1.len() ==> k[p + j] == n1[j],
        forall|j: int| 0 <= j < n2.len() ==> k[p + j] == n2[j],
        k.len() == p + n1.len() || k[p + n1.len()] == 47,
        k.len() == p + n2.len() || k[p + n2.len()] == 47,
    ensures
        n1 == n2,
{
    assert(n1.len() == n2.len()) by {
        if n1.len() < n2.len() {
            assert(k[p + n1.len()] == n2[n1.len() as int]);
            assert(n2[n1.len() as int] != 47);
        } else if n2.len() < n1.len() {
            assert(k[p + n2.len()] == n1[n2.len() as int]);
            assert(n1[n2.len() as int] != 47);
        }
    }
    assert forall|j: int| 0 <= j < n1.len() implies n1[j] == n2[j] by {
        assert(k[p + j] == n1[j] && k[p + j] == n2[j]);
    }
    assert(n1 =~= n2);
}

/// The flattening of well-formed entries under a well-formed prefix is a
/// table of well-formed paths, pairwise distinct and never one inside the
/// other, each descending from its level's component.
pub proof fn lemma_flat_paths_wf(es: Seq<TreeEntry>, prefix: Seq<u8>)
    requires
        triples_wf(triples(es)),
        forall|i: int| 0 <= i < es.len() ==> obj_wf((#[trigger] es[i]).obj()),
        prefix_ok(prefix),
    ensures
        forall|x: int|
            0 <= x < flat_entries(es, prefix).len() ==> crate::paths::valid_path(
                (#[trigger] flat_entries(es, prefix)[x]).0,
            ),
        forall|x: int, y: int|
            0 <= x < flat_entries(es, prefix).len() && 0 <= y < flat_entries(es, prefix).len()
                && x != y ==> (#[trigger] flat_entries(es, prefix)[x]).0 != (
            #[trigger] flat_entries(es, prefix)[y]).0 && !under_dir(
                flat_entries(es, prefix)[x].0,
                flat_entries(es, prefix)[y].0,
            ),
        forall|x: int|
            0 <= x < flat_entries(es, prefix).len() ==> exists|j: int|
                0 <= j < es.len() && key_of_component(
                    (#[trigger] flat_entries(es, prefix)[x]).0,
                    prefix,
                    es[j].triple().1,
                ),
        forall|x: int|
            0 <= x < flat_entries(es, prefix).len() ==> (#[trigger] flat_entries(
                es,
                prefix,
            )[x]).1.len() == 20,
    decreases es,
{
    if es.len() > 0 {
        let d = es.drop_last();
        let last = es.last();
        assert(triples_wf(triples(d))) by {
            lemma_triples_wf_drop_last(es);
        }
        assert forall|i: int| 0 <= i < d.len() implies obj_wf((#[trigger] d[i]).obj()) by {
            assert(d[i] == es[i]);
        }
        lemma_flat_paths_wf(d, prefix);
        assert(triples(es)[es.len() - 1] == entry_triple(last));
        assert(valid_name(last.name@));
        lemma_flat_one_paths_wf(last, prefix);
        let fa = flat_entries(d, prefix);
        let fb = flat_one(last, prefix);
        let f = flat_entries(es, prefix);
        assert(f == fa + fb);
        assert forall|x: int| 0 <= x < f.len() implies crate::paths::valid_path(
            (#[trigger] f[x]).0,
        ) && (#[trigger] f[x]).1.len() == 20 by {
            if x < fa.len() {
                assert(f[x] == fa[x]);
            } else {
                assert(f[x] == fb[x - fa.len()]);
            }
        }
        assert forall|x: int|
            0 <= x < f.len() implies exists|j: int|
            0 <= j < es.len() && key_of_component(
                (#[trigger] f[x]).0,
                prefix,
                es[j].triple().1,
            ) by {
            if x < fa.len() {
                assert(f[x] == fa[x]);
                let j = choose|j: int|
                    0 <= j < d.len() && key_of_component(fa[x].0, prefix, d[j].triple().1);
                assert(es[j] == d[j]);
            } else {
                assert(f[x] == fb[x - fa.len()]);
                assert(key_of_component(f[x].0, prefix, es[es.len() - 1].triple().1));
            }
        }
        assert forall|x: int, y: int|
            0 <= x < f.len() && 0 <= y < f.len() && x != y implies (#[trigger] f[x]).0 != (
        #[trigger] f[y]).0 && !under_dir(f[x].0, f[y].0) by {
            if x < fa.len() && y < fa.len() {
                assert(f[x] == fa[x] && f[y] == fa[y]);
            } else if x >= fa.len() && y >= fa.len() {
                assert(f[x] == fb[x - fa.len()] && f[y] == fb[y - fa.len()]);
            } else {
                let (a, b) = if x < fa.len() {
                    (x, y)
                } else {
                    (y, x)
                };
                assert(f[a] == fa[a] && f[b] == fb[b - fa.len()]);
                let j = choose|j: int|
                    0 <= j < d.len() && key_of_component(fa[a].0, prefix, d[j].triple().1);
                assert(es[j] == d[j]);
                assert(key_of_component(fb[b - fa.len()].0, prefix, last.triple().1));
                assert(lex_lt(triples(es)[j].1, triples(es)[es.len() - 1].1)) by {
                    assert(triples(es)[j] == entry_triple(es[j]));
                }
                assert(d[j].triple().1 != last.triple().1) by {
                    crate::bytes::lemma_lex_lt_irreflexive(
                        triples(es)[j].1,
                        triples(es)[es.len() - 1].1,
                    );
                }
                lemma_distinct_component_keys(
                    fa[a].0,
                    fb[b - fa.len()].0,
                    prefix,
                    d[j].triple().1,
                    last.triple().1,
                );
            }
        }
    }
}

/// The flattening of one well-formed entry: every key descends from the
/// entry's own name.
proof fn lemma_flat_one_paths_wf(e: TreeEntry, prefix: Seq<u8>)
    requires
        obj_wf(e.obj()),
        valid_name(e.name@),
        prefix_ok(prefix),
    ensures
        forall|x: int|
            0 <= x < flat_one(e, prefix).len() ==> crate::paths::valid_path(
                (#[trigger] flat_one(e, prefix)[x]).0,
            ),
        forall|x: int, y: int|
            0 <= x < flat_one(e, prefix).len() && 0 <= y < flat_one(e, prefix).len() && x != y
                ==> (#[trigger] flat_one(e, prefix)[x]).0 != (#[trigger] flat_one(e, prefix)[y]).0
                && !under_dir(flat_one(e, prefix)[x].0, flat_one(e, prefix)[y].0),
        forall|x: int|
            0 <= x < flat_one(e, prefix).len() ==> key_of_component(
                (#[trigger] flat_one(e, prefix)[x]).0,
                prefix,
                e.triple().1,
            ),
        forall|x: int|
            0 <= x < flat_one(e, prefix).len() ==> (#[trigger] flat_one(e, prefix)[x]).1.len()
                == 20,
    decreases e,
{
    let name = e.name@;
    match e.object {
        Object::Blob(b) => {
            let k = prefix + name;
            assert(flat_one(e, prefix)[0].0 == k);
            assert(crate::paths::valid_path(k)) by {
                if prefix.len() == 0 {
                    assert(k =~= name);
                } else {
                    assert(k =~= prefix.drop_last() + seq![47u8] + name);
                    lemma_join_path_valid(prefix.drop_last(), name);
                }
            }
            assert(key_of_component(k, prefix, name)) by {
                assert(k.subrange(0, k.len() as int) =~= k);
            }
            b.lemma_hash_len();
        },
        Object::Tree(t) => {
            let prefix2 = prefix + name + seq![47u8];
            assert(prefix_ok(prefix2)) by {
                assert(prefix2.drop_last() =~= prefix + name);
                if prefix.len() == 0 {
                    assert(prefix + name =~= name);
                } else {
                    assert(prefix + name =~= prefix.drop_last() + seq![47u8] + name);
                    lemma_join_path_valid(prefix.drop_last(), name);
                }
            }
            assert(tree_wf(t));
            assert forall|i: int| 0 <= i < t.entries@.len() implies obj_wf(
                (#[trigger] t.entries@[i]).obj(),
            ) by {}
            lemma_flat_paths_wf(t.entries@, prefix2);
            let f = flat_one(e, prefix);
            assert(f == flat_entries(t.entries@, prefix2));
            assert forall|x: int| 0 <= x < f.len() implies key_of_component(
                (#[trigger] f[x]).0,
                prefix,
                e.triple().1,
            ) by {
                let j = choose|j: int|
                    0 <= j < t.entries@.len() && key_of_component(
                        f[x].0,
                        prefix2,
                        t.entries@[j].triple().1,
                    );
                let k = f[x].0;
                let inner = t.entries@[j].triple().1;
                assert(crate::bytes::is_prefix(prefix2 + inner, k));
                assert(crate::bytes::is_prefix(prefix + name, k)) by {
                    assert(k.subrange(0, prefix.len() as int + name.len() as int) =~= prefix + name) by {
                        assert forall|z: int| 0 <= z < prefix.len() as int + name.len() as int
                            implies k[z] == (prefix + name)[z] by {
                            assert(k.subrange(0, (prefix2 + inner).len() as int) == prefix2
                                + inner);
                            assert(k.subrange(0, (prefix2 + inner).len() as int)[z] == k[z]);
                        }
                    }
                }
                assert(k[prefix.len() as int + name.len() as int] == 47) by {
                    assert(k.subrange(0, (prefix2 + inner).len() as int) == prefix2 + inner);
                    assert(k.subrange(0, (prefix2 + inner).len() as int)[prefix.len() as int + name.len() as int] == k[prefix.len() as int + name.len() as int]);
                }
            }
        },
    }
}

/// Dropping the last entry keeps the triples well-formed.
proof fn lemma_triples_wf_drop_last(es: Seq<TreeEntry>)
    requires
        triples_wf(triples(es)),
        es.len() > 0,
    ensures
        triples_wf(triples(es.drop_last())),
{
    let d = triples(es.drop_last());
    assert forall|i: int| 0 <= i < d.len() implies valid_name((#[trigger] d[i]).1) && d[i].2.len()
        == 20 by {
        assert(d[i] == entry_triple(es.drop_last()[i]));
        assert(es.drop_last()[i] == es[i]);
        assert(triples(es)[i] == entry_triple(es[i]));
    }
    assert forall|i: int, j: int| 0 <= i < j < d.len() implies lex_lt(
        (#[trigger] d[i]).1,
        (#[trigger] d[j]).1,
    ) by {
        assert(d[i] == entry_triple(es[i]) && d[j] == entry_triple(es[j]));
        assert(triples(es)[i] == entry_triple(es[i]) && triples(es)[j] == entry_triple(es[j]));
    }
}

} // verus!
