use vstd::prelude::*;

use crate::codec::compress;
use crate::codec::decompress;
use crate::codec::inflate_of;
use crate::errors::RepoError;
use crate::hash::sha1_of;

verus! {

/// One stored object: its content hash, the compressed bytes on disk, and —
/// as ghost bookkeeping — the serialized bytes that were compressed.
pub struct StoreEntry {
    hash: crate::hash::Hash,
    compressed: Vec<u8>,
    serial: Ghost<Seq<u8>>,
}

/// The content-addressed object store: write-once, deduplicated on hash.
///
/// Its view is the map from each stored hash to the serialized (that is,
/// uncompressed) bytes of the object stored under it.
pub struct ObjectStore {
    entries: Vec<StoreEntry>,
}

/// How one write changes the store's contents: nothing if an object with
/// that hash is already present, else one new entry.
pub open spec fn store_write(m: Map<Seq<u8>, Seq<u8>>, serial: Seq<u8>) -> Map<Seq<u8>, Seq<u8>> {
    if m.dom().contains(sha1_of(serial)) {
        m
    } else {
        m.insert(sha1_of(serial), serial)
    }
}

pub closed spec fn entries_map(s: Seq<StoreEntry>) -> Map<Seq<u8>, Seq<u8>>
    decreases s.len(),
{
    if s.len() == 0 {
        Map::empty()
    } else {
        entries_map(s.drop_last()).insert(s.last().hash@, s.last().serial@)
    }
}

impl View for ObjectStore {
    type V = Map<Seq<u8>, Seq<u8>>;

    closed spec fn view(&self) -> Map<Seq<u8>, Seq<u8>> {
        entries_map(self.entries@)
    }
}

proof fn lemma_entries_map(s: Seq<StoreEntry>)
    requires
        forall|i: int, j: int| 0 <= i < j < s.len() ==> s[i].hash@ != s[j].hash@,
    ensures
        forall|k: Seq<u8>|
            entries_map(s).dom().contains(k) <==> exists|i: int|
                0 <= i < s.len() && #[trigger] s[i].hash@ == k,
        forall|i: int|
            0 <= i < s.len() ==> entries_map(s)[#[trigger] s[i].hash@] == s[i].serial@,
    decreases s.len(),
{
    if s.len() > 0 {
        lemma_entries_map(s.drop_last());
        assert forall|k: Seq<u8>| entries_map(s).dom().contains(k) implies exists|i: int|
            0 <= i < s.len() && #[trigger] s[i].hash@ == k by {
            if k == s.last().hash@ {
                assert(s[s.len() - 1].hash@ == k);
            } else {
                assert(entries_map(s.drop_last()).dom().contains(k));
                assert(exists|i: int|
                    0 <= i < s.drop_last().len() && #[trigger] s.drop_last()[i].hash@ == k);
                let i = choose|i: int|
                    0 <= i < s.drop_last().len() && #[trigger] s.drop_last()[i].hash@ == k;
                assert(s.drop_last()[i] == s[i]);
                assert(s[i].hash@ == k);
            }
        }
        assert forall|k: Seq<u8>| (exists|i: int| 0 <= i < s.len() && #[trigger] s[i].hash@ == k)
            implies entries_map(s).dom().contains(k) by {
            let i = choose|i: int| 0 <= i < s.len() && #[trigger] s[i].hash@ == k;
            if i < s.len() - 1 {
                assert(s.drop_last()[i].hash@ == k);
            }
        }
        assert forall|i: int| 0 <= i < s.len() implies entries_map(s)[#[trigger] s[i].hash@]
            == s[i].serial@ by {
            if i < s.len() - 1 {
                assert(s.drop_last()[i] == s[i]);
                assert(s[i].hash@ != s.last().hash@);
            }
        }
    }
}

impl ObjectStore {
    /// Every entry's compressed bytes decode to its serialized bytes, the
    /// hash is the digest of those bytes, and no hash appears twice.
    pub closed spec fn wf(&self) -> bool {
        &&& forall|i: int, j: int|
            0 <= i < j < self.entries@.len() ==> self.entries@[i].hash@ != self.entries@[j].hash@
        &&& forall|i: int|
            0 <= i < self.entries@.len() ==> {
                let e = #[trigger] self.entries@[i];
                inflate_of(e.compressed@) == Some(e.serial@) && e.hash@ == sha1_of(e.serial@)
            }
    }

    /// Every stored hash is the digest of the serialized bytes stored under it.
    pub proof fn lemma_wf_hashes(&self)
        requires
            self.wf(),
        ensures
            forall|k: Seq<u8>|
                #[trigger] self@.dom().contains(k) ==> sha1_of(self@[k]) == k,
    {
        lemma_entries_map(self.entries@);
        assert forall|k: Seq<u8>| #[trigger] self@.dom().contains(k) implies sha1_of(self@[k])
            == k by {
            let i = choose|i: int|
                0 <= i < self.entries@.len() && #[trigger] self.entries@[i].hash@ == k;
            assert(self@[k] == self.entries@[i].serial@);
        }
    }

    /// A store's domain is finite: one entry per stored hash.
    pub proof fn lemma_wf_finite(&self)
        requires
            self.wf(),
        ensures
            self@.dom().finite(),
    {
        lemma_entries_len(self.entries@);
    }

    /// An empty store.
    pub fn new() -> (s: ObjectStore)
        ensures
            s.wf(),
            s@ == Map::<Seq<u8>, Seq<u8>>::empty(),
    {
        ObjectStore { entries: Vec::new() }
    }

    /// Whether an object with this hash is already stored.
    pub fn contains(&self, h: &crate::hash::Hash) -> (r: bool)
        requires
            self.wf(),
        ensures
            r == self@.dom().contains(h@),
    {
        proof {
            lemma_entries_map(self.entries@);
        }
        let n = self.entries.len();
        for i in 0..n
            invariant
                n == self.entries@.len(),
                forall|j: int| 0 <= j < i ==> self.entries@[j].hash@ != h@,
                forall|k: Seq<u8>|
                    self@.dom().contains(k) <==> exists|j: int|
                        0 <= j < self.entries@.len() && #[trigger] self.entries@[j].hash@ == k,
        {
            if self.entries[i].hash.equals(h) {
                return true;
            }
        }
        false
    }

    /// Serializes nothing itself: takes already-serialized object bytes,
    /// and — only if no object with their hash is stored yet — compresses
    /// and keeps them. Returns the hash either way.
    pub fn write_object(&mut self, serial: &Vec<u8>) -> (h: crate::hash::Hash)
        requires
            old(self).wf(),
        ensures
            final(self).wf(),
            h@ == sha1_of(serial@),
            final(self)@ == store_write(old(self)@, serial@),
    {
        let h = crate::hash::Hash::of(serial);
        if self.contains(&h) {
            return h;
        }
        let compressed = compress(serial);
        let entry = StoreEntry { hash: h, compressed, serial: Ghost(serial@) };
        proof {
            lemma_entries_map(self.entries@);
            assert forall|i: int, j: int|
                0 <= i < j < self.entries@.push(entry).len() implies self.entries@.push(
                entry,
            )[i].hash@ != self.entries@.push(entry)[j].hash@ by {
                if j == self.entries@.len() {
                    assert(self.entries@[i].hash@ != h@);
                }
            }
            assert(entries_map(self.entries@.push(entry)) == entries_map(
                self.entries@.push(entry).drop_last(),
            ).insert(entry.hash@, entry.serial@));
            assert(self.entries@.push(entry).drop_last() =~= self.entries@);
        }
        self.entries.push(entry);
        h
    }

    /// Reads the object stored under `h` back as its serialized bytes.
    pub fn read_object(&self, h: &crate::hash::Hash) -> (r: Result<Vec<u8>, RepoError>)
        requires
            self.wf(),
        ensures
            match r {
                Ok(d) => {
                    &&& self@.dom().contains(h@)
                    &&& d@ == self@[h@]
                    &&& sha1_of(d@) == h@
                },
                Err(e) => {
                    &&& e == RepoError::IOFailure
                    &&& !self@.dom().contains(h@)
                },
            },
    {
        proof {
            lemma_entries_map(self.entries@);
        }
        let n = self.entries.len();
        for i in 0..n
            invariant
                self.wf(),
                n == self.entries@.len(),
                forall|j: int| 0 <= j < i ==> self.entries@[j].hash@ != h@,
                forall|k: Seq<u8>|
                    self@.dom().contains(k) <==> exists|j: int|
                        0 <= j < self.entries@.len() && #[trigger] self.entries@[j].hash@ == k,
                forall|j: int|
                    0 <= j < self.entries@.len() ==> self@[#[trigger] self.entries@[j].hash@]
                        == self.entries@[j].serial@,
        {
            if self.entries[i].hash.equals(h) {
                match decompress(&self.entries[i].compressed) {
                    Ok(d) => {
                        return Ok(d);
                    },
                    Err(_) => {
                        // The well-formedness of the store rules this out.
                        assert(false);
                        return Err(RepoError::IOFailure);
                    },
                }
            }
        }
        Err(RepoError::IOFailure)
    }

    /// Every stored object as (hash bytes, compressed bytes), for a caller
    /// that persists the store.
    pub fn export(&self) -> (r: Vec<(Vec<u8>, Vec<u8>)>)
        requires
            self.wf(),
        ensures
            r@.len() == self@.dom().len(),
    {
        proof {
            lemma_entries_len(self.entries@);
        }
        let mut r: Vec<(Vec<u8>, Vec<u8>)> = Vec::new();
        let n = self.entries.len();
        let mut i: usize = 0;
        while i < n
            invariant
                n == self.entries@.len(),
                i <= n,
                r@.len() == i,
            decreases n - i,
        {
            let h = self.entries[i].hash.to_vec();
            let c = crate::bytes::bytes_clone(&self.entries[i].compressed);
            r.push((h, c));
            i = i + 1;
        }
        r
    }

    /// How many distinct objects are stored.
    pub fn object_count(&self) -> (n: usize)
        requires
            self.wf(),
        ensures
            n == self@.dom().len(),
    {
        proof {
            lemma_entries_len(self.entries@);
        }
        self.entries.len()
    }
}

proof fn lemma_entries_len(s: Seq<StoreEntry>)
    requires
        forall|i: int, j: int| 0 <= i < j < s.len() ==> s[i].hash@ != s[j].hash@,
    ensures
        entries_map(s).dom().len() == s.len(),
        entries_map(s).dom().finite(),
    decreases s.len(),
{
    if s.len() > 0 {
        lemma_entries_len(s.drop_last());
        lemma_entries_map(s.drop_last());
        assert(!entries_map(s.drop_last()).dom().contains(s.last().hash@)) by {
            if entries_map(s.drop_last()).dom().contains(s.last().hash@) {
                let i = choose|i: int|
                    0 <= i < s.drop_last().len() && #[trigger] s.drop_last()[i].hash@
                        == s.last().hash@;
                assert(s[i].hash@ == s[s.len() - 1].hash@);
            }
        }
    }
}


/// A write never removes or changes what was stored.
/// Under an injective digest, writing puts the serialized bytes at their
/// hash — also where the hash was already taken, since a well-formed
/// store's slot then already holds exactly those bytes.
pub proof fn lemma_store_write_exact(m: Map<Seq<u8>, Seq<u8>>, serial: Seq<u8>)
    requires
        crate::hash::digest_injective(),
        forall|k: Seq<u8>| #[trigger] m.dom().contains(k) ==> sha1_of(m[k]) == k,
    ensures
        store_write(m, serial).dom().contains(sha1_of(serial)),
        store_write(m, serial)[sha1_of(serial)] == serial,
{
    if m.dom().contains(sha1_of(serial)) {
        assert(sha1_of(m[sha1_of(serial)]) == sha1_of(serial));
    }
}

pub proof fn lemma_store_write_submap(m: Map<Seq<u8>, Seq<u8>>, serial: Seq<u8>)
    ensures
        m.submap_of(store_write(m, serial)),
{
    let w = store_write(m, serial);
    assert forall|k: Seq<u8>| #[trigger] m.dom().contains(k) implies w.dom().contains(k) && w[k]
        == m[k] by {
        if !m.dom().contains(sha1_of(serial)) {
            assert(w == m.insert(sha1_of(serial), serial));
            assert(k != sha1_of(serial));
        }
    }
}


/// Nothing stored in `a` is lost or changed in `b`.
pub open spec fn grows(a: Map<Seq<u8>, Seq<u8>>, b: Map<Seq<u8>, Seq<u8>>) -> bool {
    forall|k: Seq<u8>| #[trigger] a.dom().contains(k) ==> b.dom().contains(k) && b[k] == a[k]
}

pub proof fn lemma_submap_grows(a: Map<Seq<u8>, Seq<u8>>, b: Map<Seq<u8>, Seq<u8>>)
    requires
        a.submap_of(b),
    ensures
        grows(a, b),
{
    assert forall|k: Seq<u8>| #[trigger] a.dom().contains(k) implies b.dom().contains(k) && b[k]
        == a[k] by {
        assert(a.dom().contains(k));
    }
}

pub proof fn lemma_grows_submap(a: Map<Seq<u8>, Seq<u8>>, b: Map<Seq<u8>, Seq<u8>>)
    requires
        grows(a, b),
    ensures
        a.submap_of(b),
{
    assert forall|k: Seq<u8>| #[trigger] a.dom().contains(k) implies #[trigger] b.dom().contains(
        k,
    ) && a[k] == b[k] by {}
}

pub proof fn lemma_grows_trans(a: Map<Seq<u8>, Seq<u8>>, b: Map<Seq<u8>, Seq<u8>>, c: Map<Seq<u8>, Seq<u8>>)
    requires
        grows(a, b),
        grows(b, c),
    ensures
        grows(a, c),
{
}

/// A write only grows the store.
pub proof fn lemma_write_grows(m: Map<Seq<u8>, Seq<u8>>, serial: Seq<u8>)
    ensures
        grows(m, store_write(m, serial)),
{
    let w = store_write(m, serial);
    assert forall|k: Seq<u8>| #[trigger] m.dom().contains(k) implies w.dom().contains(k) && w[k]
        == m[k] by {
        if !m.dom().contains(sha1_of(serial)) {
            assert(k != sha1_of(serial));
        }
    }
}

} // verus!
