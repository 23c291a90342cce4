use vstd::prelude::*;

use crate::bytes::dec_digits;
use crate::bytes::find_byte;
use crate::bytes::find_byte_at;
use crate::bytes::bytes_range;
use crate::bytes::lemma_dec_digits_wf;
use crate::bytes::lemma_find_byte_unique;
use crate::bytes::push_all;
use crate::bytes::u64_to_dec;
use crate::errors::RepoError;
use crate::hash::sha1_of;
use crate::store::store_write;
use crate::store::ObjectStore;

verus! {

/// `"blob "`
pub open spec fn spec_blob_tag() -> Seq<u8> {
    seq![98u8, 108, 111, 98, 32]
}

/// The serialized form of a file's contents: the header `"blob <len>\0"`
/// followed by the raw bytes.
pub open spec fn spec_blob_serial(contents: Seq<u8>) -> Seq<u8> {
    spec_blob_tag() + dec_digits(contents.len()) + seq![0u8] + contents
}

/// The content hash of a file's contents.
pub open spec fn spec_blob_hash(contents: Seq<u8>) -> Seq<u8> {
    sha1_of(spec_blob_serial(contents))
}

/// The body of a serialized object: everything after the first NUL, which
/// ends the header. Objects without a NUL have no body.
pub open spec fn spec_object_body(serial: Seq<u8>) -> Option<Seq<u8>> {
    if find_byte(serial, 0) == -1 {
        None
    } else {
        Some(serial.skip(find_byte(serial, 0) + 1))
    }
}

/// Serializing loses nothing: stripping the header of a blob's serialized
/// form gives the file contents back.
pub proof fn lemma_blob_round_trip(contents: Seq<u8>)
    ensures
        spec_object_body(spec_blob_serial(contents)) == Some(contents),
{
    let s = spec_blob_serial(contents);
    let d = dec_digits(contents.len());
    lemma_dec_digits_wf(contents.len());
    let k = 5 + d.len() as int;
    assert(s[k] == 0);
    assert forall|j: int| 0 <= j < k implies #[trigger] s[j] != 0 by {
        if j < 5 {
            assert(s[j] == spec_blob_tag()[j]);
        } else {
            assert(s[j] == d[j - 5]);
            assert(crate::bytes::is_digit(d[j - 5]));
        }
    }
    lemma_find_byte_unique(s, 0, k);
    assert(s.skip(k + 1) =~= contents);
}

/// Equal contents address one object: they serialize and hash alike, and
/// writing them a second time leaves the store exactly as the first write
/// left it.
pub proof fn lemma_content_addressing(m: Map<Seq<u8>, Seq<u8>>, b1: Seq<u8>, b2: Seq<u8>)
    requires
        b1 == b2,
    ensures
        spec_blob_serial(b1) == spec_blob_serial(b2),
        spec_blob_hash(b1) == spec_blob_hash(b2),
        store_write(store_write(m, spec_blob_serial(b1)), spec_blob_serial(b2)) == store_write(
            m,
            spec_blob_serial(b1),
        ),
{
    let s = spec_blob_serial(b1);
    let m1 = store_write(m, s);
    assert(m1.dom().contains(sha1_of(s))) by {
        if !m.dom().contains(sha1_of(s)) {
            assert(m1 == m.insert(sha1_of(s), s));
        }
    }
}

/// Creating a blob and reading it back, in general: under an injective
/// digest, writing puts the serialized bytes at the content hash — the
/// well-formed store's slot already holds them where the hash was taken —
/// and stripping their header recovers exactly the original contents,
/// the empty contents included.
pub proof fn lemma_blob_store_round_trip(m: Map<Seq<u8>, Seq<u8>>, c: Seq<u8>)
    requires
        crate::hash::digest_injective(),
        forall|k: Seq<u8>| #[trigger] m.dom().contains(k) ==> sha1_of(m[k]) == k,
    ensures
        store_write(m, spec_blob_serial(c)).dom().contains(spec_blob_hash(c)),
        store_write(m, spec_blob_serial(c))[spec_blob_hash(c)] == spec_blob_serial(c),
        spec_object_body(store_write(m, spec_blob_serial(c))[spec_blob_hash(c)]) == Some(c),
{
    crate::store::lemma_store_write_exact(m, spec_blob_serial(c));
    lemma_blob_round_trip(c);
}

/// Builds the serialized form of a blob.
pub fn blob_serialize(contents: &Vec<u8>) -> (r: Vec<u8>)
    ensures
        r@ == spec_blob_serial(contents@),
{
    let mut r: Vec<u8> = Vec::new();
    r.push(98);
    r.push(108);
    r.push(111);
    r.push(98);
    r.push(32);
    assert(r@ =~= spec_blob_tag());
    let len = u64_to_dec(contents.len() as u64);
    push_all(&mut r, &len);
    r.push(0);
    push_all(&mut r, contents);
    assert(r@ =~= spec_blob_serial(contents@));
    r
}

/// The stored form of one file's contents, known by its hash alone.
#[derive(Debug, PartialEq, Eq)]
pub struct Blob {
    hash: crate::hash::Hash,
}

impl View for Blob {
    type V = Seq<u8>;

    /// A blob is its content hash.
    closed spec fn view(&self) -> Seq<u8> {
        self.hash@
    }
}

impl Blob {
    /// The hash that `contents` would be stored under, without storing it.
    pub fn hash_for(contents: &Vec<u8>) -> (h: crate::hash::Hash)
        ensures
            h@ == spec_blob_hash(contents@),
            spec_blob_hash(contents@).len() == 20,
    {
        let serial = blob_serialize(contents);
        crate::hash::Hash::of(&serial)
    }

    /// Serializes `contents`, hashes it, and stores the object unless one
    /// with the same hash is already present.
    pub fn create(contents: &Vec<u8>, store: &mut ObjectStore) -> (b: Blob)
        requires
            old(store).wf(),
        ensures
            final(store).wf(),
            b@ == spec_blob_hash(contents@),
            spec_blob_hash(contents@).len() == 20,
            final(store)@ == store_write(old(store)@, spec_blob_serial(contents@)),
    {
        let serial = blob_serialize(contents);
        let hash = store.write_object(&serial);
        proof {
            hash.lemma_len();
        }
        Blob { hash }
    }

    /// A blob's hash view holds exactly 20 bytes.
    pub proof fn lemma_hash_len(&self)
        ensures
            self@.len() == 20,
    {
        self.hash.lemma_len();
    }

    /// A blob handle for an already-stored hash, as a staged entry holds it.
    pub fn of_hash(hash: crate::hash::Hash) -> (b: Blob)
        ensures
            b@ == hash@,
    {
        Blob { hash }
    }

    pub fn hash(&self) -> (h: &crate::hash::Hash)
        ensures
            h@ == self@,
    {
        &self.hash
    }

    /// A blob handle for the object stored at this storage path.
    pub fn load(object_path: &Vec<u8>) -> (r: Result<Blob, RepoError>)
        ensures
            match r {
                Ok(b) => match crate::hash::spec_hash_of_object_path(object_path@) {
                    Some(h) => b@ == h,
                    None => false,
                },
                Err(e) => {
                    &&& e == RepoError::InvalidHash
                    &&& crate::hash::spec_hash_of_object_path(object_path@) is None
                },
            },
    {
        match crate::hash::Hash::from_object_path(object_path) {
            Ok(hash) => Ok(Blob { hash }),
            Err(e) => Err(e),
        }
    }

    /// Reads this blob's file contents back from the store: the stored
    /// bytes with the object header stripped.
    pub fn body(&self, store: &ObjectStore) -> (r: Result<Vec<u8>, RepoError>)
        requires
            store.wf(),
        ensures
            match r {
                Ok(d) => {
                    &&& store@.dom().contains(self@)
                    &&& spec_object_body(store@[self@]) == Some(d@)
                },
                Err(e) => {
                    ||| (e == RepoError::IOFailure && !store@.dom().contains(self@))
                    ||| (e == RepoError::InvalidObjectFormat && store@.dom().contains(self@)
                        && spec_object_body(store@[self@]) is None)
                },
            },
    {
        let serial = match store.read_object(&self.hash) {
            Ok(d) => d,
            Err(e) => {
                return Err(e);
            },
        };
        let sl = serial.len();
        match find_byte_at(&serial, 0) {
            Some(pos) => {
                proof {
                    crate::bytes::lemma_find_byte(serial@, 0);
                    assert(pos < sl);
                }
                let body = bytes_range(&serial, pos + 1, sl);
                assert(body@ =~= serial@.skip(find_byte(serial@, 0) + 1));
                Ok(body)
            },
            None => Err(RepoError::InvalidObjectFormat),
        }
    }
}

} // verus!
