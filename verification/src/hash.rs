use vstd::prelude::*;

use crate::bytes::split_at_seps;
use crate::bytes::split_bytes;
use crate::errors::RepoError;
use crate::paths::spec_objects_path;
use crate::paths::objects_path;

verus! {

/// What the SHA-1 digest of a byte string is. The digest is a function of
/// the input bytes alone; its 20 bytes are not spelled out here.
pub uninterp spec fn sha1_of(data: Seq<u8>) -> Seq<u8>;

/// No two byte strings share a digest: content addressing as the engine
/// assumes it. A byte-level model can neither prove nor refute this of
/// the digest, so a contract that needs a written slot to hold exactly
/// what was written carries it as a premise.
pub open spec fn digest_injective() -> bool {
    forall|x: Seq<u8>, y: Seq<u8>|
        #![trigger sha1_of(x), sha1_of(y)]
        sha1_of(x) == sha1_of(y) ==> x == y
}

/// Relies on sha1::Sha1 (the RustCrypto implementation): a pure, 20-byte
/// digest of the input bytes.
#[verifier::external_body]
fn sha1_digest(data: &Vec<u8>) -> (r: [u8; 20])
    ensures
        r@ == sha1_of(data@),
{
    let digest = <sha1::Sha1 as sha1::Digest>::digest(data.as_slice());
    digest.into()
}

// ----------------------------------------------------------------------------
// Hex encoding
// ----------------------------------------------------------------------------

/// The lower-case hex digit of a value below 16.
pub open spec fn hex_digit(n: u8) -> u8 {
    if n < 10 {
        (48 + n) as u8
    } else {
        (87 + n) as u8
    }
}

/// The lower-case hex encoding of a byte string: two digits per byte.
pub open spec fn hex_of(s: Seq<u8>) -> Seq<u8> {
    Seq::new(
        2 * s.len(),
        |i: int| if i % 2 == 0 {
            hex_digit(s[i / 2] / 16)
        } else {
            hex_digit((s[i / 2] % 16) as u8)
        },
    )
}

pub open spec fn is_hex_digit(c: u8) -> bool {
    (48 <= c <= 57) || (97 <= c <= 102) || (65 <= c <= 70)
}

pub open spec fn hex_digits_ok(s: Seq<u8>) -> bool {
    forall|i: int| 0 <= i < s.len() ==> is_hex_digit(#[trigger] s[i])
}

/// The value of one hex digit; digits of both cases are accepted.
pub open spec fn hex_val(c: u8) -> u8 {
    if 48 <= c <= 57 {
        (c - 48) as u8
    } else if 97 <= c <= 102 {
        (c - 87) as u8
    } else if 65 <= c <= 70 {
        (c - 55) as u8
    } else {
        0
    }
}

/// The byte string a hex string of even length denotes.
pub open spec fn hex_val_of(s: Seq<u8>) -> Seq<u8> {
    Seq::new(s.len() / 2, |i: int| (hex_val(s[2 * i]) * 16 + hex_val(s[2 * i + 1])) as u8)
}

/// Hex encoding loses nothing: decoding the digits gives the bytes back.
pub proof fn lemma_hex_round_trip(s: Seq<u8>)
    ensures
        hex_of(s).len() == 2 * s.len(),
        hex_digits_ok(hex_of(s)),
        hex_val_of(hex_of(s)) == s,
{
    let h = hex_of(s);
    assert forall|i: int| 0 <= i < h.len() implies is_hex_digit(#[trigger] h[i]) by {
        if i % 2 == 0 {
            assert(h[i] == hex_digit(s[i / 2] / 16));
        } else {
            assert(h[i] == hex_digit((s[i / 2] % 16) as u8));
        }
    }
    assert forall|i: int| 0 <= i < s.len() implies hex_val_of(h)[i] == s[i] by {
        assert(h[2 * i] == hex_digit(s[i] / 16));
        assert(h[2 * i + 1] == hex_digit((s[i] % 16) as u8));
        assert(hex_val(hex_digit(s[i] / 16)) == s[i] / 16);
        assert(hex_val(hex_digit((s[i] % 16) as u8)) == s[i] % 16);
        assert(s[i] / 16 * 16 + s[i] % 16 == s[i]);
    }
    assert(hex_val_of(h) =~= s);
}

/// Encodes bytes as lower-case hex.
pub fn hex_encode(data: &Vec<u8>) -> (r: Vec<u8>)
    requires
        data@.len() <= usize::MAX / 2,
    ensures
        r@ == hex_of(data@),
{
    let mut r: Vec<u8> = Vec::new();
    let n = data.len();
    for i in 0..n
        invariant
            n == data@.len() <= usize::MAX / 2,
            r@.len() == 2 * i,
            forall|j: int| 0 <= j < r@.len() ==> r@[j] == hex_of(data@)[j],
    {
        let b = data[i];
        let hi = b / 16;
        let lo = b % 16;
        let hi_c = if hi < 10 {
            48 + hi
        } else {
            87 + hi
        };
        let lo_c = if lo < 10 {
            48 + lo
        } else {
            87 + lo
        };
        r.push(hi_c);
        r.push(lo_c);
        assert(r@[2 * i as int] == hex_of(data@)[2 * i as int]);
        assert(r@[2 * i as int + 1] == hex_of(data@)[2 * i as int + 1]);
    }
    assert(r@ =~= hex_of(data@));
    r
}

fn hex_digit_value(c: u8) -> (r: Option<u8>)
    ensures
        match r {
            Some(v) => is_hex_digit(c) && v == hex_val(c),
            None => !is_hex_digit(c),
        },
{
    if 48 <= c && c <= 57 {
        Some(c - 48)
    } else if 97 <= c && c <= 102 {
        Some(c - 87)
    } else if 65 <= c && c <= 70 {
        Some(c - 55)
    } else {
        None
    }
}

// ----------------------------------------------------------------------------
// The Hash type
// ----------------------------------------------------------------------------

/// A 20-byte content digest. Identical serialized bytes always carry the
/// same `Hash`, which also fixes where the object is stored.
#[derive(Debug, Clone, Copy, PartialEq, Eq, Hash)]
pub struct Hash {
    bytes: [u8; 20],
}

impl View for Hash {
    type V = Seq<u8>;

    closed spec fn view(&self) -> Seq<u8> {
        self.bytes@
    }
}

impl Hash {
    pub fn new(bytes: [u8; 20]) -> (h: Hash)
        ensures
            h@ == bytes@,
    {
        Hash { bytes }
    }

    pub fn as_bytes(&self) -> (r: &[u8; 20])
        ensures
            r@ == self@,
    {
        &self.bytes
    }

    /// A hash always holds exactly 20 bytes.
    pub proof fn lemma_len(&self)
        ensures
            self@.len() == 20,
    {
    }

    /// The content digest of `data`.
    pub fn of(data: &Vec<u8>) -> (h: Hash)
        ensures
            h@ == sha1_of(data@),
            h@.len() == 20,
    {
        Hash { bytes: sha1_digest(data) }
    }

    /// Whether two hashes hold the same bytes.
    pub fn equals(&self, other: &Hash) -> (r: bool)
        ensures
            r == (self@ == other@),
    {
        for i in 0..20usize
            invariant
                forall|j: int| 0 <= j < i ==> self@[j] == other@[j],
        {
            if self.bytes[i] != other.bytes[i] {
                return false;
            }
        }
        assert(self@ =~= other@);
        true
    }

    /// A hash from its 20 raw bytes.
    pub fn from_bytes(v: &Vec<u8>) -> (r: Option<Hash>)
        ensures
            match r {
                Some(h) => v@.len() == 20 && h@ == v@,
                None => v@.len() != 20,
            },
    {
        if v.len() != 20 {
            return None;
        }
        let mut bytes: [u8; 20] = [0; 20];
        for i in 0..20usize
            invariant
                v@.len() == 20,
                forall|j: int| 0 <= j < i ==> bytes@[j] == v@[j],
        {
            bytes[i] = v[i];
        }
        proof {
            assert(bytes@ =~= v@);
        }
        Some(Hash { bytes })
    }

    /// The hash bytes as a fresh vector.
    pub fn to_vec(&self) -> (r: Vec<u8>)
        ensures
            r@ == self@,
            r@.len() == 20,
    {
        let mut v: Vec<u8> = Vec::new();
        for i in 0..20usize
            invariant
                v@.len() == i,
                forall|j: int| 0 <= j < i ==> v@[j] == self@[j],
        {
            v.push(self.bytes[i]);
        }
        assert(v@ =~= self@);
        v
    }

    /// The 40 lower-case hex digits of the hash.
    pub fn to_hex(&self) -> (r: Vec<u8>)
        ensures
            r@ == hex_of(self@),
            r@.len() == 40,
    {
        let mut v: Vec<u8> = Vec::new();
        for i in 0..20usize
            invariant
                v@.len() == i,
                forall|j: int| 0 <= j < i ==> v@[j] == self@[j],
        {
            v.push(self.bytes[i]);
        }
        assert(v@ =~= self@);
        hex_encode(&v)
    }

    /// Parses 40 hex digits into a hash; anything else is `InvalidHash`.
    pub fn from_hex(hex: &Vec<u8>) -> (r: Result<Hash, RepoError>)
        ensures
            match r {
                Ok(h) => {
                    &&& hex@.len() == 40
                    &&& hex_digits_ok(hex@)
                    &&& h@ == hex_val_of(hex@)
                },
                Err(e) => {
                    &&& e == RepoError::InvalidHash
                    &&& !(hex@.len() == 40 && hex_digits_ok(hex@))
                },
            },
    {
        if hex.len() != 40 {
            return Err(RepoError::InvalidHash);
        }
        let mut bytes: [u8; 20] = [0; 20];
        for i in 0..20usize
            invariant
                hex@.len() == 40,
                forall|j: int| 0 <= j < 2 * i ==> is_hex_digit(#[trigger] hex@[j]),
                forall|j: int| 0 <= j < i ==> bytes@[j] == hex_val_of(hex@)[j],
        {
            let hi = match hex_digit_value(hex[2 * i]) {
                Some(v) => v,
                None => {
                    return Err(RepoError::InvalidHash);
                },
            };
            let lo = match hex_digit_value(hex[2 * i + 1]) {
                Some(v) => v,
                None => {
                    return Err(RepoError::InvalidHash);
                },
            };
            bytes[i] = hi * 16 + lo;
            assert(bytes@[i as int] == hex_val_of(hex@)[i as int]);
            assert forall|j: int| 0 <= j < 2 * (i + 1) implies is_hex_digit(
                #[trigger] hex@[j],
            ) by {
                if j == 2 * i {
                } else if j == 2 * i + 1 {
                }
            }
        }
        assert(bytes@ =~= hex_val_of(hex@));
        Ok(Hash { bytes })
    }

    /// The storage path of the object with this hash: a two-hex-digit
    /// subdirectory of the object store, then the remaining 38 digits.
    pub fn object_path(&self) -> (r: Vec<u8>)
        ensures
            r@ == spec_object_path(self@),
    {
        let hex = self.to_hex();
        let mut r = objects_path();
        r.push(47);
        r.push(hex[0]);
        r.push(hex[1]);
        r.push(47);
        for i in 2..40usize
            invariant
                hex@ == hex_of(self@),
                hex@.len() == 40,
                r@ == spec_objects_path() + seq![47u8, hex@[0], hex@[1], 47u8] + hex@.subrange(
                    2,
                    i as int,
                ),
        {
            r.push(hex[i]);
            assert(r@ =~= spec_objects_path() + seq![47u8, hex@[0], hex@[1], 47u8]
                + hex@.subrange(2, i + 1));
        }
        assert(r@ =~= spec_object_path(self@));
        r
    }

    /// Reads a hash back from an object storage path: the last path
    /// component appended to the one before it must form 40 hex digits.
    pub fn from_object_path(object_path: &Vec<u8>) -> (r: Result<Hash, RepoError>)
        ensures
            match r {
                Ok(h) => spec_hash_of_object_path(object_path@) == Some(h@),
                Err(e) => {
                    &&& e == RepoError::InvalidHash
                    &&& spec_hash_of_object_path(object_path@) is None
                },
            },
    {
        let parts = split_bytes(object_path, 47);
        if parts.len() < 2 {
            return Err(RepoError::InvalidHash);
        }
        let mut hex = crate::bytes::bytes_clone(&parts[parts.len() - 2]);
        crate::bytes::push_all(&mut hex, &parts[parts.len() - 1]);
        proof {
            let sparts = split_at_seps(object_path@, 47);
            assert(crate::bytes::views(parts@)[parts@.len() - 2] == sparts[sparts.len() - 2]);
            assert(crate::bytes::views(parts@)[parts@.len() - 1] == sparts[sparts.len() - 1]);
        }
        Hash::from_hex(&hex)
    }
}

/// The hash bytes a storage path denotes: its last path component appended
/// to the one before it must form 40 hex digits.
pub open spec fn spec_hash_of_object_path(p: Seq<u8>) -> Option<Seq<u8>> {
    let parts = split_at_seps(p, 47);
    if parts.len() >= 2 {
        let hex = parts[parts.len() - 2] + parts[parts.len() - 1];
        if hex.len() == 40 && hex_digits_ok(hex) {
            Some(hex_val_of(hex))
        } else {
            None
        }
    } else {
        None
    }
}

/// The storage path of an object: `<objects>/<first two hex digits>/<other
/// 38 hex digits>`.
pub open spec fn spec_object_path(h: Seq<u8>) -> Seq<u8> {
    spec_objects_path() + seq![47u8, hex_of(h)[0], hex_of(h)[1], 47u8] + hex_of(h).subrange(
        2,
        hex_of(h).len() as int,
    )
}

} // verus!
