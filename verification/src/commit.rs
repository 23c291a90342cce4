use vstd::prelude::*;

use crate::bytes::bytes_range;
use crate::bytes::dec_digits;
use crate::bytes::find_byte;
use crate::bytes::find_byte_at;
use crate::bytes::is_prefix;
use crate::bytes::join_sep;
use crate::bytes::lemma_join_sep_push;
use crate::bytes::push_all;
use crate::bytes::split_at_seps;
use crate::bytes::split_bytes;
use crate::bytes::u64_to_dec;
use crate::bytes::views;
use crate::errors::RepoError;
use crate::hash::hex_of;
use crate::hash::hex_digits_ok;
use crate::hash::hex_val_of;
use crate::hash::sha1_of;
use crate::signature::spec_parse_signature;
use crate::signature::spec_role;
use crate::signature::spec_signature_line;
use crate::signature::Signature;
use crate::signature::SignatureKind;
use crate::store::ObjectStore;

verus! {

/// `"commit "`
pub open spec fn spec_commit_tag() -> Seq<u8> {
    seq![99u8, 111, 109, 109, 105, 116, 32]
}

/// `"tree "`
pub open spec fn spec_tree_line_tag() -> Seq<u8> {
    seq![116u8, 114, 101, 101, 32]
}

/// `"parent "`
pub open spec fn spec_parent_line_tag() -> Seq<u8> {
    seq![112u8, 97, 114, 101, 110, 116, 32]
}

/// The lines of a commit's body: the tree, each parent, the author, the
/// committer, a blank line, then the message.
pub open spec fn spec_commit_lines(
    tree_h: Seq<u8>,
    parents: Seq<Seq<u8>>,
    author: (Seq<u8>, Seq<u8>, int, int),
    committer: (Seq<u8>, Seq<u8>, int, int),
    message: Seq<u8>,
) -> Seq<Seq<u8>> {
    seq![spec_tree_line_tag() + hex_of(tree_h)] + parents.map_values(
        |p: Seq<u8>| spec_parent_line_tag() + hex_of(p),
    ) + seq![
        spec_signature_line(
            spec_role(SignatureKind::Author),
            author.0,
            author.1,
            author.2,
            author.3,
        ),
        spec_signature_line(
            spec_role(SignatureKind::Committer),
            committer.0,
            committer.1,
            committer.2,
            committer.3,
        ),
        Seq::<u8>::empty(),
        message,
    ]
}

/// The serialized form of a commit: `"commit <body-length>\0"` then the
/// newline-joined body lines.
/// The outcome of walking history from the commit stored under `h` with
/// `fuel` steps to spend: each visited hash must hold a parseable commit,
/// and the walk follows first parents until a commit without one.
pub open spec fn spec_history_outcome(store: Map<Seq<u8>, Seq<u8>>, h: Seq<u8>, fuel: nat) -> Result<
    (),
    RepoError,
>
    decreases fuel,
{
    if !store.dom().contains(h) {
        Err(RepoError::IOFailure)
    } else {
        match spec_parse_commit(store[h]) {
            None => Err(RepoError::InvalidObjectFormat),
            Some(pc) => if pc.1.len() == 0 {
                Ok(())
            } else if fuel == 0 {
                Err(RepoError::InvalidObjectFormat)
            } else {
                spec_history_outcome(store, pc.1[0], (fuel - 1) as nat)
            },
        }
    }
}

pub open spec fn spec_commit_serial(
    tree_h: Seq<u8>,
    parents: Seq<Seq<u8>>,
    author: (Seq<u8>, Seq<u8>, int, int),
    committer: (Seq<u8>, Seq<u8>, int, int),
    message: Seq<u8>,
) -> Seq<u8> {
    let body = join_sep(spec_commit_lines(tree_h, parents, author, committer, message), 10);
    spec_commit_tag() + dec_digits(body.len()) + seq![0u8] + body
}

/// A snapshot in history: a tree, its parents, who made and recorded it,
/// and the message, all hashed over the serialized form.
pub struct Commit {
    message: Vec<u8>,
    tree_hash: crate::hash::Hash,
    hash: crate::hash::Hash,
    parent_hashes: Vec<crate::hash::Hash>,
    author: Signature,
    committer: Signature,
}

pub open spec fn hash_views(s: Seq<crate::hash::Hash>) -> Seq<Seq<u8>> {
    s.map_values(|h: crate::hash::Hash| h@)
}

impl Commit {
    pub closed spec fn message_view(&self) -> Seq<u8> {
        self.message@
    }

    pub closed spec fn tree_hash_view(&self) -> Seq<u8> {
        self.tree_hash@
    }

    pub closed spec fn hash_view(&self) -> Seq<u8> {
        self.hash@
    }

    pub closed spec fn parents_view(&self) -> Seq<Seq<u8>> {
        hash_views(self.parent_hashes@)
    }

    pub closed spec fn author_view(&self) -> (Seq<u8>, Seq<u8>, int, int) {
        self.author@
    }

    pub closed spec fn committer_view(&self) -> (Seq<u8>, Seq<u8>, int, int) {
        self.committer@
    }

    /// What this commit serializes to.
    pub open spec fn serial(&self) -> Seq<u8> {
        spec_commit_serial(
            self.tree_hash_view(),
            self.parents_view(),
            self.author_view(),
            self.committer_view(),
            self.message_view(),
        )
    }

    pub fn hash(&self) -> (h: &crate::hash::Hash)
        ensures
            h@ == self.hash_view(),
    {
        &self.hash
    }

    pub fn author(&self) -> (r: &Signature)
        ensures
            r@ == self.author_view(),
    {
        &self.author
    }

    pub fn committer(&self) -> (r: &Signature)
        ensures
            r@ == self.committer_view(),
    {
        &self.committer
    }

    pub fn message(&self) -> (r: &Vec<u8>)
        ensures
            r@ == self.message_view(),
    {
        &self.message
    }

    pub fn tree_hash(&self) -> (r: &crate::hash::Hash)
        ensures
            r@ == self.tree_hash_view(),
    {
        &self.tree_hash
    }

    pub fn parent_count(&self) -> (n: usize)
        ensures
            n == self.parents_view().len(),
    {
        self.parent_hashes.len()
    }

    pub fn parent_hash(&self, i: usize) -> (r: &crate::hash::Hash)
        requires
            i < self.parents_view().len(),
        ensures
            r@ == self.parents_view()[i as int],
    {
        &self.parent_hashes[i]
    }

    /// Writes the commit in its serialized form.
    pub fn serialize(&self) -> (r: Vec<u8>)
        requires
            -86400 < self.author_view().3 < 86400,
            -86400 < self.committer_view().3 < 86400,
        ensures
            r@ == self.serial(),
    {
        commit_serialize(
            &self.tree_hash,
            &self.parent_hashes,
            &self.author,
            &self.committer,
            &self.message,
        )
    }
}

/// Builds the serialized form of a commit.
fn commit_serialize(
    tree_hash: &crate::hash::Hash,
    parents: &Vec<crate::hash::Hash>,
    author: &Signature,
    committer: &Signature,
    message: &Vec<u8>,
) -> (r: Vec<u8>)
    requires
        -86400 < author@.3 < 86400,
        -86400 < committer@.3 < 86400,
    ensures
        r@ == spec_commit_serial(tree_hash@, hash_views(parents@), author@, committer@, message@),
{
    let ghost lines = spec_commit_lines(
        tree_hash@,
        hash_views(parents@),
        author@,
        committer@,
        message@,
    );
    let mut body: Vec<u8> = Vec::new();
    body.push(116);
    body.push(114);
    body.push(101);
    body.push(101);
    body.push(32);
    let hex = tree_hash.to_hex();
    push_all(&mut body, &hex);
    proof {
        assert(body@ =~= lines[0]);
        assert(lines.subrange(0, 1) =~= seq![lines[0]]);
        assert(join_sep(lines.subrange(0, 1), 10) == body@);
    }
    let np = parents.len();
    let mut i: usize = 0;
    while i < np
        invariant
            np == parents@.len(),
            i <= np,
            lines == spec_commit_lines(
                tree_hash@,
                hash_views(parents@),
                author@,
                committer@,
                message@,
            ),
            lines.len() == np + 5,
            body@ == join_sep(lines.subrange(0, i as int + 1), 10),
        decreases np - i,
    {
        body.push(10);
        body.push(112);
        body.push(97);
        body.push(114);
        body.push(101);
        body.push(110);
        body.push(116);
        body.push(32);
        let hex = parents[i].to_hex();
        push_all(&mut body, &hex);
        proof {
            lemma_join_sep_push(lines.subrange(0, i as int + 1), lines[i as int + 1], 10);
            assert(lines[i as int + 1] == spec_parent_line_tag() + hex_of(
                hash_views(parents@)[i as int],
            ));
            assert(lines.subrange(0, i as int + 2) =~= lines.subrange(0, i as int + 1).push(
                lines[i as int + 1],
            ));
            assert(body@ =~= join_sep(lines.subrange(0, i as int + 1), 10) + seq![10u8] + (
            spec_parent_line_tag() + hex_of(hash_views(parents@)[i as int])));
        }
        i = i + 1;
    }
    let a_line = author.serialize_as(SignatureKind::Author);
    body.push(10);
    push_all(&mut body, &a_line);
    proof {
        lemma_join_sep_push(lines.subrange(0, np as int + 1), lines[np as int + 1], 10);
        assert(lines.subrange(0, np as int + 2) =~= lines.subrange(0, np as int + 1).push(
            lines[np as int + 1],
        ));
        assert(body@ =~= join_sep(lines.subrange(0, np as int + 1), 10) + seq![10u8]
            + lines[np as int + 1]);
    }
    let c_line = committer.serialize_as(SignatureKind::Committer);
    body.push(10);
    push_all(&mut body, &c_line);
    proof {
        lemma_join_sep_push(lines.subrange(0, np as int + 2), lines[np as int + 2], 10);
        assert(lines.subrange(0, np as int + 3) =~= lines.subrange(0, np as int + 2).push(
            lines[np as int + 2],
        ));
        assert(body@ =~= join_sep(lines.subrange(0, np as int + 2), 10) + seq![10u8]
            + lines[np as int + 2]);
    }
    body.push(10);
    proof {
        lemma_join_sep_push(lines.subrange(0, np as int + 3), lines[np as int + 3], 10);
        assert(lines.subrange(0, np as int + 4) =~= lines.subrange(0, np as int + 3).push(
            lines[np as int + 3],
        ));
        assert(lines[np as int + 3] =~= Seq::<u8>::empty());
        assert(body@ =~= join_sep(lines.subrange(0, np as int + 3), 10) + seq![10u8]
            + lines[np as int + 3]);
    }
    body.push(10);
    push_all(&mut body, message);
    proof {
        lemma_join_sep_push(lines.subrange(0, np as int + 4), lines[np as int + 4], 10);
        assert(lines.subrange(0, np as int + 5) =~= lines.subrange(0, np as int + 4).push(
            lines[np as int + 4],
        ));
        assert(body@ =~= join_sep(lines.subrange(0, np as int + 4), 10) + seq![10u8]
            + lines[np as int + 4]);
        assert(lines.subrange(0, np as int + 5) =~= lines);
    }
    let mut r: Vec<u8> = Vec::new();
    r.push(99);
    r.push(111);
    r.push(109);
    r.push(109);
    r.push(105);
    r.push(116);
    r.push(32);
    assert(r@ =~= spec_commit_tag());
    let len = u64_to_dec(body.len() as u64);
    push_all(&mut r, &len);
    r.push(0);
    push_all(&mut r, &body);
    proof {
        assert(r@ =~= spec_commit_serial(
            tree_hash@,
            hash_views(parents@),
            author@,
            committer@,
            message@,
        ));
    }
    r
}


// ----------------------------------------------------------------------------
// Parsing a commit
// ----------------------------------------------------------------------------

/// The index of the first body line that is not a parent line, scanning
/// from `i`.
pub open spec fn parent_end(lines: Seq<Seq<u8>>, i: int) -> int
    decreases lines.len() - i,
{
    if i < 0 || i >= lines.len() {
        i
    } else if is_prefix(spec_parent_line_tag(), lines[i]) {
        parent_end(lines, i + 1)
    } else {
        i
    }
}

/// A line `"tree <40 hex digits>"` or `"parent <40 hex digits>"` denotes
/// the hash its digits spell.
pub open spec fn spec_parse_hash_line(line: Seq<u8>, tag: Seq<u8>) -> Option<Seq<u8>> {
    if !is_prefix(tag, line) {
        None
    } else {
        let hex = line.skip(tag.len() as int);
        if hex.len() == 40 && hex_digits_ok(hex) {
            Some(hex_val_of(hex))
        } else {
            None
        }
    }
}

/// The parent hashes the lines `[1, pe)` denote, if each parses.
pub open spec fn spec_parse_parents(lines: Seq<Seq<u8>>, i: int, pe: int) -> Option<Seq<Seq<u8>>>
    decreases pe - i,
{
    if i >= pe {
        Some(Seq::empty())
    } else {
        match spec_parse_hash_line(lines[i], spec_parent_line_tag()) {
            None => None,
            Some(h) => match spec_parse_parents(lines, i + 1, pe) {
                None => None,
                Some(rest) => Some(seq![h] + rest),
            },
        }
    }
}

/// What serialized commit bytes denote: the tree hash, the parent hashes,
/// both signatures, and the message. The header's length digits are not
/// checked, as the stored form is trusted to its own digest.
pub open spec fn spec_parse_commit(data: Seq<u8>) -> Option<
    (Seq<u8>, Seq<Seq<u8>>, (Seq<u8>, Seq<u8>, int, int), (Seq<u8>, Seq<u8>, int, int), Seq<u8>),
> {
    let z = find_byte(data, 0);
    if z == -1 {
        None
    } else if !(z >= 7 && data.subrange(0, z) == spec_commit_tag() + dec_digits(
        (data.len() - z - 1) as nat,
    )) {
        None
    } else {
        let body = data.skip(z + 1);
        let lines = split_at_seps(body, 10);
        match spec_parse_hash_line(lines[0], spec_tree_line_tag()) {
            None => None,
            Some(tree_h) => {
                let pe = parent_end(lines, 1);
                if pe + 3 > lines.len() {
                    None
                } else {
                    match spec_parse_parents(lines, 1, pe) {
                        None => None,
                        Some(parents) => match spec_parse_signature(lines[pe]) {
                            None => None,
                            Some(author) => match spec_parse_signature(lines[pe + 1]) {
                                None => None,
                                Some(committer) => Some(
                                    (
                                        tree_h,
                                        parents,
                                        author,
                                        committer,
                                        join_sep(lines.skip(pe + 3), 10),
                                    ),
                                ),
                            },
                        },
                    }
                }
            },
        }
    }
}

/// Reads one `"<tag><40 hex>"` line back into a hash.
fn parse_hash_line(line: &Vec<u8>, tag: &Vec<u8>) -> (r: Option<crate::hash::Hash>)
    ensures
        match r {
            Some(h) => spec_parse_hash_line(line@, tag@) == Some(h@),
            None => spec_parse_hash_line(line@, tag@) is None,
        },
{
    if !crate::bytes::bytes_has_prefix(line, tag) {
        return None;
    }
    let hex = bytes_range(line, tag.len(), line.len());
    assert(hex@ =~= line@.skip(tag@.len() as int));
    match crate::hash::Hash::from_hex(&hex) {
        Ok(h) => Some(h),
        Err(_) => None,
    }
}

impl Commit {
    /// Reads serialized commit bytes back into a commit, hashed over
    /// exactly the bytes given.
    pub fn deserialize(data: &Vec<u8>) -> (r: Result<Commit, RepoError>)
        ensures
            match r {
                Ok(c) => {
                    &&& spec_parse_commit(data@) == Some(
                        (
                            c.tree_hash_view(),
                            c.parents_view(),
                            c.author_view(),
                            c.committer_view(),
                            c.message_view(),
                        ),
                    )
                    &&& c.hash_view() == sha1_of(data@)
                    &&& crate::signature::sig_offset_wf(c.author_view().3)
                    &&& crate::signature::sig_offset_wf(c.committer_view().3)
                },
                Err(e) => {
                    &&& e == RepoError::InvalidObjectFormat
                    &&& spec_parse_commit(data@) is None
                },
            },
    {
        let z = match find_byte_at(data, 0) {
            Some(z) => z,
            None => {
                return Err(RepoError::InvalidObjectFormat);
            },
        };
        proof {
            crate::bytes::lemma_find_byte(data@, 0);
        }
        let mut tag: Vec<u8> = Vec::new();
        tag.push(99);
        tag.push(111);
        tag.push(109);
        tag.push(109);
        tag.push(105);
        tag.push(116);
        tag.push(32);
        assert(tag@ =~= spec_commit_tag());
        if z < 7 {
            return Err(RepoError::InvalidObjectFormat);
        }
        let dl = data.len();
        proof {
            assert(z < dl);
        }
        // The header must read exactly "commit <body-length>\0".
        let lend = crate::bytes::u64_to_dec((dl - (z + 1)) as u64);
        crate::bytes::push_all(&mut tag, &lend);
        proof {
            assert(tag@ =~= spec_commit_tag() + crate::bytes::dec_digits((dl - (z + 1)) as nat));
        }
        let header = bytes_range(data, 0, z);
        if !crate::bytes::bytes_eq(&header, &tag) {
            return Err(RepoError::InvalidObjectFormat);
        }
        let body = bytes_range(data, z + 1, dl);
        assert(body@ =~= data@.skip(z + 1));
        let lines = split_bytes(&body, 10);
        let ghost lv = views(lines@);
        // The tree line.
        let mut tree_tag: Vec<u8> = Vec::new();
        tree_tag.push(116);
        tree_tag.push(114);
        tree_tag.push(101);
        tree_tag.push(101);
        tree_tag.push(32);
        assert(tree_tag@ =~= spec_tree_line_tag());
        let tree_hash = match parse_hash_line(&lines[0], &tree_tag) {
            Some(h) => h,
            None => {
                return Err(RepoError::InvalidObjectFormat);
            },
        };
        // The parent lines.
        let mut parent_tag: Vec<u8> = Vec::new();
        parent_tag.push(112);
        parent_tag.push(97);
        parent_tag.push(114);
        parent_tag.push(101);
        parent_tag.push(110);
        parent_tag.push(116);
        parent_tag.push(32);
        assert(parent_tag@ =~= spec_parent_line_tag());
        let nl = lines.len();
        let mut pe: usize = 1;
        loop
            invariant
                1 <= pe <= nl,
                nl == lv.len(),
                lv == views(lines@),
                parent_tag@ == spec_parent_line_tag(),
                parent_end(lv, 1) == parent_end(lv, pe as int),
            ensures
                1 <= pe <= nl,
                lv == views(lines@),
                parent_end(lv, 1) == pe,
            decreases nl - pe,
        {
            if pe >= nl {
                break;
            }
            if !crate::bytes::bytes_has_prefix(&lines[pe], &parent_tag) {
                proof {
                    assert(lv[pe as int] == lines@[pe as int]@);
                    assert(parent_end(lv, pe as int) == pe as int);
                }
                break;
            }
            proof {
                assert(lv[pe as int] == lines@[pe as int]@);
                assert(parent_end(lv, pe as int) == parent_end(lv, pe as int + 1));
            }
            pe = pe + 1;
        }
        let mut parent_hashes: Vec<crate::hash::Hash> = Vec::new();
        let mut i: usize = 1;
        while i < pe
            invariant
                1 <= i <= pe <= nl,
                nl == lv.len(),
                lv == views(lines@),
                parent_tag@ == spec_parent_line_tag(),
                parent_end(lv, 1) == pe,
                find_byte(data@, 0) == z as int,
                z >= 7,
                data@.subrange(0, 7) == spec_commit_tag(),
                body@ == data@.skip(z as int + 1),
                lv == split_at_seps(body@, 10),
                spec_parse_hash_line(lv[0], spec_tree_line_tag()) == Some(tree_hash@),
                spec_parse_parents(lv, 1, pe as int) == (match spec_parse_parents(
                    lv,
                    i as int,
                    pe as int,
                ) {
                    None => None::<Seq<Seq<u8>>>,
                    Some(rest) => Some(hash_views(parent_hashes@) + rest),
                }),
            decreases pe - i,
        {
            proof {
                assert(lv[i as int] == lines@[i as int]@);
            }
            let h = match parse_hash_line(&lines[i], &parent_tag) {
                Some(h) => h,
                None => {
                    return Err(RepoError::InvalidObjectFormat);
                },
            };
            let ghost old_ph = hash_views(parent_hashes@);
            parent_hashes.push(h);
            proof {
                assert(hash_views(parent_hashes@) =~= old_ph.push(h@));
                let tailp = spec_parse_parents(lv, i as int + 1, pe as int);
                assert(spec_parse_parents(lv, i as int, pe as int) == (match tailp {
                    None => None::<Seq<Seq<u8>>>,
                    Some(rest) => Some(seq![h@] + rest),
                }));
                match tailp {
                    None => {},
                    Some(rest) => {
                        assert(old_ph + (seq![h@] + rest) =~= hash_views(parent_hashes@) + rest);
                    },
                }
            }
            i = i + 1;
        }
        proof {
            assert(spec_parse_parents(lv, pe as int, pe as int) == Some(Seq::<Seq<u8>>::empty()));
            assert(hash_views(parent_hashes@) + Seq::<Seq<u8>>::empty() =~= hash_views(
                parent_hashes@,
            ));
        }
        if nl - pe < 3 {
            return Err(RepoError::InvalidObjectFormat);
        }
        proof {
            assert(lv[pe as int] == lines@[pe as int]@);
            assert(lv[pe as int + 1] == lines@[pe as int + 1]@);
        }
        let author = match Signature::deserialize(&lines[pe]) {
            Ok(a) => a,
            Err(_) => {
                return Err(RepoError::InvalidObjectFormat);
            },
        };
        let committer = match Signature::deserialize(&lines[pe + 1]) {
            Ok(c) => c,
            Err(_) => {
                return Err(RepoError::InvalidObjectFormat);
            },
        };
        // One line is skipped, then the message is the rest re-joined.
        let mut message: Vec<u8> = Vec::new();
        let mut k = pe + 3;
        proof {
            assert(join_sep(lv.skip(pe as int + 3).subrange(0, 0), 10) =~= Seq::<u8>::empty());
        }
        while k < nl
            invariant
                pe + 3 <= k <= nl || (k == pe + 3 && nl <= pe + 3),
                nl == lv.len(),
                lv == views(lines@),
                pe + 3 <= nl ==> message@ == join_sep(
                    lv.skip(pe as int + 3).subrange(0, k - pe - 3),
                    10,
                ),
            decreases nl - k,
        {
            proof {
                assert(lv[k as int] == lines@[k as int]@);
                assert(lv.skip(pe as int + 3)[k - pe - 3] == lv[k as int]);
            }
            if k > pe + 3 {
                message.push(10);
                crate::bytes::push_all(&mut message, &lines[k]);
            } else {
                crate::bytes::push_all(&mut message, &lines[k]);
            }
            proof {
                let tailseq = lv.skip(pe as int + 3);
                lemma_join_sep_push(tailseq.subrange(0, k - pe - 3), tailseq[k - pe - 3], 10);
                assert(tailseq.subrange(0, k - pe - 2) =~= tailseq.subrange(0, k - pe - 3).push(
                    tailseq[k - pe - 3],
                ));
            }
            k = k + 1;
        }
        proof {
            assert(lv.skip(pe as int + 3).subrange(0, nl - pe - 3) =~= lv.skip(pe as int + 3));
        }
        let hash = crate::hash::Hash::of(data);
        Ok(Commit { message, tree_hash, hash, parent_hashes, author, committer })
    }

    /// Reads the commit stored under `h` back: absence and a parse failure
    /// each carry their own error, exactly.
    pub fn load(h: &crate::hash::Hash, store: &ObjectStore) -> (r: Result<Commit, RepoError>)
        requires
            store.wf(),
        ensures
            r is Ok <==> (store@.dom().contains(h@) && spec_parse_commit(store@[h@]) is Some),
            match r {
                Ok(c) => {
                    &&& store@.dom().contains(h@)
                    &&& c.hash_view() == h@
                    &&& spec_parse_commit(store@[h@]) == Some(
                        (
                            c.tree_hash_view(),
                            c.parents_view(),
                            c.author_view(),
                            c.committer_view(),
                            c.message_view(),
                        ),
                    )
                    &&& crate::signature::sig_offset_wf(c.author_view().3)
                    &&& crate::signature::sig_offset_wf(c.committer_view().3)
                },
                Err(e) => {
                    ||| (e == RepoError::IOFailure && !store@.dom().contains(h@))
                    ||| (e == RepoError::InvalidObjectFormat && store@.dom().contains(h@)
                        && spec_parse_commit(store@[h@]) is None)
                },
            },
    {
        let data = match store.read_object(h) {
            Ok(d) => d,
            Err(_) => {
                return Err(RepoError::IOFailure);
            },
        };
        Commit::deserialize(&data)
    }

    /// The committed tree, read back from the store.
    /// The history from the commit stored under `start`: that commit,
    /// then first parents in turn down to a root commit. It succeeds
    /// exactly when every visited hash holds a parseable commit; a chain
    /// longer than the store has objects would need a hash cycle, and
    /// fails instead.
    pub fn history(start: &crate::hash::Hash, store: &ObjectStore) -> (r: Result<
        Vec<Commit>,
        RepoError,
    >)
        requires
            store.wf(),
        ensures
            r is Ok <==> spec_history_outcome(store@, start@, store@.dom().len()) is Ok,
            match r {
                Ok(cs) => {
                    &&& cs@.len() >= 1
                    &&& cs@[0].hash_view() == start@
                    &&& forall|i: int|
                        0 <= i < cs@.len() ==> store@.dom().contains(
                            (#[trigger] cs@[i]).hash_view(),
                        ) && spec_parse_commit(store@[cs@[i].hash_view()]) == Some(
                            (
                                cs@[i].tree_hash_view(),
                                cs@[i].parents_view(),
                                cs@[i].author_view(),
                                cs@[i].committer_view(),
                                cs@[i].message_view(),
                            ),
                        )
                    &&& forall|i: int|
                        0 <= i < cs@.len() - 1 ==> (#[trigger] cs@[i]).parents_view().len() >= 1
                            && cs@[i + 1].hash_view() == cs@[i].parents_view()[0]
                    &&& cs@.last().parents_view().len() == 0
                },
                Err(e) => {
                    &&& (e == RepoError::InvalidObjectFormat || e == RepoError::IOFailure)
                    &&& spec_history_outcome(store@, start@, store@.dom().len()) == Err::<
                        (),
                        RepoError,
                    >(e)
                },
            },
    {
        let ghost fuel0 = store@.dom().len();
        let mut fuel: usize = store.object_count();
        let mut cursor: crate::hash::Hash = *start;
        let mut out: Vec<Commit> = Vec::new();
        loop
            invariant
                store.wf(),
                fuel as nat <= fuel0,
                fuel0 == store@.dom().len(),
                spec_history_outcome(store@, start@, fuel0) == spec_history_outcome(
                    store@,
                    cursor@,
                    fuel as nat,
                ),
                forall|i: int|
                    0 <= i < out@.len() ==> store@.dom().contains(
                        (#[trigger] out@[i]).hash_view(),
                    ) && spec_parse_commit(store@[out@[i].hash_view()]) == Some(
                        (
                            out@[i].tree_hash_view(),
                            out@[i].parents_view(),
                            out@[i].author_view(),
                            out@[i].committer_view(),
                            out@[i].message_view(),
                        ),
                    ),
                forall|i: int|
                    0 <= i < out@.len() - 1 ==> (#[trigger] out@[i]).parents_view().len() >= 1
                        && out@[i + 1].hash_view() == out@[i].parents_view()[0],
                out@.len() > 0 ==> out@[0].hash_view() == start@,
                out@.len() > 0 ==> out@.last().parents_view().len() >= 1 && cursor@
                    == out@.last().parents_view()[0],
                out@.len() == 0 ==> cursor@ == start@,
            decreases fuel,
        {
            let c = match Commit::load(&cursor, store) {
                Ok(c) => c,
                Err(e) => {
                    return Err(e);
                },
            };
            let pc = c.parent_count();
            let next: crate::hash::Hash = if pc > 0 {
                *c.parent_hash(0)
            } else {
                cursor
            };
            let ghost old_out = out@;
            out.push(c);
            proof {
                assert(out@.last() == c);
                assert(out@.drop_last() =~= old_out);
                assert forall|i: int|
                    0 <= i < out@.len() - 1 implies (#[trigger] out@[i]).parents_view().len() >= 1
                        && out@[i + 1].hash_view() == out@[i].parents_view()[0] by {
                    if i < out@.len() - 2 {
                        assert(out@[i] == old_out[i] && out@[i + 1] == old_out[i + 1]);
                    } else if old_out.len() > 0 {
                        assert(out@[i] == old_out[i]);
                    }
                }
            }
            if pc == 0 {
                return Ok(out);
            }
            if fuel == 0 {
                return Err(RepoError::InvalidObjectFormat);
            }
            cursor = next;
            fuel = fuel - 1;
        }
    }

    pub fn tree(&self, store: &ObjectStore) -> (r: Result<crate::tree::Tree, RepoError>)
        requires
            store.wf(),
        ensures
            r is Ok <==> crate::tree::spec_tree_loadable(store@, self.tree_hash_view()) is Ok,
            match r {
                Ok(t) => {
                    &&& t.wf()
                    &&& t.hash_view() == self.tree_hash_view()
                    &&& store@.dom().contains(t.hash_view())
                    &&& crate::tree::spec_tree_serial(crate::tree::triples(t.entries_view()))
                        == store@[t.hash_view()]
                    &&& crate::tree::stored_tree(store@, t)
                },
                Err(e) => {
                    &&& (e == RepoError::InvalidObjectFormat || e == RepoError::IOFailure)
                    &&& crate::tree::spec_tree_loadable(store@, self.tree_hash_view()) == Err::<
                        (),
                        RepoError,
                    >(e)
                },
            },
    {
        crate::tree::Tree::load(&self.tree_hash, store)
    }

    /// The parent commits, each read back from the store; it succeeds
    /// exactly when every parent hash stores a parseable commit.
    pub fn parents(&self, store: &ObjectStore) -> (r: Result<Vec<Commit>, RepoError>)
        requires
            store.wf(),
        ensures
            r is Ok <==> (forall|i: int|
                0 <= i < self.parents_view().len() ==> store@.dom().contains(
                    #[trigger] self.parents_view()[i],
                ) && spec_parse_commit(store@[self.parents_view()[i]]) is Some),
            match r {
                Ok(cs) => {
                    &&& cs@.len() == self.parents_view().len()
                    &&& forall|i: int|
                        0 <= i < cs@.len() ==> (#[trigger] cs@[i]).hash_view()
                            == self.parents_view()[i]
                },
                Err(e) => e == RepoError::InvalidObjectFormat || e == RepoError::IOFailure,
            },
    {
        let mut cs: Vec<Commit> = Vec::new();
        let n = self.parent_hashes.len();
        let mut i: usize = 0;
        while i < n
            invariant
                n == self.parents_view().len(),
                i <= n,
                store.wf(),
                n == self.parent_hashes@.len(),
                forall|x: int| 0 <= x < n ==> (#[trigger] self.parent_hashes@[x])@
                    == self.parents_view()[x],
                cs@.len() == i,
                forall|x: int|
                    0 <= x < i ==> (#[trigger] cs@[x]).hash_view() == self.parents_view()[x],
                forall|x: int|
                    0 <= x < i ==> store@.dom().contains(#[trigger] self.parents_view()[x])
                        && spec_parse_commit(store@[self.parents_view()[x]]) is Some,
            decreases n - i,
        {
            let c = match Commit::load(&self.parent_hashes[i], store) {
                Ok(c) => c,
                Err(e) => {
                    proof {
                        assert(!(store@.dom().contains(#[trigger] self.parents_view()[i as int])
                            && spec_parse_commit(store@[self.parents_view()[i as int]]) is Some));
                    }
                    return Err(e);
                },
            };
            cs.push(c);
            i = i + 1;
        }
        Ok(cs)
    }

    /// Builds and stores the commit for the staged index: its tree is the
    /// index's tree; a nonempty branch ref supplies the single parent. The
    /// only failure is a nonempty ref that is not 40 hex digits.
    pub fn create(
        index: &crate::index::Index,
        message: Vec<u8>,
        author: Signature,
        committer: Signature,
        head_ref: &Vec<u8>,
        store: &mut ObjectStore,
    ) -> (r: Result<Commit, RepoError>)
        requires
            index.wf(),
            old(store).wf(),
            -86400 < author@.3 < 86400,
            -86400 < committer@.3 < 86400,
        ensures
            final(store).wf(),
            r is Err <==> (head_ref@.len() != 0 && !(head_ref@.len() == 40 && hex_digits_ok(
                head_ref@,
            ))),
            match r {
                Ok(c) => {
                    &&& c.message_view() == message@
                    &&& c.author_view() == author@
                    &&& c.committer_view() == committer@
                    &&& c.parents_view() == (if head_ref@.len() == 0 {
                        Seq::<Seq<u8>>::empty()
                    } else {
                        seq![hex_val_of(head_ref@)]
                    })
                    &&& c.hash_view() == sha1_of(c.serial())
                    &&& final(store)@.dom().contains(c.hash_view())
                    &&& old(store)@.submap_of(final(store)@)
                    &&& (crate::hash::digest_injective() ==> final(store)@[c.hash_view()]
                        == c.serial())
                    &&& commit_tree_matches_index(c, final(store)@, index@)
                },
                Err(e) => {
                    &&& e == RepoError::MissingOrInvalidRef
                    &&& final(store)@ == old(store)@
                },
            },
    {
        let mut parent_hashes: Vec<crate::hash::Hash> = Vec::new();
        if head_ref.len() != 0 {
            match crate::hash::Hash::from_hex(head_ref) {
                Ok(h) => {
                    parent_hashes.push(h);
                },
                Err(_) => {
                    return Err(RepoError::MissingOrInvalidRef);
                },
            }
        }
        let tree = crate::tree::Tree::create(index, store);
        let ghost mid = store@;
        proof {
            store.lemma_wf_hashes();
        }
        let tree_hash = *tree.hash();
        let serial = commit_serialize(&tree_hash, &parent_hashes, &author, &committer, &message);
        let hash = store.write_object(&serial);
        let c = Commit { message, tree_hash, hash, parent_hashes, author, committer };
        proof {
            crate::store::lemma_submap_grows(old(store)@, mid);
            crate::store::lemma_write_grows(mid, serial@);
            crate::store::lemma_grows_trans(old(store)@, mid, store@);
            crate::store::lemma_grows_submap(old(store)@, store@);
            if head_ref@.len() == 0 {
                assert(c.parents_view() =~= Seq::<Seq<u8>>::empty());
            } else {
                assert(c.parents_view() =~= seq![hex_val_of(head_ref@)]);
            }
            assert(c.serial() == serial@);
            assert(store@.dom().contains(c.tree_hash_view())) by {
                assert(mid.dom().contains(tree.hash_view()));
            }
            if crate::hash::digest_injective() {
                crate::tree::lemma_stored_tree_grows(mid, store@, tree);
                crate::store::lemma_store_write_exact(mid, serial@);
            }
            assert(commit_tree_matches_index(c, store@, index@)) by {
                assert(tree.wf() && tree.hash_view() == c.tree_hash_view() && store@.dom()
                    .contains(tree.hash_view()) && (crate::hash::digest_injective()
                    ==> crate::tree::stored_tree(store@, tree)) && forall|k: Seq<u8>|
                    #[trigger] crate::table::lookup(tree.flat(), k) == crate::table::lookup(
                        index@,
                        k,
                    ));
            }
        }
        Ok(c)
    }
}

/// The commit's tree is the staged table: some well-formed tree in the
/// store carries the commit's tree hash and flattens to exactly the
/// index's entries.
pub open spec fn commit_tree_matches_index(
    c: Commit,
    store: Map<Seq<u8>, Seq<u8>>,
    index: Seq<(Seq<u8>, Seq<u8>)>,
) -> bool {
    exists|t: crate::tree::Tree|
        {
            &&& #[trigger] t.wf()
            &&& t.hash_view() == c.tree_hash_view()
            &&& store.dom().contains(t.hash_view())
            &&& (crate::hash::digest_injective() ==> crate::tree::stored_tree(store, t))
            &&& forall|k: Seq<u8>|
                #[trigger] crate::table::lookup(t.flat(), k) == crate::table::lookup(index, k)
        }
}


// ----------------------------------------------------------------------------
// The round trip
// ----------------------------------------------------------------------------

proof fn lemma_parent_end_run(lines: Seq<Seq<u8>>, i: int, pe: int)
    requires
        1 <= i <= pe < lines.len(),
        forall|j: int| 1 <= j < pe ==> is_prefix(spec_parent_line_tag(), #[trigger] lines[j]),
        !is_prefix(spec_parent_line_tag(), lines[pe]),
    ensures
        parent_end(lines, i) == pe,
    decreases pe - i,
{
    if i < pe {
        lemma_parent_end_run(lines, i + 1, pe);
    }
}

proof fn lemma_parse_parents_run(lines: Seq<Seq<u8>>, i: int, pe: int, parents: Seq<Seq<u8>>)
    requires
        1 <= i <= pe,
        pe == 1 + parents.len(),
        pe <= lines.len(),
        forall|j: int|
            1 <= j < pe ==> spec_parse_hash_line(#[trigger] lines[j], spec_parent_line_tag())
                == Some(parents[j - 1]),
    ensures
        spec_parse_parents(lines, i, pe) == Some(parents.skip(i - 1)),
    decreases pe - i,
{
    if i >= pe {
        assert(parents.skip(i - 1) =~= Seq::<Seq<u8>>::empty());
    } else {
        lemma_parse_parents_run(lines, i + 1, pe, parents);
        assert(seq![parents[i - 1]] + parents.skip(i) =~= parents.skip(i - 1));
    }
}

proof fn lemma_hash_line_round_trip(tag: Seq<u8>, h: Seq<u8>)
    requires
        h.len() == 20,
    ensures
        spec_parse_hash_line(tag + hex_of(h), tag) == Some(h),
{
    let line = tag + hex_of(h);
    crate::hash::lemma_hex_round_trip(h);
    assert(is_prefix(tag, line)) by {
        assert(line.subrange(0, tag.len() as int) =~= tag);
    }
    assert(line.skip(tag.len() as int) =~= hex_of(h));
}

/// A commit written out and parsed back is itself again: the tree hash,
/// every parent, both signatures and the message survive, for signatures
/// that survive serialization and any message.
#[verifier::rlimit(100)]
pub proof fn lemma_commit_round_trip(
    tree_h: Seq<u8>,
    parents: Seq<Seq<u8>>,
    author: (Seq<u8>, Seq<u8>, int, int),
    committer: (Seq<u8>, Seq<u8>, int, int),
    message: Seq<u8>,
)
    requires
        tree_h.len() == 20,
        forall|i: int| 0 <= i < parents.len() ==> (#[trigger] parents[i]).len() == 20,
        crate::signature::sig_name_wf(author.0),
        crate::signature::sig_email_wf(author.1),
        crate::signature::sig_offset_wf(author.3),
        i64::MIN <= author.2 <= i64::MAX,
        crate::signature::sig_name_wf(committer.0),
        crate::signature::sig_email_wf(committer.1),
        crate::signature::sig_offset_wf(committer.3),
        i64::MIN <= committer.2 <= i64::MAX,
    ensures
        spec_parse_commit(spec_commit_serial(tree_h, parents, author, committer, message))
            == Some((tree_h, parents, author, committer, message)),
{
    let lines = spec_commit_lines(tree_h, parents, author, committer, message);
    let body = join_sep(lines, 10);
    let serial = spec_commit_serial(tree_h, parents, author, committer, message);
    let np = parents.len() as int;
    let a_line = spec_signature_line(
        spec_role(SignatureKind::Author),
        author.0,
        author.1,
        author.2,
        author.3,
    );
    let c_line = spec_signature_line(
        spec_role(SignatureKind::Committer),
        committer.0,
        committer.1,
        committer.2,
        committer.3,
    );
    assert(lines.len() == np + 5);
    assert(lines[0] == spec_tree_line_tag() + hex_of(tree_h));
    assert forall|j: int| 1 <= j < np + 1 implies #[trigger] lines[j] == spec_parent_line_tag()
        + hex_of(parents[j - 1]) by {
        assert(lines[j] == parents.map_values(|p: Seq<u8>| spec_parent_line_tag() + hex_of(p))[j
            - 1]);
    }
    assert(lines[np + 1] == a_line);
    assert(lines[np + 2] == c_line);
    assert(lines[np + 3] =~= Seq::<u8>::empty());
    assert(lines[np + 4] == message);
    // The header ends at the first NUL.
    crate::bytes::lemma_dec_digits_wf(body.len());
    let d = crate::bytes::dec_digits(body.len());
    let z = 7 + d.len() as int;
    assert(serial[z] == 0);
    assert forall|j: int| 0 <= j < z implies #[trigger] serial[j] != 0 by {
        if j < 7 {
            assert(serial[j] == spec_commit_tag()[j]);
        } else {
            assert(serial[j] == d[j - 7]);
            assert(crate::bytes::is_digit(d[j - 7]));
        }
    }
    crate::bytes::lemma_find_byte_unique(serial, 0, z);
    assert(serial.subrange(0, z) =~= spec_commit_tag() + d);
    assert(serial.skip(z + 1) =~= body);
    assert(serial.len() - z - 1 == body.len());
    // Every line before the message is free of newlines.
    crate::signature::lemma_signature_line_clean(
        SignatureKind::Author,
        author.0,
        author.1,
        author.2,
        author.3,
    );
    crate::signature::lemma_signature_line_clean(
        SignatureKind::Committer,
        committer.0,
        committer.1,
        committer.2,
        committer.3,
    );
    assert forall|i: int| 0 <= i < lines.len() - 1 implies crate::bytes::no_byte(
        #[trigger] lines[i],
        10,
    ) by {
        if i == 0 {
            lemma_hash_line_clean(spec_tree_line_tag(), tree_h);
        } else if i < np + 1 {
            lemma_hash_line_clean(spec_parent_line_tag(), parents[i - 1]);
        } else if i == np + 3 {
            assert forall|x: int| 0 <= x < lines[i].len() implies #[trigger] lines[i][x]
                != 10 by {}
        }
    }
    crate::bytes::lemma_split_join(lines, 10);
    let sb = split_at_seps(body, 10);
    assert(sb == lines.drop_last() + split_at_seps(message, 10));
    assert(sb.len() == np + 4 + split_at_seps(message, 10).len());
    crate::bytes::lemma_split_at_seps_wf(message, 10);
    assert forall|j: int| 0 <= j < np + 4 implies #[trigger] sb[j] == lines[j] by {
        assert(sb[j] == lines.drop_last()[j]);
    }
    // The tree line.
    lemma_hash_line_round_trip(spec_tree_line_tag(), tree_h);
    assert(spec_parse_hash_line(sb[0], spec_tree_line_tag()) == Some(tree_h));
    // The parent run ends at the author line.
    assert forall|j: int| 1 <= j < np + 1 implies is_prefix(
        spec_parent_line_tag(),
        #[trigger] sb[j],
    ) by {
        assert(sb[j] == spec_parent_line_tag() + hex_of(parents[j - 1]));
        assert(sb[j].subrange(0, 7) =~= spec_parent_line_tag());
    }
    assert(!is_prefix(spec_parent_line_tag(), sb[np + 1])) by {
        assert(sb[np + 1] == a_line);
        if is_prefix(spec_parent_line_tag(), a_line) {
            assert(a_line.subrange(0, 7) == spec_parent_line_tag());
            assert(a_line.subrange(0, 7)[0] == a_line[0]);
            assert(a_line[0] != 112);
        }
    }
    lemma_parent_end_run(sb, 1, np + 1);
    // The parents parse back.
    assert forall|j: int| 1 <= j < np + 1 implies spec_parse_hash_line(
        #[trigger] sb[j],
        spec_parent_line_tag(),
    ) == Some(parents[j - 1]) by {
        lemma_hash_line_round_trip(spec_parent_line_tag(), parents[j - 1]);
    }
    lemma_parse_parents_run(sb, 1, np + 1, parents);
    assert(parents.skip(0) =~= parents);
    // The signatures parse back.
    crate::signature::lemma_signature_round_trip(
        SignatureKind::Author,
        author.0,
        author.1,
        author.2,
        author.3,
    );
    crate::signature::lemma_signature_round_trip(
        SignatureKind::Committer,
        committer.0,
        committer.1,
        committer.2,
        committer.3,
    );
    assert(sb[np + 1] == a_line && sb[np + 2] == c_line);
    // The message is the re-joined tail.
    assert(sb.skip(np + 4) =~= split_at_seps(message, 10));
    assert(join_sep(sb.skip(np + 4), 10) == message);
    assert((author.0, author.1, author.2, author.3) == author);
    assert((committer.0, committer.1, committer.2, committer.3) == committer);
}

/// A hash line holds a tag of printable bytes and hex digits: no newline.
proof fn lemma_hash_line_clean(tag: Seq<u8>, h: Seq<u8>)
    requires
        tag == spec_tree_line_tag() || tag == spec_parent_line_tag(),
    ensures
        crate::bytes::no_byte(tag + hex_of(h), 10),
{
    let line = tag + hex_of(h);
    assert forall|i: int| 0 <= i < line.len() implies #[trigger] line[i] != 10 by {
        if i < tag.len() {
            assert(line[i] == tag[i]);
        } else {
            assert(line[i] == hex_of(h)[i - tag.len()]);
            assert(crate::hash::is_hex_digit(hex_of(h)[i - tag.len()])) by {
                crate::hash::lemma_hex_round_trip(h);
            }
        }
    }
}

} // verus!
