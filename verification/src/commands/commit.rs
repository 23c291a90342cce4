use vstd::prelude::*;

use crate::branch::spec_head_branch_name;
use crate::errors::RepoError;
use crate::hash::hex_of;
use crate::hash::hex_val_of;
use crate::repository::Repository;
use crate::signature::Signature;
use crate::table::lookup;

verus! {

/// `"Larry Sellers"`, the engine's fixed identity name.
pub open spec fn spec_engine_name() -> Seq<u8> {
    seq![76u8, 97, 114, 114, 121, 32, 83, 101, 108, 108, 101, 114, 115]
}

/// `"lsellers@test.com"`, the engine's fixed identity address.
pub open spec fn spec_engine_email() -> Seq<u8> {
    seq![108u8, 115, 101, 108, 108, 101, 114, 115, 64, 116, 101, 115, 116, 46, 99, 111, 109]
}

/// Commits the staged index under the fixed identity the engine uses when
/// none is configured: the commit's tree is the staged table, and the
/// current branch's ref moves to the new hash. It fails exactly when HEAD
/// does not name a branch whose ref is empty or a valid hash.
pub fn run(message: Vec<u8>, repo: &mut Repository) -> (r: Result<
    crate::commit::Commit,
    RepoError,
>)
    requires
        old(repo).wf(),
    ensures
        final(repo).wf(),
        final(repo).index_ref() == old(repo).index_ref(),
        final(repo).head_view() == old(repo).head_view(),
        r is Ok <==> old(repo).commit_ready(),
        match r {
            Ok(c) => {
                &&& c.message_view() == message@
                &&& c.author_view().0 == spec_engine_name()
                &&& c.author_view().1 == spec_engine_email()
                &&& c.committer_view().0 == spec_engine_name()
                &&& c.committer_view().1 == spec_engine_email()
                &&& final(repo).store_ref()@.dom().contains(c.hash_view())
                &&& c.hash_view() == crate::hash::sha1_of(c.serial())
                &&& (crate::hash::digest_injective() ==> final(repo).store_ref()@[c.hash_view()]
                    == c.serial())
                &&& crate::commit::commit_tree_matches_index(
                    c,
                    final(repo).store_ref()@,
                    old(repo).index_ref()@,
                )
                &&& match spec_head_branch_name(old(repo).head_view()) {
                    Some(name) => {
                        &&& lookup(final(repo).refs_view(), name) == Some(hex_of(c.hash_view()))
                        &&& forall|k: Seq<u8>|
                            k != name ==> #[trigger] lookup(final(repo).refs_view(), k) == lookup(
                                old(repo).refs_view(),
                                k,
                            )
                        &&& c.parents_view() == (match lookup(old(repo).refs_view(), name) {
                            Some(content) => if content.len() == 0 {
                                Seq::<Seq<u8>>::empty()
                            } else {
                                seq![hex_val_of(content)]
                            },
                            None => Seq::<Seq<u8>>::empty(),
                        })
                    },
                    None => false,
                }
            },
            Err(e) => e == RepoError::MissingOrInvalidRef,
        },
{
    // "Larry Sellers"
    let mut name: Vec<u8> = Vec::new();
    name.push(76);
    name.push(97);
    name.push(114);
    name.push(114);
    name.push(121);
    name.push(32);
    name.push(83);
    name.push(101);
    name.push(108);
    name.push(108);
    name.push(101);
    name.push(114);
    name.push(115);
    assert(name@ =~= spec_engine_name());
    // "lsellers@test.com"
    let mut email: Vec<u8> = Vec::new();
    email.push(108);
    email.push(115);
    email.push(101);
    email.push(108);
    email.push(108);
    email.push(101);
    email.push(114);
    email.push(115);
    email.push(64);
    email.push(116);
    email.push(101);
    email.push(115);
    email.push(116);
    email.push(46);
    email.push(99);
    email.push(111);
    email.push(109);
    assert(email@ =~= spec_engine_email());
    let author = Signature::new(crate::bytes::bytes_clone(&name), crate::bytes::bytes_clone(&email));
    let committer = Signature::new(name, email);
    repo.commit(message, author, committer)
}

} // verus!
