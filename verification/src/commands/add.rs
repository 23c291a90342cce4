use vstd::prelude::*;

use crate::errors::RepoError;
use crate::paths::valid_path;
use crate::repository::Repository;
use crate::table::lookup;
use crate::workspace::Workspace;

verus! {

/// Stages `path` — a file, or a whole directory — against the working
/// tree. A path that is not well-formed and repository-relative is outside
/// the repository; a path that neither exists nor was ever staged is
/// `NoSuchFile`; anything else succeeds.
pub fn run(path: &Vec<u8>, ws: &Workspace, repo: &mut Repository) -> (r: Result<(), RepoError>)
    requires
        old(repo).wf(),
        ws.wf(),
    ensures
        final(repo).wf(),
        final(repo).head_view() == old(repo).head_view(),
        final(repo).refs_view() == old(repo).refs_view(),
        (r matches Err(e2) && e2 == RepoError::PathOutsideRepository) <==> !(valid_path(path@)
            || path@.len() == 0),
        (valid_path(path@) || path@.len() == 0) ==> (r is Err <==> (!crate::index::spec_is_dir(
            ws@,
            path@,
        ) && !crate::table::has_key(ws@, path@) && !crate::table::has_key(
            old(repo).index_ref()@,
            path@,
        ))),
        match r {
            Ok(_) => {
                &&& (crate::index::spec_is_dir(ws@, path@) ==> forall|k: Seq<u8>|
                    #[trigger] lookup(final(repo).index_ref()@, k)
                        == crate::index::spec_added_lookup(
                        old(repo).index_ref()@,
                        ws@,
                        path@,
                        k,
                    ))
                &&& (!crate::index::spec_is_dir(ws@, path@) ==> match lookup(ws@, path@) {
                    Some(c) => {
                        &&& final(repo).index_ref()@ == crate::index::spec_upsert(
                            old(repo).index_ref()@,
                            path@,
                            crate::blob::spec_blob_hash(c),
                        )
                        &&& final(repo).store_ref()@ == crate::store::store_write(
                            old(repo).store_ref()@,
                            crate::blob::spec_blob_serial(c),
                        )
                    },
                    None => {
                        &&& final(repo).index_ref()@ == crate::index::spec_remove(
                            old(repo).index_ref()@,
                            path@,
                        )
                        &&& final(repo).store_ref()@ == old(repo).store_ref()@
                    },
                })
                &&& (crate::index::spec_is_dir(ws@, path@) ==> forall|k: Seq<u8>|
                    #[trigger] crate::table::has_key(ws@, k) && crate::paths::under_dir(k, path@)
                        ==> match lookup(ws@, k) {
                        Some(c) => final(repo).store_ref()@.dom().contains(
                            crate::blob::spec_blob_hash(c),
                        ) && (crate::hash::digest_injective() ==> final(repo).store_ref()@[
                            crate::blob::spec_blob_hash(c)] == crate::blob::spec_blob_serial(c)),
                        None => true,
                    })
            },
            Err(e) => {
                &&& (e == RepoError::PathOutsideRepository || e == RepoError::NoSuchFile)
                &&& final(repo).index_ref()@ == old(repo).index_ref()@
                &&& final(repo).store_ref()@ == old(repo).store_ref()@
            },
        },
{
    if path.len() != 0 {
        if !crate::paths::path_is_valid(path) {
            return Err(RepoError::PathOutsideRepository);
        }
    }
    repo.add(path, ws)
}

} // verus!
