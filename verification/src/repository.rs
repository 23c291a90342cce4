use vstd::prelude::*;

use crate::branch::spec_head_branch_name;
use crate::branch::Branch;
use crate::bytes::push_all;
use crate::errors::RepoError;
use crate::hash::hex_of;
use crate::hash::hex_val_of;
use crate::paths::head_content_prefix;
use crate::paths::spec_head_content_prefix;
use crate::paths::valid_path;
use crate::repository_status::RepositoryStatus;
use crate::store::ObjectStore;
use crate::table::lookup;
use crate::table::unique_keys;
use crate::workspace::pair_views;
use crate::workspace::Workspace;

verus! {

/// `"master"`
pub open spec fn spec_master_name() -> Seq<u8> {
    seq![109u8, 97, 115, 116, 101, 114]
}

/// The default branch's name.
pub fn master_name() -> (r: Vec<u8>)
    ensures
        r@ == spec_master_name(),
{
    let mut v: Vec<u8> = Vec::new();
    v.push(109);
    v.push(97);
    v.push(115);
    v.push(116);
    v.push(101);
    v.push(114);
    assert(v@ =~= spec_master_name());
    v
}

/// The repository's persistent state as values: the object store, the
/// staging index, the HEAD pointer, and one ref per branch.
pub struct Repository {
    store: ObjectStore,
    index: crate::index::Index,
    head: Vec<u8>,
    refs: Vec<(Vec<u8>, Vec<u8>)>,
}

impl Repository {
    pub open spec fn wf(&self) -> bool {
        &&& self.store_ref().wf()
        &&& self.index_ref().wf()
        &&& unique_keys(self.refs_view())
    }

    pub closed spec fn store_ref(&self) -> ObjectStore {
        self.store
    }

    pub closed spec fn index_ref(&self) -> crate::index::Index {
        self.index
    }

    pub closed spec fn head_view(&self) -> Seq<u8> {
        self.head@
    }

    pub closed spec fn refs_view(&self) -> Seq<(Seq<u8>, Seq<u8>)> {
        pair_views(self.refs@)
    }

    /// A commit can be made: HEAD names a branch with a ref that is empty
    /// (no commits yet) or holds a valid hash.
    pub open spec fn commit_ready(&self) -> bool {
        match spec_head_branch_name(self.head_view()) {
            Some(n) => match lookup(self.refs_view(), n) {
                Some(c) => c.len() == 0 || (c.len() == 40 && crate::hash::hex_digits_ok(c)),
                None => false,
            },
            None => false,
        }
    }

    /// `ct` is the flattening of the current branch's committed tree:
    /// empty while the branch ref is, else the flattening of the
    /// well-formed stored tree that the ref's commit names.
    pub open spec fn committed_table(&self, ct: Seq<(Seq<u8>, Seq<u8>)>) -> bool {
        match spec_head_branch_name(self.head_view()) {
            Some(n) => match lookup(self.refs_view(), n) {
                Some(content) => if content.len() == 0 {
                    ct == Seq::<(Seq<u8>, Seq<u8>)>::empty()
                } else {
                    &&& content.len() == 40 && crate::hash::hex_digits_ok(content)
                    &&& self.store_ref()@.dom().contains(hex_val_of(content))
                    &&& match crate::commit::spec_parse_commit(
                        self.store_ref()@[hex_val_of(content)],
                    ) {
                        Some(pc) => exists|t: crate::tree::Tree|
                            {
                                &&& #[trigger] t.wf()
                                &&& t.hash_view() == pc.0
                                &&& self.store_ref()@.dom().contains(t.hash_view())
                                &&& crate::tree::spec_tree_serial(
                                    crate::tree::triples(t.entries_view()),
                                ) == self.store_ref()@[t.hash_view()]
                                &&& ct == t.flat()
                            },
                        None => false,
                    }
                },
                None => false,
            },
            None => false,
        }
    }

    /// The outcome of reaching the current branch's committed files: HEAD
    /// must name a branch with a ref; an empty ref has no commits yet and
    /// succeeds with an empty table; otherwise the ref must be a 40-digit
    /// hash whose commit is stored, parses, and whose tree loads.
    pub open spec fn head_tree_outcome(&self) -> Result<(), RepoError> {
        match spec_head_branch_name(self.head_view()) {
            Some(n) => match lookup(self.refs_view(), n) {
                Some(content) => if content.len() == 0 {
                    Ok(())
                } else if !(content.len() == 40 && crate::hash::hex_digits_ok(content)) {
                    Err(RepoError::MissingOrInvalidRef)
                } else {
                    crate::tree::spec_ref_tree_outcome(self.store_ref()@, hex_val_of(content))
                },
                None => Err(RepoError::MissingOrInvalidRef),
            },
            None => Err(RepoError::MissingOrInvalidRef),
        }
    }

    /// A freshly initialized repository: HEAD on master, an empty ref for
    /// master, nothing staged, nothing stored.
    pub fn init() -> (r: Repository)
        ensures
            r.wf(),
            r.head_view() == spec_head_content_prefix() + spec_master_name(),
            r.refs_view() == seq![(spec_master_name(), Seq::<u8>::empty())],
            r.index_ref()@ == Seq::<(Seq<u8>, Seq<u8>)>::empty(),
            r.store_ref()@ == Map::<Seq<u8>, Seq<u8>>::empty(),
    {
        let mut head = head_content_prefix();
        let master = master_name();
        push_all(&mut head, &master);
        let mut refs: Vec<(Vec<u8>, Vec<u8>)> = Vec::new();
        refs.push((master, Vec::new()));
        let r = Repository {
            store: ObjectStore::new(),
            index: crate::index::Index::new(),
            head,
            refs,
        };
        proof {
            assert(r.refs_view() =~= seq![(spec_master_name(), Seq::<u8>::empty())]);
        }
        r
    }

    /// A repository from state read back from disk; the caller feeds parts
    /// it has already validated.
    pub fn assemble(
        store: ObjectStore,
        index: crate::index::Index,
        head: Vec<u8>,
        refs: Vec<(Vec<u8>, Vec<u8>)>,
    ) -> (r: Repository)
        requires
            store.wf(),
            index.wf(),
            unique_keys(pair_views(refs@)),
        ensures
            r.wf(),
            r.store_ref() == store,
            r.index_ref() == index,
            r.head_view() == head@,
            r.refs_view() == pair_views(refs@),
    {
        Repository { store, index, head, refs }
    }

    pub fn store(&self) -> (r: &ObjectStore)
        ensures
            *r == self.store_ref(),
    {
        &self.store
    }

    pub fn index(&self) -> (r: &crate::index::Index)
        ensures
            *r == self.index_ref(),
    {
        &self.index
    }

    pub fn head(&self) -> (r: &Vec<u8>)
        ensures
            r@ == self.head_view(),
    {
        &self.head
    }

    pub fn refs(&self) -> (r: &Vec<(Vec<u8>, Vec<u8>)>)
        ensures
            pair_views(r@) == self.refs_view(),
    {
        &self.refs
    }

    /// The persisted form of the staging index.
    pub fn index_file(&self) -> (r: Vec<u8>)
        ensures
            r@ == crate::index::spec_index_serial(self.index_ref()@),
    {
        self.index.write()
    }

    /// Replaces the staging index with one read from its persisted form.
    pub fn load_index(&mut self, content: &Vec<u8>) -> (r: Result<(), RepoError>)
        requires
            old(self).wf(),
        ensures
            final(self).wf(),
            final(self).head_view() == old(self).head_view(),
            final(self).refs_view() == old(self).refs_view(),
            final(self).store_ref() == old(self).store_ref(),
            match r {
                Ok(_) => crate::index::spec_parse_index(content@) == Some(final(self).index_ref()@),
                Err(e) => {
                    &&& e == RepoError::InvalidIndexFormat
                    &&& crate::index::spec_parse_index(content@) is None
                    &&& final(self).index_ref() == old(self).index_ref()
                },
            },
    {
        match crate::index::Index::load(content) {
            Ok(ix) => {
                self.index = ix;
                Ok(())
            },
            Err(e) => Err(e),
        }
    }

    /// Stages a path: one file, or a whole directory, as the index defines.
    pub fn add(&mut self, path: &Vec<u8>, ws: &Workspace) -> (r: Result<(), RepoError>)
        requires
            old(self).wf(),
            ws.wf(),
            valid_path(path@) || path@.len() == 0,
        ensures
            final(self).wf(),
            final(self).head_view() == old(self).head_view(),
            final(self).refs_view() == old(self).refs_view(),
            old(self).store_ref()@.submap_of(final(self).store_ref()@),
            r is Err <==> (!crate::index::spec_is_dir(ws@, path@) && !crate::table::has_key(
                ws@,
                path@,
            ) && !crate::table::has_key(old(self).index_ref()@, path@)),
            match r {
                Ok(_) => {
                    &&& (crate::index::spec_is_dir(ws@, path@) ==> forall|k: Seq<u8>|
                        #[trigger] lookup(final(self).index_ref()@, k)
                            == crate::index::spec_added_lookup(
                            old(self).index_ref()@,
                            ws@,
                            path@,
                            k,
                        ))
                    &&& (!crate::index::spec_is_dir(ws@, path@) ==> match lookup(ws@, path@) {
                        Some(c) => {
                            &&& final(self).index_ref()@ == crate::index::spec_upsert(
                                old(self).index_ref()@,
                                path@,
                                crate::blob::spec_blob_hash(c),
                            )
                            &&& final(self).store_ref()@ == crate::store::store_write(
                                old(self).store_ref()@,
                                crate::blob::spec_blob_serial(c),
                            )
                        },
                        None => {
                            &&& final(self).index_ref()@ == crate::index::spec_remove(
                                old(self).index_ref()@,
                                path@,
                            )
                            &&& final(self).store_ref()@ == old(self).store_ref()@
                        },
                    })
                    &&& (crate::index::spec_is_dir(ws@, path@) ==> forall|k: Seq<u8>|
                        #[trigger] crate::table::has_key(ws@, k) && crate::paths::under_dir(
                            k,
                            path@,
                        ) ==> match lookup(ws@, k) {
                            Some(c) => final(self).store_ref()@.dom().contains(
                                crate::blob::spec_blob_hash(c),
                            ) && (crate::hash::digest_injective() ==> final(self).store_ref()@[
                                crate::blob::spec_blob_hash(c)] == crate::blob::spec_blob_serial(
                                c,
                            )),
                            None => true,
                        })
                },
                Err(e) => {
                    &&& e == RepoError::NoSuchFile
                    &&& final(self).index_ref()@ == old(self).index_ref()@
                    &&& final(self).store_ref()@ == old(self).store_ref()@
                },
            },
    {
        self.index.add(path, ws, &mut self.store)
    }

    /// Commits the staged index to the current branch: its tree is built,
    /// the commit stored, and the branch ref moved to the new hash. It
    /// fails exactly when HEAD does not name a branch whose ref is empty
    /// or a valid hash.
    pub fn commit(
        &mut self,
        message: Vec<u8>,
        author: crate::signature::Signature,
        committer: crate::signature::Signature,
    ) -> (r: Result<crate::commit::Commit, RepoError>)
        requires
            old(self).wf(),
            -86400 < author@.3 < 86400,
            -86400 < committer@.3 < 86400,
        ensures
            final(self).wf(),
            final(self).index_ref() == old(self).index_ref(),
            final(self).head_view() == old(self).head_view(),
            r is Ok <==> old(self).commit_ready(),
            match r {
                Ok(c) => {
                    &&& c.message_view() == message@
                    &&& c.author_view() == author@
                    &&& c.committer_view() == committer@
                    &&& c.hash_view() == crate::hash::sha1_of(c.serial())
                    &&& final(self).store_ref()@.dom().contains(c.hash_view())
                    &&& old(self).store_ref()@.submap_of(final(self).store_ref()@)
                    &&& (crate::hash::digest_injective() ==> final(self).store_ref()@[
                        c.hash_view()] == c.serial())
                    &&& crate::commit::commit_tree_matches_index(
                        c,
                        final(self).store_ref()@,
                        old(self).index_ref()@,
                    )
                    &&& match spec_head_branch_name(old(self).head_view()) {
                        Some(name) => {
                            &&& lookup(final(self).refs_view(), name) == Some(
                                hex_of(c.hash_view()),
                            )
                            &&& forall|k: Seq<u8>|
                                k != name ==> #[trigger] lookup(final(self).refs_view(), k)
                                    == lookup(old(self).refs_view(), k)
                            &&& c.parents_view() == (match lookup(old(self).refs_view(), name) {
                                Some(content) => if content.len() == 0 {
                                    Seq::<Seq<u8>>::empty()
                                } else {
                                    seq![hex_val_of(content)]
                                },
                                None => Seq::<Seq<u8>>::empty(),
                            })
                        },
                        None => false,
                    }
                },
                Err(e) => {
                    &&& e == RepoError::MissingOrInvalidRef
                    &&& final(self).refs_view() == old(self).refs_view()
                    &&& final(self).store_ref()@ == old(self).store_ref()@
                },
            },
    {
        let b = match Branch::current_name(&self.head) {
            Some(n) => n,
            None => {
                return Err(RepoError::MissingOrInvalidRef);
            },
        };
        let content = match crate::branch::table_lookup(&self.refs, &b) {
            Some(c) => c,
            None => {
                return Err(RepoError::MissingOrInvalidRef);
            },
        };
        let c = match crate::commit::Commit::create(
            &self.index,
            message,
            author,
            committer,
            &content,
            &mut self.store,
        ) {
            Ok(c) => c,
            Err(_) => {
                return Err(RepoError::MissingOrInvalidRef);
            },
        };
        let hex = c.hash().to_hex();
        crate::branch::table_set(&mut self.refs, &b, hex);
        Ok(c)
    }

    /// The committed files of the current branch, flattened; an empty ref
    /// means no commits yet and an empty table.
    pub fn committed_files(&self) -> (r: Result<Vec<(Vec<u8>, Vec<u8>)>, RepoError>)
        requires
            self.wf(),
        ensures
            r is Ok <==> self.head_tree_outcome() is Ok,
            match r {
                Ok(t) => {
                    &&& self.committed_table(pair_views(t@))
                    &&& unique_keys(pair_views(t@))
                },
                Err(e) => {
                    &&& e != RepoError::NoSuchFile
                    &&& self.head_tree_outcome() == Err::<(), RepoError>(e)
                },
            },
    {
        let b = match Branch::current_name(&self.head) {
            Some(n) => n,
            None => {
                return Err(RepoError::MissingOrInvalidRef);
            },
        };
        let content = match crate::branch::table_lookup(&self.refs, &b) {
            Some(c) => c,
            None => {
                return Err(RepoError::MissingOrInvalidRef);
            },
        };
        if content.len() == 0 {
            let empty: Vec<(Vec<u8>, Vec<u8>)> = Vec::new();
            proof {
                assert(unique_keys(pair_views(empty@)));
                assert(pair_views(empty@) =~= Seq::<(Seq<u8>, Seq<u8>)>::empty());
            }
            return Ok(empty);
        }
        let h = match crate::hash::Hash::from_hex(&content) {
            Ok(h) => h,
            Err(_) => {
                return Err(RepoError::MissingOrInvalidRef);
            },
        };
        let c = match crate::commit::Commit::load(&h, &self.store) {
            Ok(c) => c,
            Err(e) => {
                return Err(e);
            },
        };
        let t = match c.tree(&self.store) {
            Ok(t) => t,
            Err(e) => {
                return Err(e);
            },
        };
        let flat = t.entries_flattened();
        proof {
            // A well-formed tree flattens each path once.
            assert(unique_keys(pair_views(flat@)));
        }
        Ok(flat)
    }

    /// The three-way status of the repository against a working tree: the
    /// staged side against the current branch's committed table, the
    /// unstaged and untracked sides against the stage and the disk.
    pub fn status(&self, ws: &Workspace) -> (r: Result<RepositoryStatus, RepoError>)
        requires
            self.wf(),
            ws.wf(),
        ensures
            match r {
                Ok(st) => {
                    &&& exists|ct: Seq<(Seq<u8>, Seq<u8>)>|
                        {
                            &&& #[trigger] self.committed_table(ct)
                            &&& forall|p: Seq<u8>, s: crate::repository_status::FileStatus|
                                st.staged_view().contains((p, s))
                                    <==> crate::repository_status::staged_status(
                                    ct,
                                    self.index_ref()@,
                                    p,
                                ) == Some(s)
                        }
                    &&& forall|p: Seq<u8>, s: crate::repository_status::FileStatus|
                        st.unstaged_view().contains((p, s))
                            <==> crate::repository_status::unstaged_status(
                            self.index_ref()@,
                            crate::repository_status::working_hashes(ws@),
                            p,
                        ) == Some(s)
                    &&& forall|p: Seq<u8>|
                        st.untracked_view().contains(p) <==> crate::repository_status::is_untracked(
                            self.index_ref()@,
                            crate::repository_status::working_hashes(ws@),
                            p,
                        )
                    &&& forall|i: int, j: int|
                        0 <= i < j < st.staged_view().len() ==> crate::bytes::lex_lt(
                            (#[trigger] st.staged_view()[i]).0,
                            (#[trigger] st.staged_view()[j]).0,
                        )
                    &&& forall|i: int, j: int|
                        0 <= i < j < st.unstaged_view().len() ==> crate::bytes::lex_lt(
                            (#[trigger] st.unstaged_view()[i]).0,
                            (#[trigger] st.unstaged_view()[j]).0,
                        )
                    &&& forall|i: int, j: int|
                        0 <= i < j < st.untracked_view().len() ==> crate::bytes::lex_lt(
                            #[trigger] st.untracked_view()[i],
                            #[trigger] st.untracked_view()[j],
                        )
                },
                Err(e) => {
                    &&& e != RepoError::NoSuchFile
                    &&& self.head_tree_outcome() == Err::<(), RepoError>(e)
                },
            },
            r is Ok <==> self.head_tree_outcome() is Ok,
    {
        let committed = match self.committed_files() {
            Ok(t) => t,
            Err(e) => {
                return Err(e);
            },
        };
        let st = RepositoryStatus::load(&committed, &self.index, ws);
        proof {
            assert(self.committed_table(pair_views(committed@)));
        }
        Ok(st)
    }

    /// Creates a branch at the current branch's commit; creating does not
    /// switch. It fails exactly when HEAD does not resolve.
    pub fn branch_create(&mut self, name: &Vec<u8>) -> (r: Result<Branch, RepoError>)
        requires
            old(self).wf(),
        ensures
            final(self).wf(),
            final(self).head_view() == old(self).head_view(),
            final(self).index_ref() == old(self).index_ref(),
            final(self).store_ref() == old(self).store_ref(),
            r is Ok <==> crate::branch::spec_resolvable(old(self).head_view(), old(self).refs_view()),
            match r {
                Ok(b) => {
                    &&& b.name_view() == name@
                    &&& match spec_head_branch_name(old(self).head_view()) {
                        Some(cur) => match lookup(old(self).refs_view(), cur) {
                            Some(c) => b.hash_view() == hex_val_of(c),
                            None => false,
                        },
                        None => false,
                    }
                    &&& lookup(final(self).refs_view(), name@) == Some(hex_of(b.hash_view()))
                    &&& forall|k: Seq<u8>|
                        k != name@ ==> #[trigger] lookup(final(self).refs_view(), k) == lookup(
                            old(self).refs_view(),
                            k,
                        )
                },
                Err(e) => {
                    &&& e == RepoError::MissingOrInvalidRef
                    &&& final(self).refs_view() == old(self).refs_view()
                },
            },
    {
        Branch::create(name, &self.head, &mut self.refs)
    }

    /// Every branch.
    pub fn branch_list(&self) -> (r: Result<Vec<Branch>, RepoError>)
        requires
            self.wf(),
        ensures
            match r {
                Ok(bs) => {
                    &&& bs@.len() == self.refs_view().len()
                    &&& forall|i: int|
                        0 <= i < bs@.len() ==> (#[trigger] bs@[i]).name_view()
                            == self.refs_view()[i].0 && bs@[i].hash_view() == hex_val_of(
                            self.refs_view()[i].1,
                        )
                },
                Err(e) => e == RepoError::MissingOrInvalidRef,
            },
    {
        Branch::list(&self.refs)
    }

    /// The current branch; it fails exactly when HEAD does not resolve to
    /// a ref with a valid hash.
    pub fn current_branch(&self) -> (r: Result<Branch, RepoError>)
        requires
            self.wf(),
        ensures
            r is Ok <==> crate::branch::spec_resolvable(self.head_view(), self.refs_view()),
            match r {
                Ok(b) => {
                    &&& spec_head_branch_name(self.head_view()) == Some(b.name_view())
                    &&& match lookup(self.refs_view(), b.name_view()) {
                        Some(c) => b.hash_view() == hex_val_of(c),
                        None => false,
                    }
                },
                Err(e) => e == RepoError::MissingOrInvalidRef,
            },
    {
        Branch::current(&self.head, &self.refs)
    }

    /// Switches to the named branch: the working tree is overwritten —
    /// uncommitted work included — with exactly the branch's committed
    /// files, and HEAD is repointed. An unknown name is `BranchNotFound`.
    pub fn switch(&mut self, name: &Vec<u8>, ws: &mut Workspace) -> (r: Result<(), RepoError>)
        requires
            old(self).wf(),
            old(ws).wf(),
        ensures
            final(self).wf(),
            final(ws).wf(),
            final(self).index_ref() == old(self).index_ref(),
            final(self).refs_view() == old(self).refs_view(),
            final(self).store_ref() == old(self).store_ref(),
            (r matches Err(e2) && e2 == RepoError::BranchNotFound) <==> !crate::table::has_key(
                old(self).refs_view(),
                name@,
            ),
            match lookup(old(self).refs_view(), name@) {
                Some(c) => r is Ok <==> crate::branch::spec_switch_ready(
                    old(self).store_ref()@,
                    c,
                ),
                None => true,
            },
            match r {
                Ok(_) => {
                    &&& final(self).head_view() == spec_head_content_prefix() + name@
                    &&& match lookup(old(self).refs_view(), name@) {
                        Some(c) => {
                            &&& c.len() == 40 && crate::hash::hex_digits_ok(c)
                            &&& old(self).store_ref()@.dom().contains(hex_val_of(c))
                            &&& exists|t: crate::tree::Tree|
                                #[trigger] crate::branch::spec_switched_state(
                                    t,
                                    hex_val_of(c),
                                    old(self).store_ref()@,
                                    final(ws)@,
                                )
                        },
                        None => false,
                    }
                },
                Err(_) => final(self).head_view() == old(self).head_view(),
            },
    {
        Branch::switch(name, &mut self.head, &self.refs, &self.store, ws)
    }
}

} // verus!
