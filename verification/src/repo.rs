//! The target repository store: a narrow, trusted surface over git2.
//!
//! Object identifiers are carried as plain byte vectors. The identifier of a
//! blob, tree or commit is content-derived, so each is named by an
//! uninterpreted function of what the object holds; the wrappers below state
//! those names and nothing more. A `Repo` also carries a ghost model of the
//! commits, tags and branch moves recorded through this handle.

use vstd::prelude::*;

verus! {

use crate::errors::ImportError;
use crate::errors::ImportError::RepositoryWrite;

#[verifier::external_type_specification]
#[verifier::external_body]
pub struct ExRepository(git2::Repository);

/// One entry of a directory tree: a name bound to an object id with a mode.
pub struct TreeEntry {
    pub name: Vec<u8>,
    pub mode: u32,
    pub id: Vec<u8>,
}

impl View for TreeEntry {
    type V = (Seq<u8>, u32, Seq<u8>);

    open spec fn view(&self) -> (Seq<u8>, u32, Seq<u8>) {
        (self.name@, self.mode, self.id@)
    }
}

/// The entries of a tree, as the specification sees them.
pub open spec fn entries_view(v: Seq<TreeEntry>) -> Seq<(Seq<u8>, u32, Seq<u8>)> {
    v.map(|i: int, e: TreeEntry| e@)
}

/// Inserting entries left to right into a name-keyed map; a later entry
/// with an equal name replaces the earlier one, as the store does.
pub open spec fn fold_entries(
    m: Map<Seq<u8>, (u32, Seq<u8>)>,
    s: Seq<(Seq<u8>, u32, Seq<u8>)>,
) -> Map<Seq<u8>, (u32, Seq<u8>)>
    decreases s.len(),
{
    if s.len() == 0 {
        m
    } else {
        fold_entries(m.insert(s[0].0, (s[0].1, s[0].2)), s.skip(1))
    }
}

/// The id of the content-addressed blob holding `content`.
pub uninterp spec fn blob_id_of(content: Seq<u8>) -> Seq<u8>;

/// The id of the stored tree whose entries are exactly `entries`.
pub uninterp spec fn tree_id_of(entries: Map<Seq<u8>, (u32, Seq<u8>)>) -> Seq<u8>;

/// The id of the commit holding `tree`, `parent` and `message`, under the
/// fixed import signature.
pub uninterp spec fn commit_id_of(tree: Seq<u8>, parent: Option<Seq<u8>>, message: Seq<char>) -> Seq<u8>;

/// The id sequence a possible parent commit stands for.
pub open spec fn opt_id_view(p: Option<Vec<u8>>) -> Option<Seq<u8>> {
    match p {
        Some(v) => Some(v@),
        None => None,
    }
}

/// A commit recorded through a repository handle.
pub struct CommitRecord {
    pub id: Seq<u8>,
    pub parent: Option<Seq<u8>>,
    pub tree: Seq<u8>,
    pub message: Seq<char>,
}

/// What has been recorded through a repository handle since it was opened:
/// commits oldest first, tag names bound to commit ids, and branch names
/// bound to the commit ids they were last moved to.
pub struct RepoModel {
    pub commits: Seq<CommitRecord>,
    pub tags: Map<Seq<char>, Seq<u8>>,
    pub branches: Map<Seq<char>, Seq<u8>>,
}

/// A handle on a target repository, with the ghost model of what has been
/// recorded through it since it was opened.
pub struct Repo {
    inner: git2::Repository,
    model: Ghost<RepoModel>,
}

impl View for Repo {
    type V = RepoModel;

    closed spec fn view(&self) -> RepoModel {
        self.model@
    }
}

/// Relies on git2: `Repository::init_opts` creates a repository at `path`
/// (bare if asked, initial branch `main`), or reopens one already there.
#[verifier::external_body]
fn git_init(path: &String, bare: bool) -> (r: Result<git2::Repository, ImportError>) {
    let mut opts = git2::RepositoryInitOptions::new();
    opts.bare(bare).initial_head("main");
    git2::Repository::init_opts(path.as_str(), &opts).map_err(|_| RepositoryWrite)
}

/// Open (creating it if needed) the repository at `path`. The ghost model
/// tracks only what is recorded through the returned handle, so it starts
/// empty.
pub fn init_repository(path: &String, bare: bool) -> (r: Result<Repo, ImportError>)
    ensures
        r matches Ok(repo) ==> {
            &&& repo@.commits == Seq::<CommitRecord>::empty()
            &&& repo@.tags == Map::<Seq<char>, Seq<u8>>::empty()
            &&& repo@.branches == Map::<Seq<char>, Seq<u8>>::empty()
        },
{
    match git_init(path, bare) {
        Ok(inner) => Ok(Repo {
            inner,
            model: Ghost(
                RepoModel {
                    commits: Seq::empty(),
                    tags: Map::empty(),
                    branches: Map::empty(),
                },
            ),
        }),
        Err(e) => Err(e),
    }
}

/// Relies on git2: `Repository::blob` stores `data` as a content-addressed
/// blob, idempotently, and returns its id, a function of the bytes alone.
#[verifier::external_body]
pub fn write_blob(repo: &Repo, data: &Vec<u8>) -> (r: Result<Vec<u8>, ImportError>)
    ensures
        r matches Ok(id) ==> id@ == blob_id_of(data@),
        r is Err ==> r->Err_0 == ImportError::RepositoryWrite,
{
    Ok(repo.inner.blob(data).map_err(|_| RepositoryWrite)?.as_bytes().to_vec())
}

/// Relies on git2: `Repository::treebuilder`, `TreeBuilder::insert` and
/// `TreeBuilder::write`. Inserting an existing name replaces its entry, and
/// the written tree's id is a function of the final name-to-(mode, id) map.
#[verifier::external_body]
pub fn write_tree(repo: &Repo, entries: &Vec<TreeEntry>) -> (r: Result<Vec<u8>, ImportError>)
    ensures
        r matches Ok(id) ==> id@ == tree_id_of(
            fold_entries(Map::<Seq<u8>, (u32, Seq<u8>)>::empty(), entries_view(entries@)),
        ),
        r is Err ==> r->Err_0 == ImportError::RepositoryWrite,
{
    let mut tb = repo.inner.treebuilder(None).map_err(|_| RepositoryWrite)?;
    for e in entries.iter() {
        let oid = git2::Oid::from_bytes(&e.id).map_err(|_| RepositoryWrite)?;
        tb.insert(&e.name[..], oid, e.mode as i32).map_err(|_| RepositoryWrite)?;
    }
    Ok(tb.write().map_err(|_| RepositoryWrite)?.as_bytes().to_vec())
}

/// Relies on git2: `Repository::commit` under the fixed import signature
/// writes a commit whose id is a function of tree, parent and message.
/// `Oid::from_bytes`, `Repository::find_tree` and `Repository::find_commit`
/// convert the arguments; any failure is a write error.
#[verifier::external_body]
pub fn write_commit(
    repo: &mut Repo,
    tree_id: &Vec<u8>,
    parent: &Option<Vec<u8>>,
    message: &String,
) -> (r: Result<Vec<u8>, ImportError>)
    ensures
        r matches Ok(id) ==> {
            &&& id@ == commit_id_of(tree_id@, opt_id_view(*parent), message@)
            &&& final(repo)@.commits == old(repo)@.commits.push(
                CommitRecord {
                    id: id@,
                    parent: opt_id_view(*parent),
                    tree: tree_id@,
                    message: message@,
                },
            )
        },
        r is Err ==> final(repo)@.commits == old(repo)@.commits,
        r is Err ==> r->Err_0 == ImportError::RepositoryWrite,
        final(repo)@.tags == old(repo)@.tags,
        final(repo)@.branches == old(repo)@.branches,
{
    let sig = git2::Signature::new("Apple Open Source", "opensource@apple.com",
        &git2::Time::new(1609459200, 0)).map_err(|_| RepositoryWrite)?;
    let toid = git2::Oid::from_bytes(tree_id).map_err(|_| RepositoryWrite)?;
    let tree = repo.inner.find_tree(toid).map_err(|_| RepositoryWrite)?;
    let pc = match parent {
        None => None,
        Some(p) => Some(git2::Oid::from_bytes(p).and_then(|o| repo.inner.find_commit(o))
            .map_err(|_| RepositoryWrite)?),
    };
    let parents: Vec<&git2::Commit> = pc.iter().collect();
    let oid = repo.inner.commit(None, &sig, &sig, message, &tree, &parents)
        .map_err(|_| RepositoryWrite)?;
    Ok(oid.as_bytes().to_vec())
}

/// Relies on git2: `Repository::tag` with force creates or replaces the
/// named tag so that it points at the given commit.
#[verifier::external_body]
pub fn write_tag(repo: &mut Repo, name: &String, commit_id: &Vec<u8>) -> (r: Result<
    (),
    ImportError,
>)
    ensures
        r is Ok ==> final(repo)@.tags == old(repo)@.tags.insert(name@, commit_id@),
        r is Err ==> final(repo)@.tags == old(repo)@.tags,
        r is Err ==> r->Err_0 == ImportError::RepositoryWrite,
        final(repo)@.commits == old(repo)@.commits,
        final(repo)@.branches == old(repo)@.branches,
{
    let when = git2::Time::new(1609459200, 0);
    let sig = git2::Signature::new("Apple Open Source", "opensource@apple.com", &when)
        .map_err(|_| RepositoryWrite)?;
    let oid = git2::Oid::from_bytes(commit_id).map_err(|_| RepositoryWrite)?;
    let obj = repo.inner.find_object(oid, Some(git2::ObjectType::Commit))
        .map_err(|_| RepositoryWrite)?;
    repo.inner.tag(name, &obj, &sig, "tagging", true).map_err(|_| RepositoryWrite)?;
    Ok(())
}

/// Relies on git2: `Repository::branch` forces the named branch to the
/// commit; when `Repository::is_bare` says a working copy exists,
/// `set_head_detached`, `set_head` and `reset` (hard) make it match, as the
/// store reconciles a checkout to a commit. On failure the branch was
/// either already moved or left as it was: the only call that moves it is
/// the one `Repository::branch` call.
#[verifier::external_body]
pub fn reconcile_repo_to_commit(
    repo: &mut Repo,
    branch_name: &String,
    commit_id: &Vec<u8>,
) -> (r: Result<(), ImportError>)
    ensures
        r is Ok ==> final(repo)@.branches == old(repo)@.branches.insert(branch_name@, commit_id@),
        r is Err ==> final(repo)@.branches == old(repo)@.branches || final(repo)@.branches == old(
            repo,
        )@.branches.insert(branch_name@, commit_id@),
        r is Err ==> r->Err_0 == ImportError::RepositoryWrite,
        final(repo)@.commits == old(repo)@.commits,
        final(repo)@.tags == old(repo)@.tags,
{
    let oid = git2::Oid::from_bytes(commit_id).map_err(|_| RepositoryWrite)?;
    let commit = repo.inner.find_commit(oid).map_err(|_| RepositoryWrite)?;
    if repo.inner.is_bare() {
        repo.inner.branch(branch_name, &commit, true).map_err(|_| RepositoryWrite)?;
    } else {
        repo.inner.set_head_detached(oid).map_err(|_| RepositoryWrite)?;
        repo.inner.branch(branch_name, &commit, true).map_err(|_| RepositoryWrite)?;
        repo.inner.set_head(&format!("refs/heads/{}", branch_name))
            .map_err(|_| RepositoryWrite)?;
        repo.inner.reset(commit.as_object(), git2::ResetType::Hard, None)
            .map_err(|_| RepositoryWrite)?;
    }
    Ok(())
}

} // verus!
