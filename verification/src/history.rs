//! Chaining one commit per version, tagging each, and moving the branch.
//!
//! A run over an ordered sequence of versions produces one commit per
//! version, each chained to the commit before it, tagged with the version
//! string; after the last version the `main` branch points at the last
//! commit. For composite releases a run-scoped cache maps component archive
//! URLs to trees already built, so an archive shared between versions is
//! imported once.

use vstd::prelude::*;

verus! {

use crate::archive::{archive_entries_of, archive_parses};
use crate::errors::ImportError;
use crate::records::{ComponentRecord, ReleaseComponentRecord, ReleaseRecord, bytes_of};
use crate::repo::{CommitRecord, Repo, TreeEntry, commit_id_of, entries_view, fold_entries,
    opt_id_view, reconcile_repo_to_commit, tree_id_of, write_commit, write_tag, write_tree};
use crate::tree::{modes_ok, spec_tree_of, tar_data_to_tree, tree_mode};
use vstd::hash_map::StringHashMap;
use vstd::string::StringExecFns;

/// The tree one archive's bytes convert to.
pub open spec fn version_tree(data: Seq<u8>) -> Seq<u8> {
    spec_tree_of(archive_entries_of(data))
}

/// Whether one archive's bytes convert without a deterministic failure.
pub open spec fn version_converts(data: Seq<u8>) -> bool {
    archive_parses(data) && modes_ok(archive_entries_of(data))
}

/// The commit message recorded for one version of a standalone component.
pub open spec fn component_message(component: Seq<char>, version: Seq<char>, url: Seq<char>) -> Seq<
    char,
> {
    component + " "@ + version + "\n\nDownloaded from "@ + url + "\n"@
}

/// The commit message recorded for one version of a composite release.
pub open spec fn release_message(entity: Seq<char>, version: Seq<char>) -> Seq<char> {
    entity + " "@ + version
}

fn build_component_message(record: &ComponentRecord) -> (r: String)
    ensures
        r@ == component_message(record.component@, record.version@, record.url@),
{
    let mut s = String::new();
    s.append(record.component.as_str());
    s.append(" ");
    s.append(record.version.as_str());
    s.append("\n\nDownloaded from ");
    s.append(record.url.as_str());
    s.append("\n");
    s
}

fn build_release_message(record: &ReleaseRecord) -> (r: String)
    ensures
        r@ == release_message(record.entity@, record.version@),
{
    let mut s = String::new();
    s.append(record.entity.as_str());
    s.append(" ");
    s.append(record.version.as_str());
    s
}

/// The commits of one run form a chain: the first has no parent, and each
/// later one's parent is exactly the commit before it.
pub open spec fn chained(commits: Seq<CommitRecord>) -> bool {
    forall|i: int|
        0 <= i < commits.len() ==> (#[trigger] commits[i]).parent == (if i == 0 {
            None::<Seq<u8>>
        } else {
            Some(commits[i - 1].id)
        })
}

/// The commits a component run makes from its first `n` versions.
pub open spec fn run_commits(items: Seq<(ComponentRecord, Vec<u8>)>, n: int) -> Seq<CommitRecord>
    decreases n,
{
    if n <= 0 {
        Seq::empty()
    } else {
        let prev = run_commits(items, n - 1);
        let parent = if n == 1 {
            None::<Seq<u8>>
        } else {
            Some(prev.last().id)
        };
        let tree = version_tree(items[n - 1].1@);
        let msg = component_message(
            items[n - 1].0.component@,
            items[n - 1].0.version@,
            items[n - 1].0.url@,
        );
        prev.push(
            CommitRecord { id: commit_id_of(tree, parent, msg), parent, tree, message: msg },
        )
    }
}

/// The tags a component run makes from its first `n` versions.
pub open spec fn run_tags(items: Seq<(ComponentRecord, Vec<u8>)>, n: int) -> Map<Seq<char>, Seq<u8>>
    decreases n,
{
    if n <= 0 {
        Map::empty()
    } else {
        run_tags(items, n - 1).insert(items[n - 1].0.version@, run_commits(items, n).last().id)
    }
}

/// Convert one version's archive, commit the tree on the given parent, and
/// tag the commit with the version string.
pub fn import_component_version(
    repo: &mut Repo,
    parent: &Option<Vec<u8>>,
    record: &ComponentRecord,
    tar_data: &Vec<u8>,
) -> (r: Result<Vec<u8>, ImportError>)
    ensures
        r matches Ok(cid) ==> {
            let tree = version_tree(tar_data@);
            let msg = component_message(record.component@, record.version@, record.url@);
            &&& version_converts(tar_data@)
            &&& cid@ == commit_id_of(tree, opt_id_view(*parent), msg)
            &&& final(repo)@.commits == old(repo)@.commits.push(
                CommitRecord {
                    id: cid@,
                    parent: opt_id_view(*parent),
                    tree: tree,
                    message: msg,
                },
            )
            &&& final(repo)@.tags == old(repo)@.tags.insert(record.version@, cid@)
        },
        !version_converts(tar_data@) ==> r is Err,
        r is Err ==> final(repo)@.tags == old(repo)@.tags,
        r is Err ==> {
            let tree = version_tree(tar_data@);
            let msg = component_message(record.component@, record.version@, record.url@);
            ||| final(repo)@.commits == old(repo)@.commits
            ||| (version_converts(tar_data@) && final(repo)@.commits == old(repo)@.commits.push(
                CommitRecord {
                    id: commit_id_of(tree, opt_id_view(*parent), msg),
                    parent: opt_id_view(*parent),
                    tree: tree,
                    message: msg,
                },
            ))
        },
        final(repo)@.branches == old(repo)@.branches,
{
    let tree_id = match tar_data_to_tree(tar_data, repo) {
        Ok(t) => t,
        Err(e) => return Err(e),
    };
    let msg = build_component_message(record);
    let cid = match write_commit(repo, &tree_id, parent, &msg) {
        Ok(c) => c,
        Err(e) => return Err(e),
    };
    match write_tag(repo, &record.version, &cid) {
        Ok(_) => Ok(cid),
        Err(e) => Err(e),
    }
}

/// Build the whole history of one standalone component in a fresh
/// repository: one commit per version in the given order, each chained to
/// the previous and tagged, and `main` left on the last commit. An empty
/// version list leaves the repository with no commits and no branch move.
/// A failure aborts the run: the store then holds exactly the commits and
/// tags of a completed prefix of the versions (at most one further commit
/// whose tagging failed), and `main` was moved only if everything up to
/// the final branch move itself had succeeded.
pub fn create_component_repository(repo: &mut Repo, items: &Vec<(ComponentRecord, Vec<u8>)>) -> (r:
    Result<(), ImportError>)
    requires
        old(repo)@.commits == Seq::<CommitRecord>::empty(),
        old(repo)@.tags == Map::<Seq<char>, Seq<u8>>::empty(),
    ensures
        r is Ok ==> {
            let n = items@.len() as int;
            &&& final(repo)@.commits == run_commits(items@, n)
            &&& final(repo)@.tags == run_tags(items@, n)
            &&& (forall|i: int| 0 <= i < n ==> version_converts((#[trigger] items@[i]).1@))
            &&& n > 0 ==> final(repo)@.branches == old(repo)@.branches.insert(
                "main"@,
                run_commits(items@, n).last().id,
            )
            &&& n == 0 ==> final(repo)@.branches == old(repo)@.branches
        },
        items@.len() == 0 ==> r is Ok,
        (exists|i: int| 0 <= i < items@.len() && !version_converts((#[trigger] items@[i]).1@))
            ==> r is Err,
        r is Err ==> exists|k: int|
            {
                &&& 0 <= k <= items@.len()
                &&& final(repo)@.tags == run_tags(items@, k)
                &&& (final(repo)@.commits == run_commits(items@, k) || (k < items@.len()
                    && final(repo)@.commits == run_commits(items@, k + 1)))
            },
        r is Err ==> final(repo)@.branches == old(repo)@.branches || (items@.len() > 0
            && final(repo)@.branches == old(repo)@.branches.insert(
            "main"@,
            run_commits(items@, items@.len() as int).last().id,
        )),
{
    let mut parent: Option<Vec<u8>> = None;
    let mut idx: usize = 0;
    while idx < items.len()
        invariant
            idx <= items@.len(),
            repo@.commits == run_commits(items@, idx as int),
            repo@.tags == run_tags(items@, idx as int),
            repo@.branches == old(repo)@.branches,
            forall|i: int| 0 <= i < idx ==> version_converts((#[trigger] items@[i]).1@),
            match parent {
                Some(p) => idx > 0 && p@ == run_commits(items@, idx as int).last().id,
                None => idx == 0,
            },
        decreases items@.len() - idx,
    {
        let rec = &items[idx].0;
        let data = &items[idx].1;
        let cid = match import_component_version(repo, &parent, rec, data) {
            Ok(c) => c,
            Err(e) => return Err(e),
        };
        parent = Some(cid);
        idx = idx + 1;
        proof {
            assert(repo@.commits == run_commits(items@, idx as int));
            assert(repo@.tags == run_tags(items@, idx as int));
        }
    }
    match &parent {
        Some(last) => {
            let branch = String::from_str("main");
            match reconcile_repo_to_commit(repo, &branch, last) {
                Ok(_) => Ok(()),
                Err(e) => Err(e),
            }
        },
        None => Ok(()),
    }
}

/// Commit chain invariant of a component run: `n` versions yield exactly
/// `n` commits, the first without a parent and each later one's parent the
/// commit before it, the tree of the `i`th commit the tree of the `i`th
/// archive; and, when the version strings are distinct, one tag per
/// version, pointing at the corresponding commit.
pub proof fn lemma_commit_chain(items: Seq<(ComponentRecord, Vec<u8>)>, n: int)
    requires
        0 <= n <= items.len(),
    ensures
        run_commits(items, n).len() == n,
        chained(run_commits(items, n)),
        forall|i: int|
            0 <= i < n ==> (#[trigger] run_commits(items, n)[i]).tree == version_tree(
                items[i].1@,
            ),
        (forall|i: int, j: int| 0 <= i < j < n ==> items[i].0.version@ != items[j].0.version@)
            ==> forall|i: int|
            0 <= i < n ==> run_tags(items, n).contains_key(#[trigger] items[i].0.version@)
                && run_tags(items, n)[items[i].0.version@] == run_commits(items, n)[i].id,
    decreases n,
{
    if n > 0 {
        lemma_commit_chain(items, n - 1);
    }
}


/// The run-scoped deduplication cache: archive source URL to the tree id
/// already produced for it.
pub struct DedupCache {
    map: StringHashMap<Vec<u8>>,
}

impl View for DedupCache {
    type V = Map<Seq<char>, Seq<u8>>;

    closed spec fn view(&self) -> Map<Seq<char>, Seq<u8>> {
        Map::new(
            |k: Seq<char>| self.map@.dom().contains(k),
            |k: Seq<char>| self.map@[k]@,
        )
    }
}

impl DedupCache {
    /// An empty cache.
    pub fn new() -> (r: Self)
        ensures
            r@ == Map::<Seq<char>, Seq<u8>>::empty(),
    {
        let r = DedupCache { map: StringHashMap::new() };
        proof {
            assert(r@ =~= Map::<Seq<char>, Seq<u8>>::empty());
        }
        r
    }

    /// Whether a tree for this URL was already produced.
    pub fn contains(&self, url: &String) -> (r: bool)
        ensures
            r == self@.contains_key(url@),
    {
        self.map.contains_key(url.as_str())
    }

    /// The tree id already produced for this URL, if any.
    pub fn get_id(&self, url: &String) -> (r: Option<Vec<u8>>)
        ensures
            match r {
                Some(id) => self@.contains_key(url@) && id@ == self@[url@],
                None => !self@.contains_key(url@),
            },
    {
        match self.map.get(url.as_str()) {
            Some(v) => Some(crate::tree::sub_vec(v, 0, v.len())),
            None => None,
        }
    }

    /// Record the tree id produced for this URL.
    pub fn put(&mut self, url: &String, id: Vec<u8>)
        ensures
            final(self)@ == old(self)@.insert(url@, id@),
    {
        let key = url.clone();
        let ghost idv = id@;
        self.map.insert(key, id);
        proof {
            assert(self@ =~= old(self)@.insert(url@, idv));
        }
    }
}

/// The cache after the first `n` components of one release version have
/// been handled, starting from `cache`: a component whose URL is already
/// there is reused; one with converting bytes has its tree recorded; one
/// without bytes (a failed fetch) or with bytes that do not convert leaves
/// no mark.
pub open spec fn comp_cache(
    cache: Map<Seq<char>, Seq<u8>>,
    comps: Seq<(ReleaseComponentRecord, Option<Vec<u8>>)>,
    n: int,
) -> Map<Seq<char>, Seq<u8>>
    decreases n,
{
    if n <= 0 {
        cache
    } else {
        let prev = comp_cache(cache, comps, n - 1);
        let c = comps[n - 1];
        if prev.contains_key(c.0.url@) {
            prev
        } else {
            match c.1 {
                Some(data) => if version_converts(data@) {
                    prev.insert(c.0.url@, version_tree(data@))
                } else {
                    prev
                },
                None => prev,
            }
        }
    }
}

/// The root tree entries of one release version after its first `n`
/// components: one entry per component that could be resolved, named after
/// the component, in order; a component whose fetch failed, or whose bytes
/// do not convert, is omitted.
pub open spec fn comp_entries(
    cache: Map<Seq<char>, Seq<u8>>,
    comps: Seq<(ReleaseComponentRecord, Option<Vec<u8>>)>,
    n: int,
) -> Seq<(Seq<u8>, u32, Seq<u8>)>
    decreases n,
{
    if n <= 0 {
        Seq::empty()
    } else {
        let prev = comp_entries(cache, comps, n - 1);
        let prev_c = comp_cache(cache, comps, n - 1);
        let c = comps[n - 1];
        if prev_c.contains_key(c.0.url@) {
            prev.push((bytes_of(c.0.component@), tree_mode(), prev_c[c.0.url@]))
        } else {
            match c.1 {
                Some(data) => if version_converts(data@) {
                    prev.push((bytes_of(c.0.component@), tree_mode(), version_tree(data@)))
                } else {
                    prev
                },
                None => prev,
            }
        }
    }
}

/// The tree one release version finalizes from its resolved components.
pub open spec fn release_version_tree(
    cache: Map<Seq<char>, Seq<u8>>,
    comps: Seq<(ReleaseComponentRecord, Option<Vec<u8>>)>,
) -> Seq<u8> {
    tree_id_of(
        fold_entries(
            Map::<Seq<u8>, (u32, Seq<u8>)>::empty(),
            comp_entries(cache, comps, comps.len() as int),
        ),
    )
}

/// Resolve one release version's components (reusing the cache, building
/// what is missing, omitting failed fetches and archives that do not
/// convert), finalize the version tree, commit it on the given parent, and
/// tag the commit with the version. Only a store write failure aborts;
/// per-component failures leave the component out and the version still
/// commits.
pub fn import_release_version(
    repo: &mut Repo,
    cache: &mut DedupCache,
    parent: &Option<Vec<u8>>,
    record: &ReleaseRecord,
    components: &Vec<(ReleaseComponentRecord, Option<Vec<u8>>)>,
) -> (r: Result<Vec<u8>, ImportError>)
    ensures
        r matches Ok(cid) ==> {
            let n = components@.len() as int;
            let tree = release_version_tree(old(cache)@, components@);
            let msg = release_message(record.entity@, record.version@);
            &&& final(cache)@ == comp_cache(old(cache)@, components@, n)
            &&& cid@ == commit_id_of(tree, opt_id_view(*parent), msg)
            &&& final(repo)@.commits == old(repo)@.commits.push(
                CommitRecord {
                    id: cid@,
                    parent: opt_id_view(*parent),
                    tree: tree,
                    message: msg,
                },
            )
            &&& final(repo)@.tags == old(repo)@.tags.insert(record.version@, cid@)
        },
        r is Err ==> final(repo)@.tags == old(repo)@.tags,
        r is Err ==> {
            let tree = release_version_tree(old(cache)@, components@);
            let msg = release_message(record.entity@, record.version@);
            ||| final(repo)@.commits == old(repo)@.commits
            ||| final(repo)@.commits == old(repo)@.commits.push(
                CommitRecord {
                    id: commit_id_of(tree, opt_id_view(*parent), msg),
                    parent: opt_id_view(*parent),
                    tree: tree,
                    message: msg,
                },
            )
        },
        r is Err ==> exists|j: int|
            0 <= j <= components@.len() && final(cache)@ == comp_cache(
                old(cache)@,
                components@,
                j,
            ),
        final(repo)@.branches == old(repo)@.branches,
{
    let mut entries: Vec<TreeEntry> = Vec::new();
    let mut i: usize = 0;
    proof {
        assert(entries_view(entries@) =~= comp_entries(old(cache)@, components@, 0));
    }
    while i < components.len()
        invariant
            i <= components@.len(),
            cache@ == comp_cache(old(cache)@, components@, i as int),
            entries_view(entries@) == comp_entries(old(cache)@, components@, i as int),
            repo@ == old(repo)@,
        decreases components@.len() - i,
    {
        let comp = &components[i].0;
        let name_bytes: Vec<u8> = vstd::slice::slice_to_vec(comp.component.as_str().as_bytes());
        let ghost entries0 = entries@;
        match cache.get_id(&comp.url) {
            Some(id) => {
                let ghost idv = id@;
                entries.push(TreeEntry { name: name_bytes, mode: 0o40000, id });
                proof {
                    assert(entries_view(entries@) =~= entries_view(entries0).push(
                        (bytes_of(comp.component@), tree_mode(), idv),
                    ));
                }
            },
            None => {
                match &components[i].1 {
                    None => (),
                    Some(data) => {
                        match tar_data_to_tree(data, repo) {
                            Ok(id) => {
                                let id2 = crate::tree::sub_vec(&id, 0, id.len());
                                proof {
                                    assert(id2@ =~= id@);
                                }
                                cache.put(&comp.url, id2);
                                let ghost idv = id@;
                                entries.push(TreeEntry { name: name_bytes, mode: 0o40000, id });
                                proof {
                                    assert(entries_view(entries@) =~= entries_view(
                                        entries0,
                                    ).push((bytes_of(comp.component@), tree_mode(), idv)));
                                }
                            },
                            Err(err) => match err {
                                // The store failed: fatal for the run.
                                ImportError::RepositoryWrite => {
                                    return Err(ImportError::RepositoryWrite);
                                },
                                // The archive does not convert: the
                                // component is omitted from this version.
                                _ => {
                                    proof {
                                        assert(!version_converts(data@));
                                    }
                                },
                            },
                        }
                    },
                }
            },
        }
        i = i + 1;
        proof {
            assert(cache@ == comp_cache(old(cache)@, components@, i as int));
            assert(entries_view(entries@) =~= comp_entries(old(cache)@, components@, i as int));
        }
    }
    let tree_id = match write_tree(repo, &entries) {
        Ok(t) => t,
        Err(e) => return Err(e),
    };
    let msg = build_release_message(record);
    let cid = match write_commit(repo, &tree_id, parent, &msg) {
        Ok(c) => c,
        Err(e) => return Err(e),
    };
    match write_tag(repo, &record.version, &cid) {
        Ok(_) => Ok(cid),
        Err(e) => Err(e),
    }
}

/// The cache after the first `n` versions of a composite release run.
pub open spec fn rel_cache(
    items: Seq<(ReleaseRecord, Vec<(ReleaseComponentRecord, Option<Vec<u8>>)>)>,
    n: int,
) -> Map<Seq<char>, Seq<u8>>
    decreases n,
{
    if n <= 0 {
        Map::empty()
    } else {
        comp_cache(rel_cache(items, n - 1), items[n - 1].1@, items[n - 1].1@.len() as int)
    }
}

/// The commits of a composite release run over its first `n` versions.
pub open spec fn rel_commits(
    items: Seq<(ReleaseRecord, Vec<(ReleaseComponentRecord, Option<Vec<u8>>)>)>,
    n: int,
) -> Seq<CommitRecord>
    decreases n,
{
    if n <= 0 {
        Seq::empty()
    } else {
        let prev = rel_commits(items, n - 1);
        let parent = if n == 1 {
            None::<Seq<u8>>
        } else {
            Some(prev.last().id)
        };
        let tree = release_version_tree(rel_cache(items, n - 1), items[n - 1].1@);
        let msg = release_message(items[n - 1].0.entity@, items[n - 1].0.version@);
        prev.push(
            CommitRecord { id: commit_id_of(tree, parent, msg), parent, tree, message: msg },
        )
    }
}

/// The tags of a composite release run over its first `n` versions.
pub open spec fn rel_tags(
    items: Seq<(ReleaseRecord, Vec<(ReleaseComponentRecord, Option<Vec<u8>>)>)>,
    n: int,
) -> Map<Seq<char>, Seq<u8>>
    decreases n,
{
    if n <= 0 {
        Map::empty()
    } else {
        rel_tags(items, n - 1).insert(items[n - 1].0.version@, rel_commits(items, n).last().id)
    }
}

/// Build the whole history of one composite release in a fresh repository:
/// one commit per version in the given order, each tree combining that
/// version's resolved component trees, the dedup cache spanning the whole
/// run, each commit chained and tagged, and `main` left on the last commit.
/// Component archives that fail to arrive or to convert are omitted from
/// their version, which still commits; only store write failures abort.
/// An empty version list leaves the repository with no commits and no
/// branch move. On failure the store holds exactly the commits and tags of
/// a completed prefix of the versions (at most one further commit whose
/// tagging failed), and `main` was moved only if everything up to the
/// final branch move itself had succeeded.
pub fn create_release_repository(
    repo: &mut Repo,
    items: &Vec<(ReleaseRecord, Vec<(ReleaseComponentRecord, Option<Vec<u8>>)>)>,
) -> (r: Result<(), ImportError>)
    requires
        old(repo)@.commits == Seq::<CommitRecord>::empty(),
        old(repo)@.tags == Map::<Seq<char>, Seq<u8>>::empty(),
    ensures
        r is Ok ==> {
            let n = items@.len() as int;
            &&& final(repo)@.commits == rel_commits(items@, n)
            &&& final(repo)@.tags == rel_tags(items@, n)
            &&& n > 0 ==> final(repo)@.branches == old(repo)@.branches.insert(
                "main"@,
                rel_commits(items@, n).last().id,
            )
            &&& n == 0 ==> final(repo)@.branches == old(repo)@.branches
        },
        items@.len() == 0 ==> r is Ok,
        r is Err ==> exists|k: int|
            {
                &&& 0 <= k <= items@.len()
                &&& final(repo)@.tags == rel_tags(items@, k)
                &&& (final(repo)@.commits == rel_commits(items@, k) || (k < items@.len()
                    && final(repo)@.commits == rel_commits(items@, k + 1)))
            },
        r is Err ==> final(repo)@.branches == old(repo)@.branches || (items@.len() > 0
            && final(repo)@.branches == old(repo)@.branches.insert(
            "main"@,
            rel_commits(items@, items@.len() as int).last().id,
        )),
{
    let mut cache = DedupCache::new();
    let mut parent: Option<Vec<u8>> = None;
    let mut idx: usize = 0;
    while idx < items.len()
        invariant
            idx <= items@.len(),
            repo@.commits == rel_commits(items@, idx as int),
            repo@.tags == rel_tags(items@, idx as int),
            repo@.branches == old(repo)@.branches,
            cache@ == rel_cache(items@, idx as int),
            match parent {
                Some(p) => idx > 0 && p@ == rel_commits(items@, idx as int).last().id,
                None => idx == 0,
            },
        decreases items@.len() - idx,
    {
        let rec = &items[idx].0;
        let comps = &items[idx].1;
        let cid = match import_release_version(repo, &mut cache, &parent, rec, comps) {
            Ok(c) => c,
            Err(e) => return Err(e),
        };
        parent = Some(cid);
        idx = idx + 1;
        proof {
            assert(repo@.commits == rel_commits(items@, idx as int));
            assert(repo@.tags == rel_tags(items@, idx as int));
            assert(cache@ == rel_cache(items@, idx as int));
        }
    }
    match &parent {
        Some(last) => {
            let branch = String::from_str("main");
            match reconcile_repo_to_commit(repo, &branch, last) {
                Ok(_) => Ok(()),
                Err(e) => Err(e),
            }
        },
        None => Ok(()),
    }
}

/// The cache only grows, and what is in it never changes: an id once
/// recorded for a URL is the one every later lookup sees.
pub proof fn lemma_cache_stable(
    cache: Map<Seq<char>, Seq<u8>>,
    comps: Seq<(ReleaseComponentRecord, Option<Vec<u8>>)>,
    n: int,
    url: Seq<char>,
)
    requires
        cache.contains_key(url),
    ensures
        comp_cache(cache, comps, n).contains_key(url),
        comp_cache(cache, comps, n)[url] == cache[url],
    decreases n,
{
    if n > 0 {
        lemma_cache_stable(cache, comps, n - 1, url);
    }
}

/// Cross-version deduplication: when a component's archive URL already has
/// a tree in the cache, that version's entry for the component is exactly
/// the cached tree id, whatever bytes (or none) are supplied for it.
pub proof fn lemma_dedup_reuse(
    cache: Map<Seq<char>, Seq<u8>>,
    comps: Seq<(ReleaseComponentRecord, Option<Vec<u8>>)>,
    j: int,
)
    requires
        0 <= j < comps.len(),
        cache.contains_key(comps[j].0.url@),
    ensures
        comp_entries(cache, comps, j + 1) == comp_entries(cache, comps, j).push(
            (bytes_of(comps[j].0.component@), tree_mode(), cache[comps[j].0.url@]),
        ),
{
    lemma_cache_stable(cache, comps, j, comps[j].0.url@);
}

} // verus!
