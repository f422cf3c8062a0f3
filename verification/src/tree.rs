//! Building one content-addressed tree from the entries of an archive.
//!
//! Entries are placed under their paths with the outermost directory
//! component stripped; directories are implicit, symbolic links keep their
//! target as content, and permission bits map to the store's file modes.
//! A directory accumulator is kept per directory path (ancestors included),
//! and accumulators are finalized strictly bottom-up, each finalized tree
//! entering its parent under its basename with directory mode.

use vstd::prelude::*;

verus! {

use crate::archive::{ArchiveStream, EntrySpec, RawEntry, archive_entries_of, archive_parses,
    next_entry, open_archive, stream_ok, stream_rest};
use crate::errors::ImportError;
use crate::repo::{Repo, TreeEntry, blob_id_of, entries_view, fold_entries, tree_id_of,
    write_blob, write_tree};

/// The store's mode for a directory tree entry.
pub open spec fn tree_mode() -> u32 {
    0o40000
}

/// The store's mode for a symbolic link entry.
pub open spec fn link_mode() -> u32 {
    0o120000
}

/// The file mode stored for a regular entry with tar permission bits `m`:
/// executable if any execute bit is set, regular if any read bit is set or
/// the field is exactly zero, unsupported otherwise.
pub open spec fn map_mode(m: u32) -> Option<u32> {
    if m & 0o111 != 0 {
        Some(0o100755)
    } else if m & 0o444 != 0 {
        Some(0o100644)
    } else if m == 0 {
        Some(0o100644)
    } else {
        None
    }
}

/// Decide the stored file mode from tar permission bits.
pub fn mode_for(m: u32) -> (r: Option<u32>)
    ensures
        r == map_mode(m),
{
    if m & 0o111 != 0 {
        Some(0o100755)
    } else if m & 0o444 != 0 {
        Some(0o100644)
    } else if m == 0 {
        Some(0o100644)
    } else {
        None
    }
}

/// Index of the first `/` in `p`, or the length if there is none.
pub open spec fn first_slash(p: Seq<u8>) -> nat
    decreases p.len(),
{
    if p.len() == 0 {
        0
    } else if p[0] == 47 {
        0
    } else {
        1 + first_slash(p.skip(1))
    }
}

/// Index of the last `/` in `p`, if any.
pub open spec fn last_slash(p: Seq<u8>) -> Option<int>
    decreases p.len(),
{
    if p.len() == 0 {
        None
    } else if p[p.len() - 1] == 47 {
        Some(p.len() - 1)
    } else {
        last_slash(p.drop_last())
    }
}

/// The directory part of a relative path: what stands before the last `/`,
/// or the empty path.
pub open spec fn dir_of(rel: Seq<u8>) -> Seq<u8> {
    match last_slash(rel) {
        Some(i) => rel.take(i),
        None => Seq::empty(),
    }
}

/// The basename of a relative path: what follows the last `/`, or all of it.
pub open spec fn name_of(rel: Seq<u8>) -> Seq<u8> {
    match last_slash(rel) {
        Some(i) => rel.skip(i + 1),
        None => rel,
    }
}

/// What processing one entry does.
pub enum EntryAction {
    /// The entry adds nothing: a directory, or a path under no top-level
    /// directory.
    Skip,
    /// The entry aborts the conversion: unreadable or unsupported mode.
    Fail,
    /// The entry places `name` in the accumulator of `dir`, with the given
    /// mode and content bytes.
    Place { dir: Seq<u8>, name: Seq<u8>, mode: u32, content: Seq<u8> },
}

/// The decision for one entry, in the order the conversion takes it:
/// directories are skipped; an unreadable permission field aborts; links
/// store their target; regular entries map their permission bits, and an
/// unsupported value aborts; an entry not under exactly one leading path
/// segment is skipped; the leading segment is stripped.
pub open spec fn entry_action(e: EntrySpec) -> EntryAction {
    if e.is_dir {
        EntryAction::Skip
    } else if e.mode is None {
        EntryAction::Fail
    } else {
        let mc: Option<(u32, Seq<u8>)> = match e.link {
            Some(target) => Some((link_mode(), target)),
            None => match map_mode(e.mode.unwrap()) {
                Some(m) => Some((m, e.content)),
                None => None,
            },
        };
        match mc {
            None => EntryAction::Fail,
            Some((mode, content)) => {
                let fs = first_slash(e.path);
                if fs == e.path.len() {
                    EntryAction::Skip
                } else {
                    let rel = e.path.skip(fs as int + 1);
                    EntryAction::Place {
                        dir: dir_of(rel),
                        name: name_of(rel),
                        mode: mode,
                        content: content,
                    }
                }
            },
        }
    }
}

/// Mode mapping at the placement level: an entry under a leading path
/// segment keeps its link target under link mode; a regular entry is
/// placed executable when any execute bit is set, and regular when any
/// read bit is set or the permission field is exactly zero, its content
/// becoming the placed blob.
pub proof fn lemma_mode_placement(e: EntrySpec)
    requires
        !e.is_dir,
        e.mode is Some,
        first_slash(e.path) < e.path.len(),
    ensures
        e.link matches Some(target) ==> entry_action(e) == (EntryAction::Place {
            dir: dir_of(e.path.skip(first_slash(e.path) as int + 1)),
            name: name_of(e.path.skip(first_slash(e.path) as int + 1)),
            mode: link_mode(),
            content: target,
        }),
        e.link is None && e.mode.unwrap() & 0o111 != 0 ==> entry_action(e) == (EntryAction::Place {
            dir: dir_of(e.path.skip(first_slash(e.path) as int + 1)),
            name: name_of(e.path.skip(first_slash(e.path) as int + 1)),
            mode: 0o100755u32,
            content: e.content,
        }),
        e.link is None && e.mode.unwrap() & 0o111 == 0 && (e.mode.unwrap() & 0o444 != 0
            || e.mode.unwrap() == 0) ==> entry_action(e) == (EntryAction::Place {
            dir: dir_of(e.path.skip(first_slash(e.path) as int + 1)),
            name: name_of(e.path.skip(first_slash(e.path) as int + 1)),
            mode: 0o100644u32,
            content: e.content,
        }),
{
}

/// Whether every entry can be processed without aborting.
pub open spec fn modes_ok(entries: Seq<EntrySpec>) -> bool {
    forall|i: int| 0 <= i < entries.len() ==> !((#[trigger] entry_action(entries[i])) is Fail)
}

/// One directory accumulator at the specification level: a directory path
/// and the entries placed in it so far, in order.
pub struct DirSpec {
    pub path: Seq<u8>,
    pub entries: Seq<(Seq<u8>, u32, Seq<u8>)>,
}

/// Index of the first accumulator for `p`, or `-1`.
pub open spec fn dir_index(ds: Seq<DirSpec>, p: Seq<u8>) -> int
    decreases ds.len(),
{
    if ds.len() == 0 {
        -1
    } else if ds[0].path == p {
        0
    } else {
        let r = dir_index(ds.drop_first(), p);
        if r < 0 {
            -1
        } else {
            r + 1
        }
    }
}

/// Whether an accumulator for `p` exists.
pub open spec fn has_dir(ds: Seq<DirSpec>, p: Seq<u8>) -> bool {
    dir_index(ds, p) >= 0
}

/// The entries placed directly in `p` so far.
pub open spec fn dir_entries(ds: Seq<DirSpec>, p: Seq<u8>) -> Seq<(Seq<u8>, u32, Seq<u8>)> {
    if has_dir(ds, p) {
        ds[dir_index(ds, p)].entries
    } else {
        Seq::empty()
    }
}

/// Create the accumulator for `p` if it is not there yet.
pub open spec fn ensure_dir(ds: Seq<DirSpec>, p: Seq<u8>) -> Seq<DirSpec> {
    if has_dir(ds, p) {
        ds
    } else {
        ds.push(DirSpec { path: p, entries: Seq::empty() })
    }
}

/// Create accumulators for every proper ancestor of `dir`: for each `/` at
/// position `j >= i`, the prefix before it.
pub open spec fn ensure_ancestors(ds: Seq<DirSpec>, dir: Seq<u8>, i: int) -> Seq<DirSpec>
    decreases dir.len() - i,
{
    if i < 0 || i >= dir.len() {
        ds
    } else if dir[i] == 47 {
        ensure_ancestors(ensure_dir(ds, dir.take(i)), dir, i + 1)
    } else {
        ensure_ancestors(ds, dir, i + 1)
    }
}

/// Append one placed entry to the accumulator of `p`.
pub open spec fn add_entry(
    ds: Seq<DirSpec>,
    p: Seq<u8>,
    name: Seq<u8>,
    mode: u32,
    id: Seq<u8>,
) -> Seq<DirSpec> {
    let i = dir_index(ds, p);
    if 0 <= i < ds.len() {
        ds.update(i, DirSpec { path: p, entries: ds[i].entries.push((name, mode, id)) })
    } else {
        ds
    }
}

/// The accumulators after one more entry.
pub open spec fn apply_entry(ds: Seq<DirSpec>, e: EntrySpec) -> Seq<DirSpec> {
    match entry_action(e) {
        EntryAction::Place { dir, name, mode, content } => {
            let ds1 = ensure_dir(ensure_ancestors(ds, dir, 0), dir);
            add_entry(ds1, dir, name, mode, blob_id_of(content))
        },
        _ => ds,
    }
}

/// The accumulators after the first `n` entries, starting from the root
/// accumulator alone.
pub open spec fn dirs_after(entries: Seq<EntrySpec>, n: int) -> Seq<DirSpec>
    decreases n,
{
    if n <= 0 {
        seq![DirSpec { path: Seq::empty(), entries: Seq::empty() }]
    } else {
        apply_entry(dirs_after(entries, n - 1), entries[n - 1])
    }
}

/// The accumulators after all entries.
pub open spec fn built_dirs(entries: Seq<EntrySpec>) -> Seq<DirSpec> {
    dirs_after(entries, entries.len() as int)
}

/// Whether `c` is the path of a direct child directory of `p`: `p`, a `/`
/// (absent for the root), then a basename free of `/`.
pub open spec fn is_child(p: Seq<u8>, c: Seq<u8>) -> bool {
    if p.len() == 0 {
        c.len() > 0 && first_slash(c) == c.len()
    } else {
        c.len() >= p.len() + 1 && c.take(p.len() as int) == p && c[p.len() as int] == 47
            && first_slash(c.skip(p.len() as int + 1)) == c.len() - p.len() - 1
    }
}

/// The basename under which a child directory enters its parent.
pub open spec fn child_name(p: Seq<u8>, c: Seq<u8>) -> Seq<u8> {
    if p.len() == 0 {
        c
    } else {
        c.skip(p.len() as int + 1)
    }
}

/// How many accumulators have a path strictly longer than `p`: every
/// descendant of `p` is among them, so this bounds the depth below `p`.
pub open spec fn longer_count(ds: Seq<DirSpec>, p: Seq<u8>) -> nat
    decreases ds.len(),
{
    if ds.len() == 0 {
        0
    } else {
        (if ds[0].path.len() > p.len() {
            1nat
        } else {
            0nat
        }) + longer_count(ds.drop_first(), p)
    }
}

/// The tree entries contributed to `p` by its child directories at indices
/// `i` onward, each finalized with one unit of fuel less.
pub open spec fn ce_f(ds: Seq<DirSpec>, p: Seq<u8>, i: int, fuel: nat) -> Seq<
    (Seq<u8>, u32, Seq<u8>),
>
    decreases fuel, ds.len() - i,
{
    if i < 0 || i >= ds.len() {
        Seq::empty()
    } else {
        let rest = ce_f(ds, p, i + 1, fuel);
        if is_child(p, ds[i].path) && fuel > 0 {
            seq![(child_name(p, ds[i].path), tree_mode(), dir_id_f(ds, ds[i].path, (fuel - 1) as nat))]
                + rest
        } else if is_child(p, ds[i].path) {
            seq![(child_name(p, ds[i].path), tree_mode(), Seq::<u8>::empty())] + rest
        } else {
            rest
        }
    }
}

/// The id of the finalized tree for `p`: its own entries, then one entry
/// per direct child directory, folded into the store's name map.
pub open spec fn dir_id_f(ds: Seq<DirSpec>, p: Seq<u8>, fuel: nat) -> Seq<u8>
    decreases fuel, ds.len() + 1,
{
    tree_id_of(
        fold_entries(
            Map::<Seq<u8>, (u32, Seq<u8>)>::empty(),
            dir_entries(ds, p) + ce_f(ds, p, 0, fuel),
        ),
    )
}

/// The id of the finalized tree for `p`, with fuel that always suffices.
pub open spec fn dir_tree_id(ds: Seq<DirSpec>, p: Seq<u8>) -> Seq<u8> {
    dir_id_f(ds, p, (longer_count(ds, p) + 1) as nat)
}

/// The tree id the whole conversion yields from a sequence of entries.
pub open spec fn spec_tree_of(entries: Seq<EntrySpec>) -> Seq<u8> {
    dir_tree_id(built_dirs(entries), Seq::<u8>::empty())
}

pub proof fn lemma_longer_mono(ds: Seq<DirSpec>, p: Seq<u8>, c: Seq<u8>)
    requires
        p.len() <= c.len(),
    ensures
        longer_count(ds, c) <= longer_count(ds, p),
    decreases ds.len(),
{
    if ds.len() > 0 {
        lemma_longer_mono(ds.drop_first(), p, c);
    }
}

pub proof fn lemma_longer_strict(ds: Seq<DirSpec>, p: Seq<u8>, i: int)
    requires
        0 <= i < ds.len(),
        ds[i].path.len() > p.len(),
    ensures
        longer_count(ds, ds[i].path) < longer_count(ds, p),
    decreases ds.len(),
{
    let c = ds[i].path;
    if i == 0 {
        lemma_longer_mono(ds.drop_first(), p, c);
    } else {
        assert(ds.drop_first()[i - 1] == ds[i]);
        lemma_longer_strict(ds.drop_first(), p, i - 1);
    }
}

pub proof fn lemma_ce_fuel(ds: Seq<DirSpec>, p: Seq<u8>, i: int, f1: nat, f2: nat)
    requires
        f1 > longer_count(ds, p),
        f2 > longer_count(ds, p),
    ensures
        ce_f(ds, p, i, f1) == ce_f(ds, p, i, f2),
    decreases f1 + f2, ds.len() - i,
{
    if 0 <= i < ds.len() {
        lemma_ce_fuel(ds, p, i + 1, f1, f2);
        if is_child(p, ds[i].path) {
            lemma_longer_strict(ds, p, i);
            lemma_dir_id_fuel(ds, ds[i].path, (f1 - 1) as nat, (f2 - 1) as nat);
        }
    }
}

pub proof fn lemma_dir_id_fuel(ds: Seq<DirSpec>, p: Seq<u8>, f1: nat, f2: nat)
    requires
        f1 > longer_count(ds, p),
        f2 > longer_count(ds, p),
    ensures
        dir_id_f(ds, p, f1) == dir_id_f(ds, p, f2),
    decreases f1 + f2, ds.len() + 1,
{
    lemma_ce_fuel(ds, p, 0, f1, f2);
}


/// Properties of `dir_index`: it is a valid first-match index, or `-1` when
/// no accumulator has the path.
pub proof fn lemma_dir_index_props(ds: Seq<DirSpec>, p: Seq<u8>)
    ensures
        -1 <= dir_index(ds, p) < ds.len(),
        dir_index(ds, p) >= 0 ==> ds[dir_index(ds, p)].path == p,
        forall|j: int| 0 <= j < ds.len() && j < dir_index(ds, p) ==> (#[trigger] ds[j]).path != p,
        dir_index(ds, p) == -1 ==> forall|j: int| 0 <= j < ds.len() ==> (#[trigger] ds[j]).path != p,
    decreases ds.len(),
{
    if ds.len() > 0 && ds[0].path != p {
        lemma_dir_index_props(ds.drop_first(), p);
        assert forall|j: int| 1 <= j < ds.len() implies ds.drop_first()[j - 1] == ds[j] by {}
    }
}

/// `dir_index` finds exactly the index whose path matches first.
pub proof fn lemma_dir_index_at(ds: Seq<DirSpec>, p: Seq<u8>, i: int)
    requires
        0 <= i < ds.len(),
        ds[i].path == p,
        forall|j: int| 0 <= j < i ==> (#[trigger] ds[j]).path != p,
    ensures
        dir_index(ds, p) == i,
    decreases ds.len(),
{
    if i > 0 {
        assert(ds[0].path != p);
        assert(ds.drop_first()[i - 1] == ds[i]);
        assert forall|j: int| 0 <= j < i - 1 implies (#[trigger] ds.drop_first()[j]).path != p by {
            assert(ds.drop_first()[j] == ds[j + 1]);
        }
        lemma_dir_index_at(ds.drop_first(), p, i - 1);
    }
}

/// Compare two byte vectors for equal contents.
pub fn bytes_eq(a: &Vec<u8>, b: &Vec<u8>) -> (r: bool)
    ensures
        r == (a@ == b@),
{
    if a.len() != b.len() {
        return false;
    }
    let mut i: usize = 0;
    while i < a.len()
        invariant
            i <= a@.len(),
            a@.len() == b@.len(),
            forall|j: int| 0 <= j < i ==> a@[j] == b@[j],
        decreases a@.len() - i,
    {
        if a[i] != b[i] {
            return false;
        }
        i = i + 1;
    }
    proof {
        assert(a@ =~= b@);
    }
    true
}

/// Copy the byte range `[from, to)` of `v` into a fresh vector.
pub fn sub_vec(v: &Vec<u8>, from: usize, to: usize) -> (r: Vec<u8>)
    requires
        from <= to <= v@.len(),
    ensures
        r@ == v@.subrange(from as int, to as int),
{
    let mut out: Vec<u8> = Vec::new();
    let mut i = from;
    while i < to
        invariant
            from <= i <= to <= v@.len(),
            out@ =~= v@.subrange(from as int, i as int),
        decreases to - i,
    {
        out.push(v[i]);
        proof {
            assert(out@ =~= v@.subrange(from as int, i as int + 1));
        }
        i = i + 1;
    }
    proof {
        assert(out@ =~= v@.subrange(from as int, to as int));
    }
    out
}

/// Find the first `/` in `p`, or its length if there is none.
pub fn first_slash_exec(p: &Vec<u8>) -> (r: usize)
    ensures
        r == first_slash(p@),
        r <= p@.len(),
{
    let mut j: usize = 0;
    proof {
        assert(p@.skip(0) =~= p@);
    }
    while j < p.len() && p[j] != 47
        invariant
            j <= p@.len(),
            first_slash(p@) == j + first_slash(p@.skip(j as int)),
        decreases p@.len() - j,
    {
        proof {
            assert(p@.skip(j as int)[0] == p@[j as int]);
            assert(p@.skip(j as int).skip(1) =~= p@.skip(j as int + 1));
        }
        j = j + 1;
    }
    proof {
        if j < p@.len() {
            assert(p@.skip(j as int)[0] == 47);
        }
        assert(first_slash(p@.skip(j as int)) == 0);
    }
    j
}

/// Find the last `/` in `p`, if any.
pub fn last_slash_exec(p: &Vec<u8>) -> (r: Option<usize>)
    ensures
        match r {
            Some(i) => last_slash(p@) == Some(i as int) && i < p@.len(),
            None => last_slash(p@) is None,
        },
{
    let mut j: usize = p.len();
    proof {
        assert(p@.take(j as int) =~= p@);
    }
    while j > 0
        invariant
            j <= p@.len(),
            last_slash(p@) == last_slash(p@.take(j as int)),
        decreases j,
    {
        if p[j - 1] == 47 {
            proof {
                assert(p@.take(j as int)[j - 1] == p@[j - 1]);
            }
            return Some(j - 1);
        }
        proof {
            assert(p@.take(j as int)[j - 1] == p@[j - 1]);
            assert(p@.take(j as int).drop_last() =~= p@.take(j as int - 1));
        }
        j = j - 1;
    }
    None
}

/// One in-progress directory accumulator.
pub struct DirAcc {
    pub path: Vec<u8>,
    pub entries: Vec<TreeEntry>,
}

impl View for DirAcc {
    type V = DirSpec;

    open spec fn view(&self) -> DirSpec {
        DirSpec { path: self.path@, entries: entries_view(self.entries@) }
    }
}

/// All directory accumulators of one conversion, keyed by directory path.
pub struct DirMap {
    pub dirs: Vec<DirAcc>,
}

impl View for DirMap {
    type V = Seq<DirSpec>;

    open spec fn view(&self) -> Seq<DirSpec> {
        self.dirs@.map(|i: int, d: DirAcc| d@)
    }
}

impl DirMap {
    /// Find the accumulator for `p`.
    pub fn find_dir(&self, p: &Vec<u8>) -> (r: Option<usize>)
        ensures
            match r {
                Some(i) => i < self@.len() && dir_index(self@, p@) == i as int,
                None => dir_index(self@, p@) == -1,
            },
    {
        let mut i: usize = 0;
        while i < self.dirs.len()
            invariant
                i <= self@.len(),
                self@.len() == self.dirs@.len(),
                forall|j: int| 0 <= j < i ==> (#[trigger] self@[j]).path != p@,
            decreases self@.len() - i,
        {
            if bytes_eq(&self.dirs[i].path, p) {
                proof {
                    lemma_dir_index_at(self@, p@, i as int);
                }
                return Some(i);
            }
            i = i + 1;
        }
        proof {
            lemma_dir_index_props(self@, p@);
        }
        None
    }

    /// Create the accumulator for `p` if it is not there yet.
    pub fn ensure_dir_exec(&mut self, p: &Vec<u8>)
        ensures
            final(self)@ == ensure_dir(old(self)@, p@),
    {
        match self.find_dir(p) {
            Some(_) => (),
            None => {
                let path = sub_vec(p, 0, p.len());
                proof {
                    assert(path@ =~= p@);
                }
                self.dirs.push(DirAcc { path, entries: Vec::new() });
                proof {
                    assert(entries_view(Seq::<TreeEntry>::empty()) =~= Seq::<(
                        Seq<u8>,
                        u32,
                        Seq<u8>,
                    )>::empty());
                    assert(self@ =~= ensure_dir(old(self)@, p@));
                }
            },
        }
    }

    /// Append one entry to the accumulator at `idx`.
    pub fn push_at(&mut self, idx: usize, name: Vec<u8>, mode: u32, id: Vec<u8>)
        requires
            idx < old(self)@.len(),
        ensures
            final(self)@ == old(self)@.update(
                idx as int,
                DirSpec {
                    path: old(self)@[idx as int].path,
                    entries: old(self)@[idx as int].entries.push((name@, mode, id@)),
                },
            ),
    {
        let ghost target = old(self)@.update(
            idx as int,
            DirSpec {
                path: old(self)@[idx as int].path,
                entries: old(self)@[idx as int].entries.push((name@, mode, id@)),
            },
        );
        let mut d = self.dirs.remove(idx);
        let ghost oldd = d;
        d.entries.push(TreeEntry { name, mode, id });
        proof {
            assert(entries_view(d.entries@) =~= entries_view(oldd.entries@).push(
                (name@, mode, id@),
            ));
        }
        self.dirs.insert(idx, d);
        proof {
            assert(self@ =~= target);
        }
    }
}

/// Create accumulators for every proper ancestor of `dir`.
pub fn ensure_ancestors_exec(dm: &mut DirMap, dir: &Vec<u8>)
    ensures
        final(dm)@ == ensure_ancestors(old(dm)@, dir@, 0),
{
    let ghost ds0 = dm@;
    let mut i: usize = 0;
    while i < dir.len()
        invariant
            i <= dir@.len(),
            ensure_ancestors(ds0, dir@, 0) == ensure_ancestors(dm@, dir@, i as int),
        decreases dir@.len() - i,
    {
        if dir[i] == 47 {
            let pre = sub_vec(dir, 0, i);
            proof {
                assert(pre@ =~= dir@.take(i as int));
            }
            dm.ensure_dir_exec(&pre);
        }
        i = i + 1;
    }
}

/// Copy one tree entry.
fn clone_entry(e: &TreeEntry) -> (r: TreeEntry)
    ensures
        r@ == e@,
{
    TreeEntry {
        name: sub_vec(&e.name, 0, e.name.len()),
        mode: e.mode,
        id: sub_vec(&e.id, 0, e.id.len()),
    }
}

/// Whether `c` is the path of a direct child directory of `p`.
pub fn is_child_exec(p: &Vec<u8>, c: &Vec<u8>) -> (r: bool)
    ensures
        r == is_child(p@, c@),
{
    if p.len() == 0 {
        if c.len() == 0 {
            return false;
        }
        let fs = first_slash_exec(c);
        fs == c.len()
    } else {
        if c.len() <= p.len() {
            return false;
        }
        let head = sub_vec(c, 0, p.len());
        if !bytes_eq(&head, p) {
            proof {
                assert(c@.take(p@.len() as int) == head@);
            }
            return false;
        }
        if c[p.len()] != 47 {
            return false;
        }
        let cl = c.len();
        let tail = sub_vec(c, p.len() + 1, cl);
        let fs = first_slash_exec(&tail);
        proof {
            assert(tail@ =~= c@.skip(p@.len() as int + 1));
            assert(c@.take(p@.len() as int) == head@);
        }
        fs == tail.len()
    }
}

/// The basename under which the child directory `c` enters `p`.
pub fn child_name_exec(p: &Vec<u8>, c: &Vec<u8>) -> (r: Vec<u8>)
    requires
        p@.len() == 0 || p@.len() + 1 <= c@.len(),
    ensures
        r@ == child_name(p@, c@),
{
    if p.len() == 0 {
        let r = sub_vec(c, 0, c.len());
        proof {
            assert(r@ =~= c@);
        }
        r
    } else {
        let cl = c.len();
        let r = sub_vec(c, p.len() + 1, cl);
        proof {
            assert(r@ =~= c@.skip(p@.len() as int + 1));
        }
        r
    }
}

/// Finalize the accumulator for `p`: finalize every direct child first,
/// append each child tree under its basename with directory mode, and store
/// the resulting tree.
pub fn finalize_dir(repo: &Repo, dm: &DirMap, p: &Vec<u8>) -> (r: Result<Vec<u8>, ImportError>)
    ensures
        r matches Ok(id) ==> id@ == dir_tree_id(dm@, p@),
        r is Err ==> r->Err_0 == ImportError::RepositoryWrite,
    decreases longer_count(dm@, p@),
{
    let ghost fuel = (longer_count(dm@, p@) + 1) as nat;
    let mut out: Vec<TreeEntry> = Vec::new();
    match dm.find_dir(p) {
        Some(di) => {
            proof {
                lemma_dir_index_props(dm@, p@);
            }
            let src = &dm.dirs[di];
            let mut j: usize = 0;
            while j < src.entries.len()
                invariant
                    j <= src.entries@.len(),
                    src@ == dm@[di as int],
                    di < dm@.len(),
                    dm@[di as int].entries == entries_view(src.entries@),
                    entries_view(out@) =~= dm@[di as int].entries.take(j as int),
                decreases src.entries@.len() - j,
            {
                let te = clone_entry(&src.entries[j]);
                let ghost tv = te@;
                let ghost out0 = out@;
                out.push(te);
                proof {
                    assert(tv == entries_view(src.entries@)[j as int]);
                    assert(entries_view(out0.push(te)) =~= entries_view(out0).push(tv));
                    assert(dm@[di as int].entries.take(j as int + 1) =~= dm@[
                        di as int
                    ].entries.take(j as int).push(dm@[di as int].entries[j as int]));
                    assert(entries_view(out@) =~= dm@[di as int].entries.take(j as int + 1));
                }
                j = j + 1;
            }
            proof {
                assert(dm@[di as int].entries.take(src.entries@.len() as int) =~= dm@[
                    di as int
                ].entries);
                assert(entries_view(out@) == dir_entries(dm@, p@));
            }
        },
        None => {
            proof {
                assert(entries_view(Seq::<TreeEntry>::empty()) =~= Seq::<(
                    Seq<u8>,
                    u32,
                    Seq<u8>,
                )>::empty());
                assert(entries_view(out@) == dir_entries(dm@, p@));
            }
        },
    }
    let mut i: usize = 0;
    while i < dm.dirs.len()
        invariant
            i <= dm@.len(),
            dm@.len() == dm.dirs@.len(),
            fuel == (longer_count(dm@, p@) + 1) as nat,
            entries_view(out@) + ce_f(dm@, p@, i as int, fuel) =~= dir_entries(dm@, p@) + ce_f(
                dm@,
                p@,
                0,
                fuel,
            ),
        decreases dm@.len() - i,
    {
        if is_child_exec(p, &dm.dirs[i].path) {
            proof {
                lemma_longer_strict(dm@, p@, i as int);
            }
            let cid = match finalize_dir(repo, dm, &dm.dirs[i].path) {
                Ok(c) => c,
                Err(e) => return Err(e),
            };
            proof {
                lemma_dir_id_fuel(
                    dm@,
                    dm@[i as int].path,
                    (longer_count(dm@, dm@[i as int].path) + 1) as nat,
                    (fuel - 1) as nat,
                );
            }
            let name = child_name_exec(p, &dm.dirs[i].path);
            out.push(TreeEntry { name, mode: 0o40000, id: cid });
            proof {
                assert(entries_view(out@) =~= entries_view(out@.drop_last()).push(
                    (child_name(p@, dm@[i as int].path), tree_mode(), dir_id_f(
                        dm@,
                        dm@[i as int].path,
                        (fuel - 1) as nat,
                    )),
                ));
                assert(entries_view(out@) + ce_f(dm@, p@, i as int + 1, fuel) =~= dir_entries(
                    dm@,
                    p@,
                ) + ce_f(dm@, p@, 0, fuel));
            }
        } else {
            proof {
                assert(ce_f(dm@, p@, i as int, fuel) == ce_f(dm@, p@, i as int + 1, fuel));
            }
        }
        i = i + 1;
    }
    proof {
        assert(ce_f(dm@, p@, dm@.len() as int, fuel) =~= Seq::<(Seq<u8>, u32, Seq<u8>)>::empty());
        assert(entries_view(out@) =~= dir_entries(dm@, p@) + ce_f(dm@, p@, 0, fuel));
    }
    write_tree(repo, &out)
}

/// Convert a gzip-compressed tar archive into one stored tree and return
/// the tree's id.
///
/// On success the id is exactly the one the conversion model assigns to the
/// archive's entries; an archive that does not read to its end, an entry
/// with an unreadable permission field, and an entry with an unsupported
/// permission value all fail instead. A failure other than a store write
/// always means the archive itself does not convert, so a caller may treat
/// those two error kinds as a property of the bytes.
pub fn tar_data_to_tree(tar_data: &Vec<u8>, repo: &Repo) -> (r: Result<Vec<u8>, ImportError>)
    ensures
        r matches Ok(id) ==> {
            &&& archive_parses(tar_data@)
            &&& modes_ok(archive_entries_of(tar_data@))
            &&& id@ == spec_tree_of(archive_entries_of(tar_data@))
        },
        !archive_parses(tar_data@) ==> r is Err,
        !modes_ok(archive_entries_of(tar_data@)) ==> r is Err,
        r is Err && r->Err_0 != ImportError::RepositoryWrite ==> !(archive_parses(tar_data@)
            && modes_ok(archive_entries_of(tar_data@))),
{
    let ghost entries = archive_entries_of(tar_data@);
    let mut stream = match open_archive(tar_data) {
        Ok(s) => s,
        // Opening fails only when no runtime to drive the reader could be
        // built: fatal for the run, like a store failure, and no verdict on
        // the bytes.
        Err(_) => return Err(ImportError::RepositoryWrite),
    };
    let mut dm = DirMap { dirs: Vec::new() };
    let root: Vec<u8> = Vec::new();
    proof {
        assert(root@ =~= Seq::<u8>::empty());
        assert(dm@ =~= Seq::<DirSpec>::empty());
        assert(dir_index(dm@, root@) == -1);
    }
    dm.ensure_dir_exec(&root);
    proof {
        assert(dm@ =~= dirs_after(entries, 0));
    }
    let ghost mut k: int = 0;
    loop
        invariant
            0 <= k <= entries.len(),
            entries == archive_entries_of(tar_data@),
            stream_rest(stream) == entries.skip(k),
            stream_ok(stream) == archive_parses(tar_data@),
            dm@ == dirs_after(entries, k),
            root@ == Seq::<u8>::empty(),
            forall|j: int| 0 <= j < k ==> !((#[trigger] entry_action(entries[j])) is Fail),
        decreases entries.len() - k,
    {
        let step = next_entry(&mut stream);
        match step {
            Err(e) => {
                proof {
                    assert(entries.skip(k).len() == 0);
                    assert(!archive_parses(tar_data@));
                }
                return Err(e);
            },
            Ok(None) => {
                proof {
                    assert(entries.skip(k).len() == 0);
                    assert(k == entries.len());
                    assert(archive_parses(tar_data@));
                    assert(modes_ok(entries));
                    assert(dm@ == built_dirs(entries));
                }
                return match finalize_dir(repo, &dm, &root) {
                    Ok(id) => Ok(id),
                    Err(e) => Err(e),
                };
            },
            Ok(Some(raw)) => {
                let ghost e = entries[k];
                proof {
                    assert(entries.skip(k).len() > 0);
                    assert(entries.skip(k)[0] == entries[k]);
                    assert(raw@ == e);
                    assert(entries.skip(k).skip(1) =~= entries.skip(k + 1));
                }
                if raw.is_dir {
                    proof {
                        assert(entry_action(e) is Skip);
                        assert(dirs_after(entries, k + 1) == dm@);
                        k = k + 1;
                    }
                } else {
                    let m = match raw.mode {
                        Some(m) => m,
                        None => {
                            proof {
                                assert(entry_action(e) is Fail);
                                assert(!modes_ok(entries));
                            }
                            return Err(ImportError::MalformedArchive);
                        },
                    };
                    let (mode, buf): (u32, Vec<u8>) = match raw.link {
                        Some(target) => (0o120000u32, target),
                        None => match mode_for(m) {
                            Some(mm) => (mm, raw.content),
                            None => {
                                proof {
                                    assert(entry_action(e) is Fail);
                                    assert(!modes_ok(entries));
                                }
                                return Err(ImportError::InvalidArchiveMode);
                            },
                        },
                    };
                    let fs = first_slash_exec(&raw.path);
                    if fs == raw.path.len() {
                        proof {
                            assert(entry_action(e) is Skip);
                            assert(dirs_after(entries, k + 1) == dm@);
                            k = k + 1;
                        }
                    } else {
                        let pl = raw.path.len();
                        let rel = sub_vec(&raw.path, fs + 1, pl);
                        proof {
                            assert(rel@ =~= e.path.skip(fs as int + 1));
                        }
                        let (dirp, name): (Vec<u8>, Vec<u8>) = match last_slash_exec(&rel) {
                            Some(ls) => (sub_vec(&rel, 0, ls), sub_vec(&rel, ls + 1, rel.len())),
                            None => (Vec::new(), sub_vec(&rel, 0, rel.len())),
                        };
                        proof {
                            assert(dirp@ == dir_of(rel@));
                            assert(name@ =~= name_of(rel@));
                            assert(entry_action(e) == (EntryAction::Place {
                                dir: dirp@,
                                name: name@,
                                mode: mode,
                                content: buf@,
                            }));
                        }
                        let blob_id = match write_blob(repo, &buf) {
                            Ok(b) => b,
                            Err(err) => return Err(err),
                        };
                        let ghost ds_before = dm@;
                        ensure_ancestors_exec(&mut dm, &dirp);
                        dm.ensure_dir_exec(&dirp);
                        let ghost ds1 = ensure_dir(ensure_ancestors(ds_before, dirp@, 0), dirp@);
                        let idx = match dm.find_dir(&dirp) {
                            Some(i) => i,
                            None => {
                                proof {
                                    let base = ensure_ancestors(ds_before, dirp@, 0);
                                    lemma_dir_index_props(base, dirp@);
                                    if !has_dir(base, dirp@) {
                                        lemma_dir_index_at(
                                            base.push(
                                                DirSpec { path: dirp@, entries: Seq::empty() },
                                            ),
                                            dirp@,
                                            base.len() as int,
                                        );
                                    }
                                    assert(has_dir(ds1, dirp@));
                                    assert(false);
                                }
                                return Err(ImportError::RepositoryWrite);
                            },
                        };
                        proof {
                            lemma_dir_index_props(dm@, dirp@);
                        }
                        dm.push_at(idx, name, mode, blob_id);
                        proof {
                            assert(dm@ == add_entry(ds1, dirp@, name@, mode, blob_id_of(buf@)));
                            assert(dm@ == apply_entry(dirs_after(entries, k), e));
                            assert(dirs_after(entries, k + 1) == dm@);
                            k = k + 1;
                        }
                    }
                }
            },
        }
    }
}


/// Idempotence of conversion: the tree id is a function of the archive
/// bytes alone, so two conversions of identical bytes that both succeed
/// yield identical identifiers.
pub proof fn lemma_convert_idempotent(data: Seq<u8>, id1: Seq<u8>, id2: Seq<u8>)
    requires
        id1 == spec_tree_of(archive_entries_of(data)),
        id2 == spec_tree_of(archive_entries_of(data)),
    ensures
        id1 == id2,
{
}


/// The placements of the first `n` entries that land somewhere: for each
/// entry the conversion places, its name, mode and blob id, in order.
pub open spec fn placements(e: Seq<EntrySpec>, n: int) -> Seq<(Seq<u8>, u32, Seq<u8>)>
    decreases n,
{
    if n <= 0 {
        Seq::empty()
    } else {
        placements(e, n - 1) + (match entry_action(e[n - 1]) {
            EntryAction::Place { dir, name, mode, content } => seq![
                (name, mode, blob_id_of(content)),
            ],
            _ => Seq::empty(),
        })
    }
}

/// An archive is flat when every entry is either skipped or placed directly
/// in the root: under the stripped top-level directory, with no further `/`.
pub open spec fn flat_entries(e: Seq<EntrySpec>) -> bool {
    forall|i: int|
        0 <= i < e.len() ==> match #[trigger] entry_action(e[i]) {
            EntryAction::Skip => true,
            EntryAction::Fail => false,
            EntryAction::Place { dir, .. } => dir == Seq::<u8>::empty(),
        }
}

/// No two placed entries share a name.
pub open spec fn distinct_names(e: Seq<EntrySpec>) -> bool {
    forall|i: int, j: int|
        0 <= i < j < e.len() ==> match (
            #[trigger] entry_action(e[i]),
            #[trigger] entry_action(e[j]),
        ) {
            (
                EntryAction::Place { name: n1, .. },
                EntryAction::Place { name: n2, .. },
            ) => n1 != n2,
            _ => true,
        }
}

/// A flat archive accumulates exactly one directory, the root, holding its
/// placements in entry order.
proof fn lemma_flat_dirs(e: Seq<EntrySpec>, n: int)
    requires
        0 <= n <= e.len(),
        flat_entries(e),
    ensures
        dirs_after(e, n) == seq![DirSpec { path: Seq::empty(), entries: placements(e, n) }],
    decreases n,
{
    if n == 0 {
        assert(placements(e, 0) =~= Seq::<(Seq<u8>, u32, Seq<u8>)>::empty());
    } else {
        lemma_flat_dirs(e, n - 1);
        let ds = dirs_after(e, n - 1);
        match entry_action(e[n - 1]) {
            EntryAction::Place { dir, name, mode, content } => {
                assert(ensure_ancestors(ds, dir, 0) == ds);
                assert(dir_index(ds, Seq::<u8>::empty()) == 0);
                assert(placements(e, n) =~= placements(e, n - 1).push(
                    (name, mode, blob_id_of(content)),
                ));
                assert(dirs_after(e, n) =~= seq![
                    DirSpec { path: Seq::empty(), entries: placements(e, n) },
                ]);
            },
            _ => {
                assert(placements(e, n) =~= placements(e, n - 1));
            },
        }
    }
}

/// What folding a run of uniquely named entries into the store's name map
/// holds: exactly the prior keys and the entry names, each name bound to
/// its entry's mode and id.
proof fn lemma_fold_distinct(m: Map<Seq<u8>, (u32, Seq<u8>)>, s: Seq<(Seq<u8>, u32, Seq<u8>)>)
    requires
        forall|i: int, j: int| 0 <= i < j < s.len() ==> s[i].0 != s[j].0,
    ensures
        forall|k: Seq<u8>|
            #[trigger] fold_entries(m, s).contains_key(k) <==> (m.contains_key(k) || exists|i: int|
                0 <= i < s.len() && s[i].0 == k),
        forall|i: int| 0 <= i < s.len() ==> fold_entries(m, s)[(#[trigger] s[i]).0] == (
            s[i].1,
            s[i].2,
        ),
        forall|k: Seq<u8>|
            m.contains_key(k) && !(exists|i: int| 0 <= i < s.len() && (#[trigger] s[i]).0 == k)
                ==> fold_entries(m, s)[k] == m[k],
    decreases s.len(),
{
    if s.len() > 0 {
        let m1 = m.insert(s[0].0, (s[0].1, s[0].2));
        let rest = s.skip(1);
        assert forall|i: int, j: int| 0 <= i < j < rest.len() implies rest[i].0 != rest[j].0 by {
            assert(rest[i] == s[i + 1] && rest[j] == s[j + 1]);
        }
        lemma_fold_distinct(m1, rest);
        assert(fold_entries(m, s) == fold_entries(m1, rest));
        assert forall|i: int| 0 <= i < s.len() implies fold_entries(m, s)[(#[trigger] s[i]).0]
            == (s[i].1, s[i].2) by {
            if i == 0 {
                let k = s[0].0;
                assert(m1.contains_key(k) && m1[k] == (s[0].1, s[0].2));
                assert(!(exists|j: int| 0 <= j < rest.len() && (#[trigger] rest[j]).0 == k)) by {
                    if exists|j: int| 0 <= j < rest.len() && (#[trigger] rest[j]).0 == k {
                        let j = choose|j: int|
                            0 <= j < rest.len() && (#[trigger] rest[j]).0 == k;
                        assert(rest[j] == s[j + 1]);
                    }
                }
                assert(fold_entries(m1, rest)[k] == m1[k]);
            } else {
                assert(rest[i - 1] == s[i]);
                assert(fold_entries(m1, rest)[rest[i - 1].0] == (rest[i - 1].1, rest[i - 1].2));
            }
        }
        assert forall|k: Seq<u8>| #[trigger] fold_entries(m, s).contains_key(k) implies (
            m.contains_key(k) || exists|i: int| 0 <= i < s.len() && (#[trigger] s[i]).0 == k) by {
            if !m.contains_key(k) {
                if k == s[0].0 {
                    assert((#[trigger] s[0]).0 == k);
                } else {
                    assert(!m1.contains_key(k));
                    assert(exists|i: int| 0 <= i < rest.len() && (#[trigger] rest[i]).0 == k);
                    let i = choose|i: int| 0 <= i < rest.len() && (#[trigger] rest[i]).0 == k;
                    assert((#[trigger] s[i + 1]).0 == k);
                }
            }
        }
        assert forall|k: Seq<u8>| (m.contains_key(k) || exists|i: int|
            0 <= i < s.len() && (#[trigger] s[i]).0 == k) implies fold_entries(
            m,
            s,
        ).contains_key(k) by {
            if !m.contains_key(k) {
                let i = choose|i: int| 0 <= i < s.len() && (#[trigger] s[i]).0 == k;
                if i == 0 {
                    assert(m1.contains_key(k));
                } else {
                    assert((#[trigger] rest[i - 1]).0 == k);
                }
            }
        }
        assert forall|k: Seq<u8>| m.contains_key(k) && !(exists|i: int|
            0 <= i < s.len() && (#[trigger] s[i]).0 == k) implies fold_entries(m, s)[k] == m[k]
            by {
            assert(s[0].0 != k) by {
                if s[0].0 == k {
                    assert((#[trigger] s[0]).0 == k);
                }
            }
            assert(m1.contains_key(k) && m1[k] == m[k]);
            assert(!(exists|j: int| 0 <= j < rest.len() && (#[trigger] rest[j]).0 == k)) by {
                if exists|j: int| 0 <= j < rest.len() && (#[trigger] rest[j]).0 == k {
                    let j = choose|j: int| 0 <= j < rest.len() && (#[trigger] rest[j]).0 == k;
                    assert((#[trigger] s[j + 1]).0 == k);
                }
            }
            assert(fold_entries(m1, rest)[k] == m1[k]);
        }
    }
}

/// The tuples that the placements of a flat archive hold are exactly those
/// of its placed entries.
proof fn lemma_placements_member(e: Seq<EntrySpec>, n: int, t: (Seq<u8>, u32, Seq<u8>))
    requires
        0 <= n <= e.len(),
    ensures
        placements(e, n).contains(t) <==> exists|i: int|
            0 <= i < n && match #[trigger] entry_action(e[i]) {
                EntryAction::Place { name, mode, content, .. } => t == (
                    name,
                    mode,
                    blob_id_of(content),
                ),
                _ => false,
            },
    decreases n,
{
    if n > 0 {
        lemma_placements_member(e, n - 1, t);
        let prev = placements(e, n - 1);
        match entry_action(e[n - 1]) {
            EntryAction::Place { dir, name, mode, content } => {
                let cur = placements(e, n);
                assert(cur =~= prev.push((name, mode, blob_id_of(content))));
                if prev.contains(t) {
                    let i = choose|i: int| 0 <= i < prev.len() && prev[i] == t;
                    assert(cur[i] == t);
                }
                if t == (name, mode, blob_id_of(content)) {
                    assert(cur[cur.len() - 1] == t);
                }
                if cur.contains(t) {
                    let i = choose|i: int| 0 <= i < cur.len() && cur[i] == t;
                    if i < prev.len() {
                        assert(prev[i] == t);
                    }
                }
            },
            _ => {
                assert(placements(e, n) =~= prev);
            },
        }
    }
}

/// Order independence for flat archives: two archives that hold the same
/// entries, in any two orders, each placing its entries directly in the
/// root under pairwise distinct names, build the same tree identifier.
pub proof fn lemma_order_independent(e1: Seq<EntrySpec>, e2: Seq<EntrySpec>)
    requires
        flat_entries(e1),
        flat_entries(e2),
        distinct_names(e1),
        distinct_names(e2),
        e1.to_multiset() == e2.to_multiset(),
    ensures
        spec_tree_of(e1) == spec_tree_of(e2),
{
    broadcast use vstd::seq_lib::group_to_multiset_ensures;

    let n1 = e1.len() as int;
    let n2 = e2.len() as int;
    let p1 = placements(e1, n1);
    let p2 = placements(e2, n2);
    lemma_flat_dirs(e1, n1);
    lemma_flat_dirs(e2, n2);
    let ds1 = built_dirs(e1);
    let ds2 = built_dirs(e2);
    assert(dir_index(ds1, Seq::<u8>::empty()) == 0);
    assert(dir_index(ds2, Seq::<u8>::empty()) == 0);
    assert(!is_child(Seq::<u8>::empty(), Seq::<u8>::empty()));
    assert(ce_f(ds1, Seq::<u8>::empty(), 1, 1) =~= Seq::<(Seq<u8>, u32, Seq<u8>)>::empty());
    assert(ce_f(ds1, Seq::<u8>::empty(), 0, 1) =~= Seq::<(Seq<u8>, u32, Seq<u8>)>::empty());
    assert(ce_f(ds2, Seq::<u8>::empty(), 1, 1) =~= Seq::<(Seq<u8>, u32, Seq<u8>)>::empty());
    assert(ce_f(ds2, Seq::<u8>::empty(), 0, 1) =~= Seq::<(Seq<u8>, u32, Seq<u8>)>::empty());
    assert(longer_count(ds1, Seq::<u8>::empty()) == 0) by {
        assert(ds1.drop_first() =~= Seq::<DirSpec>::empty());
        assert(longer_count(Seq::<DirSpec>::empty(), Seq::<u8>::empty()) == 0);
        assert(ds1[0].path.len() == 0);
    }
    assert(longer_count(ds2, Seq::<u8>::empty()) == 0) by {
        assert(ds2.drop_first() =~= Seq::<DirSpec>::empty());
        assert(longer_count(Seq::<DirSpec>::empty(), Seq::<u8>::empty()) == 0);
        assert(ds2[0].path.len() == 0);
    }
    assert(p1 + ce_f(ds1, Seq::<u8>::empty(), 0, 1) =~= p1);
    assert(p2 + ce_f(ds2, Seq::<u8>::empty(), 0, 1) =~= p2);

    lemma_placement_names_distinct(e1, n1);
    lemma_placement_names_distinct(e2, n2);
    let m0 = Map::<Seq<u8>, (u32, Seq<u8>)>::empty();
    lemma_fold_distinct(m0, p1);
    lemma_fold_distinct(m0, p2);
    assert forall|k: Seq<u8>|
        #[trigger] fold_entries(m0, p1).contains_key(k) implies fold_entries(
        m0,
        p2,
    ).contains_key(k) && fold_entries(m0, p1)[k] == fold_entries(m0, p2)[k] by {
        lemma_fold_transfer(e1, e2, p1, p2, k);
    }
    assert forall|k: Seq<u8>|
        #[trigger] fold_entries(m0, p2).contains_key(k) implies fold_entries(
        m0,
        p1,
    ).contains_key(k) by {
        lemma_fold_transfer(e2, e1, p2, p1, k);
    }
    assert(fold_entries(m0, p1) =~= fold_entries(m0, p2));
}

/// The placements of an archive with distinct names have distinct names.
proof fn lemma_placement_names_distinct(e: Seq<EntrySpec>, n: int)
    requires
        0 <= n <= e.len(),
        distinct_names(e),
    ensures
        forall|i: int, j: int| 0 <= i < j < placements(e, n).len() ==> (#[trigger] placements(
            e,
            n,
        )[i]).0 != (#[trigger] placements(e, n)[j]).0,
    decreases n,
{
    if n > 0 {
        lemma_placement_names_distinct(e, n - 1);
        let prev = placements(e, n - 1);
        let cur = placements(e, n);
        match entry_action(e[n - 1]) {
            EntryAction::Place { dir, name, mode, content } => {
                assert(cur =~= prev.push((name, mode, blob_id_of(content))));
                assert forall|i: int, j: int| 0 <= i < j < placements(e, n).len() implies (
                    #[trigger] placements(e, n)[i]).0 != (#[trigger] placements(e, n)[j]).0 by {
                    assert(placements(e, n)[i] == prev[i]);
                    if j < prev.len() {
                        assert(placements(e, n)[j] == prev[j]);
                        assert(prev[i].0 != prev[j].0);
                    } else {
                        assert(placements(e, n)[j] == (name, mode, blob_id_of(content)));
                        lemma_placements_member(e, n - 1, prev[i]);
                        assert(prev.contains(prev[i]));
                        let a = choose|a: int|
                            0 <= a < n - 1 && match #[trigger] entry_action(e[a]) {
                                EntryAction::Place { name: nm, mode: md, content: ct, .. } => prev[
                                    i
                                ] == (nm, md, blob_id_of(ct)),
                                _ => false,
                            };
                        assert(match (entry_action(e[a]), entry_action(e[n - 1])) {
                            (
                                EntryAction::Place { name: n1, .. },
                                EntryAction::Place { name: n2, .. },
                            ) => n1 != n2,
                            _ => true,
                        });
                    }
                }
            },
            _ => {
                assert(cur =~= prev);
                assert forall|i: int, j: int| 0 <= i < j < placements(e, n).len() implies (
                    #[trigger] placements(e, n)[i]).0 != (#[trigger] placements(e, n)[j]).0 by {
                    assert(placements(e, n)[i] == prev[i]);
                    assert(placements(e, n)[j] == prev[j]);
                    assert(prev[i].0 != prev[j].0);
                }
            },
        }
    }
}

/// A key of one flat fold is a key of the other, bound to the same value,
/// because the entry that placed it occurs in both archives.
proof fn lemma_fold_transfer(
    ea: Seq<EntrySpec>,
    eb: Seq<EntrySpec>,
    pa: Seq<(Seq<u8>, u32, Seq<u8>)>,
    pb: Seq<(Seq<u8>, u32, Seq<u8>)>,
    k: Seq<u8>,
)
    requires
        distinct_names(ea),
        distinct_names(eb),
        ea.to_multiset() == eb.to_multiset(),
        pa == placements(ea, ea.len() as int),
        pb == placements(eb, eb.len() as int),
        fold_entries(Map::<Seq<u8>, (u32, Seq<u8>)>::empty(), pa).contains_key(k),
    ensures
        fold_entries(Map::<Seq<u8>, (u32, Seq<u8>)>::empty(), pb).contains_key(k),
        fold_entries(Map::<Seq<u8>, (u32, Seq<u8>)>::empty(), pa)[k] == fold_entries(
            Map::<Seq<u8>, (u32, Seq<u8>)>::empty(),
            pb,
        )[k],
{
    broadcast use vstd::seq_lib::group_to_multiset_ensures;

    let m0 = Map::<Seq<u8>, (u32, Seq<u8>)>::empty();
    lemma_placement_names_distinct(ea, ea.len() as int);
    lemma_placement_names_distinct(eb, eb.len() as int);
    lemma_fold_distinct(m0, pa);
    lemma_fold_distinct(m0, pb);
    let i = choose|i: int| 0 <= i < pa.len() && (#[trigger] pa[i]).0 == k;
    let t = pa[i];
    lemma_placements_member(ea, ea.len() as int, t);
    assert(pa.contains(t));
    let a = choose|a: int|
        0 <= a < ea.len() && match #[trigger] entry_action(ea[a]) {
            EntryAction::Place { name, mode, content, .. } => t == (name, mode, blob_id_of(content)),
            _ => false,
        };
    assert(ea.contains(ea[a]));
    assert(ea.to_multiset().count(ea[a]) > 0);
    assert(eb.to_multiset().count(ea[a]) > 0);
    assert(eb.contains(ea[a]));
    let b = choose|b: int| 0 <= b < eb.len() && eb[b] == ea[a];
    lemma_placements_member(eb, eb.len() as int, t);
    assert(pb.contains(t));
    let j = choose|j: int| 0 <= j < pb.len() && pb[j] == t;
    assert(fold_entries(m0, pb)[t.0] == (t.1, t.2));
    assert(fold_entries(m0, pa)[k] == (t.1, t.2));
}

} // verus!
