//! Planning a content removal: classify the root, validate the manifest,
//! and derive the implied directories in children-first order.
use vstd::prelude::*;
use crate::path::{
    SLASH, is_absolute, trimmed, joined, is_cut, is_ancestor, names_root, trim, is_name_of, join,
    bytes_eq, copy_range,
};

verus! {

/// What the content root is on disk, seen without following links.
#[derive(Clone, Copy, Debug, PartialEq, Eq)]
pub enum EntryKind {
    Symlink,
    File,
    Directory,
    /// Nothing is there: an earlier run removed it.
    Absent,
}

/// A violated precondition: the torrent's metadata cannot be trusted.
#[derive(Clone, Debug, PartialEq, Eq)]
pub enum Fault {
    /// The content root is `/`.
    FilesystemRoot,
    /// The content root is at most one byte long.
    RootTooShort,
    /// The content root is not absolute.
    RootNotAbsolute,
    /// The declared file at this index is absolute.
    AbsoluteFile(usize),
    /// A single-file root whose manifest is not exactly that one file.
    ManifestMismatch,
    /// This resolved path lies outside the content root.
    Escape(Vec<u8>),
}

/// How the content of one torrent is to be removed.
#[derive(Clone, Debug, PartialEq, Eq)]
pub enum Plan {
    /// Remove the link at this path, never its target.
    UnlinkSymlink(Vec<u8>),
    /// Remove the single file at this path.
    UnlinkFile(Vec<u8>),
    /// Remove the declared files, then the implied directories, then the root.
    Tree(TreePlan),
    /// The content is already gone: nothing to remove.
    AlreadyGone,
}

/// A multi-file removal. `files` and `dirs` are joined onto `root`;
/// `dirs` is deepest first.
#[derive(Clone, Debug, PartialEq, Eq)]
pub struct TreePlan {
    pub root: Vec<u8>,
    pub files: Vec<Vec<u8>>,
    pub dirs: Vec<Vec<u8>>,
}

pub open spec fn views(ds: Seq<Vec<u8>>) -> Seq<Seq<u8>> {
    ds.map_values(|v: Vec<u8>| v@)
}

/// Every entry is at least as long as each entry after it.
pub open spec fn longest_first(ds: Seq<Seq<u8>>) -> bool {
    forall|a: int, b: int| 0 <= a < b < ds.len() ==> ds[a].len() >= ds[b].len()
}

pub open spec fn distinct(ds: Seq<Seq<u8>>) -> bool {
    forall|a: int, b: int| 0 <= a < b < ds.len() ==> ds[a] != ds[b]
}

/// `d` is an implied directory of one of the first `n` declared files.
pub open spec fn implied_by_first(files: Seq<Seq<u8>>, n: int, d: Seq<u8>) -> bool {
    exists|k: int| 0 <= k < n && is_ancestor(d, #[trigger] files[k])
}

/// `d` is an implied directory of some declared file.
pub open spec fn implied(files: Seq<Seq<u8>>, d: Seq<u8>) -> bool {
    implied_by_first(files, files.len() as int, d)
}

pub open spec fn root_is_valid(root: Seq<u8>) -> bool {
    trimmed(root) != seq![SLASH] && root.len() > 1 && is_absolute(root)
}

/// The fault of an invalid root, checked in this order.
pub open spec fn root_fault(root: Seq<u8>) -> Fault {
    if trimmed(root) == seq![SLASH] {
        Fault::FilesystemRoot
    } else if root.len() <= 1 {
        Fault::RootTooShort
    } else {
        Fault::RootNotAbsolute
    }
}

/// Index of the first absolute declared file, if any.
pub open spec fn first_absolute(files: Seq<Seq<u8>>, i: int) -> bool {
    0 <= i < files.len() && is_absolute(files[i]) && forall|k: int| 0 <= k < i ==> !is_absolute(#[trigger] files[k])
}

/// Checks the content root's preconditions.
pub fn check_root(root: &[u8]) -> (r: Result<(), Fault>)
    ensures
        r is Ok <==> root_is_valid(root@),
        r is Err ==> r == Err::<(), Fault>(root_fault(root@)),
{
    let t = trim(root);
    if t.len() == 1 && t[0] == SLASH {
        assert(t@ == seq![SLASH]);
        return Err(Fault::FilesystemRoot);
    }
    assert(t@ != seq![SLASH]);
    if root.len() <= 1 {
        return Err(Fault::RootTooShort);
    }
    if root[0] != SLASH {
        return Err(Fault::RootNotAbsolute);
    }
    Ok(())
}

/// Adds `d` to `dirs`, keeping them distinct and deepest first.
fn insert_dir(dirs: &mut Vec<Vec<u8>>, d: Vec<u8>)
    requires
        longest_first(views(old(dirs)@)),
        distinct(views(old(dirs)@)),
    ensures
        longest_first(views(final(dirs)@)),
        distinct(views(final(dirs)@)),
        forall|x: Seq<u8>|
            #[trigger] views(final(dirs)@).contains(x) <==> (views(old(dirs)@).contains(x) || x == d@),
{
    let ghost before = views(dirs@);
    let mut i: usize = 0;
    while i < dirs.len()
        invariant
            i <= dirs@.len(),
            before == views(dirs@),
            longest_first(before),
            distinct(before),
            forall|k: int| 0 <= k < i ==> before[k] != d@,
        decreases dirs@.len() - i,
    {
        if bytes_eq(dirs[i].as_slice(), d.as_slice()) {
            assert(before[i as int] == d@);
            return;
        }
        i = i + 1;
    }
    let mut pos: usize = 0;
    while pos < dirs.len() && dirs[pos].len() >= d.len()
        invariant
            pos <= dirs@.len(),
            before == views(dirs@),
            longest_first(before),
            distinct(before),
            forall|k: int| 0 <= k < pos ==> before[k].len() >= d@.len(),
        decreases dirs@.len() - pos,
    {
        pos = pos + 1;
    }
    let ghost dv = d@;
    dirs.insert(pos, d);
    proof {
        let after = views(dirs@);
        assert(after =~= before.insert(pos as int, dv));
        before.insert_ensures(pos as int, dv);
        assert forall|k: int| pos <= k < before.len() implies before[k].len() < dv.len() by {
            assert(before[pos as int].len() < dv.len());
        }
        assert forall|x: Seq<u8>| after.contains(x) <==> (before.contains(x) || x == dv) by {
            if after.contains(x) {
                let j = choose|j: int| 0 <= j < after.len() && after[j] == x;
                if j < pos {
                    assert(before[j] == x);
                } else if j > pos {
                    assert(before[j - 1] == x);
                }
            }
            if before.contains(x) {
                let j = choose|j: int| 0 <= j < before.len() && before[j] == x;
                if j < pos {
                    assert(after[j] == x);
                } else {
                    assert(after[j + 1] == x);
                }
            }
            if x == dv {
                assert(after[pos as int] == x);
            }
        }
        assert forall|a: int, b: int| 0 <= a < b < after.len() implies after[a].len() >= after[b].len()
            && after[a] != after[b] by {
            let oa = if a < pos { a } else if a == pos { -1 } else { a - 1 };
            let ob = if b < pos { b } else if b == pos { -1 } else { b - 1 };
            if a == pos {
                assert(after[b] == before[ob]);
            } else if b == pos {
                assert(after[a] == before[oa]);
            } else {
                assert(after[a] == before[oa]);
                assert(after[b] == before[ob]);
            }
        }
    }
}

/// `d` ends at one of the first `i` positions of `p` that cut out an ancestor.
pub open spec fn cut_before(p: Seq<u8>, i: int, d: Seq<u8>) -> bool {
    exists|j: int| 0 <= j < i && #[trigger] is_cut(p, j) && d == p.take(j)
}

/// The implied directories of `files` (relative), distinct and deepest first.
pub fn implied_dirs(files: &Vec<Vec<u8>>) -> (r: Vec<Vec<u8>>)
    ensures
        longest_first(views(r@)),
        distinct(views(r@)),
        forall|x: Seq<u8>| #[trigger] views(r@).contains(x) <==> implied(views(files@), x),
{
    let ghost fs = views(files@);
    let mut dirs: Vec<Vec<u8>> = Vec::new();
    assert(views(dirs@) =~= Seq::<Seq<u8>>::empty());
    let mut k: usize = 0;
    while k < files.len()
        invariant
            k <= files@.len(),
            fs == views(files@),
            longest_first(views(dirs@)),
            distinct(views(dirs@)),
            forall|x: Seq<u8>| #[trigger] views(dirs@).contains(x) <==> implied_by_first(fs, k as int, x),
        decreases files@.len() - k,
    {
        let p = &files[k];
        assert(fs[k as int] == p@);
        let mut i: usize = 0;
        while i < p.len()
            invariant
                k < files@.len(),
                fs == views(files@),
                fs[k as int] == p@,
                i <= p@.len(),
                longest_first(views(dirs@)),
                distinct(views(dirs@)),
                forall|x: Seq<u8>| #[trigger] views(dirs@).contains(x)
                    <==> (implied_by_first(fs, k as int, x) || cut_before(p@, i as int, x)),
            decreases p@.len() - i,
        {
            let cut = i > 0 && i + 1 < p.len() && p[i] == SLASH && p[i - 1] != SLASH;
            if cut {
                let d = copy_range(p.as_slice(), 0, i);
                insert_dir(&mut dirs, d);
            }
            proof {
                assert forall|x: Seq<u8>| #[trigger] views(dirs@).contains(x)
                    <==> (implied_by_first(fs, k as int, x) || cut_before(p@, i + 1, x)) by {
                    if cut_before(p@, i + 1, x) {
                        let j = choose|j: int| 0 <= j < i + 1 && #[trigger] is_cut(p@, j) && x == p@.take(j);
                        if j < i {
                            assert(cut_before(p@, i as int, x));
                        }
                    }
                    if cut_before(p@, i as int, x) {
                        let j = choose|j: int| 0 <= j < i && #[trigger] is_cut(p@, j) && x == p@.take(j);
                        assert(cut_before(p@, i + 1, x));
                    }
                    if cut && x == p@.take(i as int) {
                        assert(is_cut(p@, i as int));
                        assert(cut_before(p@, i + 1, x));
                    }
                }
            }
            i = i + 1;
        }
        proof {
            assert forall|x: Seq<u8>| #[trigger] views(dirs@).contains(x)
                <==> implied_by_first(fs, k + 1, x) by {
                if implied_by_first(fs, k + 1, x) {
                    let j = choose|j: int| 0 <= j < k + 1 && is_ancestor(x, #[trigger] fs[j]);
                    if j == k {
                        let c = choose|c: int| is_cut(p@, c) && x == p@.take(c);
                        assert(cut_before(p@, p@.len() as int, x));
                    } else {
                        assert(implied_by_first(fs, k as int, x));
                    }
                }
                if cut_before(p@, p@.len() as int, x) {
                    let c = choose|c: int| 0 <= c < p@.len() && #[trigger] is_cut(p@, c) && x == p@.take(c);
                    assert(is_ancestor(x, fs[k as int]));
                    assert(implied_by_first(fs, k + 1, x));
                }
                if implied_by_first(fs, k as int, x) {
                    let j = choose|j: int| 0 <= j < k && is_ancestor(x, #[trigger] fs[j]);
                    assert(implied_by_first(fs, k + 1, x));
                }
            }
        }
        k = k + 1;
    }
    dirs
}

/// `t` removes, under the trimmed `root`, exactly the declared `files` and
/// their implied directories, the directories distinct and deepest first.
pub open spec fn is_tree_of(t: TreePlan, root: Seq<u8>, files: Seq<Seq<u8>>) -> bool {
    let r = trimmed(root);
    &&& t.root@ == r
    &&& views(t.files@) == files.map_values(|f: Seq<u8>| joined(r, f))
    &&& longest_first(views(t.dirs@))
    &&& distinct(views(t.dirs@))
    &&& forall|x: Seq<u8>|
        #[trigger] views(t.dirs@).contains(x) <==> exists|d: Seq<u8>| #[trigger] implied(files, d) && x == joined(r, d)
}

/// What `plan_removal` owes for a valid root.
pub open spec fn plan_for(root: Seq<u8>, kind: EntryKind, files: Seq<Seq<u8>>, r: Result<Plan, Fault>) -> bool {
    match kind {
        EntryKind::Symlink => r matches Ok(Plan::UnlinkSymlink(p)) && p@ == root,
        EntryKind::File => if files.len() == 1 && names_root(root, files[0]) {
            r matches Ok(Plan::UnlinkFile(p)) && p@ == root
        } else {
            r == Err::<Plan, Fault>(Fault::ManifestMismatch)
        },
        EntryKind::Absent => r == Ok::<Plan, Fault>(Plan::AlreadyGone),
        EntryKind::Directory => if exists|i: int| first_absolute(files, i) {
            exists|i: int| first_absolute(files, i) && r == Err::<Plan, Fault>(Fault::AbsoluteFile(i as usize))
        } else {
            r matches Ok(Plan::Tree(t)) && is_tree_of(t, root, files)
        },
    }
}

proof fn lemma_joined_injective(r: Seq<u8>, a: Seq<u8>, b: Seq<u8>)
    requires
        r.len() > 1,
        r.last() != SLASH,
        joined(r, a) == joined(r, b),
    ensures
        a == b,
{
    assert(a =~= joined(r, a).skip(r.len() as int + 1));
    assert(b =~= joined(r, b).skip(r.len() as int + 1));
}

/// Decides how the content under `root` is to be removed.
pub fn plan_removal(root: &Vec<u8>, kind: EntryKind, files: &Vec<Vec<u8>>) -> (r: Result<Plan, Fault>)
    requires
        forall|k: int| 0 <= k < files@.len() ==> root@.len() + (#[trigger] files@[k])@.len() + 1 <= usize::MAX,
    ensures
        !root_is_valid(root@) ==> r == Err::<Plan, Fault>(root_fault(root@)),
        root_is_valid(root@) ==> plan_for(root@, kind, views(files@), r),
{
    match check_root(root.as_slice()) {
        Err(f) => {
            return Err(f);
        },
        Ok(()) => {},
    }
    match kind {
        EntryKind::Symlink => Ok(Plan::UnlinkSymlink(root.clone())),
        EntryKind::File => {
            if files.len() == 1 && is_name_of(root.as_slice(), files[0].as_slice()) {
                Ok(Plan::UnlinkFile(root.clone()))
            } else {
                Err(Fault::ManifestMismatch)
            }
        },
        EntryKind::Directory => plan_tree(root, files),
        EntryKind::Absent => Ok(Plan::AlreadyGone),
    }
}

proof fn lemma_trimmed_len(p: Seq<u8>)
    ensures
        trimmed(p).len() <= p.len(),
        p.len() > 0 ==> trimmed(p).len() > 0 && trimmed(p)[0] == p[0],
        trimmed(p).len() > 1 ==> trimmed(p).last() != SLASH,
    decreases p.len(),
{
    if p.len() > 1 && p.last() == SLASH {
        lemma_trimmed_len(p.drop_last());
    }
}

fn plan_tree(root: &Vec<u8>, files: &Vec<Vec<u8>>) -> (r: Result<Plan, Fault>)
    requires
        root_is_valid(root@),
        forall|k: int| 0 <= k < files@.len() ==> root@.len() + (#[trigger] files@[k])@.len() + 1 <= usize::MAX,
    ensures
        plan_for(root@, EntryKind::Directory, views(files@), r),
{
    let ghost fs = views(files@);
    let t = trim(root.as_slice());
    proof {
        lemma_trimmed_len(root@);
        if t@.len() == 1 {
            assert(t@ =~= seq![SLASH]);
        }
    }
    let mut joined_files: Vec<Vec<u8>> = Vec::new();
    let mut k: usize = 0;
    while k < files.len()
        invariant
            k <= files@.len(),
            fs == views(files@),
            t@ == trimmed(root@),
            t@.len() <= root@.len(),
            forall|j: int| 0 <= j < files@.len() ==> root@.len() + (#[trigger] files@[j])@.len() + 1 <= usize::MAX,
            forall|j: int| 0 <= j < k ==> !is_absolute(#[trigger] fs[j]),
            views(joined_files@) == fs.take(k as int).map_values(|f: Seq<u8>| joined(t@, f)),
        decreases files@.len() - k,
    {
        let f = &files[k];
        assert(fs[k as int] == f@);
        if f.len() > 0 && f[0] == SLASH {
            assert(first_absolute(fs, k as int));
            return Err(Fault::AbsoluteFile(k));
        }
        let j = join(t.as_slice(), f.as_slice());
        let ghost prev = joined_files@;
        joined_files.push(j);
        assert(views(joined_files@) =~= views(prev).push(joined(t@, f@)));
        assert(fs.take(k + 1) == fs.take(k as int).push(f@));
        assert(views(joined_files@) =~= fs.take(k + 1).map_values(|f: Seq<u8>| joined(t@, f)));
        k = k + 1;
    }
    assert(fs.take(k as int) == fs);
    assert(!exists|i: int| first_absolute(fs, i));
    let rel = implied_dirs(files);
    let ghost rv = views(rel@);
    let mut dirs: Vec<Vec<u8>> = Vec::new();
    let mut k: usize = 0;
    while k < rel.len()
        invariant
            k <= rel@.len(),
            rv == views(rel@),
            fs == views(files@),
            forall|x: Seq<u8>| #[trigger] rv.contains(x) <==> implied(fs, x),
            forall|j: int| 0 <= j < files@.len() ==> root@.len() + (#[trigger] files@[j])@.len() + 1 <= usize::MAX,
            t@ == trimmed(root@),
            t@.len() <= root@.len(),
            dirs@.len() == k,
            forall|j: int| 0 <= j < k ==> (#[trigger] dirs@[j])@ == joined(t@, rv[j]),
        decreases rel@.len() - k,
    {
        let d = &rel[k];
        assert(rv[k as int] == d@);
        assert(rv.contains(d@));
        let ghost w = choose|w: int| 0 <= w < fs.len() && is_ancestor(d@, #[trigger] fs[w]);
        assert(fs[w] == files@[w]@);
        dirs.push(join(t.as_slice(), d.as_slice()));
        k = k + 1;
    }
    proof {
        let dv = views(dirs@);
        assert forall|a: int, b: int| 0 <= a < b < dv.len() implies dv[a].len() >= dv[b].len() && dv[a] != dv[b] by {
            assert(dv[a] == joined(t@, rv[a]));
            assert(dv[b] == joined(t@, rv[b]));
            if dv[a] == dv[b] {
                lemma_joined_injective(t@, rv[a], rv[b]);
            }
        }
        assert forall|x: Seq<u8>| #[trigger] dv.contains(x)
            <==> exists|d: Seq<u8>| #[trigger] implied(fs, d) && x == joined(t@, d) by {
            if dv.contains(x) {
                let a = choose|a: int| 0 <= a < dv.len() && dv[a] == x;
                assert(dv[a] == joined(t@, rv[a]));
                assert(rv.contains(rv[a]));
                assert(implied(fs, rv[a]));
            }
            if exists|d: Seq<u8>| #[trigger] implied(fs, d) && x == joined(t@, d) {
                let d = choose|d: Seq<u8>| #[trigger] implied(fs, d) && x == joined(t@, d);
                assert(rv.contains(d));
                let a = choose|a: int| 0 <= a < rv.len() && rv[a] == d;
                assert(dv[a] == joined(t@, rv[a]));
            }
        }
        assert(views(joined_files@) == fs.map_values(|f: Seq<u8>| joined(trimmed(root@), f)));
    }
    Ok(Plan::Tree(TreePlan { root: t, files: joined_files, dirs }))
}

/// A regular-file root is removed only when the manifest is exactly one
/// file naming it; any other manifest is an integrity fault.
pub proof fn lemma_single_file_fidelity(root: Seq<u8>, files: Seq<Seq<u8>>, r: Result<Plan, Fault>)
    requires
        root_is_valid(root),
        plan_for(root, EntryKind::File, files, r),
    ensures
        r is Ok <==> files.len() == 1 && names_root(root, files[0]),
        r is Ok ==> (r matches Ok(Plan::UnlinkFile(p)) && p@ == root),
        r is Err ==> r == Err::<Plan, Fault>(Fault::ManifestMismatch),
{
}

/// A symlink root is removed as a link, whatever the manifest declares:
/// the plan names the link alone.
pub proof fn lemma_symlink_unlinked_only(root: Seq<u8>, files: Seq<Seq<u8>>, r: Result<Plan, Fault>)
    requires
        root_is_valid(root),
        plan_for(root, EntryKind::Symlink, files, r),
    ensures
        r matches Ok(Plan::UnlinkSymlink(p)) && p@ == root,
{
}

/// `c` lies strictly below the directory `d`.
pub open spec fn strictly_below(c: Seq<u8>, d: Seq<u8>) -> bool {
    d.len() < c.len() && c.take(d.len() as int) == d && c[d.len() as int] == SLASH
}

/// Directories in longest-first order are removed children first: a
/// directory that lies below another comes before it.
pub proof fn lemma_children_first(dirs: Seq<Seq<u8>>, a: int, b: int)
    requires
        longest_first(dirs),
        0 <= a < dirs.len(),
        0 <= b < dirs.len(),
        strictly_below(dirs[a], dirs[b]),
    ensures
        a < b,
{
    if b <= a {
        assert(dirs[b].len() >= dirs[a].len());
    }
}

} // verus!
