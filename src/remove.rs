//! The removal itself, as a state machine: the caller asks `step` what to
//! do next, performs it on the filesystem, and reports how it went.
//!
//! Every declared path is resolved and checked for containment before the
//! first deletion; paths already absent count as removed.
use vstd::prelude::*;
use crate::path::{lies_within, trimmed, trim, is_within};
use crate::plan::{Fault, Plan};

verus! {

/// Why a removal was abandoned.
#[derive(Clone, Debug, PartialEq, Eq)]
pub enum RemovalError {
    /// The torrent's metadata or on-disk layout violates a precondition.
    Integrity(Fault),
    /// A filesystem operation on `path` failed for a reason other than absence.
    Filesystem { path: Vec<u8>, cause: String },
}

/// The result of resolving a path to its canonical form.
#[derive(Clone, Debug, PartialEq, Eq)]
pub enum Resolution {
    Canonical(Vec<u8>),
    Missing,
    Failed(String),
}

/// The result of a removal on the filesystem.
#[derive(Clone, Debug, PartialEq, Eq)]
pub enum Outcome {
    Done,
    Missing,
    Failed(String),
}

/// What the caller is to do next.
#[derive(Clone, Debug, PartialEq, Eq)]
pub enum Step {
    /// Resolve this path to its canonical form, following links.
    Resolve(Vec<u8>),
    /// Remove this file or link, without following it.
    RemoveFile(Vec<u8>),
    /// Remove this empty directory.
    RemoveDir(Vec<u8>),
    /// The content is gone.
    Finished,
    /// The removal stopped on this error.
    Abandoned(RemovalError),
}

#[derive(Clone, Debug, PartialEq, Eq)]
pub enum Phase {
    /// Remove the root as a single file or link.
    Unlinking,
    /// Resolve the target at this index.
    Resolving(usize),
    /// Remove the resolved target at this index.
    Deleting(usize),
    /// Remove the emptied root directory.
    Pruning,
    Finished,
    Abandoned(RemovalError),
}

/// One torrent's content removal in progress.
pub struct Removal {
    /// The content root, without trailing separators.
    pub root: Vec<u8>,
    /// The declared files, then the implied directories deepest first.
    pub targets: Vec<Vec<u8>>,
    /// How many of `targets` are files.
    pub n_files: usize,
    /// The canonical form of each target resolved so far; `None` if absent.
    pub resolved: Vec<Option<Vec<u8>>>,
    pub phase: Phase,
    /// The indices of the targets removed so far, in the order of removal.
    pub removed: Ghost<Seq<int>>,
}

/// `removed` holds every present target below `n`, and nothing else.
pub open spec fn covers(resolved: Seq<Option<Vec<u8>>>, removed: Seq<int>, n: int) -> bool {
    &&& forall|j: int| 0 <= j < n && (#[trigger] resolved[j]) is Some ==> removed.contains(j)
    &&& forall|k: int| 0 <= k < removed.len() ==> #[trigger] removed[k] < n
}

/// `p` is where deletion goes on once the targets before `from` are done:
/// the next present target, or the root.
pub open spec fn deletes_from(resolved: Seq<Option<Vec<u8>>>, from: int, p: Phase) -> bool {
    match p {
        Phase::Deleting(j) => from <= j < resolved.len() && resolved[j as int] is Some
            && forall|m: int| from <= m < j ==> resolved[m] is None,
        Phase::Pruning => forall|m: int| from <= m < resolved.len() ==> resolved[m] is None,
        _ => false,
    }
}

impl Removal {
    pub open spec fn wf(&self) -> bool {
        &&& trimmed(self.root@) == self.root@
        &&& self.n_files <= self.targets@.len()
        &&& self.resolved@.len() <= self.targets@.len()
        &&& forall|j: int| 0 <= j < self.resolved@.len() && (#[trigger] self.resolved@[j]) is Some
            ==> lies_within(self.root@, self.resolved@[j]->Some_0@)
        &&& forall|k: int| 0 <= k < self.removed@.len() ==> 0 <= #[trigger] self.removed@[k] < self.resolved@.len()
            && self.resolved@[self.removed@[k]] is Some
        &&& forall|a: int, b: int| 0 <= a < b < self.removed@.len() ==> self.removed@[a] < self.removed@[b]
        &&& match self.phase {
            Phase::Unlinking => self.targets@.len() == 0 && self.resolved@.len() == 0,
            Phase::Resolving(i) => i == self.resolved@.len() && i < self.targets@.len() && self.removed@.len() == 0,
            Phase::Deleting(i) => self.resolved@.len() == self.targets@.len() && i < self.targets@.len()
                && self.resolved@[i as int] is Some && covers(self.resolved@, self.removed@, i as int),
            Phase::Pruning | Phase::Finished => self.resolved@.len() == self.targets@.len()
                && covers(self.resolved@, self.removed@, self.resolved@.len() as int),
            Phase::Abandoned(RemovalError::Integrity(_)) => self.removed@.len() == 0,
            _ => true,
        }
    }

    /// The implied directories among the targets are deepest first.
    pub open spec fn dirs_deepest_first(&self) -> bool {
        forall|x: int, y: int| self.n_files <= x < y < self.targets@.len()
            ==> (#[trigger] self.targets@[x])@.len() >= (#[trigger] self.targets@[y])@.len()
    }

    /// Every target has been resolved and found inside the root.
    pub open spec fn all_checked(&self) -> bool {
        &&& self.resolved@.len() == self.targets@.len()
        &&& forall|j: int| 0 <= j < self.resolved@.len() && (#[trigger] self.resolved@[j]) is Some
            ==> lies_within(self.root@, self.resolved@[j]->Some_0@)
    }

    /// The path that the current deletion phase removes.
    pub open spec fn deletion_path(&self) -> Seq<u8> {
        match self.phase {
            Phase::Deleting(i) => self.resolved@[i as int]->Some_0@,
            _ => self.root@,
        }
    }
}

/// Removals follow the plan's order: each target is removed at most once,
/// every file before any directory, and directories deepest first.
pub proof fn lemma_removal_order(m: &Removal, a: int, b: int)
    requires
        m.wf(),
        0 <= a < b < m.removed@.len(),
    ensures
        m.removed@[a] < m.removed@[b],
        m.removed@[b] < m.n_files ==> m.removed@[a] < m.n_files,
        m.dirs_deepest_first() && m.removed@[a] >= m.n_files ==> m.targets@[m.removed@[a]]@.len()
            >= m.targets@[m.removed@[b]]@.len(),
{
    let x = m.removed@[a];
    let y = m.removed@[b];
    assert(0 <= x < m.resolved@.len() && 0 <= y < m.resolved@.len());
    if m.dirs_deepest_first() && x >= m.n_files {
        assert(m.targets@[x]@.len() >= m.targets@[y]@.len());
    }
}

/// A directory is removed only once every present declared file is gone:
/// when the removal reaches a directory, or the root, all present files
/// have been removed.
pub proof fn lemma_files_gone_before_dirs(m: &Removal, j: int)
    requires
        m.wf(),
        0 <= j < m.n_files,
        (m.phase matches Phase::Deleting(i) && i >= m.n_files) || m.phase is Pruning || m.phase is Finished,
        j < m.resolved@.len(),
        m.resolved@[j] is Some,
    ensures
        m.removed@.contains(j),
{
}

/// A finished removal has removed every target that was present.
pub proof fn lemma_finished_removes_all(m: &Removal, j: int)
    requires
        m.wf(),
        m.phase is Finished,
        0 <= j < m.targets@.len(),
        m.resolved@[j] is Some,
    ensures
        m.removed@.contains(j),
{
}

/// A removal abandoned for an integrity fault, such as a path resolving
/// outside the root, has removed nothing.
pub proof fn lemma_fault_removes_nothing(m: &Removal)
    requires
        m.wf(),
        m.phase matches Phase::Abandoned(RemovalError::Integrity(_)),
    ensures
        m.removed@.len() == 0,
{
}

/// The result of removing a descriptor file: one that is already absent
/// counts as removed.
pub fn settle_descriptor(path: Vec<u8>, o: Outcome) -> (r: Result<(), RemovalError>)
    ensures
        r is Ok <==> !(o is Failed),
        o matches Outcome::Failed(m) ==> r == Err::<(), RemovalError>(
            RemovalError::Filesystem { path, cause: m },
        ),
{
    match o {
        Outcome::Failed(m) => Err(RemovalError::Filesystem { path, cause: m }),
        _ => Ok(()),
    }
}

proof fn lemma_trimmed_idempotent(p: Seq<u8>)
    ensures
        trimmed(trimmed(p)) == trimmed(p),
    decreases p.len(),
{
    if p.len() > 1 && p.last() == crate::path::SLASH {
        lemma_trimmed_idempotent(p.drop_last());
    }
}

/// The next deletion at or after `from`, or the root once none is left.
fn next_deletion(resolved: &Vec<Option<Vec<u8>>>, from: usize) -> (p: Phase)
    requires
        from <= resolved@.len(),
    ensures
        deletes_from(resolved@, from as int, p),
{
    let mut j: usize = from;
    while j < resolved.len()
        invariant
            from <= j <= resolved@.len(),
            forall|m: int| from <= m < j ==> resolved@[m] is None,
        decreases resolved@.len() - j,
    {
        if resolved[j].is_some() {
            return Phase::Deleting(j);
        }
        j = j + 1;
    }
    Phase::Pruning
}

impl Removal {
    /// Starts carrying out `plan`.
    pub fn new(plan: Plan) -> (r: Removal)
        ensures
            r.wf(),
            r.resolved@.len() == 0,
            r.removed@.len() == 0,
            match plan {
                Plan::UnlinkSymlink(p) => r.root@ == trimmed(p@) && r.phase == Phase::Unlinking,
                Plan::UnlinkFile(p) => r.root@ == trimmed(p@) && r.phase == Phase::Unlinking,
                Plan::Tree(t) => {
                    &&& r.root@ == trimmed(t.root@)
                    &&& r.n_files == t.files@.len()
                    &&& r.targets@.map_values(|v: Vec<u8>| v@) == t.files@.map_values(|v: Vec<u8>| v@)
                        + t.dirs@.map_values(|v: Vec<u8>| v@)
                    &&& r.phase == if r.targets@.len() == 0 { Phase::Pruning } else { Phase::Resolving(0) }
                    &&& crate::plan::longest_first(crate::plan::views(t.dirs@)) ==> r.dirs_deepest_first()
                },
                Plan::AlreadyGone => r.phase == Phase::Finished,
            },
    {
        match plan {
            Plan::UnlinkSymlink(p) | Plan::UnlinkFile(p) => {
                let root = trim(p.as_slice());
                proof {
                    lemma_trimmed_idempotent(p@);
                }
                Removal {
                    root,
                    targets: Vec::new(),
                    n_files: 0,
                    resolved: Vec::new(),
                    phase: Phase::Unlinking,
                    removed: Ghost(Seq::empty()),
                }
            },
            Plan::AlreadyGone => {
                let root: Vec<u8> = Vec::new();
                Removal {
                    root,
                    targets: Vec::new(),
                    n_files: 0,
                    resolved: Vec::new(),
                    phase: Phase::Finished,
                    removed: Ghost(Seq::empty()),
                }
            },
            Plan::Tree(t) => {
                let root = trim(t.root.as_slice());
                proof {
                    lemma_trimmed_idempotent(t.root@);
                }
                let n_files = t.files.len();
                let ghost fv = t.files@.map_values(|v: Vec<u8>| v@);
                let ghost dv = t.dirs@.map_values(|v: Vec<u8>| v@);
                let mut targets = t.files;
                let mut dirs = t.dirs;
                targets.append(&mut dirs);
                assert(targets@.map_values(|v: Vec<u8>| v@) =~= fv + dv);
                proof {
                    let tv = targets@.map_values(|v: Vec<u8>| v@);
                    if crate::plan::longest_first(dv) {
                        assert forall|x: int, y: int| n_files <= x < y < targets@.len()
                            implies (#[trigger] targets@[x])@.len() >= (#[trigger] targets@[y])@.len() by {
                            assert(tv[x] == dv[x - n_files]);
                            assert(tv[y] == dv[y - n_files]);
                        }
                    }
                }
                let phase = if targets.len() == 0 { Phase::Pruning } else { Phase::Resolving(0) };
                Removal { root, targets, n_files, resolved: Vec::new(), phase, removed: Ghost(Seq::empty()) }
            },
        }
    }

    /// What the caller is to do next.
    pub fn step(&self) -> (r: Step)
        requires
            self.wf(),
        ensures
            match self.phase {
                Phase::Unlinking => r matches Step::RemoveFile(c) && c@ == self.root@,
                Phase::Resolving(i) => r matches Step::Resolve(c) && c@ == self.targets@[i as int]@,
                Phase::Deleting(i) => if i < self.n_files {
                    r matches Step::RemoveFile(c) && c@ == self.resolved@[i as int]->Some_0@
                } else {
                    r matches Step::RemoveDir(c) && c@ == self.resolved@[i as int]->Some_0@
                },
                Phase::Pruning => r matches Step::RemoveDir(c) && c@ == self.root@,
                Phase::Finished => r == Step::Finished,
                Phase::Abandoned(_) => r is Abandoned,
            },
            r matches Step::RemoveDir(c) ==> lies_within(self.root@, c@) && self.all_checked(),
            r matches Step::RemoveFile(c) ==> lies_within(self.root@, c@)
                && (self.phase == Phase::Unlinking || self.all_checked()),
    {
        match &self.phase {
            Phase::Unlinking => {
                let c = self.root.clone();
                assert(c@ == self.root@);
                Step::RemoveFile(c)
            },
            Phase::Resolving(i) => Step::Resolve(self.targets[*i].clone()),
            Phase::Deleting(i) => {
                let c = self.resolved[*i].clone().unwrap();
                assert(self.resolved@[*i as int] is Some);
                if *i < self.n_files {
                    Step::RemoveFile(c)
                } else {
                    Step::RemoveDir(c)
                }
            },
            Phase::Pruning => {
                let c = self.root.clone();
                assert(c@ == self.root@);
                Step::RemoveDir(c)
            },
            Phase::Finished => Step::Finished,
            Phase::Abandoned(e) => Step::Abandoned(e.clone()),
        }
    }

    /// Reports how the pending `Resolve` went.
    pub fn after_resolve(&mut self, res: Resolution)
        requires
            old(self).wf(),
            old(self).phase is Resolving,
        ensures
            final(self).wf(),
            final(self).root == old(self).root,
            final(self).targets == old(self).targets,
            final(self).n_files == old(self).n_files,
            match res {
                Resolution::Canonical(c) => if lies_within(old(self).root@, c@) {
                    &&& final(self).resolved@ == old(self).resolved@.push(Some(c))
                    &&& final(self).continues_after_resolving()
                } else {
                    final(self).phase == Phase::Abandoned(RemovalError::Integrity(Fault::Escape(c)))
                },
                Resolution::Missing => {
                    &&& final(self).resolved@ == old(self).resolved@.push(None)
                    &&& final(self).continues_after_resolving()
                },
                Resolution::Failed(m) => final(self).phase matches Phase::Abandoned(
                    RemovalError::Filesystem { path, cause },
                ) && path@ == old(self).targets@[old(self).phase->Resolving_0 as int]@ && cause == m,
            },
    {
        let i = match self.phase {
            Phase::Resolving(i) => i,
            _ => 0,
        };
        assert(i < self.targets@.len());
        match res {
            Resolution::Canonical(c) => {
                if !is_within(self.root.as_slice(), c.as_slice()) {
                    self.phase = Phase::Abandoned(RemovalError::Integrity(Fault::Escape(c)));
                    return;
                }
                self.resolved.push(Some(c));
            },
            Resolution::Missing => {
                self.resolved.push(None);
            },
            Resolution::Failed(m) => {
                let path = self.targets[i].clone();
                self.phase = Phase::Abandoned(RemovalError::Filesystem { path, cause: m });
                return;
            },
        }
        let n = self.targets.len();
        if i + 1 < n {
            self.phase = Phase::Resolving(i + 1);
        } else {
            self.phase = next_deletion(&self.resolved, 0);
        }
    }

    /// Resolution goes on with the next target, or, with all resolved,
    /// deletion starts at the first present one.
    pub open spec fn continues_after_resolving(&self) -> bool {
        if self.resolved@.len() < self.targets@.len() {
            self.phase == Phase::Resolving(self.resolved@.len() as usize)
        } else {
            deletes_from(self.resolved@, 0, self.phase)
        }
    }

    /// Reports how the pending `RemoveFile` or `RemoveDir` went. An entry
    /// that was already absent counts as removed.
    pub fn after_remove(&mut self, o: Outcome)
        requires
            old(self).wf(),
            old(self).phase is Unlinking || old(self).phase is Deleting || old(self).phase is Pruning,
        ensures
            final(self).wf(),
            final(self).root == old(self).root,
            final(self).targets == old(self).targets,
            final(self).n_files == old(self).n_files,
            final(self).resolved == old(self).resolved,
            final(self).removed@ == if !(o is Failed) && old(self).phase is Deleting {
                old(self).removed@.push(old(self).phase->Deleting_0 as int)
            } else {
                old(self).removed@
            },
            match o {
                Outcome::Failed(m) => final(self).phase matches Phase::Abandoned(
                    RemovalError::Filesystem { path, cause },
                ) && path@ == old(self).deletion_path() && cause == m,
                _ => match old(self).phase {
                    Phase::Deleting(i) => deletes_from(old(self).resolved@, i + 1, final(self).phase),
                    _ => final(self).phase == Phase::Finished,
                },
            },
    {
        match o {
            Outcome::Failed(m) => {
                let path = match self.phase {
                    Phase::Deleting(i) => self.resolved[i].clone().unwrap(),
                    _ => self.root.clone(),
                };
                self.phase = Phase::Abandoned(RemovalError::Filesystem { path, cause: m });
            },
            _ => {
                match self.phase {
                    Phase::Deleting(i) => {
                        let n = self.resolved.len();
                        assert(i < n);
                        let ghost before = self.removed@;
                        let next = next_deletion(&self.resolved, i + 1);
                        self.phase = next;
                        self.removed = Ghost(before.push(i as int));
                        proof {
                            let after = self.removed@;
                            let to = match self.phase {
                                Phase::Deleting(j) => j as int,
                                _ => n as int,
                            };
                            assert(after[before.len() as int] == i);
                            assert forall|j: int| 0 <= j < to && (#[trigger] self.resolved@[j]) is Some
                                implies after.contains(j) by {
                                if j < i {
                                    let k = choose|k: int| 0 <= k < before.len() && before[k] == j;
                                    assert(after[k] == j);
                                } else if j == i {
                                    assert(after[before.len() as int] == j);
                                }
                            }
                            assert forall|k: int| 0 <= k < after.len() implies #[trigger] after[k] < to by {
                                if k < before.len() {
                                    assert(before[k] < i);
                                }
                            }
                        }
                    },
                    _ => {
                        self.phase = Phase::Finished;
                    },
                }
            },
        }
    }

    /// The removal is over: it finished or was abandoned.
    pub open spec fn is_over(&self) -> bool {
        self.phase is Finished || self.phase is Abandoned
    }

    /// The result of a removal that is over.
    pub fn into_result(self) -> (r: Result<(), RemovalError>)
        requires
            self.is_over(),
        ensures
            self.phase is Finished ==> r is Ok,
            self.phase matches Phase::Abandoned(e) ==> r == Err::<(), RemovalError>(e),
    {
        match self.phase {
            Phase::Abandoned(e) => Err(e),
            _ => Ok(()),
        }
    }
}

} // verus!
