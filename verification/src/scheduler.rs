//! Borrow checking of resources shared between systems, and the scheduler built on it.
use vstd::prelude::*;
use vstd::string::StringExecFns;

use crate::ast::ResourceAccess;
use crate::names::{first_other, string_eq_str, string_views, NameSet, StrMap};
use std::collections::VecDeque;

verus! {

/// The kind of conflict between two systems on one resource.
#[derive(Debug, Clone, Copy, PartialEq, Eq, Structural)]
pub enum ConflictType {
    /// The two systems do not conflict.
    NoConflict,
    /// One system reads, another writes.
    ReadWrite,
    /// One system writes, another reads.
    WriteRead,
    /// Both systems write.
    WriteWrite,
}

/// Scheduling priority of a system; later variants are more urgent.
#[derive(Debug, Clone, Copy, PartialEq, Eq, PartialOrd, Ord, Structural)]
pub enum SystemPriority {
    Low,
    Normal,
    High,
    Critical,
}

impl Default for SystemPriority {
    fn default() -> (r: SystemPriority)
        ensures
            r == SystemPriority::Normal,
    {
        SystemPriority::Normal
    }
}

/// How the scheduler orders the systems that may run.
#[derive(Debug, Clone, Copy, PartialEq, Eq, Structural)]
pub enum SchedulingStrategy {
    /// First come, first served.
    FCFS,
    /// Higher priority first.
    Priority,
    /// Least recently run first.
    RoundRobin,
    /// Shortest estimated run time first.
    SJF,
    /// Systems with more dependencies first.
    WorkStealing,
}

/// Counts of the scheduler's systems, for monitoring.
#[derive(Debug, Clone, Copy)]
pub struct SchedulingStats {
    pub total_systems: usize,
    pub pending_systems: usize,
    pub executing_systems: usize,
    pub completed_systems: usize,
    pub active_resources: usize,
    pub max_concurrent: usize,
    pub strategy: SchedulingStrategy,
}

/// An error of the scheduling system.
#[derive(Debug, Clone)]
pub enum SchedulerError {
    ResourceConflict {
        system1: String,
        system2: String,
        resource: String,
        conflict_type: ConflictType,
    },
    DeadlockDetected {
        cycle: Vec<String>,
    },
    InvalidResourceAccess {
        system: String,
        resource: String,
        reason: String,
    },
    DuplicateMutableBorrow {
        system1: String,
        system2: String,
        resource: String,
    },
    SchedulingFailure {
        reason: String,
    },
}

/// Whether two errors say the same: the same kind, with the same texts.
pub open spec fn same_error(a: SchedulerError, b: SchedulerError) -> bool {
    match a {
        SchedulerError::ResourceConflict { system1, system2, resource, conflict_type } => b matches SchedulerError::ResourceConflict {
            system1: x1,
            system2: x2,
            resource: x3,
            conflict_type: x4,
        } && system1@ == x1@ && system2@ == x2@ && resource@ == x3@ && conflict_type == x4,
        SchedulerError::DeadlockDetected { cycle } => b matches SchedulerError::DeadlockDetected { cycle: c }
            && string_views(cycle@) == string_views(c@),
        SchedulerError::InvalidResourceAccess { system, resource, reason } => b matches SchedulerError::InvalidResourceAccess {
            system: x1,
            resource: x2,
            reason: x3,
        } && system@ == x1@ && resource@ == x2@ && reason@ == x3@,
        SchedulerError::DuplicateMutableBorrow { system1, system2, resource } => b matches SchedulerError::DuplicateMutableBorrow {
            system1: x1,
            system2: x2,
            resource: x3,
        } && system1@ == x1@ && system2@ == x2@ && resource@ == x3@,
        SchedulerError::SchedulingFailure { reason } => b matches SchedulerError::SchedulingFailure { reason: x }
            && reason@ == x@,
    }
}

impl SchedulerError {
    /// A copy of the error.
    pub fn copy_error(&self) -> (r: SchedulerError)
        ensures
            same_error(*self, r),
    {
        match self {
            SchedulerError::ResourceConflict { system1, system2, resource, conflict_type } => SchedulerError::ResourceConflict {
                system1: system1.clone(),
                system2: system2.clone(),
                resource: resource.clone(),
                conflict_type: *conflict_type,
            },
            SchedulerError::DeadlockDetected { cycle } => {
                let mut copy: Vec<String> = Vec::new();
                let mut i: usize = 0;
                while i < cycle.len()
                    invariant
                        i <= cycle@.len(),
                        copy@ == cycle@.take(i as int),
                    decreases cycle@.len() - i,
                {
                    copy.push(cycle[i].clone());
                    assert(cycle@.take(i + 1) =~= cycle@.take(i as int).push(cycle@[i as int]));
                    i = i + 1;
                }
                assert(cycle@.take(i as int) =~= cycle@);
                SchedulerError::DeadlockDetected { cycle: copy }
            },
            SchedulerError::InvalidResourceAccess { system, resource, reason } => SchedulerError::InvalidResourceAccess {
                system: system.clone(),
                resource: resource.clone(),
                reason: reason.clone(),
            },
            SchedulerError::DuplicateMutableBorrow { system1, system2, resource } => SchedulerError::DuplicateMutableBorrow {
                system1: system1.clone(),
                system2: system2.clone(),
                resource: resource.clone(),
            },
            SchedulerError::SchedulingFailure { reason } => SchedulerError::SchedulingFailure { reason: reason.clone() },
        }
    }
}

/// The text of an `InvalidResourceAccess` reason naming the owner of a resource.
pub open spec fn owned_by_reason(owner: Seq<char>) -> Seq<char> {
    "Resource is owned by system '"@ + owner + "'"@
}

/// The text of an `InvalidResourceAccess` reason for a second owner.
pub open spec fn already_owned_reason(owner: Seq<char>) -> Seq<char> {
    "Resource is already owned by system '"@ + owner + "'"@
}

fn reason_with_owner(prefix: &str, owner: &String) -> (r: String)
    ensures
        r@ == prefix@ + owner@ + "'"@,
{
    let mut r: String = prefix.to_owned();
    r.append(owner.as_str());
    r.append("'");
    r
}

/// Counts of resource usage, for monitoring.
#[derive(Debug, Clone)]
pub struct ResourceUsageSummary {
    pub total_resources: usize,
    pub immutable_borrows: usize,
    pub mutable_borrows: usize,
    pub owned_resources: usize,
}

/// Tracks which systems borrow or own which resources.
#[derive(Debug)]
pub struct ResourceTracker {
    /// Resource name to the systems that read it; an entry is never empty.
    immutable_borrows: StrMap<NameSet>,
    /// Resource name to the one system that writes it.
    mutable_borrows: StrMap<String>,
    /// Resource name to the system that owns it.
    owned_resources: StrMap<String>,
}

impl ResourceTracker {
    /// The systems holding `&` access to resource `r`, in the order they took it.
    pub closed spec fn reader_order(&self, r: Seq<char>) -> Seq<Seq<char>> {
        if self.immutable_borrows@.contains_key(r) {
            self.immutable_borrows@[r].ordered()
        } else {
            Seq::empty()
        }
    }

    /// The systems holding `&` access to resource `r`.
    pub closed spec fn readers(&self, r: Seq<char>) -> Set<Seq<char>> {
        if self.immutable_borrows@.contains_key(r) {
            self.immutable_borrows@[r]@
        } else {
            Set::empty()
        }
    }

    /// The system holding `&mut` access to resource `r`.
    pub closed spec fn writer(&self, r: Seq<char>) -> Option<Seq<char>> {
        if self.mutable_borrows@.contains_key(r) {
            Some(self.mutable_borrows@[r]@)
        } else {
            None
        }
    }

    /// The system owning resource `r`.
    pub closed spec fn owner(&self, r: Seq<char>) -> Option<Seq<char>> {
        if self.owned_resources@.contains_key(r) {
            Some(self.owned_resources@[r]@)
        } else {
            None
        }
    }

    /// Resources with at least one reader.
    pub closed spec fn read_resources(&self) -> Set<Seq<char>> {
        self.immutable_borrows@.dom()
    }

    /// Resources with a writer.
    pub closed spec fn written_resources(&self) -> Set<Seq<char>> {
        self.mutable_borrows@.dom()
    }

    /// Resources with an owner.
    pub closed spec fn owned_resource_names(&self) -> Set<Seq<char>> {
        self.owned_resources@.dom()
    }

    /// Resources in use in any way.
    pub open spec fn active(&self) -> Set<Seq<char>> {
        self.read_resources() + self.written_resources() + self.owned_resource_names()
    }

    /// The borrow rule for one resource: a writer or an owner excludes every other system.
    pub open spec fn exclusive(&self, r: Seq<char>) -> bool {
        &&& (self.writer(r) matches Some(w) ==> (forall|x: Seq<char>|
            self.readers(r).contains(x) ==> x == w) && (self.owner(r) matches Some(o) ==> o == w))
        &&& (self.owner(r) matches Some(o) ==> forall|x: Seq<char>|
            self.readers(r).contains(x) ==> x == o)
    }

    /// The tracker is well formed and the borrow rule holds on every resource.
    pub open spec fn wf(&self) -> bool {
        &&& self.structure_wf()
        &&& forall|r: Seq<char>| #[trigger] self.exclusive(r)
    }

    /// The internal maps are well formed, and a resource is listed as read exactly when it has readers.
    pub closed spec fn structure_wf(&self) -> bool {
        &&& self.immutable_borrows.wf()
        &&& self.mutable_borrows.wf()
        &&& self.owned_resources.wf()
        &&& forall|r: Seq<char>| #[trigger] self.immutable_borrows@.contains_key(r) ==> {
            &&& self.immutable_borrows@[r].wf()
            &&& self.immutable_borrows@[r]@.len() > 0
            &&& self.immutable_borrows@[r]@.finite()
        }
    }

    pub proof fn lemma_structure(&self)
        requires
            self.structure_wf(),
        ensures
            forall|r: Seq<char>| #[trigger] self.read_resources().contains(r) <==> self.readers(r).len() > 0,
            forall|r: Seq<char>| #[trigger] self.readers(r).finite(),
            forall|r: Seq<char>| #[trigger] self.written_resources().contains(r) <==> self.writer(r) is Some,
            forall|r: Seq<char>| #[trigger] self.owned_resource_names().contains(r) <==> self.owner(r) is Some,
            self.read_resources().finite(),
            self.written_resources().finite(),
            self.owned_resource_names().finite(),
    {
        self.immutable_borrows.lemma_finite();
        self.mutable_borrows.lemma_finite();
        self.owned_resources.lemma_finite();
        assert forall|r: Seq<char>| #[trigger] self.read_resources().contains(r) <==> self.readers(r).len() > 0 by {
            if !self.read_resources().contains(r) {
                assert(self.readers(r) =~= Set::<Seq<char>>::empty());
            }
        }
    }

    /// Whether `s` may take access `a` to resource `r` under the borrow rules.
    pub open spec fn access_allowed(&self, r: Seq<char>, s: Seq<char>, a: ResourceAccess) -> bool {
        match a {
            ResourceAccess::Immutable => {
                &&& (self.writer(r) matches Some(w) ==> w == s)
                &&& (self.owner(r) matches Some(o) ==> o == s)
            },
            ResourceAccess::Mutable => {
                &&& (forall|x: Seq<char>| self.readers(r).contains(x) ==> x == s)
                &&& (self.writer(r) matches Some(w) ==> w == s)
                &&& (self.owner(r) matches Some(o) ==> o == s)
            },
            ResourceAccess::Owned => {
                &&& self.readers(r).len() == 0
                &&& self.writer(r) is None
                &&& (self.owner(r) matches Some(o) ==> o == s)
            },
        }
    }

    /// The error reported when `s` may not take access `a` to `r`: the first rule broken,
    /// in the order the checks are made, with the system it conflicts with.
    pub open spec fn refusal(
        &self,
        r: Seq<char>,
        s: Seq<char>,
        a: ResourceAccess,
        e: SchedulerError,
    ) -> bool {
        match a {
            ResourceAccess::Immutable => if self.writer(r) is Some && self.writer(r)->0 != s {
                e matches SchedulerError::ResourceConflict { system1, system2, resource, conflict_type }
                    && system1@ == s && system2@ == self.writer(r)->0 && resource@ == r
                    && conflict_type == ConflictType::ReadWrite
            } else {
                e matches SchedulerError::InvalidResourceAccess { system, resource, reason }
                    && system@ == s && resource@ == r && reason@ == owned_by_reason(
                    self.owner(r)->0,
                )
            },
            ResourceAccess::Mutable => if exists|x: Seq<char>| self.readers(r).contains(x) && x != s {
                e matches SchedulerError::ResourceConflict { system1, system2, resource, conflict_type }
                    && system1@ == s && self.readers(r).contains(system2@) && system2@ != s
                    && first_other(self.reader_order(r), s) == Some(system2@)
                    && resource@ == r && conflict_type == ConflictType::WriteRead
            } else if self.writer(r) is Some && self.writer(r)->0 != s {
                e matches SchedulerError::DuplicateMutableBorrow { system1, system2, resource }
                    && system1@ == s && system2@ == self.writer(r)->0 && resource@ == r
            } else {
                e matches SchedulerError::InvalidResourceAccess { system, resource, reason }
                    && system@ == s && resource@ == r && reason@ == owned_by_reason(
                    self.owner(r)->0,
                )
            },
            ResourceAccess::Owned => if self.readers(r).len() > 0 {
                e matches SchedulerError::ResourceConflict { system1, system2, resource, conflict_type }
                    && system1@ == s && self.readers(r).contains(system2@) && system2@ == self.reader_order(r)[0]
                    && resource@ == r && conflict_type == ConflictType::WriteRead
            } else if self.writer(r) is Some {
                e matches SchedulerError::ResourceConflict { system1, system2, resource, conflict_type }
                    && system1@ == s && system2@ == self.writer(r)->0 && resource@ == r
                    && conflict_type == ConflictType::WriteWrite
            } else {
                e matches SchedulerError::InvalidResourceAccess { system, resource, reason }
                    && system@ == s && resource@ == r && reason@ == already_owned_reason(
                    self.owner(r)->0,
                )
            },
        }
    }

    /// Whether `res` answers `s` asking for access `a` to `r`: allowed exactly when the
    /// borrow rules allow it, refused otherwise with the first rule broken.
    pub open spec fn access_answer(&self, r: Seq<char>, s: Seq<char>, a: ResourceAccess, res: Result<(), SchedulerError>) -> bool {
        &&& res is Ok <==> self.access_allowed(r, s, a)
        &&& res matches Err(e) ==> self.refusal(r, s, a, e)
    }

    /// The borrow rules give one answer to one request: two answers to the same request in
    /// the same state agree, so checking a request (`can_access_resource`,
    /// `can_system_access_resource`) answers what taking it (`add_access`,
    /// `try_acquire_resource`) answers.
    pub proof fn law_access_answer_unique(
        &self,
        r: Seq<char>,
        s: Seq<char>,
        a: ResourceAccess,
        res1: Result<(), SchedulerError>,
        res2: Result<(), SchedulerError>,
    )
        requires
            self.access_answer(r, s, a, res1),
            self.access_answer(r, s, a, res2),
        ensures
            res1 is Ok <==> res2 is Ok,
            res1 matches Err(e1) ==> (res2 matches Err(e2) && same_error(e1, e2)),
    {
    }

    /// An empty tracker.
    pub fn new() -> (r: ResourceTracker)
        ensures
            r.wf(),
            r.active() == Set::<Seq<char>>::empty(),
            forall|x: Seq<char>| r.readers(x) == Set::<Seq<char>>::empty() && r.writer(x) is None
                && r.owner(x) is None,
    {
        let r = ResourceTracker {
            immutable_borrows: StrMap::new(),
            mutable_borrows: StrMap::new(),
            owned_resources: StrMap::new(),
        };
        assert(r.active() =~= Set::<Seq<char>>::empty());
        r
    }

    /// `after` is `before` with access `a` to `r` granted to `s`; nothing else changed.
    pub open spec fn granted(before: &ResourceTracker, after: &ResourceTracker, r: Seq<char>, s: Seq<char>, a: ResourceAccess) -> bool {
        forall|x: Seq<char>| {
            &&& #[trigger] after.readers(x) == if x == r && a == ResourceAccess::Immutable {
                before.readers(x).insert(s)
            } else {
                before.readers(x)
            }
            &&& after.writer(x) == if x == r && a == ResourceAccess::Mutable {
                Some(s)
            } else {
                before.writer(x)
            }
            &&& after.owner(x) == if x == r && a == ResourceAccess::Owned {
                Some(s)
            } else {
                before.owner(x)
            }
        }
    }

    /// `after` is `before` with the access `a` of `s` to `r` taken away; nothing else changed.
    pub open spec fn revoked(before: &ResourceTracker, after: &ResourceTracker, r: Seq<char>, s: Seq<char>, a: ResourceAccess) -> bool {
        forall|x: Seq<char>| {
            &&& #[trigger] after.readers(x) == if x == r && a == ResourceAccess::Immutable {
                before.readers(x).remove(s)
            } else {
                before.readers(x)
            }
            &&& after.writer(x) == if x == r && a == ResourceAccess::Mutable && before.writer(x) == Some(s) {
                None
            } else {
                before.writer(x)
            }
            &&& after.owner(x) == if x == r && a == ResourceAccess::Owned && before.owner(x) == Some(s) {
                None
            } else {
                before.owner(x)
            }
        }
    }

    /// Both trackers record the same readers, writer and owner for every resource.
    pub open spec fn same_holders(a: &ResourceTracker, b: &ResourceTracker) -> bool {
        forall|x: Seq<char>| #![trigger a.readers(x), b.readers(x)]
            a.readers(x) == b.readers(x) && a.writer(x) == b.writer(x) && a.owner(x) == b.owner(x)
    }

    /// Whether `s` already holds access `a` to `r`.
    pub open spec fn holds(&self, r: Seq<char>, s: Seq<char>, a: ResourceAccess) -> bool {
        match a {
            ResourceAccess::Immutable => self.readers(r).contains(s),
            ResourceAccess::Mutable => self.writer(r) == Some(s),
            ResourceAccess::Owned => self.owner(r) == Some(s),
        }
    }

    /// Checks whether `system` may take access `access` to `resource` under the borrow rules.
    pub fn can_access_resource(&self, resource: &str, system: &str, access: &ResourceAccess) -> (res: Result<(), SchedulerError>)
        requires
            self.wf(),
        ensures
            self.access_answer(resource@, system@, *access, res),
    {
        let sys: String = system.to_owned();
        let res_name: String = resource.to_owned();
        proof {
            self.lemma_structure();
        }
        match access {
            ResourceAccess::Immutable => {
                if let Some(borrower) = self.mutable_borrows.get(resource) {
                    if !(*borrower == sys) {
                        return Err(SchedulerError::ResourceConflict {
                            system1: sys,
                            system2: borrower.clone(),
                            resource: res_name,
                            conflict_type: ConflictType::ReadWrite,
                        });
                    }
                }
                if let Some(owner) = self.owned_resources.get(resource) {
                    if !(*owner == sys) {
                        return Err(SchedulerError::InvalidResourceAccess {
                            system: sys,
                            resource: res_name,
                            reason: reason_with_owner("Resource is owned by system '", owner),
                        });
                    }
                }
            },
            ResourceAccess::Mutable => {
                if let Some(readers) = self.immutable_borrows.get(resource) {
                    if let Some(other) = readers.find_other(&sys) {
                        return Err(SchedulerError::ResourceConflict {
                            system1: sys,
                            system2: other,
                            resource: res_name,
                            conflict_type: ConflictType::WriteRead,
                        });
                    }
                }
                if let Some(borrower) = self.mutable_borrows.get(resource) {
                    if !(*borrower == sys) {
                        return Err(SchedulerError::DuplicateMutableBorrow {
                            system1: sys,
                            system2: borrower.clone(),
                            resource: res_name,
                        });
                    }
                }
                if let Some(owner) = self.owned_resources.get(resource) {
                    if !(*owner == sys) {
                        return Err(SchedulerError::InvalidResourceAccess {
                            system: sys,
                            resource: res_name,
                            reason: reason_with_owner("Resource is owned by system '", owner),
                        });
                    }
                }
            },
            ResourceAccess::Owned => {
                if let Some(readers) = self.immutable_borrows.get(resource) {
                    if let Some(other) = readers.first() {
                        return Err(SchedulerError::ResourceConflict {
                            system1: sys,
                            system2: other,
                            resource: res_name,
                            conflict_type: ConflictType::WriteRead,
                        });
                    }
                }
                if let Some(borrower) = self.mutable_borrows.get(resource) {
                    return Err(SchedulerError::ResourceConflict {
                        system1: sys,
                        system2: borrower.clone(),
                        resource: res_name,
                        conflict_type: ConflictType::WriteWrite,
                    });
                }
                if let Some(owner) = self.owned_resources.get(resource) {
                    if !(*owner == sys) {
                        return Err(SchedulerError::InvalidResourceAccess {
                            system: sys,
                            resource: res_name,
                            reason: reason_with_owner("Resource is already owned by system '", owner),
                        });
                    }
                }
            },
        }
        Ok(())
    }

    /// Grants access `access` to `resource` for `system` if the borrow rules allow it.
    pub fn add_access(&mut self, resource: &str, system: &str, access: &ResourceAccess) -> (res: Result<(), SchedulerError>)
        requires
            old(self).wf(),
        ensures
            final(self).wf(),
            old(self).access_answer(resource@, system@, *access, res),
            res is Ok ==> Self::granted(old(self), final(self), resource@, system@, *access),
            res is Err ==> *final(self) == *old(self),
    {
        self.can_access_resource(resource, system, access)?;
        let ghost before = *self;
        proof {
            self.lemma_structure();
        }
        let key: String = resource.to_owned();
        let sys: String = system.to_owned();
        match access {
            ResourceAccess::Immutable => {
                let mut set = match self.immutable_borrows.remove(resource) {
                    Some(set) => set,
                    None => NameSet::new(),
                };
                let _ = set.insert(sys);
                self.immutable_borrows.insert(key, set);
            },
            ResourceAccess::Mutable => {
                self.mutable_borrows.insert(key, sys);
            },
            ResourceAccess::Owned => {
                self.owned_resources.insert(key, sys);
            },
        }
        proof {
            assert(Self::granted(&before, self, resource@, system@, *access));
            assert forall|x: Seq<char>| #[trigger] self.exclusive(x) by {
                assert(before.exclusive(x));
            }
        }
        Ok(())
    }

    /// Takes away access `access` to `resource` from `system`, if it holds it.
    pub fn remove_access(&mut self, resource: &str, system: &str, access: &ResourceAccess)
        requires
            old(self).wf(),
        ensures
            final(self).wf(),
            Self::revoked(old(self), final(self), resource@, system@, *access),
    {
        let ghost before = *self;
        proof {
            self.lemma_structure();
        }
        let sys: String = system.to_owned();
        match access {
            ResourceAccess::Immutable => {
                if let Some(mut set) = self.immutable_borrows.remove(resource) {
                    let _ = set.remove(system);
                    if !set.is_empty() {
                        let key: String = resource.to_owned();
                        self.immutable_borrows.insert(key, set);
                    } else {
                        assert(before.readers(resource@).remove(system@) =~= Set::<Seq<char>>::empty());
                    }
                } else {
                    assert(before.readers(resource@).remove(system@) =~= Set::<Seq<char>>::empty());
                }
            },
            ResourceAccess::Mutable => {
                let matches = match self.mutable_borrows.get(resource) {
                    Some(b) => *b == sys,
                    None => false,
                };
                if matches {
                    let _ = self.mutable_borrows.remove(resource);
                }
            },
            ResourceAccess::Owned => {
                let matches = match self.owned_resources.get(resource) {
                    Some(o) => *o == sys,
                    None => false,
                };
                if matches {
                    let _ = self.owned_resources.remove(resource);
                }
            },
        }
        proof {
            assert forall|x: Seq<char>| #[trigger] self.exclusive(x) by {
                assert(before.exclusive(x));
                assert(Self::revoked(&before, self, resource@, system@, *access));
            }
        }
    }

    /// All resources currently borrowed or owned.
    pub fn get_active_resources(&self) -> (r: NameSet)
        requires
            self.wf(),
        ensures
            r.wf(),
            r@ == self.active(),
    {
        let mut out = NameSet::new();
        let a = self.immutable_borrows.keys();
        let b = self.mutable_borrows.keys();
        let c = self.owned_resources.keys();
        Self::insert_all(&mut out, &a);
        Self::insert_all(&mut out, &b);
        Self::insert_all(&mut out, &c);
        proof {
            assert(out@ =~= self.active());
        }
        out
    }

    fn insert_all(set: &mut NameSet, names: &Vec<String>)
        requires
            old(set).wf(),
        ensures
            final(set).wf(),
            final(set)@ == old(set)@ + crate::names::string_views(names@).to_set(),
    {
        let mut i: usize = 0;
        while i < names.len()
            invariant
                i <= names.len(),
                set.wf(),
                forall|j: int| 0 <= j < i ==> set@.contains(#[trigger] names@[j]@),
                forall|n: Seq<char>| #[trigger] set@.contains(n) ==> old(set)@.contains(n) || exists|j: int| 0 <= j < i && names@[j]@ == n,
                old(set)@.subset_of(set@),
            decreases names.len() - i,
        {
            let _ = set.insert(names[i].clone());
            i = i + 1;
        }
        proof {
            let sv = crate::names::string_views(names@);
            assert forall|n: Seq<char>| #[trigger] set@.contains(n) == (old(set)@ + sv.to_set()).contains(n) by {
                if set@.contains(n) && !old(set)@.contains(n) {
                    let j = choose|j: int| 0 <= j < i && names@[j]@ == n;
                    assert(sv[j] == n);
                }
                if sv.to_set().contains(n) {
                    let j = choose|j: int| 0 <= j < sv.len() && sv[j] == n;
                    assert(names@[j]@ == n);
                }
            }
            assert(set@ =~= old(set)@ + sv.to_set());
        }
    }

    /// The systems reading `resource`, if any.
    pub fn get_immutable_borrowers(&self, resource: &str) -> (r: Option<&NameSet>)
        requires
            self.wf(),
        ensures
            match r {
                Some(b) => b.wf() && b@ == self.readers(resource@) && b@.len() > 0,
                None => self.readers(resource@).len() == 0,
            },
    {
        proof {
            self.lemma_structure();
        }
        self.immutable_borrows.get(resource)
    }

    /// The system writing `resource`, if any.
    pub fn get_mutable_borrower(&self, resource: &str) -> (r: Option<&String>)
        requires
            self.wf(),
        ensures
            match r {
                Some(w) => self.writer(resource@) == Some(w@),
                None => self.writer(resource@) is None,
            },
    {
        self.mutable_borrows.get(resource)
    }

    /// The system owning `resource`, if any.
    pub fn get_resource_owner(&self, resource: &str) -> (r: Option<&String>)
        requires
            self.wf(),
        ensures
            match r {
                Some(o) => self.owner(resource@) == Some(o@),
                None => self.owner(resource@) is None,
            },
    {
        self.owned_resources.get(resource)
    }

    /// Whether no system borrows or owns `resource`.
    pub fn is_resource_available(&self, resource: &str) -> (r: bool)
        requires
            self.wf(),
        ensures
            r == !self.active().contains(resource@),
            r == (self.readers(resource@).len() == 0 && self.writer(resource@) is None && self.owner(resource@) is None),
    {
        proof {
            self.lemma_structure();
        }
        !self.immutable_borrows.contains_key(resource) && !self.mutable_borrows.contains_key(resource)
            && !self.owned_resources.contains_key(resource)
    }

    /// Counts of the resources in use, read, written and owned.
    pub fn get_resource_summary(&self) -> (r: ResourceUsageSummary)
        requires
            self.wf(),
        ensures
            r.total_resources == self.active().len(),
            r.immutable_borrows == self.read_resources().len(),
            r.mutable_borrows == self.written_resources().len(),
            r.owned_resources == self.owned_resource_names().len(),
    {
        let active = self.get_active_resources();
        ResourceUsageSummary {
            total_resources: active.len(),
            immutable_borrows: self.immutable_borrows.len(),
            mutable_borrows: self.mutable_borrows.len(),
            owned_resources: self.owned_resources.len(),
        }
    }
}

/// The state of the scheduler: which systems wait, run and have finished, and the borrows
/// they hold.
#[derive(Debug)]
pub struct SchedulerState {
    /// Borrows and ownership of resources.
    resource_tracker: ResourceTracker,
    /// Systems running now.
    pub executing_systems: NameSet,
    /// Systems waiting to be scheduled, in arrival order.
    pub pending_systems: VecDeque<String>,
    /// Systems that have finished.
    pub completed_systems: NameSet,
}

impl SchedulerState {
    /// The resource tracker of this state.
    pub closed spec fn tracker(&self) -> ResourceTracker {
        self.resource_tracker
    }

    /// The pending queue, as character sequences.
    pub closed spec fn pending(&self) -> Seq<Seq<char>> {
        string_views(self.pending_systems@)
    }

    /// The systems running now.
    pub closed spec fn executing(&self) -> Set<Seq<char>> {
        self.executing_systems@
    }

    /// The systems that have finished.
    pub closed spec fn completed(&self) -> Set<Seq<char>> {
        self.completed_systems@
    }

    /// The running systems in the order they are stored.
    pub closed spec fn executing_order(&self) -> Seq<Seq<char>> {
        self.executing_systems.ordered()
    }

    /// The stored order of the running systems lists each of them once.
    pub proof fn lemma_executing_order(&self)
        requires
            self.wf(),
        ensures
            self.executing() == self.executing_order().to_set(),
            self.executing_order().no_duplicates(),
            self.executing().len() == self.executing_order().len(),
    {
        self.executing_systems.lemma_ordered();
    }

    pub closed spec fn wf(&self) -> bool {
        &&& self.tracker().wf()
        &&& self.executing_systems.wf()
        &&& self.completed_systems.wf()
    }

    /// A state with no systems and no borrows.
    pub fn new() -> (r: SchedulerState)
        ensures
            r.wf(),
            r.executing() == Set::<Seq<char>>::empty(),
            r.completed() == Set::<Seq<char>>::empty(),
            r.pending() == Seq::<Seq<char>>::empty(),
            r.tracker().active() == Set::<Seq<char>>::empty(),
    {
        let r = SchedulerState {
            resource_tracker: ResourceTracker::new(),
            executing_systems: NameSet::new(),
            pending_systems: VecDeque::new(),
            completed_systems: NameSet::new(),
        };
        assert(r.pending() =~= Seq::<Seq<char>>::empty());
        r
    }

    /// Queues a system unless it is running or has finished.
    pub fn enqueue_system(&mut self, system_name: String)
        requires
            old(self).wf(),
        ensures
            final(self).wf(),
            final(self).executing() == old(self).executing(),
            final(self).completed() == old(self).completed(),
            final(self).tracker() == old(self).tracker(),
            final(self).pending() == if old(self).completed().contains(system_name@)
                || old(self).executing().contains(system_name@) {
                old(self).pending()
            } else {
                old(self).pending().push(system_name@)
            },
    {
        if !self.completed_systems.contains_string(&system_name)
            && !self.executing_systems.contains_string(&system_name) {
            let ghost name = system_name@;
            self.pending_systems.push_back(system_name);
            assert(self.pending() =~= old(self).pending().push(name));
        }
    }

    /// Marks a system finished: it leaves the running set and joins the finished set.
    pub fn complete_system(&mut self, system_name: &str)
        requires
            old(self).wf(),
        ensures
            final(self).wf(),
            final(self).executing() == old(self).executing().remove(system_name@),
            final(self).completed() == old(self).completed().insert(system_name@),
            final(self).pending() == old(self).pending(),
            final(self).tracker() == old(self).tracker(),
    {
        let _ = self.executing_systems.remove(system_name);
        let _ = self.completed_systems.insert(system_name.to_owned());
    }

    /// A well formed state has a well formed tracker and finite sets.
    pub proof fn lemma_wf(&self)
        requires
            self.wf(),
        ensures
            self.tracker().wf(),
            self.executing().finite(),
            self.completed().finite(),
    {
        self.executing_systems.lemma_ordered();
        self.completed_systems.lemma_ordered();
    }

    /// The running systems.
    pub fn executing_names(&self) -> (r: &NameSet)
        requires
            self.wf(),
        ensures
            r.wf(),
            r@ == self.executing(),
            r.ordered() == self.executing_order(),
    {
        &self.executing_systems
    }

    /// The finished systems.
    pub fn completed_names(&self) -> (r: &NameSet)
        requires
            self.wf(),
        ensures
            r.wf(),
            r@ == self.completed(),
    {
        &self.completed_systems
    }

    /// The `i`-th queued system.
    pub fn pending_at(&self, i: usize) -> (r: &String)
        requires
            i < self.pending().len(),
        ensures
            r@ == self.pending()[i as int],
    {
        &self.pending_systems[i]
    }

    /// Takes every queued occurrence of `name` out of the queue.
    pub fn remove_pending(&mut self, name: &str)
        requires
            old(self).wf(),
        ensures
            final(self).wf(),
            final(self).pending() == without_name(old(self).pending(), name@),
            final(self).executing() == old(self).executing(),
            final(self).completed() == old(self).completed(),
            final(self).tracker() == old(self).tracker(),
    {
        let ghost q = self.pending();
        let mut kept: VecDeque<String> = VecDeque::new();
        let mut i: usize = 0;
        assert(q.take(0) =~= Seq::<Seq<char>>::empty());
        while i < self.pending_systems.len()
            invariant
                q == self.pending(),
                i <= q.len(),
                string_views(kept@) == without_name(q.take(i as int), name@),
            decreases q.len() - i,
        {
            let item = &self.pending_systems[i];
            assert(item@ == q[i as int]);
            assert(q.take(i + 1).drop_last() =~= q.take(i as int));
            if !string_eq_str(item, name) {
                let ghost before = string_views(kept@);
                kept.push_back(item.clone());
                assert(string_views(kept@) =~= before.push(item@));
            }
            i = i + 1;
        }
        assert(q.take(i as int) =~= q);
        self.pending_systems = kept;
    }

    /// Marks a system running.
    pub fn mark_executing(&mut self, name: String)
        requires
            old(self).wf(),
        ensures
            final(self).wf(),
            final(self).executing() == old(self).executing().insert(name@),
            final(self).pending() == old(self).pending(),
            final(self).completed() == old(self).completed(),
            final(self).tracker() == old(self).tracker(),
    {
        let _ = self.executing_systems.insert(name);
    }

    /// Number of running systems.
    pub fn executing_count(&self) -> (r: usize)
        requires
            self.wf(),
        ensures
            r == self.executing().len(),
    {
        self.executing_systems.len()
    }

    /// Number of finished systems.
    pub fn completed_count(&self) -> (r: usize)
        requires
            self.wf(),
        ensures
            r == self.completed().len(),
    {
        self.completed_systems.len()
    }

    /// Number of queued systems.
    pub fn pending_count(&self) -> (r: usize)
        ensures
            r == self.pending().len(),
    {
        self.pending_systems.len()
    }

    /// Whether nothing runs and nothing waits.
    pub fn is_complete(&self) -> (r: bool)
        requires
            self.wf(),
        ensures
            r == (self.executing().len() == 0 && self.pending().len() == 0),
    {
        self.executing_systems.is_empty() && self.pending_systems.len() == 0
    }

    /// The resource tracker.
    pub fn resource_tracker(&self) -> (r: &ResourceTracker)
        ensures
            *r == self.tracker(),
    {
        &self.resource_tracker
    }

    /// The resource tracker, for changing it.
    pub fn resource_tracker_mut(&mut self) -> (r: &mut ResourceTracker)
        ensures
            *r == old(self).tracker(),
            final(self).tracker() == *final(r),
            final(self).executing() == old(self).executing(),
            final(self).completed() == old(self).completed(),
            final(self).pending() == old(self).pending(),
    {
        &mut self.resource_tracker
    }

    /// Grants `system` access `access` to `resource` if the borrow rules allow it.
    pub fn try_acquire_resource(&mut self, resource: &str, system: &str, access: &ResourceAccess) -> (res: Result<(), SchedulerError>)
        requires
            old(self).wf(),
        ensures
            final(self).wf(),
            final(self).executing() == old(self).executing(),
            final(self).completed() == old(self).completed(),
            final(self).pending() == old(self).pending(),
            old(self).tracker().access_answer(resource@, system@, *access, res),
            res is Ok ==> ResourceTracker::granted(&old(self).tracker(), &final(self).tracker(), resource@, system@, *access),
            res is Err ==> final(self).tracker() == old(self).tracker(),
    {
        self.resource_tracker.add_access(resource, system, access)
    }

    /// Takes away access `access` to `resource` from `system`.
    pub fn release_resource(&mut self, resource: &str, system: &str, access: &ResourceAccess)
        requires
            old(self).wf(),
        ensures
            final(self).wf(),
            final(self).executing() == old(self).executing(),
            final(self).completed() == old(self).completed(),
            final(self).pending() == old(self).pending(),
            ResourceTracker::revoked(&old(self).tracker(), &final(self).tracker(), resource@, system@, *access),
    {
        self.resource_tracker.remove_access(resource, system, access)
    }

    /// Checks whether `system` may take access `access` to `resource`.
    pub fn can_system_access_resource(&self, resource: &str, system: &str, access: &ResourceAccess) -> (res: Result<(), SchedulerError>)
        requires
            self.wf(),
        ensures
            self.tracker().access_answer(resource@, system@, *access, res),
    {
        self.resource_tracker.can_access_resource(resource, system, access)
    }
}

/// The queue without any occurrence of `name`, in order.
pub open spec fn without_name(q: Seq<Seq<char>>, name: Seq<char>) -> Seq<Seq<char>>
    decreases q.len(),
{
    if q.len() == 0 {
        q
    } else if q.last() == name {
        without_name(q.drop_last(), name)
    } else {
        without_name(q.drop_last(), name).push(q.last())
    }
}

/// Conflicts between systems, as adjacency lists.
#[derive(Debug)]
pub struct ConflictGraph {
    /// For each system, the systems it conflicts with and how.
    pub edges: StrMap<Vec<(String, ConflictType)>>,
    /// All systems in the graph.
    pub systems: NameSet,
}

/// The neighbour names and conflict kinds of an adjacency list.
pub open spec fn edge_views(v: Seq<(String, ConflictType)>) -> Seq<(Seq<char>, ConflictType)> {
    v.map_values(|e: (String, ConflictType)| (e.0@, e.1))
}

impl ConflictGraph {
    pub open spec fn wf(&self) -> bool {
        self.edges.wf() && self.systems.wf()
    }

    /// The adjacency list of `s`; empty when `s` has none.
    pub open spec fn neighbors(&self, s: Seq<char>) -> Seq<(Seq<char>, ConflictType)> {
        if self.edges@.contains_key(s) {
            edge_views(self.edges@[s]@)
        } else {
            Seq::empty()
        }
    }

    /// Whether the adjacency list of `a` names `b`.
    pub open spec fn conflicts(&self, a: Seq<char>, b: Seq<char>) -> bool {
        exists|i: int| 0 <= i < self.neighbors(a).len() && #[trigger] self.neighbors(a)[i].0 == b
    }

    /// Every conflict is recorded in both directions.
    pub open spec fn symmetric(&self) -> bool {
        forall|a: Seq<char>, b: Seq<char>| #[trigger] self.conflicts(a, b) ==> self.conflicts(b, a)
    }

    /// An empty graph.
    pub fn new() -> (r: ConflictGraph)
        ensures
            r.wf(),
            r.symmetric(),
            r.systems@ == Set::<Seq<char>>::empty(),
            forall|s: Seq<char>| r.neighbors(s) == Seq::<(Seq<char>, ConflictType)>::empty(),
    {
        ConflictGraph { edges: StrMap::new(), systems: NameSet::new() }
    }

    /// Adds a system, with no conflicts if it had none.
    pub fn add_system(&mut self, system: String)
        requires
            old(self).wf(),
        ensures
            final(self).wf(),
            final(self).systems@ == old(self).systems@.insert(system@),
            forall|s: Seq<char>| final(self).neighbors(s) == old(self).neighbors(s),
            old(self).symmetric() ==> final(self).symmetric(),
    {
        let _ = self.systems.insert(system.clone());
        if !self.edges.contains_key(system.as_str()) {
            let ghost key = system@;
            self.edges.insert(system, Vec::new());
            proof {
                assert forall|s: Seq<char>| self.neighbors(s) == old(self).neighbors(s) by {
                    if s == key {
                        assert(edge_views(Seq::<(String, ConflictType)>::empty()) =~= Seq::<(Seq<char>, ConflictType)>::empty());
                    }
                }
            }
        }
        proof {
            assert forall|a: Seq<char>, b: Seq<char>| #[trigger] self.conflicts(a, b) == old(self).conflicts(a, b) by {
                assert(self.neighbors(a) == old(self).neighbors(a));
            }
        }
    }

    fn push_edge(&mut self, from: &str, to: &str, conflict_type: ConflictType)
        requires
            old(self).wf(),
        ensures
            final(self).wf(),
            final(self).systems == old(self).systems,
            forall|s: Seq<char>| #[trigger] final(self).neighbors(s) == if s == from@ {
                old(self).neighbors(s).push((to@, conflict_type))
            } else {
                old(self).neighbors(s)
            },
    {
        let mut list = match self.edges.remove(from) {
            Some(list) => list,
            None => Vec::new(),
        };
        let ghost old_list = edge_views(list@);
        list.push((to.to_owned(), conflict_type));
        assert(edge_views(list@) =~= old_list.push((to@, conflict_type)));
        self.edges.insert(from.to_owned(), list);
        proof {
            assert forall|s: Seq<char>| #[trigger] self.neighbors(s) == if s == from@ {
                old(self).neighbors(s).push((to@, conflict_type))
            } else {
                old(self).neighbors(s)
            } by {
                if s == from@ && !old(self).edges@.contains_key(s) {
                    assert(old_list =~= Seq::<(Seq<char>, ConflictType)>::empty());
                }
            }
        }
    }

    /// Records a conflict between two systems in both adjacency lists; a `NoConflict` is not recorded.
    pub fn add_conflict(&mut self, system1: &str, system2: &str, conflict_type: ConflictType)
        requires
            old(self).wf(),
        ensures
            final(self).wf(),
            final(self).systems == old(self).systems,
            conflict_type == ConflictType::NoConflict ==> *final(self) == *old(self),
            conflict_type != ConflictType::NoConflict ==> forall|s: Seq<char>| #[trigger] final(self).neighbors(s) == if s == system1@ && s == system2@ {
                old(self).neighbors(s).push((system2@, conflict_type)).push((system1@, conflict_type))
            } else if s == system1@ {
                old(self).neighbors(s).push((system2@, conflict_type))
            } else if s == system2@ {
                old(self).neighbors(s).push((system1@, conflict_type))
            } else {
                old(self).neighbors(s)
            },
            old(self).symmetric() ==> final(self).symmetric(),
    {
        if conflict_type != ConflictType::NoConflict {
            let ghost mid_before = *self;
            self.push_edge(system1, system2, conflict_type);
            let ghost mid = *self;
            self.push_edge(system2, system1, conflict_type);
            proof {
                assert forall|a: Seq<char>, b: Seq<char>| #[trigger] self.conflicts(a, b) implies old(self).conflicts(a, b)
                    || (a == system1@ && b == system2@) || (a == system2@ && b == system1@) by {
                    let i = choose|i: int| 0 <= i < self.neighbors(a).len() && #[trigger] self.neighbors(a)[i].0 == b;
                    if i < old(self).neighbors(a).len() {
                        if a == system1@ && a == system2@ {
                            assert(self.neighbors(a)[i] == old(self).neighbors(a)[i]);
                        } else if a == system1@ || a == system2@ {
                            assert(self.neighbors(a)[i] == old(self).neighbors(a)[i]);
                        }
                    }
                }
                if old(self).symmetric() {
                    assert forall|a: Seq<char>, b: Seq<char>| #[trigger] self.conflicts(a, b) implies self.conflicts(b, a) by {
                        if old(self).conflicts(a, b) {
                            assert(old(self).conflicts(b, a));
                            let i = choose|i: int| 0 <= i < old(self).neighbors(b).len() && #[trigger] old(self).neighbors(b)[i].0 == a;
                            assert(self.neighbors(b)[i] == old(self).neighbors(b)[i]);
                        } else if a == system1@ && b == system2@ {
                            let n = old(self).neighbors(b).len();
                            if b == system1@ {
                                assert(self.neighbors(b)[n as int + 1].0 == a);
                            } else {
                                assert(self.neighbors(b)[n as int].0 == a);
                            }
                        } else {
                            let n = old(self).neighbors(b).len();
                            assert(self.neighbors(b)[n as int].0 == a);
                        }
                    }
                }
            }
        }
    }

    /// After a conflict between `s1` and `s2` is added, the conflicts are the earlier ones and
    /// that pair, both ways.
    pub proof fn lemma_conflicts_after_add(before: &ConflictGraph, after: &ConflictGraph, s1: Seq<char>, s2: Seq<char>, t: ConflictType)
        requires
            forall|s: Seq<char>| #[trigger] after.neighbors(s) == if s == s1 && s == s2 {
                before.neighbors(s).push((s2, t)).push((s1, t))
            } else if s == s1 {
                before.neighbors(s).push((s2, t))
            } else if s == s2 {
                before.neighbors(s).push((s1, t))
            } else {
                before.neighbors(s)
            },
        ensures
            forall|a: Seq<char>, b: Seq<char>| #[trigger] after.conflicts(a, b) <==> before.conflicts(a, b)
                || (a == s1 && b == s2) || (a == s2 && b == s1),
    {
        assert forall|a: Seq<char>, b: Seq<char>| #[trigger] after.conflicts(a, b) <==> before.conflicts(a, b)
            || (a == s1 && b == s2) || (a == s2 && b == s1) by {
            let na = before.neighbors(a);
            assert(after.neighbors(a) == after.neighbors(a));
            if after.conflicts(a, b) {
                let i = choose|i: int| 0 <= i < after.neighbors(a).len() && #[trigger] after.neighbors(a)[i].0 == b;
                if i < na.len() {
                    assert(after.neighbors(a)[i] == na[i]);
                }
            }
            if before.conflicts(a, b) {
                let i = choose|i: int| 0 <= i < na.len() && #[trigger] na[i].0 == b;
                assert(after.neighbors(a)[i] == na[i]);
            }
            if a == s1 && b == s2 {
                assert(after.neighbors(a)[na.len() as int].0 == b);
            }
            if a == s2 && b == s1 {
                if a == s1 {
                    assert(after.neighbors(a)[na.len() as int + 1].0 == b);
                } else {
                    assert(after.neighbors(a)[na.len() as int].0 == b);
                }
            }
        }
    }

    /// The systems that `system` conflicts with, in the order the conflicts were added.
    pub fn get_conflicts(&self, system: &str) -> (r: Vec<String>)
        requires
            self.wf(),
        ensures
            string_views(r@) == self.neighbors(system@).map_values(|e: (Seq<char>, ConflictType)| e.0),
    {
        let mut r: Vec<String> = Vec::new();
        match self.edges.get(system) {
            None => {
                assert(string_views(r@) =~= self.neighbors(system@).map_values(|e: (Seq<char>, ConflictType)| e.0));
            },
            Some(list) => {
                let mut i: usize = 0;
                while i < list.len()
                    invariant
                        i <= list.len(),
                        string_views(r@) == edge_views(list@).take(i as int).map_values(|e: (Seq<char>, ConflictType)| e.0),
                    decreases list.len() - i,
                {
                    let ghost old_r = r@;
                    let name = list[i].0.clone();
                    r.push(name);
                    assert(string_views(r@) =~= string_views(old_r).push(name@));
                    assert(edge_views(list@).take(i + 1).map_values(|e: (Seq<char>, ConflictType)| e.0) =~=
                        edge_views(list@).take(i as int).map_values(|e: (Seq<char>, ConflictType)| e.0).push(name@));
                    i = i + 1;
                }
                assert(edge_views(list@).take(i as int) =~= edge_views(list@));
            },
        }
        r
    }

    /// Whether the adjacency list of `system1` names `system2`.
    pub fn has_conflict(&self, system1: &str, system2: &str) -> (r: bool)
        requires
            self.wf(),
        ensures
            r == self.conflicts(system1@, system2@),
    {
        let target: String = system2.to_owned();
        match self.edges.get(system1) {
            None => false,
            Some(list) => {
                let mut i: usize = 0;
                while i < list.len()
                    invariant
                        i <= list.len(),
                        forall|j: int| 0 <= j < i ==> list@[j].0@ != target@,
                        self.edges@.contains_key(system1@),
                        *list == self.edges@[system1@],
                        target@ == system2@,
                    decreases list.len() - i,
                {
                    if list[i].0 == target {
                        assert(edge_views(list@)[i as int].0 == target@);
                        assert(self.neighbors(system1@)[i as int].0 == system2@);
                        return true;
                    }
                    i = i + 1;
                }
                assert forall|j: int| 0 <= j < edge_views(list@).len() implies #[trigger] edge_views(list@)[j].0 != target@ by {
                    assert(edge_views(list@)[j].0 == list@[j].0@);
                }
                false
            },
        }
    }
}

/// A conflict recorded between two systems is recorded in both directions.
pub proof fn law_conflicts_symmetric(g: &ConflictGraph, a: Seq<char>, b: Seq<char>)
    requires
        g.symmetric(),
    ensures
        g.conflicts(a, b) == g.conflicts(b, a),
{
}

/// Borrow safety: while a system writes or owns a resource, every other system is refused
/// every kind of access to it.
pub proof fn law_exclusive_holder_excludes_others(
    t: &ResourceTracker,
    r: Seq<char>,
    holder: Seq<char>,
    other: Seq<char>,
    a: ResourceAccess,
)
    requires
        t.wf(),
        t.writer(r) == Some(holder) || t.owner(r) == Some(holder),
        other != holder,
    ensures
        !t.access_allowed(r, other, a),
{
    assert(t.exclusive(r));
}

/// Borrow safety: while a system reads a resource, every other system is refused `&mut` and
/// ownership of it.
pub proof fn law_reader_excludes_writers(t: &ResourceTracker, r: Seq<char>, reader: Seq<char>, other: Seq<char>)
    requires
        t.wf(),
        t.readers(r).contains(reader),
        other != reader,
    ensures
        !t.access_allowed(r, other, ResourceAccess::Mutable),
        !t.access_allowed(r, other, ResourceAccess::Owned),
{
    t.lemma_structure();
}

/// Shared reading: when nobody writes or owns a resource, every system may read it.
pub proof fn law_shared_reads(t: &ResourceTracker, r: Seq<char>, s: Seq<char>)
    requires
        t.wf(),
        t.writer(r) is None,
        t.owner(r) is None,
    ensures
        t.access_allowed(r, s, ResourceAccess::Immutable),
{
}

/// Releasing an access that was just granted, and that the system did not hold before,
/// gives back the tracker as it was.
pub proof fn law_release_undoes_acquire(
    t0: &ResourceTracker,
    t1: &ResourceTracker,
    t2: &ResourceTracker,
    r: Seq<char>,
    s: Seq<char>,
    a: ResourceAccess,
)
    requires
        t0.wf(),
        t0.access_allowed(r, s, a),
        !t0.holds(r, s, a),
        ResourceTracker::granted(t0, t1, r, s, a),
        ResourceTracker::revoked(t1, t2, r, s, a),
    ensures
        ResourceTracker::same_holders(t0, t2),
{
    assert forall|x: Seq<char>| t2.readers(x) == t0.readers(x) && t2.writer(x) == t0.writer(x)
        && t2.owner(x) == t0.owner(x) by {
        assert(t1.readers(x) == t1.readers(x));
        assert(t2.readers(x) == t2.readers(x));
        if x == r && a == ResourceAccess::Immutable {
            assert(t0.readers(x).insert(s).remove(s) =~= t0.readers(x));
        }
    }
}

} // verus!
