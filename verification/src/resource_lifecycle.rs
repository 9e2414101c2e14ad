//! Leases on resources, the dependencies between resources, and the timeouts of leases.
//! Times are in milliseconds.
use vstd::prelude::*;

use crate::ast::ResourceAccess;
use crate::async_runtime::{task_label, AsyncExecutionError, TaskId};
use crate::system_scheduler::push_decimal;
use crate::clock::now_millis;
use crate::graph::{edge, graph_has_cycle, graph_view, graph_wf, has_cycle_spec, lemma_same_edges_same_cycles};
use crate::names::{string_views, NameSet, StrMap};
use std::collections::VecDeque;

verus! {

/// A lease of a resource to a task.
#[derive(Debug, Clone)]
pub struct ResourceLease {
    pub resource_name: String,
    pub task_id: TaskId,
    pub access_type: ResourceAccess,
    pub acquired_at: u64,
    pub lease_duration: u64,
    pub auto_release: bool,
    pub reference_count: u32,
    /// Other resources this lease depends on.
    pub dependencies: Vec<String>,
}

/// The set a map holds for `k`, or the empty set.
pub open spec fn set_or_empty(m: Map<Seq<char>, Set<Seq<char>>>, k: Seq<char>) -> Set<Seq<char>> {
    if m.contains_key(k) {
        m[k]
    } else {
        Set::empty()
    }
}

/// Which resources depend on which.
#[derive(Debug)]
pub struct ResourceDependencyGraph {
    /// Resource to the resources it depends on.
    dependencies: StrMap<NameSet>,
    /// Resource to the resources that depend on it.
    dependents: StrMap<NameSet>,
    /// Hierarchy levels of resources.
    levels: StrMap<u32>,
}

proof fn lemma_graph_insert(before: &StrMap<NameSet>, after: &StrMap<NameSet>, k: Seq<char>, s: &NameSet)
    requires
        graph_wf(before),
        after.wf(),
        s.wf(),
        after@ == before@.insert(k, *s),
    ensures
        graph_wf(after),
        graph_view(after) == graph_view(before).insert(k, s@),
{
    assert(graph_view(after) =~= graph_view(before).insert(k, s@));
}

/// Adds `target` to the set `g` holds for `key`, creating the set if needed.
fn add_edge(g: &mut StrMap<NameSet>, key: String, target: String)
    requires
        graph_wf(old(g)),
    ensures
        graph_wf(final(g)),
        graph_view(final(g)) == graph_view(old(g)).insert(
            key@,
            set_or_empty(graph_view(old(g)), key@).insert(target@),
        ),
{
    let ghost gv = graph_view(g);
    let mut set = match g.remove(key.as_str()) {
        Some(existing) => existing,
        None => NameSet::new(),
    };
    proof {
        assert(graph_wf(g));
        assert(graph_view(g) =~= gv.remove(key@));
    }
    set.insert(target);
    let ghost removed = *g;
    let ghost kv = key@;
    g.insert(key, set);
    proof {
        lemma_graph_insert(&removed, g, kv, &set);
        assert(graph_view(g) =~= gv.insert(kv, set_or_empty(gv, kv).insert(target@)));
    }
}

/// Takes `target` out of the set `g` holds for `key`, if there is one; the set stays, even
/// when it becomes empty.
fn remove_edge(g: &mut StrMap<NameSet>, key: &str, target: &str)
    requires
        graph_wf(old(g)),
    ensures
        graph_wf(final(g)),
        graph_view(final(g)) == if graph_view(old(g)).contains_key(key@) {
            graph_view(old(g)).insert(key@, graph_view(old(g))[key@].remove(target@))
        } else {
            graph_view(old(g))
        },
{
    let ghost gv = graph_view(g);
    match g.remove(key) {
        Some(existing) => {
            let mut set = existing;
            set.remove(target);
            let ghost removed = *g;
            assert(graph_wf(&removed));
            g.insert(key.to_owned(), set);
            proof {
                lemma_graph_insert(&removed, g, key@, &set);
                assert(graph_view(&removed) =~= gv.remove(key@));
                assert(graph_view(g) =~= gv.insert(key@, gv[key@].remove(target@)));
            }
        },
        None => {},
    }
}

/// `m` with an edge from `a` to `b` added.
pub open spec fn with_edge(m: Map<Seq<char>, Set<Seq<char>>>, a: Seq<char>, b: Seq<char>) -> Map<Seq<char>, Set<Seq<char>>> {
    m.insert(a, set_or_empty(m, a).insert(b))
}

/// `m` without the edge from `a` to `b`; the nodes stay.
pub open spec fn without_edge(m: Map<Seq<char>, Set<Seq<char>>>, a: Seq<char>, b: Seq<char>) -> Map<Seq<char>, Set<Seq<char>>> {
    if m.contains_key(a) {
        m.insert(a, m[a].remove(b))
    } else {
        m
    }
}

/// Taking away an edge that was just added, where there was none before, leaves the edges
/// there were (the node the edge started from stays, with no new edge), so whether the
/// graph has a cycle is as before.
pub proof fn law_remove_undoes_add(m: Map<Seq<char>, Set<Seq<char>>>, a: Seq<char>, b: Seq<char>)
    requires
        !edge(m, a, b),
    ensures
        forall|x: Seq<char>, y: Seq<char>| #[trigger] edge(without_edge(with_edge(m, a, b), a, b), x, y) == edge(m, x, y),
        m.dom().subset_of(without_edge(with_edge(m, a, b), a, b).dom()),
        has_cycle_spec(without_edge(with_edge(m, a, b), a, b)) == has_cycle_spec(m),
{
    let m2 = without_edge(with_edge(m, a, b), a, b);
    assert forall|x: Seq<char>, y: Seq<char>| #[trigger] edge(m2, x, y) == edge(m, x, y) by {
        if x == a && y == b {
        } else if x == a {
            assert(m2[a].contains(y) == set_or_empty(m, a).contains(y));
        }
    }
    lemma_same_edges_same_cycles(m2, m);
}

impl ResourceDependencyGraph {
    /// Resource to the resources it depends on.
    pub closed spec fn deps(&self) -> Map<Seq<char>, Set<Seq<char>>> {
        graph_view(&self.dependencies)
    }

    /// Resource to the resources that depend on it.
    pub closed spec fn dependents_of(&self) -> Map<Seq<char>, Set<Seq<char>>> {
        graph_view(&self.dependents)
    }

    /// Each map is the other turned round: `a` depends on `b` exactly when `a` is among the
    /// dependents of `b`.
    pub open spec fn dependents_inverse(&self) -> bool {
        forall|a: Seq<char>, b: Seq<char>|
            (#[trigger] edge(self.deps(), a, b)) <==> #[trigger] edge(self.dependents_of(), b, a)
    }

    pub closed spec fn wf(&self) -> bool {
        &&& graph_wf(&self.dependencies)
        &&& graph_wf(&self.dependents)
        &&& self.levels.wf()
        &&& self.dependents_inverse()
    }

    /// The dependents are the dependencies turned round.
    pub proof fn lemma_dependents_inverse(&self)
        requires
            self.wf(),
        ensures
            self.dependents_inverse(),
    {
    }

    /// A graph with no resources.
    pub fn new() -> (r: ResourceDependencyGraph)
        ensures
            r.wf(),
            r.deps() == Map::<Seq<char>, Set<Seq<char>>>::empty(),
            r.dependents_of() == Map::<Seq<char>, Set<Seq<char>>>::empty(),
    {
        let r = ResourceDependencyGraph {
            dependencies: StrMap::new(),
            dependents: StrMap::new(),
            levels: StrMap::new(),
        };
        assert(r.deps() =~= Map::<Seq<char>, Set<Seq<char>>>::empty());
        assert(r.dependents_of() =~= Map::<Seq<char>, Set<Seq<char>>>::empty());
        r
    }

    /// Records that `resource` depends on `dependency`.
    pub fn add_dependency(&mut self, resource: String, dependency: String)
        requires
            old(self).wf(),
        ensures
            final(self).wf(),
            final(self).deps() == with_edge(old(self).deps(), resource@, dependency@),
            final(self).dependents_of() == with_edge(old(self).dependents_of(), dependency@, resource@),
            final(self).dependents_inverse(),
    {
        add_edge(&mut self.dependencies, resource.clone(), dependency.clone());
        add_edge(&mut self.dependents, dependency, resource);
        proof {
            assert forall|a: Seq<char>, b: Seq<char>|
                (#[trigger] edge(self.deps(), a, b)) <==> #[trigger] edge(self.dependents_of(), b, a) by {
                assert(edge(old(self).deps(), a, b) <==> edge(old(self).dependents_of(), b, a));
            }
        }
    }

    /// Forgets that `resource` depends on `dependency`; the resources stay known.
    pub fn remove_dependency(&mut self, resource: &str, dependency: &str)
        requires
            old(self).wf(),
        ensures
            final(self).wf(),
            final(self).deps() == without_edge(old(self).deps(), resource@, dependency@),
            final(self).dependents_of() == without_edge(old(self).dependents_of(), dependency@, resource@),
            final(self).dependents_inverse(),
    {
        remove_edge(&mut self.dependencies, resource, dependency);
        remove_edge(&mut self.dependents, dependency, resource);
        proof {
            assert forall|a: Seq<char>, b: Seq<char>|
                (#[trigger] edge(self.deps(), a, b)) <==> #[trigger] edge(self.dependents_of(), b, a) by {
                assert(edge(old(self).deps(), a, b) <==> edge(old(self).dependents_of(), b, a));
            }
        }
    }

    /// Number of resources with a dependency entry.
    pub fn resource_count(&self) -> (r: usize)
        requires
            self.wf(),
        ensures
            r == self.deps().len(),
    {
        proof {
            assert(self.deps().dom() =~= self.dependencies@.dom());
        }
        self.dependencies.len()
    }

    /// Makes `resource` known, with no dependencies and no dependents, unless it is known.
    pub fn ensure_resource(&mut self, resource: &str)
        requires
            old(self).wf(),
        ensures
            final(self).wf(),
            final(self).deps() == if old(self).deps().contains_key(resource@) {
                old(self).deps()
            } else {
                old(self).deps().insert(resource@, Set::empty())
            },
            final(self).dependents_of() == if old(self).dependents_of().contains_key(resource@) {
                old(self).dependents_of()
            } else {
                old(self).dependents_of().insert(resource@, Set::empty())
            },
    {
        if !self.dependencies.contains_key(resource) {
            let ghost before = self.dependencies;
            let e = NameSet::new();
            self.dependencies.insert(resource.to_owned(), e);
            proof {
                lemma_graph_insert(&before, &self.dependencies, resource@, &e);
            }
        }
        if !self.dependents.contains_key(resource) {
            let ghost before = self.dependents;
            let e = NameSet::new();
            self.dependents.insert(resource.to_owned(), e);
            proof {
                lemma_graph_insert(&before, &self.dependents, resource@, &e);
            }
        }
        proof {
            assert forall|a: Seq<char>, b: Seq<char>|
                (#[trigger] edge(self.deps(), a, b)) <==> #[trigger] edge(self.dependents_of(), b, a) by {
                assert(edge(old(self).deps(), a, b) <==> edge(old(self).dependents_of(), b, a));
            }
        }
    }

    /// Forgets what `resource` depends on, and takes it out of every set of dependents; the
    /// resource stays known.
    pub fn clear_resource(&mut self, resource: &str)
        requires
            old(self).wf(),
        ensures
            final(self).wf(),
            final(self).deps() == if old(self).deps().contains_key(resource@) {
                old(self).deps().insert(resource@, Set::empty())
            } else {
                old(self).deps()
            },
            final(self).dependents_of() == Map::new(
                |k: Seq<char>| old(self).dependents_of().contains_key(k),
                |k: Seq<char>| old(self).dependents_of()[k].remove(resource@),
            ),
    {
        if self.dependencies.contains_key(resource) {
            let ghost before = self.dependencies;
            let e = NameSet::new();
            self.dependencies.insert(resource.to_owned(), e);
            proof {
                lemma_graph_insert(&before, &self.dependencies, resource@, &e);
            }
        }
        let keys = self.dependents.keys();
        let ghost d0 = graph_view(&self.dependents);
        let ghost deps_now = self.dependencies;
        let ghost levels_now = self.levels;
        let mut i: usize = 0;
        while i < keys.len()
            invariant
                self.dependencies == deps_now,
                self.levels == levels_now,
                graph_wf(&deps_now),
                levels_now.wf(),
                graph_wf(&self.dependents),
                i <= keys@.len(),
                string_views(keys@).no_duplicates(),
                string_views(keys@).to_set() == d0.dom(),
                graph_view(&self.dependents).dom() == d0.dom(),
                forall|k: Seq<char>| #[trigger] d0.contains_key(k) ==> graph_view(&self.dependents)[k] == if string_views(keys@).take(i as int).contains(k) {
                    d0[k].remove(resource@)
                } else {
                    d0[k]
                },
            decreases keys@.len() - i,
        {
            let ghost before = graph_view(&self.dependents);
            let ghost ki = keys@[i as int]@;
            proof {
                assert(string_views(keys@)[i as int] == ki);
                assert(string_views(keys@).to_set().contains(ki));
            }
            remove_edge(&mut self.dependents, keys[i].as_str(), resource);
            proof {
                let sv = string_views(keys@);
                assert(sv.take(i + 1) =~= sv.take(i as int).push(ki));
                assert(!sv.take(i as int).contains(ki)) by {
                    if sv.take(i as int).contains(ki) {
                        let m = choose|m: int| 0 <= m < i && sv.take(i as int)[m] == ki;
                        assert(sv[m] == sv[i as int]);
                    }
                }
                assert forall|k: Seq<char>| #[trigger] d0.contains_key(k) implies graph_view(&self.dependents)[k] == if sv.take(i + 1).contains(k) {
                    d0[k].remove(resource@)
                } else {
                    d0[k]
                } by {
                    if k == ki {
                        assert(sv.take(i + 1).contains(k)) by {
                            assert(sv.take(i + 1)[i as int] == ki);
                        }
                    } else {
                        assert(sv.take(i + 1).contains(k) == sv.take(i as int).contains(k)) by {
                            let t1 = sv.take(i + 1);
                            if t1.contains(k) {
                                let m = choose|m: int| 0 <= m < t1.len() && t1[m] == k;
                                assert(m < i);
                                assert(sv.take(i as int)[m] == k);
                            }
                            if sv.take(i as int).contains(k) {
                                let m = choose|m: int| 0 <= m < i && sv.take(i as int)[m] == k;
                                assert(sv.take(i + 1)[m] == k);
                            }
                        }
                    }
                }
                assert(graph_view(&self.dependents).dom() =~= d0.dom());
            }
            i = i + 1;
        }
        proof {
            assert(string_views(keys@).take(i as int) =~= string_views(keys@));
            assert(graph_view(&self.dependents) =~= Map::new(
                |k: Seq<char>| d0.contains_key(k),
                |k: Seq<char>| d0[k].remove(resource@),
            ));
            assert forall|a: Seq<char>, b: Seq<char>|
                (#[trigger] edge(self.deps(), a, b)) <==> #[trigger] edge(self.dependents_of(), b, a) by {
                assert(edge(old(self).deps(), a, b) <==> edge(old(self).dependents_of(), b, a));
            }
        }
    }

    /// Whether some resource depends on itself through a chain of one or more dependencies.
    pub fn has_cycle(&self) -> (r: bool)
        requires
            self.wf(),
        ensures
            r == has_cycle_spec(self.deps()),
    {
        graph_has_cycle(&self.dependencies)
    }
}

/// `a + b`, or the largest `u64` where the sum does not fit.
pub open spec fn saturating_sum(a: u64, b: u64) -> u64 {
    if a + b > u64::MAX {
        u64::MAX
    } else {
        (a + b) as u64
    }
}

/// When a lease runs out.
#[derive(Debug, Clone)]
pub struct LeaseTimeout {
    pub resource_name: String,
    pub task_id: TaskId,
    pub timeout_at: u64,
}

/// Whether the timeouts are in order of the time they fall due.
pub open spec fn timeouts_sorted(q: Seq<LeaseTimeout>) -> bool {
    forall|i: int, j: int| 0 <= i < j < q.len() ==> (#[trigger] q[i]).timeout_at <= (#[trigger] q[j]).timeout_at
}

/// Whether releasing, one after another, the leases that the timeouts of `q` name all
/// succeed, starting from `leases`: each resource is still leased, to the timeout's task.
pub open spec fn expiries_release(leases: Map<Seq<char>, ResourceLease>, q: Seq<LeaseTimeout>) -> bool
    decreases q.len(),
{
    if q.len() == 0 {
        true
    } else {
        &&& leases.contains_key(q[0].resource_name@)
        &&& leases[q[0].resource_name@].task_id == q[0].task_id
        &&& expiries_release(leases.remove(q[0].resource_name@), q.drop_first())
    }
}

/// The leases left of `leases` once the resources that the timeouts of `q` name are released.
pub open spec fn leases_after_expiry(leases: Map<Seq<char>, ResourceLease>, q: Seq<LeaseTimeout>) -> Map<
    Seq<char>,
    ResourceLease,
>
    decreases q.len(),
{
    if q.len() == 0 {
        leases
    } else {
        leases_after_expiry(leases.remove(q[0].resource_name@), q.drop_first())
    }
}

/// Where a timeout falling due at `t` goes: after every timeout due no later than `t`.
pub open spec fn insert_position(q: Seq<LeaseTimeout>, t: u64) -> int
    decreases q.len(),
{
    if q.len() == 0 {
        0
    } else if t < q[0].timeout_at {
        0
    } else {
        1 + insert_position(q.drop_first(), t)
    }
}

/// Number of leading timeouts due at or before `now`.
pub open spec fn expired_count(q: Seq<LeaseTimeout>, now: u64) -> int
    decreases q.len(),
{
    if q.len() == 0 {
        0
    } else if q[0].timeout_at <= now {
        1 + expired_count(q.drop_first(), now)
    } else {
        0
    }
}

/// Whether a timeout belongs to the lease of `task` on `resource`.
pub open spec fn timeout_matches(t: LeaseTimeout, resource: Seq<char>, task: TaskId) -> bool {
    t.resource_name@ == resource && t.task_id == task
}

/// The timeouts of `q` that do not belong to the lease of `task` on `resource`, in order.
pub open spec fn without_lease(q: Seq<LeaseTimeout>, resource: Seq<char>, task: TaskId) -> Seq<LeaseTimeout>
    decreases q.len(),
{
    if q.len() == 0 {
        q
    } else {
        let earlier = without_lease(q.drop_last(), resource, task);
        if timeout_matches(q.last(), resource, task) {
            earlier
        } else {
            earlier.push(q.last())
        }
    }
}

/// The pending lease timeouts, kept in the order they fall due.
#[derive(Debug)]
pub struct LeaseTimeoutManager {
    timeouts: Vec<LeaseTimeout>,
}

proof fn lemma_insert_position(q: Seq<LeaseTimeout>, t: u64)
    ensures
        0 <= insert_position(q, t) <= q.len(),
        forall|i: int| 0 <= i < insert_position(q, t) ==> (#[trigger] q[i]).timeout_at <= t,
        timeouts_sorted(q) && insert_position(q, t) < q.len() ==> t < q[insert_position(q, t)].timeout_at,
    decreases q.len(),
{
    if q.len() > 0 && t >= q[0].timeout_at {
        lemma_insert_position(q.drop_first(), t);
        assert forall|i: int| 0 <= i < insert_position(q, t) implies (#[trigger] q[i]).timeout_at <= t by {
            if i > 0 {
                assert(q[i] == q.drop_first()[i - 1]);
            }
        }
        if timeouts_sorted(q) {
            assert(timeouts_sorted(q.drop_first()));
        }
    }
}

proof fn lemma_expired_count(q: Seq<LeaseTimeout>, now: u64)
    ensures
        0 <= expired_count(q, now) <= q.len(),
        forall|i: int| 0 <= i < expired_count(q, now) ==> (#[trigger] q[i]).timeout_at <= now,
        expired_count(q, now) < q.len() ==> q[expired_count(q, now)].timeout_at > now,
    decreases q.len(),
{
    if q.len() > 0 && q[0].timeout_at <= now {
        lemma_expired_count(q.drop_first(), now);
        assert forall|i: int| 0 <= i < expired_count(q, now) implies (#[trigger] q[i]).timeout_at <= now by {
            if i > 0 {
                assert(q[i] == q.drop_first()[i - 1]);
            }
        }
    }
}

impl LeaseTimeoutManager {
    /// The pending timeouts, earliest first.
    pub closed spec fn queue(&self) -> Seq<LeaseTimeout> {
        self.timeouts@
    }

    pub open spec fn wf(&self) -> bool {
        timeouts_sorted(self.queue())
    }

    /// A manager with no timeouts.
    pub fn new() -> (r: LeaseTimeoutManager)
        ensures
            r.wf(),
            r.queue() == Seq::<LeaseTimeout>::empty(),
    {
        LeaseTimeoutManager { timeouts: Vec::new() }
    }

    /// Schedules the end of the lease of `task_id` on `resource_name` at time `timeout_at`,
    /// after every timeout due no later.
    #[verifier::spinoff_prover]
    pub fn schedule_timeout_at(&mut self, resource_name: String, task_id: TaskId, timeout_at: u64)
        requires
            old(self).wf(),
        ensures
            final(self).wf(),
            final(self).queue() == old(self).queue().insert(
                insert_position(old(self).queue(), timeout_at),
                (LeaseTimeout { resource_name, task_id, timeout_at }),
            ),
    {
        let timeout = LeaseTimeout { resource_name, task_id, timeout_at };
        let mut index: usize = 0;
        proof {
            lemma_insert_position(self.timeouts@, timeout_at);
            assert(self.timeouts@.skip(0) =~= self.timeouts@);
        }
        while index < self.timeouts.len()
            invariant
                index <= self.timeouts@.len(),
                self.timeouts@ == old(self).timeouts@,
                insert_position(self.timeouts@, timeout_at) == index + insert_position(
                    self.timeouts@.skip(index as int),
                    timeout_at,
                ),
            ensures
                index == self.timeouts@.len() || timeout_at < self.timeouts@[index as int].timeout_at,
            decreases self.timeouts@.len() - index,
        {
            if timeout_at < self.timeouts[index].timeout_at {
                break;
            }
            assert(self.timeouts@.skip(index as int).drop_first() =~= self.timeouts@.skip(index + 1));
            index = index + 1;
        }
        proof {
            if index == self.timeouts@.len() {
                assert(self.timeouts@.skip(index as int) =~= Seq::<LeaseTimeout>::empty());
            } else {
                assert(self.timeouts@.skip(index as int)[0] == self.timeouts@[index as int]);
            }
            assert(insert_position(self.timeouts@, timeout_at) == index);
        }
        let ghost q = self.timeouts@;
        self.timeouts.insert(index, timeout);
        proof {
            lemma_insert_position(q, timeout_at);
            q.insert_ensures(index as int, timeout);
            let nq = self.timeouts@;
            assert forall|i: int, j: int| 0 <= i < j < nq.len() implies (#[trigger] nq[i]).timeout_at
                <= (#[trigger] nq[j]).timeout_at by {
                let p = index as int;
                if i < p && j < p {
                    assert(nq[i] == q[i] && nq[j] == q[j]);
                } else if i < p && j == p {
                    assert(nq[i] == q[i]);
                } else if i < p {
                    assert(nq[i] == q[i] && nq[j] == q[j - 1]);
                } else if i == p {
                    assert(nq[j] == q[j - 1]);
                    assert(timeout_at < q[p].timeout_at);
                    assert(q[p].timeout_at <= q[j - 1].timeout_at || p == j - 1);
                } else {
                    assert(nq[i] == q[i - 1] && nq[j] == q[j - 1]);
                }
            }
        }
    }

    /// Schedules the end of the lease of `task_id` on `resource_name` `duration` milliseconds
    /// from now, by the system clock (saturating at the largest time).
    pub fn schedule_timeout(&mut self, resource_name: String, task_id: TaskId, duration: u64)
        requires
            old(self).wf(),
        ensures
            final(self).wf(),
            exists|now: u64| final(self).queue() == old(self).queue().insert(
                insert_position(old(self).queue(), saturating_sum(now, duration)),
                (LeaseTimeout { resource_name, task_id, timeout_at: saturating_sum(now, duration) }),
            ),
    {
        let now = now_millis();
        let due = now.saturating_add(duration);
        assert(due == saturating_sum(now, duration));
        let ghost name = resource_name;
        self.schedule_timeout_at(resource_name, task_id, due);
        assert(self.queue() == old(self).queue().insert(
            insert_position(old(self).queue(), saturating_sum(now, duration)),
            (LeaseTimeout { resource_name: name, task_id, timeout_at: saturating_sum(now, duration) }),
        ));
    }

    /// Drops the timeouts of the lease of `task_id` on `resource_name`, keeping the others in
    /// order.
    pub fn cancel_timeout(&mut self, resource_name: &str, task_id: TaskId)
        requires
            old(self).wf(),
        ensures
            final(self).wf(),
            final(self).queue() == without_lease(old(self).queue(), resource_name@, task_id),
    {
        let ghost q = self.timeouts@;
        let mut kept: Vec<LeaseTimeout> = Vec::new();
        let mut i: usize = 0;
        while i < self.timeouts.len()
            invariant
                self.timeouts@ == q,
                timeouts_sorted(q),
                i <= q.len(),
                kept@ == without_lease(q.take(i as int), resource_name@, task_id),
                timeouts_sorted(kept@),
                forall|k: int, j: int| 0 <= k < kept@.len() && i <= j < q.len() ==> (#[trigger] kept@[k]).timeout_at
                    <= (#[trigger] q[j]).timeout_at,
            decreases q.len() - i,
        {
            let t = &self.timeouts[i];
            let same_name = crate::names::string_eq_str(&t.resource_name, resource_name);
            assert(q.take(i + 1).drop_last() =~= q.take(i as int));
            if !(same_name && t.task_id == task_id) {
                let copy = LeaseTimeout {
                    resource_name: t.resource_name.clone(),
                    task_id: t.task_id,
                    timeout_at: t.timeout_at,
                };
                assert(copy == q[i as int]);
                let ghost before = kept@;
                kept.push(copy);
                assert(kept@ == before.push(q[i as int]));
                assert forall|a: int, b: int| 0 <= a < b < kept@.len() implies (#[trigger] kept@[a]).timeout_at
                    <= (#[trigger] kept@[b]).timeout_at by {
                    if b == before.len() {
                        assert(before[a].timeout_at <= q[i as int].timeout_at);
                    } else {
                        assert(before[a].timeout_at <= before[b].timeout_at);
                    }
                }
                assert forall|k: int, j: int| 0 <= k < kept@.len() && i + 1 <= j < q.len() implies (#[trigger] kept@[k]).timeout_at
                    <= (#[trigger] q[j]).timeout_at by {
                    if k == before.len() {
                        assert(q[i as int].timeout_at <= q[j].timeout_at);
                    } else {
                        assert(before[k].timeout_at <= q[j].timeout_at);
                    }
                }
            }
            assert(q.take(i + 1).last() == q[i as int]);
            i = i + 1;
        }
        assert(q.take(i as int) =~= q);
        self.timeouts = kept;
    }

    /// Takes out the timeouts due at or before `now`, earliest first, as resource names and
    /// tasks.
    pub fn get_expired_timeouts_at(&mut self, now: u64) -> (r: Vec<(String, TaskId)>)
        requires
            old(self).wf(),
        ensures
            final(self).wf(),
            final(self).queue() == old(self).queue().skip(expired_count(old(self).queue(), now)),
            r@.len() == expired_count(old(self).queue(), now),
            forall|i: int| 0 <= i < r@.len() ==> (#[trigger] r@[i]).0@ == old(self).queue()[i].resource_name@
                && r@[i].1 == old(self).queue()[i].task_id,
    {
        let ghost q = self.timeouts@;
        proof {
            lemma_expired_count(q, now);
        }
        let mut count: usize = 0;
        assert(q.skip(0) =~= q);
        while count < self.timeouts.len()
            invariant
                self.timeouts@ == q,
                count <= q.len(),
                forall|i: int| 0 <= i < count ==> (#[trigger] q[i]).timeout_at <= now,
                expired_count(q, now) == count + expired_count(q.skip(count as int), now),
            ensures
                count == q.len() || q[count as int].timeout_at > now,
            decreases q.len() - count,
        {
            if self.timeouts[count].timeout_at > now {
                break;
            }
            assert(q.skip(count as int).drop_first() =~= q.skip(count + 1));
            count = count + 1;
        }
        proof {
            if count == q.len() {
                assert(q.skip(count as int) =~= Seq::<LeaseTimeout>::empty());
            } else {
                assert(q.skip(count as int)[0] == q[count as int]);
            }
        }
        let mut expired: Vec<(String, TaskId)> = Vec::new();
        let mut rest: Vec<LeaseTimeout> = Vec::new();
        let mut i: usize = 0;
        assert(q.subrange(count as int, count as int) =~= Seq::<LeaseTimeout>::empty());
        while i < self.timeouts.len()
            invariant
                self.timeouts@ == q,
                count <= q.len(),
                count == expired_count(q, now),
                i <= q.len(),
                expired@.len() == if i < count { i as int } else { count as int },
                forall|k: int| 0 <= k < expired@.len() ==> (#[trigger] expired@[k]).0@ == q[k].resource_name@
                    && expired@[k].1 == q[k].task_id,
                rest@ == if i < count { Seq::<LeaseTimeout>::empty() } else { q.subrange(count as int, i as int) },
            decreases q.len() - i,
        {
            let t = &self.timeouts[i];
            assert(q.subrange(count as int, count as int) =~= Seq::<LeaseTimeout>::empty());
            if i < count {
                expired.push((t.resource_name.clone(), t.task_id));
            } else {
                let copy = LeaseTimeout {
                    resource_name: t.resource_name.clone(),
                    task_id: t.task_id,
                    timeout_at: t.timeout_at,
                };
                assert(copy == q[i as int]);
                rest.push(copy);
                assert(q.subrange(count as int, i + 1) =~= q.subrange(count as int, i as int).push(q[i as int]));
            }
            i = i + 1;
        }
        proof {
            if count == q.len() {
                assert(rest@ =~= q.skip(count as int));
            } else {
                assert(q.subrange(count as int, i as int) =~= q.skip(count as int));
            }
        }
        self.timeouts = rest;
        expired
    }

    /// Takes out the timeouts due by the system clock's current time, earliest first.
    pub fn get_expired_timeouts(&mut self) -> (r: Vec<(String, TaskId)>)
        requires
            old(self).wf(),
        ensures
            final(self).wf(),
            exists|now: u64| {
                &&& final(self).queue() == old(self).queue().skip(expired_count(old(self).queue(), now))
                &&& r@.len() == expired_count(old(self).queue(), now)
            },
            forall|i: int| 0 <= i < r@.len() ==> (#[trigger] r@[i]).0@ == old(self).queue()[i].resource_name@
                && r@[i].1 == old(self).queue()[i].task_id,
    {
        let now = now_millis();
        self.get_expired_timeouts_at(now)
    }
}

/// How long a lease acquired at `acquired_at` has been held at time `now`; never negative.
pub open spec fn lease_age(acquired_at: u64, now: u64) -> int {
    if now >= acquired_at {
        now - acquired_at
    } else {
        0
    }
}

/// The summed ages at time `now` of the leases stored under `keys`.
pub open spec fn total_lease_age(leases: Map<Seq<char>, ResourceLease>, keys: Seq<Seq<char>>, now: u64) -> int
    decreases keys.len(),
{
    if keys.len() == 0 {
        0
    } else {
        total_lease_age(leases, keys.drop_last(), now) + lease_age(leases[keys.last()].acquired_at, now)
    }
}

/// Tracks the leases of resources to tasks, the dependencies between resources and the lease
/// timeouts.
#[derive(Debug)]
pub struct ResourceLifecycleManager {
    active_leases: StrMap<ResourceLease>,
    resource_graph: ResourceDependencyGraph,
    timeout_manager: LeaseTimeoutManager,
    resource_pools: StrMap<ResourcePool>,
    policies: ResourceLifecyclePolicies,
}

impl ResourceLifecycleManager {
    /// The active lease of each resource.
    pub closed spec fn leases(&self) -> Map<Seq<char>, ResourceLease> {
        self.active_leases@
    }

    /// The resources with leases, in the order they were first leased.
    pub closed spec fn leased_order(&self) -> Seq<Seq<char>> {
        self.active_leases.key_seq()
    }

    /// The dependencies between resources.
    pub closed spec fn dependencies(&self) -> Map<Seq<char>, Set<Seq<char>>> {
        self.resource_graph.deps()
    }

    /// The pending lease timeouts.
    pub closed spec fn timeouts(&self) -> Seq<LeaseTimeout> {
        self.timeout_manager.queue()
    }

    pub closed spec fn policies(&self) -> ResourceLifecyclePolicies {
        self.policies
    }

    pub closed spec fn wf(&self) -> bool {
        &&& self.active_leases.wf()
        &&& self.resource_graph.wf()
        &&& self.timeout_manager.wf()
        &&& self.resource_pools.wf()
        &&& forall|k: Seq<char>| #[trigger] self.dependencies().contains_key(k)
            ==> self.dependencies()[k] == Set::<Seq<char>>::empty()
    }

    /// A manager with no leases, resources or timeouts, following `policies`.
    pub fn new(policies: ResourceLifecyclePolicies) -> (r: ResourceLifecycleManager)
        ensures
            r.wf(),
            r.leases() == Map::<Seq<char>, ResourceLease>::empty(),
            r.dependencies() == Map::<Seq<char>, Set<Seq<char>>>::empty(),
            r.timeouts() == Seq::<LeaseTimeout>::empty(),
            r.policies() == policies,
    {
        ResourceLifecycleManager {
            active_leases: StrMap::new(),
            resource_graph: ResourceDependencyGraph::new(),
            timeout_manager: LeaseTimeoutManager::new(),
            resource_pools: StrMap::new(),
            policies,
        }
    }

    /// Counts of leases and known resources at time `now`, with the mean age of the leases
    /// (zero when there are none).
    pub fn get_resource_stats_at(&self, now: u64) -> (r: ResourceStats)
        requires
            self.wf(),
        ensures
            r.active_leases == self.leases().len(),
            r.total_resources == self.dependencies().len(),
            r.average_lease_duration == if self.leases().len() == 0 {
                0
            } else {
                total_lease_age(self.leases(), self.leased_order(), now) / (self.leases().len() as int)
            },
            r.resource_contention_count == 0,
    {
        let count = self.active_leases.len();
        let total_resources = self.resource_graph.resource_count();
        let n = self.active_leases.entry_count();
        proof {
            self.active_leases.lemma_dom();
        }
        let mut total: u128 = 0;
        let mut i: usize = 0;
        while i < n
            invariant
                self.active_leases.wf(),
                n == self.active_leases.key_seq().len(),
                i <= n,
                total == total_lease_age(self.active_leases@, self.active_leases.key_seq().take(i as int), now),
                total <= i * 0xFFFF_FFFF_FFFF_FFFFu128,
            decreases n - i,
        {
            let lease = self.active_leases.value_at(i);
            let age: u64 = if now >= lease.acquired_at { now - lease.acquired_at } else { 0 };
            let ghost keys = self.active_leases.key_seq();
            assert(keys.take(i + 1).drop_last() =~= keys.take(i as int));
            assert(keys.take(i + 1).last() == keys[i as int]);
            total = total + age as u128;
            i = i + 1;
        }
        assert(self.active_leases.key_seq().take(i as int) =~= self.active_leases.key_seq());
        let average: u64 = if count == 0 {
            0
        } else {
            let c = count as u128;
            assert(total / c <= 0xFFFF_FFFF_FFFF_FFFFu128) by (nonlinear_arith)
                requires
                    total <= c * 0xFFFF_FFFF_FFFF_FFFFu128,
                    c > 0,
            ;
            (total / c) as u64
        };
        ResourceStats {
            active_leases: count,
            total_resources,
            average_lease_duration: average,
            resource_contention_count: 0,
        }
    }

    /// Counts of leases and known resources, with the mean age of the leases by the system
    /// clock's current time.
    pub fn get_resource_stats(&self) -> (r: ResourceStats)
        requires
            self.wf(),
        ensures
            r.active_leases == self.leases().len(),
            r.total_resources == self.dependencies().len(),
            self.leases().len() == 0 ==> r.average_lease_duration == 0,
            self.leases().len() > 0 ==> exists|now: u64| r.average_lease_duration == #[trigger] total_lease_age(
                self.leases(),
                self.leased_order(),
                now,
            ) / (self.leases().len() as int),
            r.resource_contention_count == 0,
    {
        let now = now_millis();
        let r = self.get_resource_stats_at(now);
        proof {
            if self.leases().len() > 0 {
                assert(r.average_lease_duration == total_lease_age(self.leases(), self.leased_order(), now)
                    / (self.leases().len() as int));
            }
        }
        r
    }
}

/// `a - b`, or zero where `b` is larger.
pub open spec fn saturating_gap(a: u64, b: int) -> int {
    if a >= b {
        a - b
    } else {
        0
    }
}

/// Whether a lease held with access `held` keeps a new lease with access `wanted` out: only
/// two reads share.
pub open spec fn lease_blocks(held: ResourceAccess, wanted: ResourceAccess) -> bool {
    !(held == ResourceAccess::Immutable && wanted == ResourceAccess::Immutable)
}

/// The dependency map after `ensure_resource`.
pub open spec fn with_resource(m: Map<Seq<char>, Set<Seq<char>>>, r: Seq<char>) -> Map<Seq<char>, Set<Seq<char>>> {
    if m.contains_key(r) {
        m
    } else {
        m.insert(r, Set::empty())
    }
}

fn ownership_message(task_id: TaskId) -> (r: String)
    ensures
        r@ == "Task "@ + task_label(task_id) + " does not own resource"@,
{
    let mut m = String::new();
    m.append("Task ");
    m.append("TaskId(");
    push_decimal(&mut m, task_id.as_u64());
    m.append(")");
    m.append(" does not own resource");
    proof {
        assert(m@ =~= "Task "@ + task_label(task_id) + " does not own resource"@);
    }
    m
}

proof fn lemma_filter_no_dup(s: Seq<Seq<char>>, pred: spec_fn(Seq<char>) -> bool)
    requires
        s.no_duplicates(),
    ensures
        s.filter(pred).no_duplicates(),
    decreases s.len(),
{
    if s.len() > 0 {
        let rest = s.drop_last();
        let x = s.last();
        lemma_filter_no_dup(rest, pred);
        rest.lemma_filter_push(x, pred);
        assert(rest.push(x) =~= s);
        if pred(x) {
            let f = rest.filter(pred);
            assert(!f.contains(x)) by {
                if f.contains(x) {
                    rest.lemma_filter_contains_rev(pred, x);
                    let k = choose|k: int| 0 <= k < rest.len() && rest[k] == x;
                    assert(s[k] == s[s.len() - 1]);
                }
            }
            assert forall|i: int, j: int| 0 <= i < j < f.push(x).len() implies f.push(x)[i] != f.push(x)[j] by {
                if j == f.len() {
                    assert(f.push(x)[i] == f[i]);
                    assert(f.contains(f[i]));
                }
            }
        }
    }
}

impl ResourceLifecycleManager {
    /// Whether `after` and `r` are what leasing `resource_name` to `task_id` with
    /// `access_type` at time `now`, for `lease_duration`, makes of `self`.
    pub open spec fn acquire_effect(
        self,
        after: Self,
        resource_name: Seq<char>,
        task_id: TaskId,
        access_type: ResourceAccess,
        lease_duration: Option<u64>,
        now: u64,
        r: Result<AcquisitionResult, AsyncExecutionError>,
    ) -> bool {
        let name = resource_name;
        let ld = match lease_duration {
            Some(d) => d,
            None => self.policies().default_lease_duration,
        };
        if self.lease_blocked(name, access_type) {
            let held = self.leases()[name];
            &&& r matches Ok(AcquisitionResult::WaitRequired { estimated_wait_time, blocking_tasks })
                && estimated_wait_time == saturating_gap(held.lease_duration, lease_age(held.acquired_at, now))
                && blocking_tasks@ == seq![held.task_id]
            &&& after == self
        } else {
            &&& r matches Ok(AcquisitionResult::Acquired(lease)) && lease.resource_name@ == name
                && lease.task_id == task_id && lease.access_type == access_type && lease.acquired_at == now
                && lease.lease_duration == ld && lease.auto_release && lease.reference_count == 1
                && lease.dependencies@.len() == 0
            &&& self.lease_granted(after, name, task_id, access_type, ld, now)
        }
    }

    /// Whether the lease of `name` held now keeps out a new one with access `access_type`.
    pub open spec fn lease_blocked(self, name: Seq<char>, access_type: ResourceAccess) -> bool {
        self.leases().contains_key(name) && lease_blocks(self.leases()[name].access_type, access_type)
    }

    /// Whether `after` is `self` with `name` leased to `task_id` with `access_type` from `now`
    /// for `ld`: the lease recorded, its timeout scheduled and the resource known.
    pub open spec fn lease_granted(
        self,
        after: Self,
        name: Seq<char>,
        task_id: TaskId,
        access_type: ResourceAccess,
        ld: u64,
        now: u64,
    ) -> bool {
        let kept = after.leases()[name];
        &&& after.leases() == self.leases().insert(name, kept)
        &&& kept.resource_name@ == name && kept.task_id == task_id && kept.access_type == access_type
            && kept.acquired_at == now && kept.lease_duration == ld && kept.auto_release
            && kept.reference_count == 1 && kept.dependencies@.len() == 0
        &&& after.timeouts() == self.timeouts().insert(
            insert_position(self.timeouts(), saturating_sum(now, ld)),
            LeaseTimeout { resource_name: kept.resource_name, task_id, timeout_at: saturating_sum(now, ld) },
        )
        &&& after.dependencies() == with_resource(self.dependencies(), name)
        &&& after.policies() == self.policies()
    }

    /// Leases `resource_name` to `task_id` at time `now` for `lease_duration` (the policy's
    /// default when none is given). When a lease is held that keeps this one out (any access
    /// but two reads), the task has to wait for the time left of that lease. Otherwise the
    /// lease is recorded, replacing any earlier one, its timeout is scheduled, and the
    /// resource becomes known. Deadlock detection searches the resource's dependencies for a
    /// cycle; the manager records no dependencies, so it never finds one.
    pub fn acquire_resource(
        &mut self,
        resource_name: String,
        task_id: TaskId,
        access_type: ResourceAccess,
        lease_duration: Option<u64>,
        now: u64,
    ) -> (r: Result<AcquisitionResult, AsyncExecutionError>)
        requires
            old(self).wf(),
        ensures
            final(self).wf(),
            old(self).acquire_effect(*final(self), resource_name@, task_id, access_type, lease_duration, now, r),
    {
        let ld = match lease_duration {
            Some(d) => d,
            None => self.policies.default_lease_duration,
        };
        match self.active_leases.get(resource_name.as_str()) {
            Some(held) => {
                let blocks = match (held.access_type, access_type) {
                    (ResourceAccess::Immutable, ResourceAccess::Immutable) => false,
                    _ => true,
                };
                if blocks {
                    let age: u64 = if now >= held.acquired_at { now - held.acquired_at } else { 0 };
                    let left: u64 = if held.lease_duration >= age { held.lease_duration - age } else { 0 };
                    let mut blocking_tasks: Vec<TaskId> = Vec::new();
                    blocking_tasks.push(held.task_id);
                    proof {
                        assert(blocking_tasks@ =~= seq![held.task_id]);
                    }
                    return Ok(AcquisitionResult::WaitRequired { estimated_wait_time: left, blocking_tasks });
                }
            },
            None => {},
        }
        let lease = ResourceLease {
            resource_name: resource_name.clone(),
            task_id,
            access_type,
            acquired_at: now,
            lease_duration: ld,
            auto_release: true,
            reference_count: 1,
            dependencies: Vec::new(),
        };
        let recorded = ResourceLease {
            resource_name: resource_name.clone(),
            task_id,
            access_type,
            acquired_at: now,
            lease_duration: ld,
            auto_release: true,
            reference_count: 1,
            dependencies: Vec::new(),
        };
        let ghost recorded_view = recorded;
        self.active_leases.insert(resource_name.clone(), recorded);
        let due = now.saturating_add(ld);
        self.timeout_manager.schedule_timeout_at(resource_name.clone(), task_id, due);
        let ghost deps_before = self.dependencies();
        self.resource_graph.ensure_resource(resource_name.as_str());
        proof {
            assert(self.leases()[resource_name@] == recorded_view);
            assert forall|k: Seq<char>| #[trigger] self.dependencies().contains_key(k)
                implies self.dependencies()[k] == Set::<Seq<char>>::empty() by {
                if k != resource_name@ || deps_before.contains_key(k) {
                    assert(deps_before.contains_key(k));
                    assert(old(self).dependencies().contains_key(k));
                }
            }
        }
        Ok(AcquisitionResult::Acquired(lease))
    }

    /// Ends the lease on `resource_name`. Fails when there is none, and when it belongs to
    /// another task; the lease is taken away before the owner is checked, so in that case it
    /// is gone too. On success the lease's timeouts are cancelled and the resource no longer
    /// depends on or is depended on by anything.
    pub fn release_resource(&mut self, resource_name: String, task_id: TaskId, reason: ReleaseReason) -> (r: Result<(), AsyncExecutionError>)
        requires
            old(self).wf(),
        ensures
            final(self).wf(),
            final(self).policies() == old(self).policies(),
            !old(self).leases().contains_key(resource_name@) ==> (r matches Err(AsyncExecutionError::ResourceLifecycleError { resource, phase, reason })
                && resource@ == resource_name@ && phase@ == "release"@
                && reason@ == "Resource not found or already released"@
                && *final(self) == *old(self)),
            old(self).leases().contains_key(resource_name@) && old(self).leases()[resource_name@].task_id != task_id ==> (
                r matches Err(AsyncExecutionError::ResourceLifecycleError { resource, phase, reason })
                && resource@ == resource_name@ && phase@ == "release"@
                && reason@ == "Task "@ + task_label(task_id) + " does not own resource"@
                && final(self).leases() == old(self).leases().remove(resource_name@)
                && final(self).timeouts() == old(self).timeouts()
                && final(self).dependencies() == old(self).dependencies()),
            old(self).leases().contains_key(resource_name@) && old(self).leases()[resource_name@].task_id == task_id ==> (
                r is Ok
                && final(self).leases() == old(self).leases().remove(resource_name@)
                && final(self).timeouts() == without_lease(old(self).timeouts(), resource_name@, task_id)
                && final(self).dependencies() == if old(self).dependencies().contains_key(resource_name@) {
                    old(self).dependencies().insert(resource_name@, Set::empty())
                } else {
                    old(self).dependencies()
                }),
    {
        if !self.active_leases.contains_key(resource_name.as_str()) {
            return Err(AsyncExecutionError::ResourceLifecycleError {
                resource: resource_name,
                phase: "release".to_string(),
                reason: "Resource not found or already released".to_string(),
            });
        }
        let lease = match self.active_leases.remove(resource_name.as_str()) {
            Some(l) => l,
            None => {
                assert(false);
                return Ok(());
            },
        };
        proof {
            assert(self.dependencies() == old(self).dependencies());
        }
        if lease.task_id != task_id {
            return Err(AsyncExecutionError::ResourceLifecycleError {
                resource: resource_name,
                phase: "release".to_string(),
                reason: ownership_message(task_id),
            });
        }
        self.timeout_manager.cancel_timeout(resource_name.as_str(), task_id);
        self.resource_graph.clear_resource(resource_name.as_str());
        proof {
            assert forall|k: Seq<char>| #[trigger] self.dependencies().contains_key(k)
                implies self.dependencies()[k] == Set::<Seq<char>>::empty() by {
                if k != resource_name@ {
                    assert(old(self).dependencies().contains_key(k));
                }
            }
        }
        Ok(())
    }

    /// The resources leased to `task_id`, in the order they were first leased.
    fn leases_of(&self, task_id: TaskId) -> (r: Vec<String>)
        requires
            self.wf(),
        ensures
            string_views(r@) == self.leased_order().filter(|k: Seq<char>| self.leases()[k].task_id == task_id),
    {
        let n = self.active_leases.entry_count();
        let ghost order = self.leased_order();
        let ghost pred = |k: Seq<char>| self.leases()[k].task_id == task_id;
        let mut r: Vec<String> = Vec::new();
        let mut i: usize = 0;
        proof {
            self.active_leases.lemma_dom();
            assert(order.take(0) =~= Seq::<Seq<char>>::empty());
            assert(order.take(0).filter(pred) =~= Seq::<Seq<char>>::empty());
            assert(string_views(r@) =~= Seq::<Seq<char>>::empty());
        }
        while i < n
            invariant
                self.wf(),
                order == self.leased_order(),
                pred == (|k: Seq<char>| self.leases()[k].task_id == task_id),
                n == order.len(),
                i <= n,
                string_views(r@) == order.take(i as int).filter(pred),
            decreases n - i,
        {
            let name = self.active_leases.key_at(i);
            let lease = self.active_leases.value_at(i);
            proof {
                assert(order.take(i + 1).drop_last() =~= order.take(i as int));
                assert(order.take(i + 1).last() == order[i as int]);
                order.take(i as int).lemma_filter_push(order[i as int], pred);
                assert(order.take(i as int).push(order[i as int]) =~= order.take(i + 1));
            }
            if lease.task_id == task_id {
                let ghost before = string_views(r@);
                r.push(name.clone());
                proof {
                    assert(string_views(r@) =~= before.push(name@));
                }
            }
            i = i + 1;
        }
        proof {
            assert(order.take(i as int) =~= order);
        }
        r
    }

    /// Releases every lease of `task_id`, in the order the resources were first leased, and
    /// answers their names.
    pub fn release_all_task_resources(&mut self, task_id: TaskId, reason: ReleaseReason) -> (r: Result<Vec<String>, AsyncExecutionError>)
        requires
            old(self).wf(),
        ensures
            final(self).wf(),
            r matches Ok(names) && string_views(names@) == old(self).leased_order().filter(
                |k: Seq<char>| old(self).leases()[k].task_id == task_id,
            ),
            final(self).leases() == old(self).leases().restrict(
                old(self).leases().dom().filter(|k: Seq<char>| old(self).leases()[k].task_id != task_id),
            ),
    {
        let names = self.leases_of(task_id);
        let ghost sv = string_views(names@);
        let ghost pred = |k: Seq<char>| old(self).leases()[k].task_id == task_id;
        proof {
            self.active_leases.lemma_dom();
            let order = old(self).leased_order();
            order.filter_lemma(pred);
            lemma_filter_no_dup(order, pred);
            assert forall|j: int| 0 <= j < sv.len() implies old(self).leases().contains_key(#[trigger] sv[j]) && pred(sv[j]) by {
                assert(sv.contains(sv[j]));
                order.lemma_filter_contains_rev(pred, sv[j]);
                assert(order.to_set().contains(sv[j]));
            }
        }
        let mut i: usize = 0;
        while i < names.len()
            invariant
                self.wf(),
                sv == string_views(names@),
                sv == old(self).leased_order().filter(pred),
                pred == (|k: Seq<char>| old(self).leases()[k].task_id == task_id),
                sv.no_duplicates(),
                forall|j: int| 0 <= j < sv.len() ==> old(self).leases().contains_key(#[trigger] sv[j]) && pred(sv[j]),
                i <= names@.len(),
                self.policies() == old(self).policies(),
                self.leases() == old(self).leases().remove_keys(sv.take(i as int).to_set()),
            decreases names@.len() - i,
        {
            let ghost k = sv[i as int];
            proof {
                assert(names@[i as int]@ == k);
                assert(!sv.take(i as int).to_set().contains(k)) by {
                    if sv.take(i as int).to_set().contains(k) {
                        let m = choose|m: int| 0 <= m < i && sv.take(i as int)[m] == k;
                        assert(sv[m] == sv[i as int]);
                    }
                }
                assert(self.leases().contains_key(k));
            }
            let res = self.release_resource(names[i].clone(), task_id, reason);
            proof {
                assert(res is Ok);
                assert(sv.take(i + 1) =~= sv.take(i as int).push(k));
                sv.take(i as int).lemma_push_to_set_commute(k);
                assert(self.leases() =~= old(self).leases().remove_keys(sv.take(i + 1).to_set()));
            }
            i = i + 1;
        }
        proof {
            assert(sv.take(i as int) =~= sv);
            assert(self.leases() =~= old(self).leases().restrict(
                old(self).leases().dom().filter(|k: Seq<char>| old(self).leases()[k].task_id != task_id),
            )) by {
                assert forall|k: Seq<char>| #[trigger] old(self).leases().contains_key(k) && pred(k) implies sv.to_set().contains(k) by {
                    assert(old(self).leased_order().contains(k)) by {
                        assert(old(self).leased_order().to_set().contains(k));
                    }
                    let j = choose|j: int| 0 <= j < old(self).leased_order().len() && old(self).leased_order()[j] == k;
                    old(self).leased_order().filter_lemma(pred);
                    assert(sv.contains(k));
                }
            }
        }
        Ok(names)
    }

    /// Whether `after` and `r` are what ending the leases due at time `now` makes of `self`:
    /// without release on timeout, nothing is reported, the leases stay and the due timeouts
    /// leave the queue; with it, a success reports an expiry for each due timeout, in the
    /// order of the queue.
    pub open spec fn expiry_processed(
        self,
        after: Self,
        r: Result<Vec<LifecycleEvent>, AsyncExecutionError>,
        now: u64,
    ) -> bool {
        let due = expired_count(self.timeouts(), now);
        &&& !self.policies().auto_release_on_timeout ==> (r matches Ok(events) && events@.len() == 0
            && after.leases() == self.leases() && after.timeouts() == self.timeouts().skip(due))
        &&& self.policies().auto_release_on_timeout ==> (r is Ok <==> expiries_release(
            self.leases(),
            self.timeouts().take(due),
        ))
        &&& self.policies().auto_release_on_timeout ==> (r is Ok ==> after.leases() == leases_after_expiry(
            self.leases(),
            self.timeouts().take(due),
        ))
        &&& self.policies().auto_release_on_timeout ==> (r matches Ok(events) ==> events@.len() == due
            && forall|i: int| 0 <= i < events@.len() ==> (#[trigger] events@[i] matches LifecycleEvent::LeaseExpired {
                resource_name,
                task_id,
            } && resource_name@ == self.timeouts()[i].resource_name@ && task_id == self.timeouts()[i].task_id))
    }

    /// Ends, at time `now`, the leases whose timeouts are due, when the policy releases on
    /// timeout, reporting an expiry for each; the due timeouts leave the queue either way. A
    /// release that fails stops it with that error.
    pub fn process_expired_leases_at(&mut self, now: u64) -> (r: Result<Vec<LifecycleEvent>, AsyncExecutionError>)
        requires
            old(self).wf(),
        ensures
            final(self).wf(),
            old(self).expiry_processed(*final(self), r, now),
    {
        let expired = self.timeout_manager.get_expired_timeouts_at(now);
        let ghost q = old(self).timeouts();
        proof {
            assert(self.dependencies() == old(self).dependencies());
            lemma_expired_count(q, now);
        }
        let mut events: Vec<LifecycleEvent> = Vec::new();
        if !self.policies.auto_release_on_timeout {
            return Ok(events);
        }
        proof {
            assert(q.subrange(0, expired@.len() as int) =~= q.take(expired@.len() as int));
        }
        let mut i: usize = 0;
        while i < expired.len()
            invariant
                self.wf(),
                self.policies() == old(self).policies(),
                old(self).policies().auto_release_on_timeout,
                i <= expired@.len(),
                expired@.len() == expired_count(q, now),
                expired@.len() <= q.len(),
                q == old(self).timeouts(),
                forall|j: int| 0 <= j < expired@.len() ==> (#[trigger] expired@[j]).0@ == q[j].resource_name@
                    && expired@[j].1 == q[j].task_id,
                events@.len() == i,
                forall|j: int| 0 <= j < i ==> (#[trigger] events@[j] matches LifecycleEvent::LeaseExpired { resource_name, task_id }
                    && resource_name@ == q[j].resource_name@ && task_id == q[j].task_id),
                expiries_release(old(self).leases(), q.take(expired@.len() as int)) == expiries_release(
                    self.leases(),
                    q.subrange(i as int, expired@.len() as int),
                ),
                leases_after_expiry(old(self).leases(), q.take(expired@.len() as int)) == leases_after_expiry(
                    self.leases(),
                    q.subrange(i as int, expired@.len() as int),
                ),
            decreases expired@.len() - i,
        {
            let ghost rest = q.subrange(i as int, expired@.len() as int);
            proof {
                assert(rest.drop_first() =~= q.subrange(i + 1, expired@.len() as int));
                assert(rest[0] == q[i as int]);
            }
            let name = expired[i].0.clone();
            let task = expired[i].1;
            let ghost before = self.leases();
            match self.release_resource(name.clone(), task, ReleaseReason::LeaseExpired) {
                Ok(()) => {},
                Err(e) => {
                    assert(!expiries_release(before, rest));
                    return Err(e);
                },
            }
            events.push(LifecycleEvent::LeaseExpired { resource_name: name, task_id: task });
            i = i + 1;
        }
        proof {
            assert(q.subrange(i as int, expired@.len() as int).len() == 0);
        }
        Ok(events)
    }

    /// Ends the leases whose timeouts are due by the system clock; see
    /// `process_expired_leases_at`.
    pub fn process_expired_leases(&mut self) -> (r: Result<Vec<LifecycleEvent>, AsyncExecutionError>)
        requires
            old(self).wf(),
        ensures
            final(self).wf(),
            exists|now: u64| old(self).expiry_processed(*final(self), r, now),
    {
        let now = now_millis();
        let r = self.process_expired_leases_at(now);
        assert(old(self).expiry_processed(*self, r, now));
        r
    }
}

/// A pool of interchangeable resources.
#[derive(Debug)]
pub struct ResourcePool {
    pub pool_name: String,
    pub resource_type: String,
    pub available_resources: VecDeque<String>,
    pub allocated_resources: StrMap<TaskId>,
    pub max_size: usize,
    pub allocation_strategy: AllocationStrategy,
}

/// How a pool picks the resource to hand out.
#[derive(Debug, Clone, Copy)]
pub enum AllocationStrategy {
    FirstAvailable,
    LeastRecentlyUsed,
    RoundRobin,
    LoadBalanced,
}

/// Policies of lease handling; durations in milliseconds.
#[derive(Debug, Clone, Copy)]
pub struct ResourceLifecyclePolicies {
    pub default_lease_duration: u64,
    pub max_lease_duration: u64,
    pub auto_release_on_timeout: bool,
    pub deadlock_detection_enabled: bool,
    pub resource_cleanup_interval: u64,
    pub max_dependency_depth: u32,
}

impl Default for ResourceLifecyclePolicies {
    fn default() -> (r: ResourceLifecyclePolicies)
        ensures
            r.default_lease_duration == 30_000,
            r.max_lease_duration == 300_000,
            r.auto_release_on_timeout,
            r.deadlock_detection_enabled,
            r.resource_cleanup_interval == 60_000,
            r.max_dependency_depth == 10,
    {
        ResourceLifecyclePolicies {
            default_lease_duration: 30_000,
            max_lease_duration: 300_000,
            auto_release_on_timeout: true,
            deadlock_detection_enabled: true,
            resource_cleanup_interval: 60_000,
            max_dependency_depth: 10,
        }
    }
}

/// The outcome of asking for a resource.
#[derive(Debug)]
pub enum AcquisitionResult {
    Acquired(ResourceLease),
    WaitRequired {
        estimated_wait_time: u64,
        blocking_tasks: Vec<TaskId>,
    },
    Denied {
        reason: String,
        retry_after: Option<u64>,
    },
}

/// Something that happened to a resource.
#[derive(Debug, Clone)]
pub enum LifecycleEvent {
    ResourceAcquired {
        resource_name: String,
        task_id: TaskId,
        access_type: ResourceAccess,
    },
    ResourceReleased {
        resource_name: String,
        task_id: TaskId,
        reason: ReleaseReason,
    },
    LeaseExpired {
        resource_name: String,
        task_id: TaskId,
    },
    DeadlockDetected {
        cycle: Vec<String>,
        involved_tasks: Vec<TaskId>,
    },
    ResourceCreated {
        resource_name: String,
        resource_type: String,
    },
    ResourceDestroyed {
        resource_name: String,
        reason: String,
    },
}

/// Why a resource was released.
#[derive(Debug, Clone, Copy, PartialEq, Eq, Structural)]
pub enum ReleaseReason {
    TaskCompleted,
    TaskCancelled,
    LeaseExpired,
    ExplicitRelease,
    DeadlockResolution,
    SystemShutdown,
}

/// Counts of leases and resources, with the mean age of the leases in milliseconds.
#[derive(Debug, Clone, Copy)]
pub struct ResourceStats {
    pub active_leases: usize,
    pub total_resources: usize,
    pub average_lease_duration: u64,
    pub resource_contention_count: usize,
}

} // verus!
