//! Conflict analysis between asynchronous system executions, and their grouping into batches
//! that may run concurrently. Times are in milliseconds.
use vstd::prelude::*;

use crate::ast::{ResourceAccess, SystemDef, SystemParameter};
use crate::async_runtime::{CompletedTaskInfo, SystemFuture, TaskId, TaskPriority};
use crate::conflicts::{accesses_clash, accesses_conflict, conflict_between};
use crate::names::StrMap;
use crate::scheduler::{ConflictType, SystemPriority};
use std::collections::VecDeque;

verus! {

/// Who uses a resource now and who waits for it.
#[derive(Debug)]
pub struct ResourceUsageInfo {
    pub resource_name: String,
    pub current_readers: Vec<TaskId>,
    pub current_writer: Option<TaskId>,
    pub pending_readers: VecDeque<TaskId>,
    pub pending_writers: VecDeque<TaskId>,
    pub access_history: Vec<ResourceAccess>,
}

/// A constraint on the order of two tasks.
#[derive(Debug, Clone)]
pub struct OrderingConstraint {
    pub before_task: TaskId,
    pub after_task: TaskId,
    pub constraint_type: ConstraintType,
}

/// Why one task must run before another.
#[derive(Debug, Clone)]
pub enum ConstraintType {
    /// Both use the named resource.
    DataDependency(String),
    /// One must complete before the other starts.
    CausalDependency,
    /// The two may not run at the same time.
    MutualExclusion,
}

/// The outcome of resolving the conflicts of one system.
#[derive(Debug)]
pub struct ConflictResolution {
    pub can_execute_concurrently: bool,
    pub execution_order: Vec<TaskId>,
    pub resource_scheduling: StrMap<ResourceSchedule>,
    pub estimated_completion_time: u64,
}

/// When each task may use a resource.
#[derive(Debug)]
pub struct ResourceSchedule {
    pub resource_name: String,
    pub time_slots: Vec<TimeSlot>,
    pub access_pattern: AccessPattern,
}

/// A period in which one task uses a resource.
#[derive(Debug, Clone, Copy)]
pub struct TimeSlot {
    pub start_time: u64,
    pub duration: u64,
    pub task_id: TaskId,
    pub access_type: ResourceAccess,
}

/// How the users of a resource take turns.
#[derive(Debug, Clone, Copy)]
pub enum AccessPattern {
    Sequential,
    Concurrent,
    Batched { batch_size: usize },
}

/// Counts of the scheduler's work.
#[derive(Debug, Clone, Copy)]
pub struct SchedulingStats {
    pub total_systems_scheduled: usize,
    pub concurrent_executions: usize,
    pub resource_conflicts_resolved: usize,
    pub average_scheduling_time: u64,
    pub successful_executions: usize,
    pub failed_executions: usize,
    pub preempted_executions: usize,
}

impl Default for SchedulingStats {
    fn default() -> (r: SchedulingStats)
        ensures
            r.total_systems_scheduled == 0,
            r.concurrent_executions == 0,
            r.resource_conflicts_resolved == 0,
            r.average_scheduling_time == 0,
            r.successful_executions == 0,
            r.failed_executions == 0,
            r.preempted_executions == 0,
    {
        SchedulingStats {
            total_systems_scheduled: 0,
            concurrent_executions: 0,
            resource_conflicts_resolved: 0,
            average_scheduling_time: 0,
            successful_executions: 0,
            failed_executions: 0,
            preempted_executions: 0,
        }
    }
}

/// The scheduler priority that matches a task priority.
pub fn convert_priority(priority: TaskPriority) -> (r: SystemPriority)
    ensures
        r == match priority {
            TaskPriority::Low => SystemPriority::Low,
            TaskPriority::Normal => SystemPriority::Normal,
            TaskPriority::High => SystemPriority::High,
            TaskPriority::Critical => SystemPriority::Critical,
        },
{
    match priority {
        TaskPriority::Low => SystemPriority::Low,
        TaskPriority::Normal => SystemPriority::Normal,
        TaskPriority::High => SystemPriority::High,
        TaskPriority::Critical => SystemPriority::Critical,
    }
}

/// A square, symmetric table of the conflicts between numbered systems.
#[derive(Debug)]
pub struct ConflictMatrix {
    size: usize,
    cells: Vec<ConflictType>,
}

impl ConflictMatrix {
    /// Number of systems.
    pub closed spec fn size(&self) -> nat {
        self.size as nat
    }

    /// The conflict recorded between systems `i` and `j`.
    pub closed spec fn entry(&self, i: int, j: int) -> ConflictType {
        self.cells@[i * self.size + j]
    }

    /// The recorded conflicts, row by row.
    pub open spec fn rows(&self) -> Seq<Seq<ConflictType>> {
        Seq::new(self.size(), |i: int| Seq::new(self.size(), |j: int| self.entry(i, j)))
    }

    /// The table has one cell per pair of systems, and is symmetric.
    pub closed spec fn wf(&self) -> bool {
        &&& self.cells@.len() == self.size * self.size
        &&& forall|i: int, j: int| 0 <= i < self.size && 0 <= j < self.size
            ==> #[trigger] self.entry(i, j) == self.entry(j, i)
    }

    proof fn lemma_cell(size: int, i: int, j: int)
        requires
            0 <= i < size,
            0 <= j < size,
        ensures
            0 <= i * size + j < size * size,
    {
        assert(0 <= i * size) by (nonlinear_arith)
            requires
                0 <= i,
                0 <= size,
        ;
        assert(i * size + j < size * size) by (nonlinear_arith)
            requires
                0 <= i < size,
                0 <= j < size,
        ;
    }

    /// A table of `size` systems with no conflicts.
    pub fn new(size: usize) -> (r: ConflictMatrix)
        requires
            size * size <= usize::MAX,
        ensures
            r.wf(),
            r.size() == size,
            forall|i: int, j: int| 0 <= i < size && 0 <= j < size
                ==> #[trigger] r.entry(i, j) == ConflictType::NoConflict,
    {
        let total: usize = size * size;
        let mut cells: Vec<ConflictType> = Vec::new();
        let mut k: usize = 0;
        while k < total
            invariant
                k <= total,
                cells@.len() == k,
                forall|x: int| 0 <= x < k ==> cells@[x] == ConflictType::NoConflict,
            decreases total - k,
        {
            cells.push(ConflictType::NoConflict);
            k = k + 1;
        }
        let r = ConflictMatrix { size, cells };
        assert forall|i: int, j: int| 0 <= i < size && 0 <= j < size implies #[trigger] r.entry(i, j)
            == ConflictType::NoConflict by {
            Self::lemma_cell(size as int, i, j);
        }
        r
    }

    /// Records `conflict` between systems `i` and `j`, both ways; numbers out of range are
    /// ignored.
    pub fn set_conflict(&mut self, i: usize, j: usize, conflict: ConflictType)
        requires
            old(self).wf(),
        ensures
            final(self).wf(),
            final(self).size() == old(self).size(),
            forall|a: int, b: int| 0 <= a < old(self).size() && 0 <= b < old(self).size()
                ==> #[trigger] final(self).entry(a, b) == if i < old(self).size() && j < old(
                    self,
                ).size() && ((a == i && b == j) || (a == j && b == i)) {
                    conflict
                } else {
                    old(self).entry(a, b)
                },
    {
        if i < self.size && j < self.size {
            let ghost n = self.size as int;
            let _cells_len = self.cells.len();
            proof {
                Self::lemma_cell(n, i as int, j as int);
                Self::lemma_cell(n, j as int, i as int);
            }
            let ij = i * self.size + j;
            let ji = j * self.size + i;
            self.cells.set(ij, conflict);
            self.cells.set(ji, conflict);
            assert forall|a: int, b: int| 0 <= a < n && 0 <= b < n implies #[trigger] self.entry(a, b)
                == if (a == i && b == j) || (a == j && b == i) {
                conflict
            } else {
                old(self).entry(a, b)
            } by {
                Self::lemma_cell(n, a, b);
                if a * n + b == ij {
                    Self::lemma_same_cell(n, a, b, i as int, j as int);
                }
                if a * n + b == ji {
                    Self::lemma_same_cell(n, a, b, j as int, i as int);
                }
            }
            assert forall|a: int, b: int| 0 <= a < n && 0 <= b < n implies #[trigger] self.entry(a, b)
                == self.entry(b, a) by {
                assert(old(self).entry(a, b) == old(self).entry(b, a));
            }
        }
    }

    proof fn lemma_same_cell(n: int, a: int, b: int, c: int, d: int)
        requires
            0 <= a < n,
            0 <= b < n,
            0 <= c < n,
            0 <= d < n,
            a * n + b == c * n + d,
        ensures
            a == c,
            b == d,
    {
        if a < c {
            assert(a * n + b < c * n + d) by (nonlinear_arith)
                requires
                    a < c,
                    0 <= b < n,
                    0 <= d,
            ;
        } else if a > c {
            assert(c * n + d < a * n + b) by (nonlinear_arith)
                requires
                    c < a,
                    0 <= d < n,
                    0 <= b,
            ;
        }
    }

    /// The conflict recorded between systems `i` and `j`; none for numbers out of range.
    pub fn has_conflict(&self, i: usize, j: usize) -> (r: ConflictType)
        requires
            self.wf(),
        ensures
            r == if i < self.size() && j < self.size() {
                self.entry(i as int, j as int)
            } else {
                ConflictType::NoConflict
            },
    {
        if i < self.size && j < self.size {
            let _cells_len = self.cells.len();
            proof {
                Self::lemma_cell(self.size as int, i as int, j as int);
            }
            self.cells[i * self.size + j]
        } else {
            ConflictType::NoConflict
        }
    }
}

/// The access maps of a list of systems.
pub open spec fn access_views(resources: Seq<StrMap<ResourceAccess>>) -> Seq<Map<Seq<char>, ResourceAccess>> {
    resources.map_values(|m: StrMap<ResourceAccess>| m@)
}

/// The conflict table of a list of systems: each pair of distinct systems carries the conflict
/// between their accesses, and no system conflicts with itself.
pub fn build_conflict_matrix(resources: &Vec<StrMap<ResourceAccess>>) -> (m: ConflictMatrix)
    requires
        resources@.len() * resources@.len() <= usize::MAX,
        forall|i: int| 0 <= i < resources@.len() ==> (#[trigger] resources@[i]).wf(),
    ensures
        m.wf(),
        m.size() == resources@.len(),
        forall|i: int, j: int| 0 <= i < j < resources@.len() ==> conflict_between(
            resources@[i]@,
            resources@[j]@,
            #[trigger] m.entry(i, j),
        ),
        forall|i: int| 0 <= i < resources@.len() ==> #[trigger] m.entry(i, i)
            == ConflictType::NoConflict,
{
    let n = resources.len();
    let mut matrix = ConflictMatrix::new(n);
    let mut i: usize = 0;
    while i < n
        invariant
            n == resources@.len(),
            forall|k: int| 0 <= k < resources@.len() ==> (#[trigger] resources@[k]).wf(),
            i <= n,
            matrix.wf(),
            matrix.size() == n,
            forall|a: int, b: int| 0 <= a < b < n ==> if a < i {
                conflict_between(resources@[a]@, resources@[b]@, #[trigger] matrix.entry(a, b))
            } else {
                matrix.entry(a, b) == ConflictType::NoConflict
            },
            forall|a: int| 0 <= a < n ==> #[trigger] matrix.entry(a, a) == ConflictType::NoConflict,
        decreases n - i,
    {
        let mut j: usize = i + 1;
        while j < n
            invariant
                n == resources@.len(),
                forall|k: int| 0 <= k < resources@.len() ==> (#[trigger] resources@[k]).wf(),
                i < n,
                i < j <= n,
                matrix.wf(),
                matrix.size() == n,
                forall|a: int, b: int| 0 <= a < b < n ==> if a < i || (a == i && b < j) {
                    conflict_between(resources@[a]@, resources@[b]@, #[trigger] matrix.entry(a, b))
                } else {
                    matrix.entry(a, b) == ConflictType::NoConflict
                },
                forall|a: int| 0 <= a < n ==> #[trigger] matrix.entry(a, a)
                    == ConflictType::NoConflict,
            decreases n - j,
        {
            let c = accesses_conflict(&resources[i], &resources[j]);
            matrix.set_conflict(i, j, c);
            j = j + 1;
        }
        i = i + 1;
    }
    matrix
}

/// Whether system `c` may join a batch that already holds system `j`: the table records no
/// conflict between them and their accesses do not clash.
pub open spec fn batch_compatible(m: Seq<Seq<ConflictType>>, res: Seq<Map<Seq<char>, ResourceAccess>>, c: usize, j: usize) -> bool {
    m[c as int][j as int] == ConflictType::NoConflict && !accesses_clash(res[j as int], res[c as int])
}

/// Whether system `c` may join `batch`.
pub open spec fn fits_batch(m: Seq<Seq<ConflictType>>, res: Seq<Map<Seq<char>, ResourceAccess>>, c: usize, batch: Seq<usize>) -> bool {
    forall|k: int| 0 <= k < batch.len() ==> batch_compatible(m, res, c, #[trigger] batch[k])
}

/// Goes through the candidates in order; each that fits the batch built so far joins it, the
/// others are kept for later.
pub open spec fn split_batch(
    m: Seq<Seq<ConflictType>>,
    res: Seq<Map<Seq<char>, ResourceAccess>>,
    cands: Seq<usize>,
    batch: Seq<usize>,
    rest: Seq<usize>,
) -> (Seq<usize>, Seq<usize>)
    decreases cands.len(),
{
    if cands.len() == 0 {
        (batch, rest)
    } else if fits_batch(m, res, cands[0], batch) {
        split_batch(m, res, cands.drop_first(), batch.push(cands[0]), rest)
    } else {
        split_batch(m, res, cands.drop_first(), batch, rest.push(cands[0]))
    }
}

pub proof fn lemma_split_len(
    m: Seq<Seq<ConflictType>>,
    res: Seq<Map<Seq<char>, ResourceAccess>>,
    cands: Seq<usize>,
    batch: Seq<usize>,
    rest: Seq<usize>,
)
    ensures
        split_batch(m, res, cands, batch, rest).0.len() + split_batch(m, res, cands, batch, rest).1.len()
            == cands.len() + batch.len() + rest.len(),
        split_batch(m, res, cands, batch, rest).0.len() >= batch.len(),
    decreases cands.len(),
{
    if cands.len() > 0 {
        if fits_batch(m, res, cands[0], batch) {
            lemma_split_len(m, res, cands.drop_first(), batch.push(cands[0]), rest);
        } else {
            lemma_split_len(m, res, cands.drop_first(), batch, rest.push(cands[0]));
        }
    }
}

/// The batches in which the candidates run: the first batch takes every candidate, in order,
/// that fits it; the candidates left over are batched the same way.
pub open spec fn execution_batches(
    m: Seq<Seq<ConflictType>>,
    res: Seq<Map<Seq<char>, ResourceAccess>>,
    cands: Seq<usize>,
) -> Seq<Seq<usize>>
    decreases cands.len(),
{
    if cands.len() == 0 {
        Seq::empty()
    } else {
        let parts = split_batch(m, res, cands, Seq::empty(), Seq::empty());
        proof {
            assert(fits_batch(m, res, cands[0], Seq::empty()));
            lemma_split_len(m, res, cands.drop_first(), seq![cands[0]], Seq::empty());
        }
        seq![parts.0] + execution_batches(m, res, parts.1)
    }
}

/// The numbers `0..n`.
pub open spec fn system_numbers(n: nat) -> Seq<usize> {
    Seq::new(n, |i: int| i as usize)
}

fn fits_current_batch(
    resources: &Vec<StrMap<ResourceAccess>>,
    conflict_matrix: &ConflictMatrix,
    c: usize,
    batch: &Vec<usize>,
) -> (r: bool)
    requires
        conflict_matrix.wf(),
        conflict_matrix.size() == resources@.len(),
        forall|i: int| 0 <= i < resources@.len() ==> (#[trigger] resources@[i]).wf(),
        c < resources@.len(),
        forall|k: int| 0 <= k < batch@.len() ==> #[trigger] batch@[k] < resources@.len(),
    ensures
        r == fits_batch(conflict_matrix.rows(), access_views(resources@), c, batch@),
{
    let mut t: usize = 0;
    while t < batch.len()
        invariant
            conflict_matrix.wf(),
            conflict_matrix.size() == resources@.len(),
            forall|i: int| 0 <= i < resources@.len() ==> (#[trigger] resources@[i]).wf(),
            c < resources@.len(),
            forall|k: int| 0 <= k < batch@.len() ==> #[trigger] batch@[k] < resources@.len(),
            t <= batch@.len(),
            forall|k: int| 0 <= k < t ==> batch_compatible(
                conflict_matrix.rows(),
                access_views(resources@),
                c,
                #[trigger] batch@[k],
            ),
        decreases batch@.len() - t,
    {
        let j = batch[t];
        let recorded = conflict_matrix.has_conflict(c, j);
        let clash = accesses_conflict(&resources[j], &resources[c]);
        let ok = match (recorded, clash) {
            (ConflictType::NoConflict, ConflictType::NoConflict) => true,
            _ => false,
        };
        if !ok {
            assert(!batch_compatible(conflict_matrix.rows(), access_views(resources@), c, batch@[t as int]));
            return false;
        }
        t = t + 1;
    }
    true
}

/// Groups the systems into batches that run one after another; within a batch the systems may
/// run concurrently. Systems are considered in order of their numbers.
pub fn resolve_conflicts_and_batch(resources: &Vec<StrMap<ResourceAccess>>, conflict_matrix: &ConflictMatrix) -> (r: Vec<Vec<usize>>)
    requires
        conflict_matrix.wf(),
        conflict_matrix.size() == resources@.len(),
        forall|i: int| 0 <= i < resources@.len() ==> (#[trigger] resources@[i]).wf(),
    ensures
        r@.map_values(|b: Vec<usize>| b@) == execution_batches(
            conflict_matrix.rows(),
            access_views(resources@),
            system_numbers(resources@.len()),
        ),
{
    let ghost m = conflict_matrix.rows();
    let ghost res = access_views(resources@);
    let n = resources.len();
    let mut unscheduled: Vec<usize> = Vec::new();
    let mut i: usize = 0;
    while i < n
        invariant
            i <= n,
            n == resources@.len(),
            unscheduled@ == system_numbers(i as nat),
        decreases n - i,
    {
        unscheduled.push(i);
        assert(unscheduled@ =~= system_numbers((i + 1) as nat));
        i = i + 1;
    }
    let mut batches: Vec<Vec<usize>> = Vec::new();
    while unscheduled.len() > 0
        invariant
            n == resources@.len(),
            conflict_matrix.wf(),
            conflict_matrix.size() == resources@.len(),
            forall|i: int| 0 <= i < resources@.len() ==> (#[trigger] resources@[i]).wf(),
            m == conflict_matrix.rows(),
            res == access_views(resources@),
            forall|k: int| 0 <= k < unscheduled@.len() ==> #[trigger] unscheduled@[k] < n,
            batches@.map_values(|b: Vec<usize>| b@) + execution_batches(m, res, unscheduled@)
                == execution_batches(m, res, system_numbers(n as nat)),
        decreases unscheduled@.len(),
    {
        let mut batch: Vec<usize> = Vec::new();
        let mut rest: Vec<usize> = Vec::new();
        let mut k: usize = 0;
        assert(unscheduled@.skip(0) =~= unscheduled@);
        assert(batch@ =~= Seq::<usize>::empty());
        assert(rest@ =~= Seq::<usize>::empty());
        while k < unscheduled.len()
            invariant
                n == resources@.len(),
                conflict_matrix.wf(),
                conflict_matrix.size() == resources@.len(),
                forall|i: int| 0 <= i < resources@.len() ==> (#[trigger] resources@[i]).wf(),
                m == conflict_matrix.rows(),
                res == access_views(resources@),
                forall|x: int| 0 <= x < unscheduled@.len() ==> #[trigger] unscheduled@[x] < n,
                forall|x: int| 0 <= x < batch@.len() ==> #[trigger] batch@[x] < n,
                forall|x: int| 0 <= x < rest@.len() ==> #[trigger] rest@[x] < n,
                k <= unscheduled@.len(),
                unscheduled@.len() > 0,
                k > 0 ==> batch@.len() > 0,
                batch@.len() + rest@.len() == k,
                split_batch(m, res, unscheduled@.skip(k as int), batch@, rest@) == split_batch(
                    m,
                    res,
                    unscheduled@,
                    Seq::empty(),
                    Seq::empty(),
                ),
            decreases unscheduled@.len() - k,
        {
            let c = unscheduled[k];
            assert(unscheduled@.skip(k as int).drop_first() =~= unscheduled@.skip(k + 1));
            if fits_current_batch(resources, conflict_matrix, c, &batch) {
                batch.push(c);
            } else {
                rest.push(c);
            }
            k = k + 1;
        }
        proof {
            assert(unscheduled@.skip(k as int) =~= Seq::<usize>::empty());
            assert(fits_batch(m, res, unscheduled@[0], Seq::empty()));
        }
        let ghost parts = split_batch(m, res, unscheduled@, Seq::empty(), Seq::empty());
        assert(execution_batches(m, res, unscheduled@) == seq![parts.0] + execution_batches(m, res, parts.1));
        let ghost old_batches = batches@.map_values(|b: Vec<usize>| b@);
        batches.push(batch);
        assert(batches@.map_values(|b: Vec<usize>| b@) =~= old_batches.push(parts.0));
        assert(old_batches.push(parts.0) + execution_batches(m, res, parts.1) =~= old_batches + (seq![parts.0] + execution_batches(m, res, parts.1)));
        unscheduled = rest;
    }
    assert(execution_batches(m, res, unscheduled@) =~= Seq::<Seq<usize>>::empty());
    assert(batches@.map_values(|b: Vec<usize>| b@) + Seq::<Seq<usize>>::empty() =~= batches@.map_values(|b: Vec<usize>| b@));
    batches
}

/// No system of the batch conflicts with one that joined it earlier.
pub open spec fn batch_conflict_free(m: Seq<Seq<ConflictType>>, res: Seq<Map<Seq<char>, ResourceAccess>>, b: Seq<usize>) -> bool {
    forall|k1: int, k2: int| 0 <= k1 < k2 < b.len() ==> batch_compatible(m, res, #[trigger] b[k2], #[trigger] b[k1])
}

proof fn lemma_split_props(
    m: Seq<Seq<ConflictType>>,
    res: Seq<Map<Seq<char>, ResourceAccess>>,
    cands: Seq<usize>,
    batch: Seq<usize>,
    rest: Seq<usize>,
)
    requires
        cands.no_duplicates(),
        batch.no_duplicates(),
        rest.no_duplicates(),
        forall|x: usize| !(cands.contains(x) && batch.contains(x)),
        forall|x: usize| !(cands.contains(x) && rest.contains(x)),
        forall|x: usize| !(batch.contains(x) && rest.contains(x)),
        batch_conflict_free(m, res, batch),
    ensures
        ({
            let parts = split_batch(m, res, cands, batch, rest);
            &&& parts.0.no_duplicates()
            &&& parts.1.no_duplicates()
            &&& forall|x: usize| !(parts.0.contains(x) && parts.1.contains(x))
            &&& forall|x: usize| (parts.0.contains(x) || parts.1.contains(x)) <==> (cands.contains(x)
                || batch.contains(x) || rest.contains(x))
            &&& batch_conflict_free(m, res, parts.0)
        }),
    decreases cands.len(),
{
    if cands.len() > 0 {
        let c = cands[0];
        let tail = cands.drop_first();
        assert forall|x: usize| tail.contains(x) implies cands.contains(x) && x != c by {
            let k = choose|k: int| 0 <= k < tail.len() && tail[k] == x;
            assert(cands[k + 1] == x);
        }
        assert(cands.contains(c));
        assert forall|x: usize| cands.contains(x) implies tail.contains(x) || x == c by {
            let k = choose|k: int| 0 <= k < cands.len() && cands[k] == x;
            if k > 0 {
                assert(tail[k - 1] == x);
            }
        }
        if fits_batch(m, res, c, batch) {
            let nb = batch.push(c);
            assert forall|x: usize| nb.contains(x) <==> batch.contains(x) || x == c by {
                if nb.contains(x) {
                    let k = choose|k: int| 0 <= k < nb.len() && nb[k] == x;
                    if k < batch.len() {
                        assert(batch[k] == x);
                    }
                }
                if batch.contains(x) {
                    let k = choose|k: int| 0 <= k < batch.len() && batch[k] == x;
                    assert(nb[k] == x);
                }
                if x == c {
                    assert(nb[batch.len() as int] == x);
                }
            }
            assert(nb.no_duplicates()) by {
                assert forall|i: int, j: int| 0 <= i < j < nb.len() implies nb[i] != nb[j] by {
                    if j == batch.len() {
                        assert(batch.contains(nb[i]));
                    }
                }
            }
            assert(batch_conflict_free(m, res, nb)) by {
                assert forall|k1: int, k2: int| 0 <= k1 < k2 < nb.len() implies batch_compatible(
                    m,
                    res,
                    #[trigger] nb[k2],
                    #[trigger] nb[k1],
                ) by {
                    if k2 == batch.len() {
                        assert(batch_compatible(m, res, c, batch[k1]));
                    } else {
                        assert(batch_compatible(m, res, batch[k2], batch[k1]));
                    }
                }
            }
            lemma_split_props(m, res, tail, nb, rest);
        } else {
            let nr = rest.push(c);
            assert forall|x: usize| nr.contains(x) <==> rest.contains(x) || x == c by {
                if nr.contains(x) {
                    let k = choose|k: int| 0 <= k < nr.len() && nr[k] == x;
                    if k < rest.len() {
                        assert(rest[k] == x);
                    }
                }
                if rest.contains(x) {
                    let k = choose|k: int| 0 <= k < rest.len() && rest[k] == x;
                    assert(nr[k] == x);
                }
                if x == c {
                    assert(nr[rest.len() as int] == x);
                }
            }
            assert(nr.no_duplicates()) by {
                assert forall|i: int, j: int| 0 <= i < j < nr.len() implies nr[i] != nr[j] by {
                    if j == rest.len() {
                        assert(rest.contains(nr[i]));
                    }
                }
            }
            lemma_split_props(m, res, tail, batch, nr);
        }
    }
}

proof fn lemma_batches_props(m: Seq<Seq<ConflictType>>, res: Seq<Map<Seq<char>, ResourceAccess>>, cands: Seq<usize>)
    requires
        cands.no_duplicates(),
    ensures
        ({
            let batches = execution_batches(m, res, cands);
            &&& forall|b: int| 0 <= b < batches.len() ==> (#[trigger] batches[b]).len() > 0
            &&& forall|b: int| 0 <= b < batches.len() ==> (#[trigger] batches[b]).no_duplicates()
            &&& forall|b: int| 0 <= b < batches.len() ==> batch_conflict_free(m, res, #[trigger] batches[b])
            &&& forall|x: usize| cands.contains(x) <==> exists|b: int| 0 <= b < batches.len() && #[trigger] batches[b].contains(x)
            &&& forall|b1: int, b2: int, x: usize| 0 <= b1 < b2 < batches.len() ==> !(#[trigger] batches[b1].contains(x)
                && #[trigger] batches[b2].contains(x))
        }),
    decreases cands.len(),
{
    if cands.len() > 0 {
        let parts = split_batch(m, res, cands, Seq::empty(), Seq::empty());
        assert(fits_batch(m, res, cands[0], Seq::empty()));
        lemma_split_len(m, res, cands.drop_first(), seq![cands[0]], Seq::empty());
        lemma_split_len(m, res, cands, Seq::empty(), Seq::empty());
        lemma_split_props(m, res, cands, Seq::empty(), Seq::empty());
        lemma_batches_props(m, res, parts.1);
        let later = execution_batches(m, res, parts.1);
        let batches = execution_batches(m, res, cands);
        assert(batches == seq![parts.0] + later);
        assert(parts.0.len() > 0);
        assert forall|b: int| 0 <= b < batches.len() implies (#[trigger] batches[b]).len() > 0
            && batches[b].no_duplicates() && batch_conflict_free(m, res, batches[b]) by {
            if b > 0 {
                assert(batches[b] == later[b - 1]);
            }
        }
        assert forall|x: usize| cands.contains(x) <==> exists|b: int| 0 <= b < batches.len() && #[trigger] batches[b].contains(x) by {
            if cands.contains(x) {
                if parts.0.contains(x) {
                    assert(batches[0].contains(x));
                } else {
                    assert(parts.1.contains(x));
                    let b = choose|b: int| 0 <= b < later.len() && #[trigger] later[b].contains(x);
                    assert(batches[b + 1] == later[b]);
                }
            }
            if exists|b: int| 0 <= b < batches.len() && #[trigger] batches[b].contains(x) {
                let b = choose|b: int| 0 <= b < batches.len() && #[trigger] batches[b].contains(x);
                if b > 0 {
                    assert(later[b - 1] == batches[b]);
                    assert(parts.1.contains(x));
                }
            }
        }
        assert forall|b1: int, b2: int, x: usize| 0 <= b1 < b2 < batches.len() implies !(#[trigger] batches[b1].contains(x)
            && #[trigger] batches[b2].contains(x)) by {
            assert(batches[b2] == later[b2 - 1]);
            if b1 == 0 {
                if batches[b2].contains(x) {
                    assert(parts.1.contains(x));
                }
            } else {
                assert(batches[b1] == later[b1 - 1]);
            }
        }
    }
}

/// Every system lands in exactly one batch, each batch is non-empty, and no two systems of one
/// batch conflict: neither the table records a conflict between them nor do their accesses
/// clash.
pub proof fn law_batches_partition_without_conflicts(
    m: Seq<Seq<ConflictType>>,
    res: Seq<Map<Seq<char>, ResourceAccess>>,
    n: nat,
)
    requires
        n <= usize::MAX,
    ensures
        ({
            let batches = execution_batches(m, res, system_numbers(n));
            &&& forall|b: int| 0 <= b < batches.len() ==> (#[trigger] batches[b]).len() > 0
            &&& forall|b: int| 0 <= b < batches.len() ==> (#[trigger] batches[b]).no_duplicates()
            &&& forall|b: int, k1: int, k2: int| 0 <= b < batches.len() && 0 <= k1 < k2 < batches[b].len()
                ==> batch_compatible(m, res, #[trigger] batches[b][k2], #[trigger] batches[b][k1])
            &&& forall|x: usize| #[trigger] system_numbers(n).contains(x) <==> x < n
            &&& forall|x: usize| #[trigger] system_numbers(n).contains(x) <==> exists|b: int| 0 <= b < batches.len() && #[trigger] batches[b].contains(x)
            &&& forall|b1: int, b2: int, x: usize| 0 <= b1 < b2 < batches.len() ==> !(#[trigger] batches[b1].contains(x)
                && #[trigger] batches[b2].contains(x))
        }),
{
    let cands = system_numbers(n);
    assert forall|i: int| 0 <= i < n implies #[trigger] cands[i] == i by {}
    assert(cands.no_duplicates());
    lemma_batches_props(m, res, cands);
    let batches = execution_batches(m, res, cands);
    assert forall|b: int, k1: int, k2: int| 0 <= b < batches.len() && 0 <= k1 < k2 < batches[b].len()
        implies batch_compatible(m, res, #[trigger] batches[b][k2], #[trigger] batches[b][k1]) by {
        assert(batch_conflict_free(m, res, batches[b]));
    }
    assert forall|x: usize| #[trigger] cands.contains(x) <==> x < n by {
        if x < n {
            assert(cands[x as int] == x);
        }
    }
}

/// The conflict table is symmetric: the conflict between two systems reads the same both ways.
pub proof fn law_conflict_matrix_symmetric(m: &ConflictMatrix, i: int, j: int)
    requires
        m.wf(),
        0 <= i < m.size(),
        0 <= j < m.size(),
    ensures
        m.entry(i, j) == m.entry(j, i),
{
}

/// The identifiers of a list of tasks.
pub open spec fn task_id_seq(v: Seq<TaskId>) -> Seq<u64> {
    v.map_values(|t: TaskId| t.id())
}

/// The identifiers of a list of tasks, as a set.
pub open spec fn task_id_set(v: Seq<TaskId>) -> Set<u64> {
    task_id_seq(v).to_set()
}

/// What the scheduler knows of a resource's use: the resource's name, the tasks reading it,
/// the task writing it, the readers and writers waiting, and every access asked for, in order.
pub struct UsageView {
    pub resource_name: Seq<char>,
    pub readers: Set<u64>,
    pub writer: Option<u64>,
    pub pending_readers: Seq<u64>,
    pub pending_writers: Seq<u64>,
    pub history: Seq<ResourceAccess>,
}

/// The view of the use of a resource.
pub open spec fn usage_view(u: ResourceUsageInfo) -> UsageView {
    UsageView {
        resource_name: u.resource_name@,
        readers: task_id_set(u.current_readers@),
        writer: match u.current_writer {
            Some(t) => Some(t.id()),
            None => None,
        },
        pending_readers: task_id_seq(u.pending_readers@),
        pending_writers: task_id_seq(u.pending_writers@),
        history: u.access_history@,
    }
}

/// The views of the use of each resource.
pub open spec fn usage_views(m: Map<Seq<char>, ResourceUsageInfo>) -> Map<Seq<char>, UsageView> {
    m.map_values(|u: ResourceUsageInfo| usage_view(u))
}

/// The use of a resource no task has asked for yet.
pub open spec fn fresh_usage(name: Seq<char>) -> UsageView {
    UsageView {
        resource_name: name,
        readers: Set::empty(),
        writer: None,
        pending_readers: Seq::empty(),
        pending_writers: Seq::empty(),
        history: Seq::empty(),
    }
}

/// The use of a resource after `task` asks for `access`: a reader joins the readers unless a
/// writer holds the resource, else waits; a writer takes the resource when nobody uses it,
/// else waits. The access is added to the history either way.
pub open spec fn usage_after_access(u: UsageView, task: u64, access: ResourceAccess) -> UsageView {
    let asked = UsageView { history: u.history.push(access), ..u };
    match access {
        ResourceAccess::Immutable => if u.writer is None {
            UsageView { readers: u.readers.insert(task), ..asked }
        } else {
            UsageView { pending_readers: u.pending_readers.push(task), ..asked }
        },
        _ => if u.writer is None && u.readers.is_empty() {
            UsageView { writer: Some(task), ..asked }
        } else {
            UsageView { pending_writers: u.pending_writers.push(task), ..asked }
        },
    }
}

/// The use of resources after `task` asks for the resource parameters of `params`, in order.
pub open spec fn usage_after(m: Map<Seq<char>, UsageView>, task: u64, params: Seq<SystemParameter>) -> Map<
    Seq<char>,
    UsageView,
>
    decreases params.len(),
{
    if params.len() == 0 {
        m
    } else {
        let before = usage_after(m, task, params.drop_last());
        match params.last() {
            SystemParameter::Resource { name, access, .. } => {
                let u = if before.contains_key(name@) {
                    before[name@]
                } else {
                    fresh_usage(name@)
                };
                before.insert(name@, usage_after_access(u, task, access))
            },
            _ => before,
        }
    }
}

/// Which tasks run each system, what each task waits for, who uses each resource, and the
/// order constraints between tasks.
#[derive(Debug)]
pub struct DependencyGraph {
    system_tasks: StrMap<Vec<TaskId>>,
    task_dependencies: Vec<(TaskId, Vec<TaskId>)>,
    resource_usage: StrMap<ResourceUsageInfo>,
    ordering_constraints: Vec<OrderingConstraint>,
}

impl DependencyGraph {
    /// The tasks of each system, in the order they were recorded.
    pub closed spec fn tasks_by_system(&self) -> Map<Seq<char>, Seq<TaskId>> {
        self.system_tasks@.map_values(|v: Vec<TaskId>| v@)
    }

    /// The identifiers of the tasks with an entry for what they wait for.
    pub closed spec fn dependency_keys(&self) -> Seq<u64> {
        self.task_dependencies@.map_values(|e: (TaskId, Vec<TaskId>)| e.0.id())
    }

    /// The tasks that each task waits for.
    pub closed spec fn dependencies(&self) -> Map<u64, Seq<TaskId>> {
        Map::new(
            |id: u64| self.dependency_keys().contains(id),
            |id: u64| self.task_dependencies@[self.dependency_keys().index_of(id)].1@,
        )
    }

    /// The use of each resource.
    pub closed spec fn usage(&self) -> Map<Seq<char>, UsageView> {
        usage_views(self.resource_usage@)
    }

    /// The order constraints, in the order they were made.
    pub closed spec fn constraints(&self) -> Seq<OrderingConstraint> {
        self.ordering_constraints@
    }

    /// Well-formedness: systems, tasks and resources are each keyed once.
    pub closed spec fn wf(&self) -> bool {
        &&& self.system_tasks.wf()
        &&& self.resource_usage.wf()
        &&& self.dependency_keys().no_duplicates()
    }

    /// A graph with no tasks.
    pub fn new() -> (r: DependencyGraph)
        ensures
            r.wf(),
            r.tasks_by_system() == Map::<Seq<char>, Seq<TaskId>>::empty(),
            r.dependencies() == Map::<u64, Seq<TaskId>>::empty(),
            r.usage() == Map::<Seq<char>, UsageView>::empty(),
            r.constraints() == Seq::<OrderingConstraint>::empty(),
    {
        let r = DependencyGraph {
            system_tasks: StrMap::new(),
            task_dependencies: Vec::new(),
            resource_usage: StrMap::new(),
            ordering_constraints: Vec::new(),
        };
        assert(r.tasks_by_system() =~= Map::<Seq<char>, Seq<TaskId>>::empty());
        assert(r.dependency_keys() =~= Seq::<u64>::empty());
        assert(r.dependencies() =~= Map::<u64, Seq<TaskId>>::empty());
        assert(r.usage() =~= Map::<Seq<char>, UsageView>::empty());
        r
    }
}

/// Adds `task` to the list unless a task with its identifier is there.
fn add_task(v: &mut Vec<TaskId>, task: TaskId)
    ensures
        task_id_set(final(v)@) == task_id_set(old(v)@).insert(task.id()),
{
    let mut i: usize = 0;
    while i < v.len()
        invariant
            i <= v@.len(),
            forall|j: int| 0 <= j < i ==> task_id_seq(v@)[j] != task.id(),
        decreases v@.len() - i,
    {
        if v[i].as_u64() == task.as_u64() {
            proof {
                assert(task_id_seq(v@)[i as int] == task.id());
                assert(task_id_set(v@) =~= task_id_set(v@).insert(task.id()));
            }
            return;
        }
        i = i + 1;
    }
    let ghost before = v@;
    v.push(task);
    proof {
        assert(task_id_seq(v@) =~= task_id_seq(before).push(task.id()));
        task_id_seq(before).lemma_push_to_set_commute(task.id());
    }
}

/// The use of a resource after `task` asks for `access`.
fn record_access(u: &mut ResourceUsageInfo, task: TaskId, access: ResourceAccess)
    ensures
        usage_view(*final(u)) == usage_after_access(usage_view(*old(u)), task.id(), access),
{
    let ghost before = usage_view(*u);
    match access {
        ResourceAccess::Immutable => {
            if u.current_writer.is_none() {
                add_task(&mut u.current_readers, task);
            } else {
                let ghost q = u.pending_readers@;
                u.pending_readers.push_back(task);
                assert(task_id_seq(u.pending_readers@) =~= task_id_seq(q).push(task.id()));
            }
        },
        ResourceAccess::Mutable | ResourceAccess::Owned => {
            proof {
                if u.current_readers@.len() > 0 {
                    assert(task_id_set(u.current_readers@).contains(task_id_seq(u.current_readers@)[0]));
                } else {
                    assert(task_id_set(u.current_readers@) =~= Set::<u64>::empty());
                }
            }
            if u.current_writer.is_none() && u.current_readers.len() == 0 {
                u.current_writer = Some(task);
            } else {
                let ghost q = u.pending_writers@;
                u.pending_writers.push_back(task);
                assert(task_id_seq(u.pending_writers@) =~= task_id_seq(q).push(task.id()));
            }
        },
    }
    u.access_history.push(access);
}

impl DependencyGraph {
    proof fn lemma_dependency_at(&self, i: int)
        requires
            self.dependency_keys().no_duplicates(),
            0 <= i < self.task_dependencies@.len(),
        ensures
            self.dependencies().contains_key(self.task_dependencies@[i].0.id()),
            self.dependencies()[self.task_dependencies@[i].0.id()] == self.task_dependencies@[i].1@,
    {
        let id = self.task_dependencies@[i].0.id();
        assert(self.dependency_keys()[i] == id);
        let j = self.dependency_keys().index_of(id);
        assert(self.dependency_keys()[j] == id);
    }

    /// Makes `task` wait for nothing, replacing what it waited for before.
    fn clear_dependencies(&mut self, task: TaskId)
        requires
            old(self).dependency_keys().no_duplicates(),
        ensures
            final(self).dependency_keys().no_duplicates(),
            final(self).dependencies() == old(self).dependencies().insert(task.id(), Seq::<TaskId>::empty()),
            final(self).system_tasks == old(self).system_tasks,
            final(self).resource_usage == old(self).resource_usage,
            final(self).ordering_constraints == old(self).ordering_constraints,
    {
        self.forget_dependencies(task);
        let ghost mid = *self;
        let ghost keys = self.dependency_keys();
        self.task_dependencies.push((task, Vec::new()));
        proof {
            assert(self.dependency_keys() =~= keys.push(task.id()));
            assert(!keys.contains(task.id()));
            assert forall|a: int, b: int| 0 <= a < b < self.dependency_keys().len() implies self.dependency_keys()[a]
                != self.dependency_keys()[b] by {
                if b == keys.len() {
                    assert(self.dependency_keys()[a] == keys[a]);
                }
            }
            self.lemma_dependency_at(keys.len() as int);
            let m1 = self.dependencies();
            let m2 = mid.dependencies().insert(task.id(), Seq::<TaskId>::empty());
            assert(m1[task.id()] =~= Seq::<TaskId>::empty());
            assert forall|id: u64| #[trigger] m1.contains_key(id) == m2.contains_key(id) by {
                if id != task.id() {
                    if mid.dependencies().contains_key(id) {
                        let j = keys.index_of(id);
                        assert(keys[j] == id);
                        assert(self.dependency_keys()[j] == id);
                    }
                    if self.dependency_keys().contains(id) {
                        let j = choose|j: int| 0 <= j < self.dependency_keys().len() && self.dependency_keys()[j] == id;
                        assert(j < keys.len());
                        assert(keys[j] == id);
                    }
                }
            }
            assert forall|id: u64| #[trigger] m1.contains_key(id) implies m1[id] == m2[id] by {
                if id != task.id() {
                    let j = choose|j: int| 0 <= j < self.dependency_keys().len() && self.dependency_keys()[j] == id;
                    assert(j < keys.len());
                    assert(keys[j] == id);
                    assert(self.task_dependencies@[j] == mid.task_dependencies@[j]);
                    self.lemma_dependency_at(j);
                    mid.lemma_dependency_at(j);
                }
            }
            assert(m1 =~= m2);
        }
    }

    /// Drops what `task` waits for.
    fn forget_dependencies(&mut self, task: TaskId)
        requires
            old(self).dependency_keys().no_duplicates(),
        ensures
            final(self).dependency_keys().no_duplicates(),
            !final(self).dependency_keys().contains(task.id()),
            final(self).dependencies() == old(self).dependencies().remove(task.id()),
            final(self).system_tasks == old(self).system_tasks,
            final(self).resource_usage == old(self).resource_usage,
            final(self).ordering_constraints == old(self).ordering_constraints,
    {
        let mut i: usize = 0;
        while i < self.task_dependencies.len()
            invariant
                *self == *old(self),
                self.dependency_keys().no_duplicates(),
                i <= self.task_dependencies@.len(),
                forall|j: int| 0 <= j < i ==> self.dependency_keys()[j] != task.id(),
            decreases self.task_dependencies@.len() - i,
        {
            if self.task_dependencies[i].0.as_u64() == task.as_u64() {
                let ghost before = *self;
                let ghost keys = self.dependency_keys();
                self.task_dependencies.remove(i);
                proof {
                    assert(keys[i as int] == task.id());
                    assert(self.dependency_keys() =~= keys.remove(i as int));
                    assert forall|a: int, b: int| 0 <= a < b < self.dependency_keys().len() implies self.dependency_keys()[a]
                        != self.dependency_keys()[b] by {
                        let a2 = if a < i { a } else { a + 1 };
                        let b2 = if b < i { b } else { b + 1 };
                        assert(self.dependency_keys()[a] == keys[a2]);
                        assert(self.dependency_keys()[b] == keys[b2]);
                    }
                    assert(!self.dependency_keys().contains(task.id())) by {
                        if self.dependency_keys().contains(task.id()) {
                            let k = choose|k: int| 0 <= k < self.dependency_keys().len() && self.dependency_keys()[k] == task.id();
                            let k2 = if k < i { k } else { k + 1 };
                            assert(keys[k2] == task.id());
                        }
                    }
                    let m1 = self.dependencies();
                    let m2 = before.dependencies().remove(task.id());
                    assert forall|id: u64| #[trigger] m1.contains_key(id) == m2.contains_key(id) by {
                        if id != task.id() {
                            if before.dependencies().contains_key(id) {
                                let j2 = keys.index_of(id);
                                assert(keys[j2] == id);
                                assert(j2 != i);
                                let j = if j2 < i { j2 } else { j2 - 1 };
                                assert(self.dependency_keys()[j] == id);
                            }
                            if self.dependency_keys().contains(id) {
                                let k = choose|k: int| 0 <= k < self.dependency_keys().len() && self.dependency_keys()[k] == id;
                                let k2 = if k < i { k } else { k + 1 };
                                assert(keys[k2] == id);
                            }
                        }
                    }
                    assert forall|id: u64| #[trigger] m1.contains_key(id) implies m1[id] == m2[id] by {
                        let k = choose|k: int| 0 <= k < self.dependency_keys().len() && self.dependency_keys()[k] == id;
                        let k2 = if k < i { k } else { k + 1 };
                        assert(keys[k2] == id);
                        assert(self.task_dependencies@[k] == before.task_dependencies@[k2]);
                        self.lemma_dependency_at(k);
                        before.lemma_dependency_at(k2);
                    }
                    assert(m1 =~= m2);
                }
                return;
            }
            i = i + 1;
        }
        proof {
            assert(!self.dependency_keys().contains(task.id())) by {
                if self.dependency_keys().contains(task.id()) {
                    let k = choose|k: int| 0 <= k < self.dependency_keys().len() && self.dependency_keys()[k] == task.id();
                }
            }
            assert(self.dependencies() =~= old(self).dependencies().remove(task.id()));
        }
    }

    /// Records task `task_id` of `system_def`: it joins the tasks of its system, and must run
    /// after the task of the same system recorded just before it, if any; it waits for no task;
    /// and it asks, in order, for the resources of the system's resource parameters.
    pub fn update_dependency_graph(&mut self, task_id: TaskId, system_def: &SystemDef)
        requires
            old(self).wf(),
        ensures
            final(self).wf(),
            ({
                let name = system_def.name@;
                let prev = if old(self).tasks_by_system().contains_key(name) {
                    old(self).tasks_by_system()[name]
                } else {
                    Seq::<TaskId>::empty()
                };
                &&& final(self).tasks_by_system() == old(self).tasks_by_system().insert(name, prev.push(task_id))
                &&& final(self).constraints() == if prev.len() >= 1 {
                    old(self).constraints().push(
                        OrderingConstraint {
                            before_task: prev.last(),
                            after_task: task_id,
                            constraint_type: ConstraintType::CausalDependency,
                        },
                    )
                } else {
                    old(self).constraints()
                }
            }),
            final(self).dependencies() == old(self).dependencies().insert(task_id.id(), Seq::<TaskId>::empty()),
            final(self).usage() == usage_after(old(self).usage(), task_id.id(), system_def.parameters@),
    {
        let ghost name = system_def.name@;
        let ghost tasks0 = old(self).tasks_by_system();
        let mut tasks = match self.system_tasks.remove(system_def.name.as_str()) {
            Some(v) => v,
            None => Vec::new(),
        };
        let ghost prev = tasks@;
        proof {
            assert(prev == if tasks0.contains_key(name) { tasks0[name] } else { Seq::<TaskId>::empty() });
        }
        tasks.push(task_id);
        if tasks.len() >= 2 {
            let previous = tasks[tasks.len() - 2];
            self.ordering_constraints.push(
                OrderingConstraint {
                    before_task: previous,
                    after_task: task_id,
                    constraint_type: ConstraintType::CausalDependency,
                },
            );
        }
        self.system_tasks.insert(system_def.name.clone(), tasks);
        proof {
            assert(self.tasks_by_system() =~= tasks0.insert(name, prev.push(task_id)));
        }
        self.clear_dependencies(task_id);
        let ghost usage0 = self.usage();
        let ghost mid = *self;
        let params = &system_def.parameters;
        let mut i: usize = 0;
        while i < params.len()
            invariant
                self.resource_usage.wf(),
                self.system_tasks == mid.system_tasks,
                self.task_dependencies == mid.task_dependencies,
                self.ordering_constraints == mid.ordering_constraints,
                i <= params@.len(),
                *params == system_def.parameters,
                self.usage() == usage_after(usage0, task_id.id(), params@.take(i as int)),
            decreases params@.len() - i,
        {
            proof {
                assert(params@.take(i + 1).drop_last() =~= params@.take(i as int));
                assert(params@.take(i + 1).last() == params@[i as int]);
            }
            match &params[i] {
                SystemParameter::Resource { name, access, .. } => {
                    let ghost before = self.usage();
                    let mut info = match self.resource_usage.remove(name.as_str()) {
                        Some(info) => info,
                        None => {
                            let fresh = ResourceUsageInfo {
                                resource_name: name.clone(),
                                current_readers: Vec::new(),
                                current_writer: None,
                                pending_readers: VecDeque::new(),
                                pending_writers: VecDeque::new(),
                                access_history: Vec::new(),
                            };
                            proof {
                                assert(usage_view(fresh) =~= fresh_usage(name@)) by {
                                    assert(task_id_set(fresh.current_readers@) =~= Set::<u64>::empty());
                                    assert(task_id_seq(fresh.pending_readers@) =~= Seq::<u64>::empty());
                                    assert(task_id_seq(fresh.pending_writers@) =~= Seq::<u64>::empty());
                                }
                            }
                            fresh
                        },
                    };
                    let ghost u0 = usage_view(info);
                    proof {
                        assert(u0 == if before.contains_key(name@) { before[name@] } else { fresh_usage(name@) });
                    }
                    record_access(&mut info, task_id, *access);
                    let ghost m0 = self.resource_usage@;
                    self.resource_usage.insert(name.clone(), info);
                    proof {
                        assert(self.usage() =~= before.insert(name@, usage_after_access(u0, task_id.id(), *access)));
                    }
                },
                _ => {},
            }
            i = i + 1;
        }
        proof {
            assert(params@.take(params@.len() as int) =~= params@);
        }
    }
}

/// The tasks of `tasks` other than the one with identifier `id`.
fn without_task(tasks: &Vec<TaskId>, id: TaskId) -> (r: Vec<TaskId>)
    ensures
        r@ == tasks@.filter(|t: TaskId| t.id() != id.id()),
{
    let ghost pred = |t: TaskId| t.id() != id.id();
    let mut r: Vec<TaskId> = Vec::new();
    let mut i: usize = 0;
    proof {
        assert(tasks@.take(0) =~= Seq::<TaskId>::empty());
        assert(tasks@.take(0).filter(pred) =~= Seq::<TaskId>::empty());
    }
    while i < tasks.len()
        invariant
            i <= tasks@.len(),
            pred == (|t: TaskId| t.id() != id.id()),
            r@ == tasks@.take(i as int).filter(pred),
        decreases tasks@.len() - i,
    {
        proof {
            tasks@.take(i as int).lemma_filter_push(tasks@[i as int], pred);
            assert(tasks@.take(i as int).push(tasks@[i as int]) =~= tasks@.take(i + 1));
        }
        if tasks[i].as_u64() != id.as_u64() {
            r.push(tasks[i]);
        }
        i = i + 1;
    }
    proof {
        assert(tasks@.take(tasks@.len() as int) =~= tasks@);
    }
    r
}

/// The tasks of each system after the task with identifier `id` of system `system` finished:
/// it leaves the system's tasks, and the system loses its entry when no task is left.
pub open spec fn tasks_after_completion(m: Map<Seq<char>, Seq<TaskId>>, system: Seq<char>, id: u64) -> Map<
    Seq<char>,
    Seq<TaskId>,
> {
    if m.contains_key(system) {
        let left = m[system].filter(|t: TaskId| t.id() != id);
        if left.len() == 0 {
            m.remove(system)
        } else {
            m.insert(system, left)
        }
    } else {
        m
    }
}

/// Records that a task finished: it counts as a success or a failure, no longer waits for
/// anything, and leaves the tasks of its system, when the report names the system.
pub fn record_task_completion(stats: &mut SchedulingStats, graph: &mut DependencyGraph, completion: &CompletedTaskInfo)
    requires
        old(graph).wf(),
        completion.result is Ok ==> old(stats).successful_executions < usize::MAX,
        completion.result is Err ==> old(stats).failed_executions < usize::MAX,
    ensures
        final(graph).wf(),
        completion.result is Ok ==> *final(stats) == (SchedulingStats {
            successful_executions: (old(stats).successful_executions + 1) as usize,
            ..*old(stats)
        }),
        completion.result is Err ==> *final(stats) == (SchedulingStats {
            failed_executions: (old(stats).failed_executions + 1) as usize,
            ..*old(stats)
        }),
        final(graph).dependencies() == old(graph).dependencies().remove(completion.task_id.id()),
        final(graph).tasks_by_system() == match completion.system_def {
            Some(def) => tasks_after_completion(old(graph).tasks_by_system(), def.name@, completion.task_id.id()),
            None => old(graph).tasks_by_system(),
        },
        final(graph).usage() == old(graph).usage(),
        final(graph).constraints() == old(graph).constraints(),
{
    if completion.result.is_ok() {
        stats.successful_executions = stats.successful_executions + 1;
    } else {
        stats.failed_executions = stats.failed_executions + 1;
    }
    graph.forget_dependencies(completion.task_id);
    match &completion.system_def {
        Some(def) => {
            let ghost m = graph.tasks_by_system();
            let ghost name = def.name@;
            match graph.system_tasks.remove(def.name.as_str()) {
                Some(tasks) => {
                    let left = without_task(&tasks, completion.task_id);
                    if left.len() == 0 {
                        proof {
                            assert(graph.tasks_by_system() =~= m.remove(name));
                        }
                    } else {
                        let ghost kept = left@;
                        graph.system_tasks.insert(def.name.clone(), left);
                        proof {
                            assert(graph.tasks_by_system() =~= m.insert(name, kept));
                        }
                    }
                },
                None => {
                    proof {
                        assert(graph.tasks_by_system() =~= m);
                    }
                },
            }
        },
        None => {},
    }
}

/// Notes a batch of futures that run together: the largest number of concurrent executions
/// seen grows to the batch's size. The futures are driven by the runtime; nothing waits here.
pub fn wait_for_batch_completion(stats: &mut SchedulingStats, futures: &Vec<SystemFuture>)
    ensures
        *final(stats) == (SchedulingStats {
            concurrent_executions: if futures@.len() > old(stats).concurrent_executions {
                futures@.len() as usize
            } else {
                old(stats).concurrent_executions
            },
            ..*old(stats)
        }),
{
    if futures.len() == 0 {
        return;
    }
    if futures.len() > stats.concurrent_executions {
        stats.concurrent_executions = futures.len();
    }
}

impl DependencyGraph {
    /// The tasks recorded for `system`, in order.
    pub fn tasks_of(&self, system: &str) -> (r: Option<&Vec<TaskId>>)
        requires
            self.wf(),
        ensures
            match r {
                Some(v) => self.tasks_by_system().contains_key(system@) && v@ == self.tasks_by_system()[system@],
                None => !self.tasks_by_system().contains_key(system@),
            },
    {
        self.system_tasks.get(system)
    }

    /// What is known of the use of `resource`.
    pub fn usage_of(&self, resource: &str) -> (r: Option<&ResourceUsageInfo>)
        requires
            self.wf(),
        ensures
            match r {
                Some(u) => self.usage().contains_key(resource@) && usage_view(*u) == self.usage()[resource@],
                None => !self.usage().contains_key(resource@),
            },
    {
        self.resource_usage.get(resource)
    }

    /// The order constraints, in the order they were made.
    pub fn ordering_constraints(&self) -> (r: &Vec<OrderingConstraint>)
        ensures
            r@ == self.constraints(),
    {
        &self.ordering_constraints
    }

    /// Whether the graph has an entry for what `task` waits for.
    pub fn is_tracked(&self, task: TaskId) -> (r: bool)
        requires
            self.wf(),
        ensures
            r == self.dependencies().contains_key(task.id()),
    {
        let mut i: usize = 0;
        while i < self.task_dependencies.len()
            invariant
                i <= self.task_dependencies@.len(),
                forall|j: int| 0 <= j < i ==> self.dependency_keys()[j] != task.id(),
            decreases self.task_dependencies@.len() - i,
        {
            if self.task_dependencies[i].0.as_u64() == task.as_u64() {
                assert(self.dependency_keys()[i as int] == task.id());
                return true;
            }
            i = i + 1;
        }
        proof {
            if self.dependency_keys().contains(task.id()) {
                let k = choose|k: int| 0 <= k < self.dependency_keys().len() && self.dependency_keys()[k] == task.id();
            }
        }
        false
    }
}

} // verus!
