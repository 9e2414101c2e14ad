//! The event loop's data and its two queues: events served by priority, and timers served by
//! the time they fire. Times and durations are in milliseconds.
use vstd::prelude::*;

use crate::ast::SystemDef;
use crate::async_runtime::{AsyncExecutionError, SystemExecutionResult, TaskId, TaskPriority, YieldPoint};
use crate::names::StrMap;
use crate::table_values::ColumnValue;

verus! {

/// Configuration of the event loop.
#[derive(Debug, Clone, Copy)]
pub struct EventLoopConfig {
    pub max_executor_threads: usize,
    pub event_queue_capacity: usize,
    pub timer_resolution: u64,
    pub max_execution_time: u64,
    pub preemption_enabled: bool,
    pub load_balancing_strategy: LoadBalancingStrategy,
}

/// How work is spread over executor threads.
#[derive(Debug, Clone, Copy, PartialEq, Eq, Structural)]
pub enum LoadBalancingStrategy {
    RoundRobin,
    LeastLoaded,
    Priority,
    ResourceAware,
}

impl Default for EventLoopConfig {
    fn default() -> (r: EventLoopConfig)
        ensures
            r.max_executor_threads == 4,
            r.event_queue_capacity == 10000,
            r.timer_resolution == 10,
            r.max_execution_time == 30_000,
            r.preemption_enabled,
            r.load_balancing_strategy == LoadBalancingStrategy::LeastLoaded,
    {
        EventLoopConfig {
            max_executor_threads: 4,
            event_queue_capacity: 10000,
            timer_resolution: 10,
            max_execution_time: 30_000,
            preemption_enabled: true,
            load_balancing_strategy: LoadBalancingStrategy::LeastLoaded,
        }
    }
}

/// What the event loop is doing.
#[derive(Debug, Clone, Copy)]
pub struct EventLoopState {
    pub is_running: bool,
    pub active_systems: usize,
    pub pending_events: usize,
    pub scheduled_timers: usize,
    pub total_processed_events: u64,
    pub average_latency: u64,
    pub last_activity: u64,
}

/// The identifier of a timer.
#[derive(Debug, Clone, Copy, PartialEq, Eq, Structural)]
pub struct TimerId(u64);

impl TimerId {
    /// The number of the timer.
    pub closed spec fn id(self) -> u64 {
        self.0
    }

    /// The number of the timer.
    pub fn as_u64(&self) -> (r: u64)
        ensures
            r == self.id(),
    {
        self.0
    }
}

/// Something that happened to a system, for the event loop to handle.
#[derive(Debug)]
pub enum SystemEvent {
    SystemStart {
        task_id: TaskId,
        system_def: SystemDef,
        parameters: StrMap<ColumnValue>,
        priority: TaskPriority,
    },
    SystemComplete {
        task_id: TaskId,
        result: Result<SystemExecutionResult, AsyncExecutionError>,
    },
    SystemYield {
        task_id: TaskId,
        yield_point: YieldPoint,
    },
    SystemResume {
        task_id: TaskId,
    },
    ResourceAvailable {
        resource_name: String,
        available_for: Vec<TaskId>,
    },
    TimerExpired {
        timer_id: TimerId,
        task_id: TaskId,
    },
    SystemCancellation {
        task_id: TaskId,
        reason: String,
    },
    ShutdownRequest,
}

/// An event with the priority and time it was queued with.
#[derive(Debug)]
pub struct PriorityEvent {
    pub event: SystemEvent,
    pub priority: TaskPriority,
    pub timestamp: u64,
}

/// The rank of a priority: low 0 up to critical 3.
pub open spec fn priority_rank(p: TaskPriority) -> int {
    match p {
        TaskPriority::Low => 0,
        TaskPriority::Normal => 1,
        TaskPriority::High => 2,
        TaskPriority::Critical => 3,
    }
}

/// The order in which events are served: higher priority first, then earlier.
pub open spec fn event_key(p: TaskPriority, timestamp: u64) -> int {
    (3 - priority_rank(p)) * 0x1_0000_0000_0000_0000 + timestamp
}

/// Whether the keys never decrease.
pub open spec fn keys_sorted(k: Seq<int>) -> bool {
    forall|i: int, j: int| 0 <= i < j < k.len() ==> #[trigger] k[i] <= #[trigger] k[j]
}

/// Where an entry with key `x` goes: after every entry with a key no larger.
pub open spec fn key_position(k: Seq<int>, x: int) -> int
    decreases k.len(),
{
    if k.len() == 0 {
        0
    } else if x < k[0] {
        0
    } else {
        1 + key_position(k.drop_first(), x)
    }
}

/// The number of leading keys no larger than `x`.
pub open spec fn due_count(k: Seq<int>, x: int) -> int
    decreases k.len(),
{
    if k.len() == 0 {
        0
    } else if k[0] <= x {
        1 + due_count(k.drop_first(), x)
    } else {
        0
    }
}

proof fn lemma_key_position(k: Seq<int>, x: int)
    ensures
        0 <= key_position(k, x) <= k.len(),
        forall|i: int| 0 <= i < key_position(k, x) ==> #[trigger] k[i] <= x,
        key_position(k, x) < k.len() ==> x < k[key_position(k, x)],
    decreases k.len(),
{
    if k.len() > 0 && x >= k[0] {
        lemma_key_position(k.drop_first(), x);
        assert forall|i: int| 0 <= i < key_position(k, x) implies #[trigger] k[i] <= x by {
            if i > 0 {
                assert(k[i] == k.drop_first()[i - 1]);
            }
        }
        if key_position(k, x) < k.len() {
            assert(k[key_position(k, x)] == k.drop_first()[key_position(k.drop_first(), x)]);
        }
    }
}

proof fn lemma_insert_sorted(k: Seq<int>, x: int)
    requires
        keys_sorted(k),
    ensures
        keys_sorted(k.insert(key_position(k, x), x)),
{
    lemma_key_position(k, x);
    let p = key_position(k, x);
    let nk = k.insert(p, x);
    assert forall|i: int, j: int| 0 <= i < j < nk.len() implies #[trigger] nk[i] <= #[trigger] nk[j] by {
        if i < p && j < p {
            assert(nk[i] == k[i] && nk[j] == k[j]);
        } else if i < p && j == p {
            assert(nk[i] == k[i]);
        } else if i < p {
            assert(nk[i] == k[i] && nk[j] == k[j - 1]);
        } else if i == p {
            assert(nk[j] == k[j - 1]);
            assert(x < k[p]);
            assert(k[p] <= k[j - 1] || p == j - 1);
        } else {
            assert(nk[i] == k[i - 1] && nk[j] == k[j - 1]);
        }
    }
}

proof fn lemma_due_count(k: Seq<int>, x: int)
    ensures
        0 <= due_count(k, x) <= k.len(),
        forall|i: int| 0 <= i < due_count(k, x) ==> #[trigger] k[i] <= x,
        due_count(k, x) < k.len() ==> x < k[due_count(k, x)],
    decreases k.len(),
{
    if k.len() > 0 && k[0] <= x {
        lemma_due_count(k.drop_first(), x);
        assert forall|i: int| 0 <= i < due_count(k, x) implies #[trigger] k[i] <= x by {
            if i > 0 {
                assert(k[i] == k.drop_first()[i - 1]);
            }
        }
        if due_count(k, x) < k.len() {
            assert(k[due_count(k, x)] == k.drop_first()[due_count(k.drop_first(), x)]);
        }
    }
}

/// The keys of queued events.
pub open spec fn event_keys(q: Seq<PriorityEvent>) -> Seq<int> {
    q.map_values(|e: PriorityEvent| event_key(e.priority, e.timestamp))
}

/// A queue of events, served highest priority first and, within a priority, earliest first.
#[derive(Debug)]
pub struct EventQueue {
    events: Vec<SystemEvent>,
    capacity: usize,
    priority_queue: Vec<PriorityEvent>,
}

fn rank_of(p: TaskPriority) -> (r: u64)
    ensures
        r == 3 - priority_rank(p),
{
    match p {
        TaskPriority::Low => 3,
        TaskPriority::Normal => 2,
        TaskPriority::High => 1,
        TaskPriority::Critical => 0,
    }
}

/// Whether an event with priority `p` queued at `t` is served after one with priority `q`
/// queued at `u`.
fn served_later(p: TaskPriority, t: u64, q: TaskPriority, u: u64) -> (r: bool)
    ensures
        r == (event_key(q, u) < event_key(p, t)),
{
    let a = rank_of(p);
    let b = rank_of(q);
    if b < a {
        true
    } else if b > a {
        false
    } else {
        u < t
    }
}

impl EventQueue {
    /// The queued events, in the order they are served.
    pub closed spec fn queued(&self) -> Seq<PriorityEvent> {
        self.priority_queue@
    }

    /// The limit given when the queue was made.
    pub closed spec fn capacity_of(&self) -> usize {
        self.capacity
    }

    /// The secondary list of events, which nothing adds to.
    pub closed spec fn side_events(&self) -> Seq<SystemEvent> {
        self.events@
    }

    /// The queue is in serving order.
    pub open spec fn wf(&self) -> bool {
        keys_sorted(event_keys(self.queued()))
    }

    /// An empty queue with the given limit.
    pub fn new(capacity: usize) -> (r: EventQueue)
        ensures
            r.wf(),
            r.queued() == Seq::<PriorityEvent>::empty(),
            r.side_events() == Seq::<SystemEvent>::empty(),
            r.capacity_of() == capacity,
    {
        let r = EventQueue { events: Vec::new(), capacity, priority_queue: Vec::new() };
        assert(event_keys(r.queued()) =~= Seq::<int>::empty());
        r
    }

    /// Queues `event` with `priority` at time `now`, after the queued events it is not served
    /// before. Refused when the secondary list has reached the limit; as nothing is ever added
    /// to that list, this happens exactly when the limit is zero.
    pub fn enqueue(&mut self, event: SystemEvent, priority: TaskPriority, now: u64) -> (r: Result<(), AsyncExecutionError>)
        requires
            old(self).wf(),
        ensures
            final(self).wf(),
            final(self).capacity_of() == old(self).capacity_of(),
            final(self).side_events() == old(self).side_events(),
            r is Ok <==> old(self).side_events().len() < old(self).capacity_of(),
            r matches Err(e) ==> (e matches AsyncExecutionError::SystemError { system, message }
                && system@ == "event_queue"@ && message@ == "Event queue capacity exceeded"@
                && final(self).queued() == old(self).queued()),
            r is Ok ==> final(self).queued() == old(self).queued().insert(
                key_position(event_keys(old(self).queued()), event_key(priority, now)),
                PriorityEvent { event, priority, timestamp: now },
            ),
    {
        if self.events.len() >= self.capacity {
            return Err(AsyncExecutionError::SystemError {
                system: "event_queue".to_string(),
                message: "Event queue capacity exceeded".to_string(),
            });
        }
        let ghost keys = event_keys(self.queued());
        let ghost key = event_key(priority, now);
        let mut index: usize = 0;
        proof {
            lemma_key_position(keys, key);
            assert(keys.skip(0) =~= keys);
        }
        while index < self.priority_queue.len()
            invariant
                index <= self.priority_queue@.len(),
                self.priority_queue@ == old(self).priority_queue@,
                keys == event_keys(self.priority_queue@),
                key == event_key(priority, now),
                key_position(keys, key) == index + key_position(keys.skip(index as int), key),
            ensures
                index == self.priority_queue@.len() || key < keys[index as int],
            decreases self.priority_queue@.len() - index,
        {
            let e = &self.priority_queue[index];
            assert(keys[index as int] == event_key(e.priority, e.timestamp));
            assert(keys.skip(index as int)[0] == keys[index as int]);
            if served_later(e.priority, e.timestamp, priority, now) {
                break;
            }
            assert(keys.skip(index as int).drop_first() =~= keys.skip(index + 1));
            index = index + 1;
        }
        proof {
            if index == keys.len() {
                assert(keys.skip(index as int) =~= Seq::<int>::empty());
            } else {
                assert(keys.skip(index as int)[0] == keys[index as int]);
            }
            assert(key_position(keys, key) == index);
        }
        let ghost q = self.priority_queue@;
        let pe = PriorityEvent { event, priority, timestamp: now };
        let ghost pev = pe;
        self.priority_queue.insert(index, pe);
        proof {
            lemma_insert_sorted(keys, key);
            assert(event_keys(self.priority_queue@) =~= keys.insert(index as int, key));
            assert(self.priority_queue@ == q.insert(index as int, pev));
        }
        Ok(())
    }

    /// Takes out the event served next, if any.
    pub fn dequeue(&mut self) -> (r: Option<SystemEvent>)
        requires
            old(self).wf(),
        ensures
            final(self).wf(),
            final(self).capacity_of() == old(self).capacity_of(),
            final(self).side_events() == old(self).side_events(),
            old(self).queued().len() == 0 ==> r is None && final(self).queued() == old(self).queued(),
            old(self).queued().len() > 0 ==> r == Some(old(self).queued()[0].event)
                && final(self).queued() == old(self).queued().drop_first(),
    {
        if self.priority_queue.len() == 0 {
            return None;
        }
        let ghost q = self.priority_queue@;
        let pe = self.priority_queue.remove(0);
        proof {
            assert(self.priority_queue@ =~= q.drop_first());
            let k = event_keys(q);
            assert(event_keys(self.priority_queue@) =~= k.drop_first());
            assert forall|i: int, j: int| 0 <= i < j < k.drop_first().len() implies
                #[trigger] k.drop_first()[i] <= #[trigger] k.drop_first()[j] by {
                assert(k.drop_first()[i] == k[i + 1] && k.drop_first()[j] == k[j + 1]);
            }
        }
        Some(pe.event)
    }

    /// Drops every queued event.
    pub fn clear(&mut self)
        ensures
            final(self).wf(),
            final(self).queued() == Seq::<PriorityEvent>::empty(),
            final(self).side_events() == Seq::<SystemEvent>::empty(),
            final(self).capacity_of() == old(self).capacity_of(),
    {
        self.events.clear();
        self.priority_queue.clear();
        assert(event_keys(self.queued()) =~= Seq::<int>::empty());
    }

    /// The number of queued events.
    pub fn len(&self) -> (r: usize)
        ensures
            r == self.queued().len(),
    {
        self.priority_queue.len()
    }
}

/// A timer: the event it fires for a task, and when.
#[derive(Debug)]
pub struct ScheduledTimer {
    pub id: TimerId,
    pub task_id: TaskId,
    pub fire_time: u64,
    pub event: SystemEvent,
}

/// The firing times of timers.
pub open spec fn fire_keys(q: Seq<ScheduledTimer>) -> Seq<int> {
    q.map_values(|t: ScheduledTimer| t.fire_time as int)
}

/// The timers of `q` other than `id`, in order.
pub open spec fn without_timer(q: Seq<ScheduledTimer>, id: TimerId) -> Seq<ScheduledTimer>
    decreases q.len(),
{
    if q.len() == 0 {
        q
    } else if q.last().id == id {
        without_timer(q.drop_last(), id)
    } else {
        without_timer(q.drop_last(), id).push(q.last())
    }
}

/// Timers waiting to fire, earliest first.
#[derive(Debug)]
pub struct TimerManager {
    timers: Vec<ScheduledTimer>,
    next_timer_id: u64,
}

impl TimerManager {
    /// The waiting timers, in the order they fire.
    pub closed spec fn timers_of(&self) -> Seq<ScheduledTimer> {
        self.timers@
    }

    /// The number the next timer gets.
    pub closed spec fn next_id(&self) -> u64 {
        self.next_timer_id
    }

    /// The timers are in firing order.
    pub open spec fn wf(&self) -> bool {
        keys_sorted(fire_keys(self.timers_of()))
    }

    /// A manager without timers; the first timer gets number zero.
    pub fn new() -> (r: TimerManager)
        ensures
            r.wf(),
            r.timers_of() == Seq::<ScheduledTimer>::empty(),
            r.next_id() == 0,
    {
        let r = TimerManager { timers: Vec::new(), next_timer_id: 0 };
        assert(fire_keys(r.timers_of()) =~= Seq::<int>::empty());
        r
    }

    /// Schedules `event` for `task_id` to fire `delay` after `now`, after every timer firing
    /// no later; the timer gets the next number.
    pub fn schedule(&mut self, task_id: TaskId, delay: u64, event: SystemEvent, now: u64) -> (r: TimerId)
        requires
            old(self).wf(),
            old(self).next_id() < u64::MAX,
            now + delay <= u64::MAX,
        ensures
            final(self).wf(),
            r.id() == old(self).next_id(),
            final(self).next_id() == old(self).next_id() + 1,
            final(self).timers_of() == old(self).timers_of().insert(
                key_position(fire_keys(old(self).timers_of()), now + delay),
                ScheduledTimer { id: r, task_id, fire_time: (now + delay) as u64, event },
            ),
    {
        let timer_id = TimerId(self.next_timer_id);
        self.next_timer_id = self.next_timer_id + 1;
        let fire_time = now + delay;
        let ghost keys = fire_keys(self.timers@);
        let ghost key = fire_time as int;
        let mut index: usize = 0;
        proof {
            lemma_key_position(keys, key);
            assert(keys.skip(0) =~= keys);
        }
        while index < self.timers.len()
            invariant
                index <= self.timers@.len(),
                self.timers@ == old(self).timers@,
                keys == fire_keys(self.timers@),
                key == fire_time,
                key_position(keys, key) == index + key_position(keys.skip(index as int), key),
            ensures
                index == self.timers@.len() || key < keys[index as int],
            decreases self.timers@.len() - index,
        {
            assert(keys[index as int] == self.timers@[index as int].fire_time);
            assert(keys.skip(index as int)[0] == keys[index as int]);
            if fire_time < self.timers[index].fire_time {
                break;
            }
            assert(keys.skip(index as int).drop_first() =~= keys.skip(index + 1));
            index = index + 1;
        }
        proof {
            if index == keys.len() {
                assert(keys.skip(index as int) =~= Seq::<int>::empty());
            } else {
                assert(keys.skip(index as int)[0] == keys[index as int]);
            }
            assert(key_position(keys, key) == index);
        }
        let ghost q = self.timers@;
        let timer = ScheduledTimer { id: timer_id, task_id, fire_time, event };
        let ghost tv = timer;
        self.timers.insert(index, timer);
        proof {
            lemma_insert_sorted(keys, key);
            assert(fire_keys(self.timers@) =~= keys.insert(index as int, key));
            assert(self.timers@ == q.insert(index as int, tv));
        }
        timer_id
    }

    /// Drops the timer numbered as `timer_id`, keeping the others in order.
    pub fn cancel(&mut self, timer_id: TimerId)
        requires
            old(self).wf(),
        ensures
            final(self).wf(),
            final(self).timers_of() == without_timer(old(self).timers_of(), timer_id),
            final(self).next_id() == old(self).next_id(),
    {
        let ghost q = self.timers@;
        let mut kept: Vec<ScheduledTimer> = Vec::new();
        let mut rest: Vec<ScheduledTimer> = Vec::new();
        std::mem::swap(&mut rest, &mut self.timers);
        proof {
            assert(q.take(0) =~= Seq::<ScheduledTimer>::empty());
            assert(rest@ =~= q.skip(0));
        }
        let n = rest.len();
        let mut i: usize = 0;
        while rest.len() > 0
            invariant
                n == q.len(),
                i + rest@.len() == n,
                rest@ == q.skip(i as int),
                keys_sorted(fire_keys(q)),
                kept@ == without_timer(q.take(i as int), timer_id),
                keys_sorted(fire_keys(kept@)),
                forall|k: int, j: int| 0 <= k < kept@.len() && i <= j < q.len()
                    ==> (#[trigger] kept@[k]).fire_time <= (#[trigger] q[j]).fire_time,
                self.next_timer_id == old(self).next_timer_id,
            decreases rest@.len(),
        {
            let ghost before_rest = rest@;
            let t = rest.remove(0);
            proof {
                assert(t == q[i as int]) by {
                    assert(before_rest[0] == q.skip(i as int)[0]);
                }
                assert(rest@ =~= q.skip(i + 1));
                assert(q.take(i + 1).drop_last() =~= q.take(i as int));
                assert(q.take(i + 1).last() == q[i as int]);
            }
            if t.id != timer_id {
                let ghost kb = kept@;
                let ghost tv = t;
                kept.push(t);
                proof {
                    assert(kept@ == kb.push(tv));
                    assert forall|a: int, b: int| 0 <= a < b < fire_keys(kept@).len() implies
                        #[trigger] fire_keys(kept@)[a] <= #[trigger] fire_keys(kept@)[b] by {
                        if b == kb.len() {
                            assert(kept@[a] == kb[a]);
                            assert(kb[a].fire_time <= q[i as int].fire_time);
                        } else {
                            assert(fire_keys(kb)[a] == fire_keys(kept@)[a]);
                            assert(fire_keys(kb)[b] == fire_keys(kept@)[b]);
                        }
                    }
                    assert forall|k: int, j: int| 0 <= k < kept@.len() && i + 1 <= j < q.len()
                        implies (#[trigger] kept@[k]).fire_time <= (#[trigger] q[j]).fire_time by {
                        assert(fire_keys(q)[i as int] <= fire_keys(q)[j]);
                        if k < kb.len() {
                            assert(kept@[k] == kb[k]);
                        }
                    }
                }
            } else {
                proof {
                    assert forall|k: int, j: int| 0 <= k < kept@.len() && i + 1 <= j < q.len()
                        implies (#[trigger] kept@[k]).fire_time <= (#[trigger] q[j]).fire_time by {
                    }
                }
            }
            i = i + 1;
        }
        proof {
            assert(q.take(i as int) =~= q);
        }
        self.timers = kept;
    }

    /// Drops every timer.
    pub fn cancel_all(&mut self)
        ensures
            final(self).wf(),
            final(self).timers_of() == Seq::<ScheduledTimer>::empty(),
            final(self).next_id() == old(self).next_id(),
    {
        self.timers.clear();
        assert(fire_keys(self.timers_of()) =~= Seq::<int>::empty());
    }

    /// Takes out, in firing order, every timer due at or before `now`.
    pub fn get_fired_timers(&mut self, now: u64) -> (r: Vec<ScheduledTimer>)
        requires
            old(self).wf(),
        ensures
            final(self).wf(),
            r@ == old(self).timers_of().take(due_count(fire_keys(old(self).timers_of()), now as int)),
            final(self).timers_of() == old(self).timers_of().skip(due_count(fire_keys(old(self).timers_of()), now as int)),
            final(self).next_id() == old(self).next_id(),
    {
        let ghost q = self.timers@;
        let ghost keys = fire_keys(q);
        proof {
            lemma_due_count(keys, now as int);
        }
        let mut fired: Vec<ScheduledTimer> = Vec::new();
        assert(q.take(0) =~= Seq::<ScheduledTimer>::empty());
        assert(q.skip(0) =~= q);
        assert(keys.skip(0) =~= keys);
        while self.timers.len() > 0 && self.timers[0].fire_time <= now
            invariant
                fired@.len() <= q.len(),
                fired@ == q.take(fired@.len() as int),
                self.timers@ == q.skip(fired@.len() as int),
                keys == fire_keys(q),
                due_count(keys, now as int) == fired@.len() + due_count(keys.skip(fired@.len() as int), now as int),
                self.next_timer_id == old(self).next_timer_id,
            decreases self.timers@.len(),
        {
            let ghost k = fired@.len() as int;
            let ghost rest = self.timers@;
            let t = self.timers.remove(0);
            proof {
                assert(t == q[k]) by {
                    assert(rest[0] == q.skip(k)[0]);
                }
                assert(self.timers@ =~= q.skip(k + 1));
                assert(keys.skip(k)[0] == keys[k]);
                assert(keys.skip(k).drop_first() =~= keys.skip(k + 1));
            }
            fired.push(t);
            proof {
                assert(fired@ =~= q.take(k + 1));
            }
        }
        proof {
            let k = fired@.len() as int;
            if k < q.len() {
                assert(keys.skip(k)[0] == keys[k]);
                assert(self.timers@[0] == q[k]);
            } else {
                assert(keys.skip(k) =~= Seq::<int>::empty());
            }
            assert(due_count(keys, now as int) == k);
            let nk = fire_keys(self.timers@);
            assert forall|a: int, b: int| 0 <= a < b < nk.len() implies #[trigger] nk[a] <= #[trigger] nk[b] by {
                assert(nk[a] == keys[a + k] && nk[b] == keys[b + k]);
            }
        }
        fired
    }

    /// The number of waiting timers.
    pub fn len(&self) -> (r: usize)
        ensures
            r == self.timers_of().len(),
    {
        self.timers.len()
    }
}

/// The queue after each of `events` is queued in turn with `priority` at `now`.
pub open spec fn queued_all(q: Seq<PriorityEvent>, events: Seq<SystemEvent>, priority: TaskPriority, now: u64) -> Seq<
    PriorityEvent,
>
    decreases events.len(),
{
    if events.len() == 0 {
        q
    } else {
        let before = queued_all(q, events.drop_last(), priority, now);
        before.insert(
            key_position(event_keys(before), event_key(priority, now)),
            PriorityEvent { event: events.last(), priority, timestamp: now },
        )
    }
}

proof fn lemma_queued_one(q: Seq<PriorityEvent>, e: SystemEvent, priority: TaskPriority, now: u64)
    ensures
        queued_all(q, seq![e], priority, now) == q.insert(
            key_position(event_keys(q), event_key(priority, now)),
            PriorityEvent { event: e, priority, timestamp: now },
        ),
        queued_all(q, Seq::<SystemEvent>::empty(), priority, now) == q,
{
    assert(seq![e].drop_last() =~= Seq::<SystemEvent>::empty());
    assert(queued_all(q, Seq::<SystemEvent>::empty(), priority, now) == q);
}

/// The events of a list of timers, in order.
pub open spec fn timer_events(ts: Seq<ScheduledTimer>) -> Seq<SystemEvent> {
    ts.map_values(|t: ScheduledTimer| t.event)
}

/// Resume events for each task, in order.
pub open spec fn resume_events(tasks: Seq<TaskId>) -> Seq<SystemEvent> {
    tasks.map_values(|t: TaskId| SystemEvent::SystemResume { task_id: t })
}

/// The running mean of `count` latencies whose mean over the first `count - 1` was `mean`,
/// when the last is `latency`, rounded down.
pub open spec fn running_mean(mean: u64, count: u64, latency: u64) -> int
    recommends
        count >= 1,
{
    (mean * (count - 1) + latency) / (count as int)
}

/// The part of the event loop that decides: its event queue, its timers and its counters.
/// The loop itself, which waits, measures time and runs the executor threads, drives it: it
/// checks the timers every `timer_resolution`, takes the next event and hands it to
/// `process_event`, and on shutdown calls `shutdown_cleanup`.
#[derive(Debug)]
pub struct EventLoopManager {
    event_queue: EventQueue,
    timer_manager: TimerManager,
    config: EventLoopConfig,
    state: EventLoopState,
    shutdown_requested: bool,
}

impl EventLoopManager {
    /// The queue of events.
    pub closed spec fn queue(&self) -> EventQueue {
        self.event_queue
    }

    /// The timers.
    pub closed spec fn timers(&self) -> TimerManager {
        self.timer_manager
    }

    /// The counters.
    pub closed spec fn stats(&self) -> EventLoopState {
        self.state
    }

    /// Whether a stop was asked for.
    pub closed spec fn stopping(&self) -> bool {
        self.shutdown_requested
    }

    /// The configuration.
    pub closed spec fn configuration(&self) -> EventLoopConfig {
        self.config
    }

    /// The queue and the timers are in serving order.
    pub open spec fn wf(&self) -> bool {
        self.queue().wf() && self.timers().wf()
    }

    /// A loop that is not running, with no events, no timers and zeroed counters, last active
    /// at `now`.
    pub fn new(config: EventLoopConfig, now: u64) -> (r: EventLoopManager)
        ensures
            r.wf(),
            r.queue().queued() == Seq::<PriorityEvent>::empty(),
            r.queue().side_events() == Seq::<SystemEvent>::empty(),
            r.queue().capacity_of() == config.event_queue_capacity,
            r.timers().timers_of() == Seq::<ScheduledTimer>::empty(),
            r.timers().next_id() == 0,
            r.configuration() == config,
            !r.stopping(),
            r.stats() == (EventLoopState {
                is_running: false,
                active_systems: 0,
                pending_events: 0,
                scheduled_timers: 0,
                total_processed_events: 0,
                average_latency: 0,
                last_activity: now,
            }),
    {
        EventLoopManager {
            event_queue: EventQueue::new(config.event_queue_capacity),
            timer_manager: TimerManager::new(),
            config,
            state: EventLoopState {
                is_running: false,
                active_systems: 0,
                pending_events: 0,
                scheduled_timers: 0,
                total_processed_events: 0,
                average_latency: 0,
                last_activity: now,
            },
            shutdown_requested: false,
        }
    }

    /// Marks the loop running; refused when it already runs. The caller then runs the loop.
    pub fn start(&mut self) -> (r: Result<(), AsyncExecutionError>)
        ensures
            r is Ok <==> !old(self).stats().is_running,
            r matches Err(e) ==> e matches AsyncExecutionError::SystemError { system, message }
                && system@ == "event_loop"@ && message@ == "Event loop is already running"@,
            final(self).stats() == (EventLoopState { is_running: true, ..old(self).stats() }),
            final(self).queue() == old(self).queue(),
            final(self).timers() == old(self).timers(),
            final(self).stopping() == old(self).stopping(),
            final(self).configuration() == old(self).configuration(),
    {
        if self.state.is_running {
            return Err(AsyncExecutionError::SystemError {
                system: "event_loop".to_string(),
                message: "Event loop is already running".to_string(),
            });
        }
        self.state.is_running = true;
        Ok(())
    }

    /// Queues `event` with `priority` at `now`; on success one more event is pending and the
    /// loop was last active at `now`.
    fn enqueue_event(&mut self, event: SystemEvent, priority: TaskPriority, now: u64) -> (r: Result<(), AsyncExecutionError>)
        requires
            old(self).wf(),
            old(self).stats().pending_events < usize::MAX,
        ensures
            final(self).wf(),
            r is Ok <==> old(self).queue().side_events().len() < old(self).queue().capacity_of(),
            final(self).queue().side_events() == old(self).queue().side_events(),
            final(self).queue().capacity_of() == old(self).queue().capacity_of(),
            r is Ok ==> final(self).queue().queued() == queued_all(old(self).queue().queued(), seq![event], priority, now)
                && final(self).stats() == (EventLoopState {
                    pending_events: (old(self).stats().pending_events + 1) as usize,
                    last_activity: now,
                    ..old(self).stats()
                }),
            r is Err ==> final(self).queue().queued() == old(self).queue().queued() && final(self).stats() == old(self).stats(),
            final(self).timers() == old(self).timers(),
            final(self).stopping() == old(self).stopping(),
            final(self).configuration() == old(self).configuration(),
    {
        let ghost e = event;
        let ghost q = self.queue().queued();
        let r = self.event_queue.enqueue(event, priority, now);
        proof {
            lemma_queued_one(q, e, priority, now);
        }
        if r.is_ok() {
            self.state.pending_events = self.state.pending_events + 1;
            self.state.last_activity = now;
        }
        r
    }

    /// Queues each of `events` in turn with `priority` at `now`, stopping at the first refusal.
    fn enqueue_all(&mut self, events: &mut Vec<SystemEvent>, priority: TaskPriority, now: u64) -> (r: Result<(), AsyncExecutionError>)
        requires
            old(self).wf(),
            old(self).stats().pending_events + old(events)@.len() <= usize::MAX,
        ensures
            final(self).wf(),
            r is Ok <==> (old(events)@.len() == 0 || old(self).queue().side_events().len() < old(self).queue().capacity_of()),
            final(self).queue().side_events() == old(self).queue().side_events(),
            final(self).queue().capacity_of() == old(self).queue().capacity_of(),
            r is Ok ==> final(self).queue().queued() == queued_all(old(self).queue().queued(), old(events)@, priority, now)
                && final(self).stats() == (EventLoopState {
                    pending_events: (old(self).stats().pending_events + old(events)@.len()) as usize,
                    last_activity: if old(events)@.len() > 0 { now } else { old(self).stats().last_activity },
                    ..old(self).stats()
                }),
            r is Err ==> final(self).queue().queued() == old(self).queue().queued() && final(self).stats() == old(self).stats(),
            final(self).timers() == old(self).timers(),
            final(self).stopping() == old(self).stopping(),
            final(self).configuration() == old(self).configuration(),
    {
        let ghost all = old(events)@;
        let mut k: usize = 0;
        let total = events.len();
        proof {
            assert(all.take(0) =~= Seq::<SystemEvent>::empty());
            assert(events@ =~= all.skip(0));
            lemma_queued_one(old(self).queue().queued(), SystemEvent::ShutdownRequest, priority, now);
        }
        while events.len() > 0
            invariant
                self.wf(),
                all == old(events)@,
                all.len() == total,
                k <= total,
                events@ == all.skip(k as int),
                self.queue().side_events() == old(self).queue().side_events(),
                self.queue().capacity_of() == old(self).queue().capacity_of(),
                self.queue().queued() == queued_all(old(self).queue().queued(), all.take(k as int), priority, now),
                self.stats() == (EventLoopState {
                    pending_events: (old(self).stats().pending_events + k) as usize,
                    last_activity: if k > 0 { now } else { old(self).stats().last_activity },
                    ..old(self).stats()
                }),
                old(self).stats().pending_events + total <= usize::MAX,
                k > 0 ==> old(self).queue().side_events().len() < old(self).queue().capacity_of(),
                self.timers() == old(self).timers(),
                self.stopping() == old(self).stopping(),
                self.configuration() == old(self).configuration(),
            decreases events@.len(),
        {
            let ghost before_rest = events@;
            let event = events.remove(0);
            proof {
                assert(all.skip(k as int).len() == total - k);
                assert(event == all[k as int]) by {
                    assert(before_rest[0] == all.skip(k as int)[0]);
                }
                assert(events@ =~= all.skip(k + 1));
                assert(all.take(k + 1).drop_last() =~= all.take(k as int));
                assert(all.take(k + 1).last() == all[k as int]);
            }
            let ghost mid = self.queue().queued();
            let ghost side = self.queue().side_events();
            let ghost cap = self.queue().capacity_of();
            let ghost ev = event;
            let res = self.enqueue_event(event, priority, now);
            if res.is_err() {
                proof {
                    assert(side.len() >= cap);
                    assert(k == 0);
                    assert(all.len() > 0);
                    lemma_queued_one(old(self).queue().queued(), ev, priority, now);
                }
                return res;
            }
            proof {
                lemma_queued_one(mid, ev, priority, now);
            }
            k = k + 1;
        }
        proof {
            assert(all.take(k as int) =~= all);
        }
        Ok(())
    }

    /// Asks the loop to stop: the stop is recorded and a shutdown request is queued first in
    /// line among the events of its priority. The caller then waits for the loop to end.
    pub fn stop(&mut self, now: u64) -> (r: Result<(), AsyncExecutionError>)
        requires
            old(self).wf(),
            old(self).stats().pending_events < usize::MAX,
        ensures
            final(self).wf(),
            final(self).stopping(),
            r is Ok <==> old(self).queue().side_events().len() < old(self).queue().capacity_of(),
            r is Ok ==> final(self).queue().queued() == queued_all(
                old(self).queue().queued(),
                seq![SystemEvent::ShutdownRequest],
                TaskPriority::Critical,
                now,
            ) && final(self).stats() == (EventLoopState {
                pending_events: (old(self).stats().pending_events + 1) as usize,
                last_activity: now,
                ..old(self).stats()
            }),
            r is Err ==> final(self).queue().queued() == old(self).queue().queued() && final(self).stats() == old(self).stats(),
            final(self).timers() == old(self).timers(),
    {
        self.shutdown_requested = true;
        self.enqueue_event(SystemEvent::ShutdownRequest, TaskPriority::Critical, now)
    }

    /// Schedules `event` for `task_id` to fire `delay` after `now`, and counts the timer.
    pub fn schedule_timer(&mut self, task_id: TaskId, delay: u64, event: SystemEvent, now: u64) -> (r: Result<
        TimerId,
        AsyncExecutionError,
    >)
        requires
            old(self).wf(),
            old(self).timers().next_id() < u64::MAX,
            now + delay <= u64::MAX,
            old(self).stats().scheduled_timers < usize::MAX,
        ensures
            final(self).wf(),
            r matches Ok(id) && id.id() == old(self).timers().next_id(),
            final(self).timers().next_id() == old(self).timers().next_id() + 1,
            final(self).timers().timers_of() == old(self).timers().timers_of().insert(
                key_position(fire_keys(old(self).timers().timers_of()), now + delay),
                ScheduledTimer { id: r->Ok_0, task_id, fire_time: (now + delay) as u64, event },
            ),
            final(self).stats() == (EventLoopState {
                scheduled_timers: (old(self).stats().scheduled_timers + 1) as usize,
                ..old(self).stats()
            }),
            final(self).queue() == old(self).queue(),
            final(self).stopping() == old(self).stopping(),
            final(self).configuration() == old(self).configuration(),
    {
        let timer_id = self.timer_manager.schedule(task_id, delay, event, now);
        self.state.scheduled_timers = self.state.scheduled_timers + 1;
        Ok(timer_id)
    }

    /// Drops the timer `timer_id`; the count of timers goes down by one, but not below zero.
    pub fn cancel_timer(&mut self, timer_id: TimerId) -> (r: Result<(), AsyncExecutionError>)
        requires
            old(self).wf(),
        ensures
            final(self).wf(),
            r is Ok,
            final(self).timers().timers_of() == without_timer(old(self).timers().timers_of(), timer_id),
            final(self).timers().next_id() == old(self).timers().next_id(),
            final(self).stats() == (EventLoopState {
                scheduled_timers: if old(self).stats().scheduled_timers > 0 {
                    (old(self).stats().scheduled_timers - 1) as usize
                } else {
                    0
                },
                ..old(self).stats()
            }),
            final(self).queue() == old(self).queue(),
            final(self).stopping() == old(self).stopping(),
            final(self).configuration() == old(self).configuration(),
    {
        self.timer_manager.cancel(timer_id);
        self.state.scheduled_timers = self.state.scheduled_timers.saturating_sub(1);
        Ok(())
    }

    /// Queues, with normal priority at `now`, the event of every timer due by `now`, in firing
    /// order. The due timers are taken out either way; when the queue refuses, nothing is
    /// queued.
    pub fn process_timer_events(&mut self, now: u64) -> (r: Result<(), AsyncExecutionError>)
        requires
            old(self).wf(),
            old(self).stats().pending_events + due_count(fire_keys(old(self).timers().timers_of()), now as int)
                <= usize::MAX,
        ensures
            final(self).wf(),
            ({
                let due = due_count(fire_keys(old(self).timers().timers_of()), now as int);
                let fired = old(self).timers().timers_of().take(due);
                &&& final(self).timers().timers_of() == old(self).timers().timers_of().skip(due)
                &&& final(self).timers().next_id() == old(self).timers().next_id()
                &&& (r is Ok <==> (fired.len() == 0 || old(self).queue().side_events().len()
                    < old(self).queue().capacity_of()))
                &&& r is Ok ==> final(self).queue().queued() == queued_all(
                    old(self).queue().queued(),
                    timer_events(fired),
                    TaskPriority::Normal,
                    now,
                ) && final(self).stats() == (EventLoopState {
                    pending_events: (old(self).stats().pending_events + fired.len()) as usize,
                    last_activity: if fired.len() > 0 { now } else { old(self).stats().last_activity },
                    ..old(self).stats()
                })
                &&& r is Err ==> final(self).queue().queued() == old(self).queue().queued() && final(self).stats()
                    == old(self).stats()
            }),
            final(self).stopping() == old(self).stopping(),
            final(self).configuration() == old(self).configuration(),
    {
        proof {
            lemma_due_count(fire_keys(self.timers().timers_of()), now as int);
        }
        let fired = self.timer_manager.get_fired_timers(now);
        let ghost fired_view = fired@;
        let mut events: Vec<SystemEvent> = Vec::new();
        let mut rest = fired;
        let n = rest.len();
        let mut k: usize = 0;
        proof {
            assert(rest@ =~= fired_view.skip(0));
            assert(events@ =~= timer_events(fired_view.take(0)));
        }
        while rest.len() > 0
            invariant
                n == fired_view.len(),
                k <= n,
                rest@ == fired_view.skip(k as int),
                events@ == timer_events(fired_view.take(k as int)),
            decreases rest@.len(),
        {
            let ghost before_rest = rest@;
            let t = rest.remove(0);
            proof {
                assert(fired_view.skip(k as int).len() == n - k);
                assert(t == fired_view[k as int]) by {
                    assert(before_rest[0] == fired_view.skip(k as int)[0]);
                }
                assert(rest@ =~= fired_view.skip(k + 1));
            }
            let ghost eb = events@;
            events.push(t.event);
            proof {
                assert(events@ =~= timer_events(fired_view.take(k + 1)));
            }
            k = k + 1;
        }
        proof {
            assert(fired_view.take(k as int) =~= fired_view);
        }
        self.enqueue_all(&mut events, TaskPriority::Normal, now)
    }

    /// Takes out the event served next, if any; taking one counts it as processed and no longer
    /// pending.
    pub fn dequeue_event(&mut self) -> (r: Option<SystemEvent>)
        requires
            old(self).wf(),
            old(self).stats().total_processed_events < u64::MAX,
        ensures
            final(self).wf(),
            old(self).queue().queued().len() == 0 ==> r is None && final(self).queue().queued() == old(self).queue().queued()
                && final(self).stats() == old(self).stats(),
            old(self).queue().queued().len() > 0 ==> r == Some(old(self).queue().queued()[0].event)
                && final(self).queue().queued() == old(self).queue().queued().drop_first()
                && final(self).stats() == (EventLoopState {
                    pending_events: if old(self).stats().pending_events > 0 {
                        (old(self).stats().pending_events - 1) as usize
                    } else {
                        0
                    },
                    total_processed_events: (old(self).stats().total_processed_events + 1) as u64,
                    ..old(self).stats()
                }),
            final(self).queue().side_events() == old(self).queue().side_events(),
            final(self).queue().capacity_of() == old(self).queue().capacity_of(),
            final(self).timers() == old(self).timers(),
            final(self).stopping() == old(self).stopping(),
            final(self).configuration() == old(self).configuration(),
    {
        let event = self.event_queue.dequeue();
        if event.is_some() {
            self.state.pending_events = self.state.pending_events.saturating_sub(1);
            self.state.total_processed_events = self.state.total_processed_events + 1;
        }
        event
    }

    /// Handles an event taken from the queue at `now`. A start counts one more active system; a
    /// completion or a cancellation one less, not below zero; a sleep schedules a timer that
    /// resumes the task when the sleep ends; resources becoming available queue a resume for
    /// each waiting task, with normal priority. Other events change nothing. The loop then
    /// records how long the handling took, except for a shutdown request.
    pub fn process_event(&mut self, event: SystemEvent, now: u64) -> (r: Result<(), AsyncExecutionError>)
        requires
            old(self).wf(),
            event matches SystemEvent::SystemStart { .. } ==> old(self).stats().active_systems < usize::MAX,
            event matches SystemEvent::SystemYield { yield_point: YieldPoint::Sleeping { duration, .. }, .. } ==> now
                + duration <= u64::MAX && old(self).timers().next_id() < u64::MAX && old(self).stats().scheduled_timers
                < usize::MAX,
            event matches SystemEvent::ResourceAvailable { available_for, .. } ==> old(self).stats().pending_events
                + available_for@.len() <= usize::MAX,
        ensures
            final(self).wf(),
            final(self).stopping() == old(self).stopping(),
            final(self).configuration() == old(self).configuration(),
            final(self).queue().side_events() == old(self).queue().side_events(),
            final(self).queue().capacity_of() == old(self).queue().capacity_of(),
            ({
                let s = old(self).stats();
                match event {
                    SystemEvent::ShutdownRequest => r is Ok && final(self).stats() == s && final(self).queue()
                        == old(self).queue() && final(self).timers() == old(self).timers(),
                    SystemEvent::SystemStart { .. } => r is Ok && final(self).stats() == (EventLoopState {
                        active_systems: (s.active_systems + 1) as usize,
                        ..s
                    }) && final(self).queue() == old(self).queue() && final(self).timers() == old(self).timers(),
                    SystemEvent::SystemComplete { .. } | SystemEvent::SystemCancellation { .. } => r is Ok
                        && final(self).stats() == (EventLoopState {
                        active_systems: if s.active_systems > 0 { (s.active_systems - 1) as usize } else { 0 },
                        ..s
                    }) && final(self).queue() == old(self).queue() && final(self).timers() == old(self).timers(),
                    SystemEvent::SystemYield { task_id, yield_point } => match yield_point {
                        YieldPoint::Sleeping { duration, .. } => r is Ok && (exists|id: TimerId|
                            id.id() == old(self).timers().next_id() && #[trigger] final(self).timers().timers_of()
                            == old(self).timers().timers_of().insert(
                            key_position(fire_keys(old(self).timers().timers_of()), now + duration),
                            ScheduledTimer {
                                id,
                                task_id,
                                fire_time: (now + duration) as u64,
                                event: SystemEvent::SystemResume { task_id },
                            },
                        )) && final(self).timers().next_id() == old(self).timers().next_id() + 1 && final(self).stats()
                            == (EventLoopState {
                            scheduled_timers: (s.scheduled_timers + 1) as usize,
                                ..s
                        }) && final(self).queue() == old(self).queue(),
                        _ => r is Ok && final(self).stats() == s
                            && final(self).queue() == old(self).queue() && final(self).timers() == old(self).timers(),
                    },
                    SystemEvent::ResourceAvailable { available_for, .. } => final(self).timers() == old(self).timers()
                        && (r is Ok <==> (available_for@.len() == 0 || old(self).queue().side_events().len()
                        < old(self).queue().capacity_of())) && (r is Ok ==> final(self).queue().queued() == queued_all(
                        old(self).queue().queued(),
                        resume_events(available_for@),
                        TaskPriority::Normal,
                        now,
                    ) && final(self).stats() == (EventLoopState {
                        pending_events: (s.pending_events + available_for@.len()) as usize,
                        last_activity: if available_for@.len() > 0 { now } else { s.last_activity },
                        ..s
                    })) && (r is Err ==> final(self).queue().queued() == old(self).queue().queued()
                        && final(self).stats() == s),
                    _ => r is Ok && final(self).stats() == s
                        && final(self).queue() == old(self).queue() && final(self).timers() == old(self).timers(),
                }
            }),
    {
        match event {
            SystemEvent::ShutdownRequest => {
                return Ok(());
            },
            SystemEvent::SystemStart { .. } => {
                self.state.active_systems = self.state.active_systems + 1;
            },
            SystemEvent::SystemComplete { .. } | SystemEvent::SystemCancellation { .. } => {
                self.state.active_systems = self.state.active_systems.saturating_sub(1);
            },
            SystemEvent::SystemYield { task_id, yield_point } => {
                match yield_point {
                    YieldPoint::Sleeping { duration, .. } => {
                        let timer = self.schedule_timer(task_id, duration, SystemEvent::SystemResume { task_id }, now);
                        proof {
                            let id = timer->Ok_0;
                            assert(id.id() == old(self).timers().next_id());
                        }
                    },
                    _ => {},
                }
            },
            SystemEvent::ResourceAvailable { available_for, .. } => {
                let mut events: Vec<SystemEvent> = Vec::new();
                let mut i: usize = 0;
                proof {
                    assert(events@ =~= resume_events(available_for@.take(0)));
                }
                while i < available_for.len()
                    invariant
                        i <= available_for@.len(),
                        events@ == resume_events(available_for@.take(i as int)),
                    decreases available_for@.len() - i,
                {
                    events.push(SystemEvent::SystemResume { task_id: available_for[i] });
                    proof {
                        assert(events@ =~= resume_events(available_for@.take(i + 1)));
                    }
                    i = i + 1;
                }
                proof {
                    assert(available_for@.take(i as int) =~= available_for@);
                }
                let r = self.enqueue_all(&mut events, TaskPriority::Normal, now);
                if r.is_err() {
                    return r;
                }
            },
            _ => {},
        }
        Ok(())
    }

    /// Takes `latency`, the time the last processed event took, into the running mean.
    pub fn record_latency(&mut self, latency: u64)
        requires
            old(self).stats().total_processed_events >= 1,
        ensures
            final(self).stats() == (EventLoopState {
                average_latency: running_mean(
                    old(self).stats().average_latency,
                    old(self).stats().total_processed_events,
                    latency,
                ) as u64,
                ..old(self).stats()
            }),
            final(self).queue() == old(self).queue(),
            final(self).timers() == old(self).timers(),
            final(self).stopping() == old(self).stopping(),
            final(self).configuration() == old(self).configuration(),
    {
        let count = self.state.total_processed_events as u128;
        let mean = self.state.average_latency as u128;
        proof {
            assert(mean * (count - 1) <= 0xffff_ffff_ffff_ffff * 0xffff_ffff_ffff_ffff) by (nonlinear_arith)
                requires
                    mean <= 0xffff_ffff_ffff_ffff,
                    1 <= count <= 0xffff_ffff_ffff_ffff,
            ;
        }
        let total = mean * (count - 1) + latency as u128;
        let new_mean = total / count;
        proof {
            assert(new_mean <= 0xffff_ffff_ffff_ffff) by (nonlinear_arith)
                requires
                    new_mean == total / count,
                    total == mean * (count - 1) + latency,
                    mean <= 0xffff_ffff_ffff_ffff,
                    latency <= 0xffff_ffff_ffff_ffff,
                    count >= 1,
            ;
        }
        self.state.average_latency = new_mean as u64;
    }

    /// Drops every timer and every queued event.
    pub fn shutdown_cleanup(&mut self) -> (r: Result<(), AsyncExecutionError>)
        ensures
            final(self).wf(),
            r is Ok,
            final(self).timers().timers_of() == Seq::<ScheduledTimer>::empty(),
            final(self).timers().next_id() == old(self).timers().next_id(),
            final(self).queue().queued() == Seq::<PriorityEvent>::empty(),
            final(self).queue().side_events() == Seq::<SystemEvent>::empty(),
            final(self).queue().capacity_of() == old(self).queue().capacity_of(),
            final(self).stats() == old(self).stats(),
            final(self).stopping() == old(self).stopping(),
            final(self).configuration() == old(self).configuration(),
    {
        self.timer_manager.cancel_all();
        self.event_queue.clear();
        Ok(())
    }

    /// Marks the loop stopped, once it has ended.
    pub fn finish(&mut self)
        ensures
            final(self).stats() == (EventLoopState { is_running: false, ..old(self).stats() }),
            final(self).queue() == old(self).queue(),
            final(self).timers() == old(self).timers(),
            final(self).stopping() == old(self).stopping(),
            final(self).configuration() == old(self).configuration(),
    {
        self.state.is_running = false;
    }

    /// Whether a stop was asked for.
    pub fn is_stopping(&self) -> (r: bool)
        ensures
            r == self.stopping(),
    {
        self.shutdown_requested
    }

    /// The counters.
    pub fn get_stats(&self) -> (r: EventLoopState)
        ensures
            r == self.stats(),
    {
        self.state
    }

    /// The configuration.
    pub fn config(&self) -> (r: EventLoopConfig)
        ensures
            r == self.configuration(),
    {
        self.config
    }
}

} // verus!
