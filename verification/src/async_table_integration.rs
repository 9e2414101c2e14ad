//! The data of asynchronous table queries: configuration, query identifiers, results, the
//! query cache and transactions. Times are in milliseconds.
use vstd::prelude::*;

use crate::ast::{JoinClause, QuerySpec, ResourceAccess};
use crate::async_runtime::TaskId;
use crate::names::{string_views, NameSet, StrMap};
use crate::resource_lifecycle::{lease_age, saturating_gap, AcquisitionResult, ResourceLifecycleManager};
use crate::table_values::{RowId, TableRow};

verus! {

/// Configuration of asynchronous table access; durations in milliseconds.
#[derive(Debug, Clone, Copy)]
pub struct AsyncTableConfig {
    pub query_timeout: u64,
    pub max_concurrent_queries: usize,
    pub enable_query_caching: bool,
    pub cache_ttl: u64,
    pub lock_timeout: u64,
    pub enable_optimistic_locking: bool,
    pub batch_size: usize,
}

impl Default for AsyncTableConfig {
    fn default() -> (r: AsyncTableConfig)
        ensures
            r.query_timeout == 30_000,
            r.max_concurrent_queries == 100,
            r.enable_query_caching,
            r.cache_ttl == 300_000,
            r.lock_timeout == 10_000,
            r.enable_optimistic_locking,
            r.batch_size == 1000,
    {
        AsyncTableConfig {
            query_timeout: 30_000,
            max_concurrent_queries: 100,
            enable_query_caching: true,
            cache_ttl: 300_000,
            lock_timeout: 10_000,
            enable_optimistic_locking: true,
            batch_size: 1000,
        }
    }
}

/// The identifier of a query.
#[derive(Debug, Clone, Copy, PartialEq, Eq, Structural)]
pub struct QueryId(u64);

impl QueryId {
    /// The number of the query.
    pub closed spec fn id(self) -> u64 {
        self.0
    }

    /// The query with number `value`.
    pub fn from_raw(value: u64) -> (r: QueryId)
        ensures
            r.id() == value,
    {
        QueryId(value)
    }

    /// The number of the query.
    pub fn as_u64(&self) -> (r: u64)
        ensures
            r == self.id(),
    {
        self.0
    }
}

/// What a query produced.
#[derive(Debug)]
pub enum QueryResult {
    Rows {
        rows: Vec<TableRow>,
        total_count: usize,
        /// How long the query ran, in milliseconds.
        execution_time: u64,
    },
    Insertion {
        row_id: RowId,
        rows_affected: usize,
    },
    Update {
        rows_affected: usize,
    },
    Deletion {
        rows_affected: usize,
    },
    Schema {
        table_schema: String,
    },
}

/// A cached query result and when it expires, in milliseconds.
#[derive(Debug)]
pub struct CachedResult {
    pub result: QueryResult,
    pub cached_at: u64,
    pub expires_at: u64,
    pub hit_count: u64,
}

/// Hit and miss counts of the query cache.
#[derive(Debug, Clone, Copy)]
pub struct CacheStats {
    pub plan_cache_hits: u64,
    pub plan_cache_misses: u64,
    pub result_cache_hits: u64,
    pub result_cache_misses: u64,
    pub cache_evictions: u64,
}

/// A transaction over tables: the locks it holds and its savepoints.
#[derive(Debug)]
pub struct AsyncTransaction {
    pub transaction_id: String,
    pub task_id: TaskId,
    pub isolation_level: IsolationLevel,
    pub read_locks: NameSet,
    pub write_locks: NameSet,
    pub started_at: u64,
    pub timeout: u64,
    pub savepoints: Vec<Savepoint>,
}

/// Transaction isolation levels.
#[derive(Debug, Clone, Copy, PartialEq, Eq, Structural)]
pub enum IsolationLevel {
    ReadUncommitted,
    ReadCommitted,
    RepeatableRead,
    Serializable,
}

/// A named point a transaction can return to.
#[derive(Debug)]
pub struct Savepoint {
    pub name: String,
    pub created_at: u64,
    pub table_states: StrMap<String>,
}

/// The tables a query reads: its main table, then each joined table in order.
pub open spec fn required_resources(query: &QuerySpec) -> Seq<Seq<char>> {
    seq![query.from_table@] + query.joins@.map_values(|j: JoinClause| j.table@)
}

/// The tables a query needs, its main table first, then each joined table in order.
pub fn extract_required_resources(query_spec: &QuerySpec) -> (r: Vec<String>)
    ensures
        r@.map_values(|s: String| s@) == required_resources(query_spec),
{
    let mut resources: Vec<String> = Vec::new();
    resources.push(query_spec.from_table.clone());
    let mut i: usize = 0;
    while i < query_spec.joins.len()
        invariant
            i <= query_spec.joins@.len(),
            resources@.map_values(|s: String| s@) == seq![query_spec.from_table@]
                + query_spec.joins@.take(i as int).map_values(|j: JoinClause| j.table@),
        decreases query_spec.joins@.len() - i,
    {
        let ghost before = resources@;
        let t = query_spec.joins[i].table.clone();
        resources.push(t);
        assert(resources@ == before.push(t));
        assert(resources@.map_values(|s: String| s@) =~= before.map_values(|s: String| s@).push(t@));
        assert(query_spec.joins@.take(i + 1) =~= query_spec.joins@.take(i as int).push(query_spec.joins@[i as int]));
        assert(query_spec.joins@.take(i + 1).map_values(|j: JoinClause| j.table@) =~= query_spec.joins@.take(i as int).map_values(|j: JoinClause| j.table@).push(t@));
        assert(resources@.map_values(|s: String| s@) =~= seq![query_spec.from_table@]
            + query_spec.joins@.take(i + 1).map_values(|j: JoinClause| j.table@));
        i = i + 1;
    }
    assert(query_spec.joins@.take(i as int) =~= query_spec.joins@);
    resources
}

/// `acc` with each text of `new` that it lacks appended, in order.
pub open spec fn extend_unique(acc: Seq<Seq<char>>, new: Seq<Seq<char>>) -> Seq<Seq<char>>
    decreases new.len(),
{
    if new.len() == 0 {
        acc
    } else {
        let a = extend_unique(acc, new.drop_last());
        if a.contains(new.last()) {
            a
        } else {
            a.push(new.last())
        }
    }
}

/// Whether some text of `a` is in `b`.
pub open spec fn shares_resource(a: Seq<Seq<char>>, b: Seq<Seq<char>>) -> bool {
    exists|i: int| 0 <= i < a.len() && b.contains(#[trigger] a[i])
}

/// One pass of grouping over the queries at positions `rest`, in order: a query that shares a
/// resource with the group's resources `acc` joins `members` and adds its resources; any other
/// is left over. Gives the group's resources, its members and the queries left over.
pub open spec fn gather(
    rs: Seq<Seq<Seq<char>>>,
    acc: Seq<Seq<char>>,
    members: Seq<int>,
    left: Seq<int>,
    rest: Seq<int>,
) -> (Seq<Seq<char>>, Seq<int>, Seq<int>)
    decreases rest.len(),
{
    if rest.len() == 0 {
        (acc, members, left)
    } else {
        let j = rest[0];
        if shares_resource(rs[j], acc) {
            gather(rs, extend_unique(acc, rs[j]), members.push(j), left, rest.drop_first())
        } else {
            gather(rs, acc, members, left.push(j), rest.drop_first())
        }
    }
}

/// A pass of grouping leaves over no more queries than it looked at, and loses or repeats none:
/// its members and its leftovers are the queries it started with and the ones it looked at.
pub proof fn lemma_gather_left(
    rs: Seq<Seq<Seq<char>>>,
    acc: Seq<Seq<char>>,
    members: Seq<int>,
    left: Seq<int>,
    rest: Seq<int>,
)
    ensures
        gather(rs, acc, members, left, rest).2.len() <= left.len() + rest.len(),
        (gather(rs, acc, members, left, rest).1 + gather(rs, acc, members, left, rest).2).to_multiset()
            == (members + left + rest).to_multiset(),
    decreases rest.len(),
{
    broadcast use vstd::seq_lib::lemma_multiset_commutative, vstd::seq_lib::to_multiset_build;
    if rest.len() > 0 {
        let j = rest[0];
        assert(rest =~= seq![j] + rest.drop_first());
        if shares_resource(rs[j], acc) {
            lemma_gather_left(rs, extend_unique(acc, rs[j]), members.push(j), left, rest.drop_first());
            assert(members + left + rest =~= members + (left + seq![j] + rest.drop_first()));
            assert(members.push(j) + left + rest.drop_first() =~= members + (seq![j] + left + rest.drop_first()));
            vstd::seq_lib::lemma_multiset_commutative(left, seq![j]);
            vstd::seq_lib::lemma_multiset_commutative(left + seq![j], rest.drop_first());
            vstd::seq_lib::lemma_multiset_commutative(seq![j] + left, rest.drop_first());
            vstd::seq_lib::lemma_multiset_commutative(seq![j], left);
            vstd::seq_lib::lemma_multiset_commutative(members, left + seq![j] + rest.drop_first());
            vstd::seq_lib::lemma_multiset_commutative(members, seq![j] + left + rest.drop_first());
        } else {
            lemma_gather_left(rs, acc, members, left.push(j), rest.drop_first());
            assert(members + left.push(j) + rest.drop_first() =~= members + left + rest);
        }
    }
}

/// The groups of the queries at positions `remaining`: the first query starts a group that
/// gathers the others in one pass, and the queries left over are grouped the same way. Each
/// group is its resources and the positions of its queries.
pub open spec fn query_groups(rs: Seq<Seq<Seq<char>>>, remaining: Seq<int>) -> Seq<(Seq<Seq<char>>, Seq<int>)>
    decreases remaining.len(),
{
    if remaining.len() == 0 {
        Seq::empty()
    } else {
        let first = remaining[0];
        let g = gather(rs, rs[first], seq![first], Seq::empty(), remaining.drop_first());
        proof {
            lemma_gather_left(rs, rs[first], seq![first], Seq::empty(), remaining.drop_first());
        }
        seq![(g.0, g.1)] + query_groups(rs, g.2)
    }
}

/// The resources of each query, in order.
pub open spec fn resource_lists(queries: Seq<QuerySpec>) -> Seq<Seq<Seq<char>>> {
    queries.map_values(|q: QuerySpec| required_resources(&q))
}

/// The positions `0` to `n - 1`.
pub open spec fn positions(n: nat) -> Seq<int> {
    Seq::new(n, |i: int| i)
}

/// A group as resource names and query positions.
pub open spec fn group_view(g: (Vec<String>, Vec<usize>)) -> (Seq<Seq<char>>, Seq<int>) {
    (g.0@.map_values(|s: String| s@), g.1@.map_values(|i: usize| i as int))
}

/// Whether the text `name` is among `names`.
fn contains_name(names: &Vec<String>, name: &String) -> (r: bool)
    ensures
        r == names@.map_values(|s: String| s@).contains(name@),
{
    let ghost v = names@.map_values(|s: String| s@);
    let mut i: usize = 0;
    while i < names.len()
        invariant
            v == names@.map_values(|s: String| s@),
            i <= names@.len(),
            forall|j: int| 0 <= j < i ==> v[j] != name@,
        decreases names@.len() - i,
    {
        if names[i] == *name {
            assert(v[i as int] == name@);
            return true;
        }
        i = i + 1;
    }
    proof {
        if v.contains(name@) {
            let j = choose|j: int| 0 <= j < v.len() && v[j] == name@;
        }
    }
    false
}

/// Groups the queries of a batch so that the queries of a group can be run under one set of
/// locks: the first query not yet grouped starts a group, and every later ungrouped query that
/// shares a table with the group, as it has grown so far, joins it and adds its tables. Each
/// group is its tables, in the order they were added, and the positions of its queries in the
/// batch, in order.
pub fn group_queries_by_resources(queries: &Vec<QuerySpec>) -> (r: Vec<(Vec<String>, Vec<usize>)>)
    ensures
        r@.map_values(|g: (Vec<String>, Vec<usize>)| group_view(g)) == query_groups(
            resource_lists(queries@),
            positions(queries@.len()),
        ),
{
    let ghost rs = resource_lists(queries@);
    let mut resources: Vec<Vec<String>> = Vec::new();
    let mut i: usize = 0;
    while i < queries.len()
        invariant
            i <= queries@.len(),
            resources@.len() == i,
            forall|k: int| 0 <= k < i ==> (#[trigger] resources@[k])@.map_values(|s: String| s@) == required_resources(
                &queries@[k],
            ),
        decreases queries@.len() - i,
    {
        resources.push(extract_required_resources(&queries[i]));
        i = i + 1;
    }
    let mut remaining: Vec<usize> = Vec::new();
    let mut k: usize = 0;
    while k < queries.len()
        invariant
            k <= queries@.len(),
            remaining@.len() == k,
            forall|j: int| 0 <= j < k ==> #[trigger] remaining@[j] == j,
            remaining@.map_values(|x: usize| x as int) == positions(k as nat),
        decreases queries@.len() - k,
    {
        let ghost rb = remaining@;
        remaining.push(k);
        proof {
            assert(remaining@ == rb.push(k));
            assert(remaining@.map_values(|x: usize| x as int) =~= rb.map_values(|x: usize| x as int).push(k as int));
            assert(positions((k + 1) as nat) =~= positions(k as nat).push(k as int));
        }
        k = k + 1;
    }
    let mut groups: Vec<(Vec<String>, Vec<usize>)> = Vec::new();
    proof {
        assert(groups@.map_values(|g: (Vec<String>, Vec<usize>)| group_view(g)) =~= Seq::<(Seq<Seq<char>>, Seq<int>)>::empty());
    }
    while remaining.len() > 0
        invariant
            resources@.len() == queries@.len(),
            rs == resource_lists(queries@),
            forall|k: int| 0 <= k < resources@.len() ==> (#[trigger] resources@[k])@.map_values(|s: String| s@) == rs[k],
            forall|k: int| 0 <= k < remaining@.len() ==> (#[trigger] remaining@[k]) < queries@.len(),
            groups@.map_values(|g: (Vec<String>, Vec<usize>)| group_view(g)) + query_groups(
                rs,
                remaining@.map_values(|x: usize| x as int),
            ) == query_groups(rs, positions(queries@.len())),
        decreases remaining@.len(),
    {
        let ghost rem = remaining@.map_values(|x: usize| x as int);
        let first = remaining.remove(0);
        let ghost rest0 = remaining@.map_values(|x: usize| x as int);
        proof {
            assert(rest0 =~= rem.drop_first());
            assert(rem[0] == first as int);
        }
        let mut acc: Vec<String> = Vec::new();
        let first_resources = &resources[first];
        let mut t: usize = 0;
        while t < first_resources.len()
            invariant
                t <= first_resources@.len(),
                acc@.map_values(|s: String| s@) == first_resources@.map_values(|s: String| s@).take(t as int),
            decreases first_resources@.len() - t,
        {
            let ghost ab = acc@;
            let item = first_resources[t].clone();
            acc.push(item);
            proof {
                assert(acc@ == ab.push(first_resources@[t as int]));
                assert(acc@.map_values(|s: String| s@) =~= ab.map_values(|s: String| s@).push(first_resources@[t as int]@));
                assert(first_resources@.map_values(|s: String| s@).take(t + 1) =~= first_resources@.map_values(
                    |s: String| s@,
                ).take(t as int).push(first_resources@[t as int]@));
            }
            t = t + 1;
        }
        proof {
            assert(first_resources@.map_values(|s: String| s@).take(t as int) =~= first_resources@.map_values(|s: String| s@));
        }
        let mut members: Vec<usize> = Vec::new();
        members.push(first);
        let mut left: Vec<usize> = Vec::new();
        let mut p: usize = 0;
        let ghost target = gather(rs, rs[first as int], seq![first as int], Seq::<int>::empty(), rest0);
        proof {
            assert(members@.map_values(|x: usize| x as int) =~= seq![first as int]);
            assert(left@.map_values(|x: usize| x as int) =~= Seq::<int>::empty());
            assert(rest0.skip(0) =~= rest0);
        }
        while p < remaining.len()
            invariant
                resources@.len() == queries@.len(),
                rs == resource_lists(queries@),
                forall|k: int| 0 <= k < resources@.len() ==> (#[trigger] resources@[k])@.map_values(|s: String| s@) == rs[k],
                forall|k: int| 0 <= k < remaining@.len() ==> (#[trigger] remaining@[k]) < queries@.len(),
                rest0 == remaining@.map_values(|x: usize| x as int),
                p <= remaining@.len(),
                gather(
                    rs,
                    acc@.map_values(|s: String| s@),
                    members@.map_values(|x: usize| x as int),
                    left@.map_values(|x: usize| x as int),
                    rest0.skip(p as int),
                ) == target,
                forall|k: int| 0 <= k < left@.len() ==> (#[trigger] left@[k]) < queries@.len(),
            decreases remaining@.len() - p,
        {
            let j = remaining[p];
            let query_resources = &resources[j];
            let ghost a = acc@.map_values(|s: String| s@);
            let ghost q = query_resources@.map_values(|s: String| s@);
            proof {
                assert(rest0.skip(p as int)[0] == j as int);
                assert(rest0.skip(p as int).drop_first() =~= rest0.skip(p + 1));
                assert(q == rs[j as int]);
            }
            let mut overlap = false;
            let mut u: usize = 0;
            while u < query_resources.len()
                invariant
                    u <= q.len(),
                    q == query_resources@.map_values(|s: String| s@),
                    a == acc@.map_values(|s: String| s@),
                    overlap <==> exists|w: int| 0 <= w < u && a.contains(#[trigger] q[w]),
                decreases q.len() - u,
            {
                let c = contains_name(&acc, &query_resources[u]);
                proof {
                    assert(query_resources@[u as int]@ == q[u as int]);
                }
                let ghost was = overlap;
                if c {
                    overlap = true;
                }
                proof {
                    if exists|w: int| 0 <= w < u + 1 && a.contains(#[trigger] q[w]) {
                        let w = choose|w: int| 0 <= w < u + 1 && a.contains(#[trigger] q[w]);
                        if w < u {
                            assert(was);
                        } else {
                            assert(c);
                        }
                    }
                    if overlap && !c {
                        let w = choose|w: int| 0 <= w < u && a.contains(#[trigger] q[w]);
                        assert(0 <= w < u + 1 && a.contains(q[w]));
                    }
                }
                u = u + 1;
            }
            if overlap {
                let mut w: usize = 0;
                while w < query_resources.len()
                    invariant
                        w <= q.len(),
                        q == query_resources@.map_values(|s: String| s@),
                        acc@.map_values(|s: String| s@) == extend_unique(a, q.take(w as int)),
                    decreases q.len() - w,
                {
                    let ghost before = acc@.map_values(|s: String| s@);
                    proof {
                        assert(q.take(w + 1).drop_last() =~= q.take(w as int));
                        assert(q.take(w + 1).last() == q[w as int]);
                    }
                    if !contains_name(&acc, &query_resources[w]) {
                        acc.push(query_resources[w].clone());
                        assert(acc@.map_values(|s: String| s@) =~= before.push(q[w as int]));
                    }
                    w = w + 1;
                }
                proof {
                    assert(q.take(w as int) =~= q);
                }
                let ghost mb = members@;
                members.push(j);
                assert(members@.map_values(|x: usize| x as int) =~= mb.map_values(|x: usize| x as int).push(j as int));
            } else {
                let ghost lb = left@;
                left.push(j);
                assert(left@.map_values(|x: usize| x as int) =~= lb.map_values(|x: usize| x as int).push(j as int));
            }
            p = p + 1;
        }
        proof {
            assert(rest0.skip(p as int) =~= Seq::<int>::empty());
            lemma_gather_left(rs, rs[first as int], seq![first as int], Seq::<int>::empty(), rest0);
            assert(query_groups(rs, rem) == seq![(target.0, target.1)] + query_groups(rs, target.2));
        }
        let ghost gb = groups@.map_values(|g: (Vec<String>, Vec<usize>)| group_view(g));
        let group = (acc, members);
        let ghost gv = group_view(group);
        groups.push(group);
        remaining = left;
        proof {
            assert(gv == (target.0, target.1));
            assert(groups@.map_values(|g: (Vec<String>, Vec<usize>)| group_view(g)) =~= gb.push(gv));
            assert(gb.push(gv) + query_groups(rs, target.2) =~= gb + (seq![(target.0, target.1)] + query_groups(rs, target.2)));
        }
    }
    proof {
        assert(remaining@.map_values(|x: usize| x as int) =~= Seq::<int>::empty());
        assert(groups@.map_values(|g: (Vec<String>, Vec<usize>)| group_view(g)) + Seq::<(Seq<Seq<char>>, Seq<int>)>::empty()
            =~= groups@.map_values(|g: (Vec<String>, Vec<usize>)| group_view(g)));
    }
    groups
}

/// The positions of the queries of each group, group after group.
pub open spec fn grouped_positions(gs: Seq<(Seq<Seq<char>>, Seq<int>)>) -> Seq<int>
    decreases gs.len(),
{
    if gs.len() == 0 {
        Seq::empty()
    } else {
        gs[0].1 + grouped_positions(gs.drop_first())
    }
}

/// Grouping puts every query in exactly one group: the positions in the groups are the
/// positions grouped, each as often.
pub proof fn law_query_groups_partition(rs: Seq<Seq<Seq<char>>>, remaining: Seq<int>)
    ensures
        grouped_positions(query_groups(rs, remaining)).to_multiset() == remaining.to_multiset(),
    decreases remaining.len(),
{
    if remaining.len() > 0 {
        let first = remaining[0];
        let rest = remaining.drop_first();
        let g = gather(rs, rs[first], seq![first], Seq::<int>::empty(), rest);
        lemma_gather_left(rs, rs[first], seq![first], Seq::<int>::empty(), rest);
        law_query_groups_partition(rs, g.2);
        let gs = query_groups(rs, remaining);
        assert(gs == seq![(g.0, g.1)] + query_groups(rs, g.2));
        assert(gs.drop_first() =~= query_groups(rs, g.2));
        assert(gs[0].1 == g.1);
        assert(grouped_positions(gs) == g.1 + grouped_positions(query_groups(rs, g.2)));
        vstd::seq_lib::lemma_multiset_commutative(g.1, grouped_positions(query_groups(rs, g.2)));
        vstd::seq_lib::lemma_multiset_commutative(g.1, g.2);
        assert(seq![first] + Seq::<int>::empty() + rest =~= remaining);
    } else {
        assert(grouped_positions(query_groups(rs, remaining)) =~= Seq::<int>::empty());
        assert(remaining =~= Seq::<int>::empty());
    }
}

/// Whether a query only reads. Every query a `QuerySpec` describes reads.
pub fn is_read_only_query(query_spec: &QuerySpec) -> (r: bool)
    ensures
        r,
{
    true
}

/// The access a query needs to a table it uses: shared for a query that only reads, else
/// exclusive.
pub fn determine_access_type(query_spec: &QuerySpec, resource_name: &str) -> (r: ResourceAccess)
    ensures
        r == ResourceAccess::Immutable,
{
    if is_read_only_query(query_spec) {
        ResourceAccess::Immutable
    } else {
        ResourceAccess::Mutable
    }
}

/// The strongest access a batch of queries needs to a table: exclusive as soon as one query
/// writes, else shared.
pub fn determine_batch_access_type(queries: &Vec<QuerySpec>, resource_name: &str) -> (r: ResourceAccess)
    ensures
        r == ResourceAccess::Immutable,
{
    let mut i: usize = 0;
    while i < queries.len()
        invariant
            i <= queries@.len(),
        decreases queries@.len() - i,
    {
        if !is_read_only_query(&queries[i]) {
            return ResourceAccess::Mutable;
        }
        i = i + 1;
    }
    ResourceAccess::Immutable
}

/// What leasing the tables of a query came to.
#[derive(Debug)]
pub enum TableAdmission {
    /// Every table was leased.
    Ready,
    /// A lease held on `resource` keeps the query's lease out for about
    /// `estimated_wait_time`; the tables before it were leased.
    Wait { resource: String, estimated_wait_time: u64 },
}

/// Whether `states` goes from `states[0]` through leasing each table of `tables`, in turn, to
/// `task_id` with `access` from `now` for `lease`, no lease keeping one out.
pub open spec fn leased_in_turn(
    states: Seq<ResourceLifecycleManager>,
    tables: Seq<Seq<char>>,
    task_id: TaskId,
    access: ResourceAccess,
    lease: u64,
    now: u64,
) -> bool {
    &&& states.len() == tables.len() + 1
    &&& forall|j: int| 0 <= j < tables.len() ==> !(#[trigger] states[j]).lease_blocked(tables[j], access)
        && states[j].lease_granted(states[j + 1], tables[j], task_id, access, lease, now)
}

/// Whether `states` leases, in turn, as many of the first tables of `tables` as it has steps.
pub open spec fn leased_first(
    states: Seq<ResourceLifecycleManager>,
    tables: Seq<Seq<char>>,
    task_id: TaskId,
    access: ResourceAccess,
    lease: u64,
    now: u64,
) -> bool {
    &&& 0 < states.len() <= tables.len() + 1
    &&& leased_in_turn(states, tables.take(states.len() - 1), task_id, access, lease, now)
}

/// Leases the tables a query reads, in order, to `task_id` at time `now` for `lock_timeout`,
/// and stops at the first table whose current lease keeps the query's out: the query then
/// waits for it, keeping the leases taken before.
pub fn acquire_query_tables(
    manager: &mut ResourceLifecycleManager,
    task_id: TaskId,
    tables: &Vec<String>,
    access_type: ResourceAccess,
    lock_timeout: u64,
    now: u64,
) -> (r: TableAdmission)
    requires
        old(manager).wf(),
    ensures
        final(manager).wf(),
        match r {
            TableAdmission::Ready => exists|states: Seq<ResourceLifecycleManager>| states[0] == *old(manager)
                && states.last() == *final(manager)
                && #[trigger] leased_first(states, string_views(tables@), task_id, access_type, lock_timeout, now)
                && states.len() == tables@.len() + 1,
            TableAdmission::Wait { resource, estimated_wait_time } => exists|states: Seq<ResourceLifecycleManager>|
                states[0] == *old(manager) && states.last() == *final(manager)
                && #[trigger] leased_first(states, string_views(tables@), task_id, access_type, lock_timeout, now)
                && states.len() <= tables@.len() && resource@ == tables@[states.len() - 1]@
                && final(manager).lease_blocked(resource@, access_type)
                && estimated_wait_time == saturating_gap(
                    final(manager).leases()[resource@].lease_duration,
                    lease_age(final(manager).leases()[resource@].acquired_at, now),
                ),
        },
{
    let ghost views = string_views(tables@);
    let ghost mut states: Seq<ResourceLifecycleManager> = seq![*manager];
    let mut i: usize = 0;
    proof {
        assert(views.take(0) =~= Seq::<Seq<char>>::empty());
    }
    while i < tables.len()
        invariant
            manager.wf(),
            views == string_views(tables@),
            i <= tables@.len(),
            states.len() == i + 1,
            states[0] == *old(manager),
            states.last() == *manager,
            leased_in_turn(states, views.take(i as int), task_id, access_type, lock_timeout, now),
        decreases tables@.len() - i,
    {
        let name = tables[i].clone();
        let ghost before = *manager;
        let outcome = manager.acquire_resource(name, task_id, access_type, Some(lock_timeout), now);
        proof {
            assert(views[i as int] == tables@[i as int]@);
        }
        match outcome {
            Ok(AcquisitionResult::Acquired(_)) => {
                proof {
                    let s2 = states.push(*manager);
                    let t2 = views.take(i + 1);
                    assert forall|j: int| 0 <= j < t2.len() implies !(#[trigger] s2[j]).lease_blocked(t2[j], access_type)
                        && s2[j].lease_granted(s2[j + 1], t2[j], task_id, access_type, lock_timeout, now) by {
                        if j < i {
                            assert(t2[j] == views.take(i as int)[j]);
                            assert(s2[j] == states[j] && s2[j + 1] == states[j + 1]);
                        } else {
                            assert(s2[j] == before && s2[j + 1] == *manager);
                        }
                    }
                    states = s2;
                }
            },
            Ok(AcquisitionResult::WaitRequired { estimated_wait_time, .. }) => {
                proof {
                    assert(leased_first(states, views, task_id, access_type, lock_timeout, now));
                }
                return TableAdmission::Wait { resource: tables[i].clone(), estimated_wait_time };
            },
            _ => {
                assert(false);
                return TableAdmission::Ready;
            },
        }
        i = i + 1;
    }
    proof {
        assert(views.take(i as int) =~= views);
        assert(leased_first(states, views, task_id, access_type, lock_timeout, now));
    }
    TableAdmission::Ready
}

} // verus!
