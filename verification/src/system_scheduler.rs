//! The system scheduler: systems with their resource accesses, priorities and dependencies,
//! the conflicts between them, and which of them may run now.
use vstd::prelude::*;

use crate::ast::{ResourceAccess, SystemDef, SystemParameter, Type};
use crate::conflicts::{accesses_clash, accesses_conflict, extract_resource_accesses, resource_accesses};
use crate::clock::now_millis;
use crate::graph::{graph_view, graph_wf, reachable_from, reaches};
use crate::names::{string_views, NameSet, StrMap};
use crate::scheduler::{
    without_name, ConflictGraph, ConflictType, ResourceTracker, SchedulerError, SchedulerState,
    SchedulingStats, SchedulingStrategy, SystemPriority,
};
use vstd::string::StringExecFns;

verus! {

/// The decimal digit for `d`.
pub open spec fn digit_char(d: nat) -> char {
    if d == 0 {
        '0'
    } else if d == 1 {
        '1'
    } else if d == 2 {
        '2'
    } else if d == 3 {
        '3'
    } else if d == 4 {
        '4'
    } else if d == 5 {
        '5'
    } else if d == 6 {
        '6'
    } else if d == 7 {
        '7'
    } else if d == 8 {
        '8'
    } else {
        '9'
    }
}

/// The decimal digits of `n`, without leading zeros.
pub open spec fn decimal(n: nat) -> Seq<char>
    decreases n,
{
    if n < 10 {
        seq![digit_char(n)]
    } else {
        decimal(n / 10).push(digit_char(n % 10))
    }
}

fn digit(d: usize) -> (c: char)
    requires
        d < 10,
    ensures
        c == digit_char(d as nat),
{
    if d == 0 {
        '0'
    } else if d == 1 {
        '1'
    } else if d == 2 {
        '2'
    } else if d == 3 {
        '3'
    } else if d == 4 {
        '4'
    } else if d == 5 {
        '5'
    } else if d == 6 {
        '6'
    } else if d == 7 {
        '7'
    } else if d == 8 {
        '8'
    } else {
        '9'
    }
}

/// Appends the decimal digits of `n`.
pub fn push_decimal(s: &mut String, n: u64)
    ensures
        final(s)@ == old(s)@ + decimal(n as nat),
    decreases n,
{
    if n >= 10 {
        push_decimal(s, n / 10);
    }
    let c = digit((n % 10) as usize);
    let ghost before = s@;
    crate::text::push_char(s, c);
    assert(s@ == before.push(c));
    if n >= 10 {
        assert(old(s)@ + decimal(n as nat) =~= old(s)@ + decimal((n / 10) as nat) + seq![c]);
    } else {
        assert(old(s)@ + decimal(n as nat) =~= old(s)@ + seq![c]);
    }
}

/// The text that identifies a type as a resource: its name with arguments in brackets, and
/// a written form of each other kind of type.
pub open spec fn type_id(t: Type) -> Seq<char>
    decreases t,
{
    match t {
        Type::Unit => "()"@,
        Type::Identifier { name, type_args } => if type_args@.len() == 0 {
            name@
        } else {
            name@ + "["@ + type_ids(type_args@) + "]"@
        },
        Type::Pointer { is_mutable, pointee } => (if is_mutable {
            "mut "@
        } else {
            ""@
        }) + "*"@ + type_id(*pointee),
        Type::RawPointer { pointee } => "raw*"@ + type_id(*pointee),
        Type::Optional { inner } => "Option["@ + type_id(*inner) + "]"@,
        Type::Result { inner } => "Result["@ + type_id(*inner) + "]"@,
        Type::Tuple(types) => "("@ + type_ids(types@) + ")"@,
        Type::Matrix { element_type, dimensions } => "Matrix["@ + type_id(*element_type) + "; "@
            + dimension_list(dimensions@) + "]"@,
        Type::Function { parameters, return_type } => "fn("@ + type_ids(parameters@) + ") -> "@
            + type_id(*return_type),
        Type::Struct { fields } => "struct {"@ + field_ids(fields@) + "}"@,
        Type::Enum { variants, .. } => "enum {"@ + variant_ids(variants@) + "}"@,
        Type::Trait { associated_types, methods } => "trait {types: ["@ + name_list(associated_types@)
            + "]; methods: ["@ + field_ids(methods@) + "]}"@,
        Type::Reference { is_mutable, inner } => "&"@ + (if is_mutable {
            "mut "@
        } else {
            ""@
        }) + type_id(*inner),
    }
}

/// The identifiers of types, separated by `", "`.
pub open spec fn type_ids(s: Seq<Type>) -> Seq<char>
    decreases s,
{
    if s.len() == 0 {
        Seq::empty()
    } else if s.len() == 1 {
        type_id(s[0])
    } else {
        type_ids(s.drop_last()) + ", "@ + type_id(s.last())
    }
}

/// `name: id` for each named type, separated by `", "`.
pub open spec fn field_ids(s: Seq<(String, Type)>) -> Seq<char>
    decreases s,
{
    if s.len() == 0 {
        Seq::empty()
    } else if s.len() == 1 {
        s[0].0@ + ": "@ + type_id(s[0].1)
    } else {
        field_ids(s.drop_last()) + ", "@ + s.last().0@ + ": "@ + type_id(s.last().1)
    }
}

/// `name(id)` or `name` for each variant, separated by `", "`.
pub open spec fn variant_ids(s: Seq<(String, Option<Type>)>) -> Seq<char>
    decreases s,
{
    if s.len() == 0 {
        Seq::empty()
    } else if s.len() == 1 {
        variant_id(s[0])
    } else {
        variant_ids(s.drop_last()) + ", "@ + variant_id(s.last())
    }
}

pub open spec fn variant_id(v: (String, Option<Type>)) -> Seq<char>
    decreases v,
{
    match v.1 {
        Some(t) => v.0@ + "("@ + type_id(t) + ")"@,
        None => v.0@,
    }
}

/// Names separated by `", "`.
pub open spec fn name_list(s: Seq<String>) -> Seq<char>
    decreases s.len(),
{
    if s.len() == 0 {
        Seq::empty()
    } else if s.len() == 1 {
        s[0]@
    } else {
        name_list(s.drop_last()) + ", "@ + s.last()@
    }
}

/// Decimal numbers separated by `", "`.
pub open spec fn dimension_list(s: Seq<usize>) -> Seq<char>
    decreases s.len(),
{
    if s.len() == 0 {
        Seq::empty()
    } else if s.len() == 1 {
        decimal(s[0] as nat)
    } else {
        dimension_list(s.drop_last()) + ", "@ + decimal(s.last() as nat)
    }
}

/// Appends the identifier of `t`.
fn append_type_id(out: &mut String, t: &Type)
    ensures
        final(out)@ == old(out)@ + type_id(*t),
    decreases t,
{
    match t {
        Type::Unit => {
            out.append("()");
        },
        Type::Identifier { name, type_args } => {
            out.append(name.as_str());
            if type_args.len() > 0 {
                out.append("[");
                append_type_list(out, type_args);
                out.append("]");
            }
        },
        Type::Pointer { is_mutable, pointee } => {
            if *is_mutable {
                out.append("mut ");
            } else {
                out.append("");
            }
            out.append("*");
            append_type_id(out, pointee);
        },
        Type::RawPointer { pointee } => {
            out.append("raw*");
            append_type_id(out, pointee);
        },
        Type::Optional { inner } => {
            out.append("Option[");
            append_type_id(out, inner);
            out.append("]");
        },
        Type::Result { inner } => {
            out.append("Result[");
            append_type_id(out, inner);
            out.append("]");
        },
        Type::Tuple(types) => {
            out.append("(");
            append_type_list(out, types);
            out.append(")");
        },
        Type::Matrix { element_type, dimensions } => {
            out.append("Matrix[");
            append_type_id(out, element_type);
            out.append("; ");
            append_dimensions(out, dimensions);
            out.append("]");
        },
        Type::Function { parameters, return_type } => {
            out.append("fn(");
            append_type_list(out, parameters);
            out.append(") -> ");
            append_type_id(out, return_type);
        },
        Type::Struct { fields } => {
            out.append("struct {");
            append_field_list(out, fields);
            out.append("}");
        },
        Type::Enum { variants, .. } => {
            out.append("enum {");
            append_variant_list(out, variants);
            out.append("}");
        },
        Type::Trait { associated_types, methods } => {
            out.append("trait {types: [");
            append_name_list(out, associated_types);
            out.append("]; methods: [");
            append_field_list(out, methods);
            out.append("]}");
        },
        Type::Reference { is_mutable, inner } => {
            out.append("&");
            if *is_mutable {
                out.append("mut ");
            } else {
                out.append("");
            }
            append_type_id(out, inner);
        },
    }
    proof {
        assert(out@ =~= old(out)@ + type_id(*t));
    }
}

fn append_type_list(out: &mut String, types: &Vec<Type>)
    ensures
        final(out)@ == old(out)@ + type_ids(types@),
    decreases types@,
{
    let mut i: usize = 0;
    assert(types@.take(0) =~= Seq::<Type>::empty());
    while i < types.len()
        invariant
            i <= types@.len(),
            out@ == old(out)@ + type_ids(types@.take(i as int)),
        decreases types@.len() - i,
    {
        let ghost before = out@;
        if i > 0 {
            out.append(", ");
        }
        append_type_id(out, &types[i]);
        proof {
            let t = types@.take(i + 1);
            assert(t.drop_last() =~= types@.take(i as int));
            if i == 0 {
                assert(t.len() == 1 && t[0] == types@[0]);
            }
            assert(out@ =~= old(out)@ + type_ids(t));
        }
        i = i + 1;
    }
    assert(types@.take(i as int) =~= types@);
}

fn append_field_list(out: &mut String, fields: &Vec<(String, Type)>)
    ensures
        final(out)@ == old(out)@ + field_ids(fields@),
    decreases fields@,
{
    let mut i: usize = 0;
    assert(fields@.take(0) =~= Seq::<(String, Type)>::empty());
    while i < fields.len()
        invariant
            i <= fields@.len(),
            out@ == old(out)@ + field_ids(fields@.take(i as int)),
        decreases fields@.len() - i,
    {
        if i > 0 {
            out.append(", ");
        }
        out.append(fields[i].0.as_str());
        out.append(": ");
        proof {
            assert(decreases_to!(fields@ => fields@[i as int]));
            assert(decreases_to!(fields@[i as int] => fields@[i as int].1));
        }
        append_type_id(out, &fields[i].1);
        proof {
            let t = fields@.take(i + 1);
            assert(t.drop_last() =~= fields@.take(i as int));
            if i == 0 {
                assert(t.len() == 1 && t[0] == fields@[0]);
            }
            assert(out@ =~= old(out)@ + field_ids(t));
        }
        i = i + 1;
    }
    assert(fields@.take(i as int) =~= fields@);
}

fn append_variant_list(out: &mut String, variants: &Vec<(String, Option<Type>)>)
    ensures
        final(out)@ == old(out)@ + variant_ids(variants@),
    decreases variants@,
{
    let mut i: usize = 0;
    assert(variants@.take(0) =~= Seq::<(String, Option<Type>)>::empty());
    while i < variants.len()
        invariant
            i <= variants@.len(),
            out@ == old(out)@ + variant_ids(variants@.take(i as int)),
        decreases variants@.len() - i,
    {
        let ghost before = out@;
        if i > 0 {
            out.append(", ");
        }
        out.append(variants[i].0.as_str());
        match &variants[i].1 {
            Some(vt) => {
                out.append("(");
                proof {
                    assert(decreases_to!(variants@ => variants@[i as int]));
                    assert(decreases_to!(variants@[i as int] => variants@[i as int].1));
                    assert(decreases_to!(variants@[i as int].1 => *vt));
                }
                append_type_id(out, vt);
                out.append(")");
                assert(variant_id(variants@[i as int]) == variants@[i as int].0@ + "("@ + type_id(*vt) + ")"@);
            },
            None => {
                assert(variant_id(variants@[i as int]) == variants@[i as int].0@);
            },
        }
        proof {
            let t = variants@.take(i + 1);
            assert(t.drop_last() =~= variants@.take(i as int));
            if i == 0 {
                assert(t.len() == 1 && t[0] == variants@[0]);
            }
            if i == 0 {
                assert(out@ =~= before + variant_id(variants@[i as int]));
            } else {
                assert(out@ =~= before + ", "@ + variant_id(variants@[i as int]));
            }
            assert(out@ =~= old(out)@ + variant_ids(t));
        }
        i = i + 1;
    }
    assert(variants@.take(i as int) =~= variants@);
}

fn append_name_list(out: &mut String, names: &Vec<String>)
    ensures
        final(out)@ == old(out)@ + name_list(names@),
{
    let mut i: usize = 0;
    assert(names@.take(0) =~= Seq::<String>::empty());
    while i < names.len()
        invariant
            i <= names@.len(),
            out@ == old(out)@ + name_list(names@.take(i as int)),
        decreases names@.len() - i,
    {
        if i > 0 {
            out.append(", ");
        }
        out.append(names[i].as_str());
        proof {
            let t = names@.take(i + 1);
            assert(t.drop_last() =~= names@.take(i as int));
            if i == 0 {
                assert(t.len() == 1 && t[0] == names@[0]);
            }
            assert(out@ =~= old(out)@ + name_list(t));
        }
        i = i + 1;
    }
    assert(names@.take(i as int) =~= names@);
}

fn append_dimensions(out: &mut String, dims: &Vec<usize>)
    ensures
        final(out)@ == old(out)@ + dimension_list(dims@),
{
    let mut i: usize = 0;
    assert(dims@.take(0) =~= Seq::<usize>::empty());
    while i < dims.len()
        invariant
            i <= dims@.len(),
            out@ == old(out)@ + dimension_list(dims@.take(i as int)),
        decreases dims@.len() - i,
    {
        if i > 0 {
            out.append(", ");
        }
        push_decimal(out, dims[i] as u64);
        proof {
            let t = dims@.take(i + 1);
            assert(t.drop_last() =~= dims@.take(i as int));
            if i == 0 {
                assert(t.len() == 1 && t[0] == dims@[0]);
            }
            assert(out@ =~= old(out)@ + dimension_list(t));
        }
        i = i + 1;
    }
    assert(dims@.take(i as int) =~= dims@);
}

/// The text that identifies a type as a resource.
pub fn type_to_resource_id(resource_type: &Type) -> (r: String)
    ensures
        r@ == type_id(*resource_type),
{
    let mut out = String::new();
    append_type_id(&mut out, resource_type);
    assert(out@ =~= type_id(*resource_type));
    out
}

/// How an access is written in messages.
pub open spec fn access_name(a: ResourceAccess) -> Seq<char> {
    match a {
        ResourceAccess::Immutable => "Immutable"@,
        ResourceAccess::Mutable => "Mutable"@,
        ResourceAccess::Owned => "Owned"@,
    }
}

/// The message for a resource declared with two types.
pub open spec fn conflicting_types_reason(name: Seq<char>, first: Seq<char>, second: Seq<char>) -> Seq<char> {
    "Resource '"@ + name + "' declared with conflicting types: '"@ + first + "' vs '"@ + second + "'"@
}

/// The message for a resource declared with two accesses.
pub open spec fn conflicting_access_reason(name: Seq<char>, first: ResourceAccess, second: ResourceAccess) -> Seq<char> {
    "System has conflicting access patterns to resource '"@ + name + "': previously declared as "@
        + access_name(first) + ", now "@ + access_name(second)
}

/// The first resource parameter, from position `i` on, that redeclares an earlier one with
/// another type or another access, with the message that says so; `seen` holds the access and
/// type of each resource declared before `i`.
pub open spec fn first_invalid(
    params: Seq<SystemParameter>,
    i: int,
    seen: Map<Seq<char>, (ResourceAccess, Seq<char>)>,
) -> Option<(Seq<char>, Seq<char>)>
    decreases params.len() - i,
{
    if i < 0 || i >= params.len() {
        None
    } else {
        match params[i] {
            SystemParameter::Resource { name, resource_type, access, .. } => {
                let sig = type_id(resource_type);
                if seen.contains_key(name@) {
                    let earlier = seen[name@];
                    if earlier.1 != sig {
                        Some((name@, conflicting_types_reason(name@, earlier.1, sig)))
                    } else if earlier.0 != access {
                        Some((name@, conflicting_access_reason(name@, earlier.0, access)))
                    } else {
                        first_invalid(params, i + 1, seen)
                    }
                } else {
                    first_invalid(params, i + 1, seen.insert(name@, (access, sig)))
                }
            },
            _ => first_invalid(params, i + 1, seen),
        }
    }
}

fn append_access_name(out: &mut String, a: ResourceAccess)
    ensures
        final(out)@ == old(out)@ + access_name(a),
{
    match a {
        ResourceAccess::Immutable => out.append("Immutable"),
        ResourceAccess::Mutable => out.append("Mutable"),
        ResourceAccess::Owned => out.append("Owned"),
    }
}

/// Checks that no resource is declared twice with different types or accesses.
pub fn validate_system_resources(system: &SystemDef) -> (r: Result<(), SchedulerError>)
    ensures
        match first_invalid(system.parameters@, 0, Map::empty()) {
            None => r is Ok,
            Some(bad) => r matches Err(SchedulerError::InvalidResourceAccess { system: s, resource, reason })
                && s@ == system.name@ && resource@ == bad.0 && reason@ == bad.1,
        },
{
    let ghost params = system.parameters@;
    let mut seen: StrMap<(ResourceAccess, String)> = StrMap::new();
    let mut i: usize = 0;
    assert(Map::new(|k: Seq<char>| seen@.contains_key(k), |k: Seq<char>| (seen@[k].0, seen@[k].1@))
        =~= Map::<Seq<char>, (ResourceAccess, Seq<char>)>::empty());
    while i < system.parameters.len()
        invariant
            params == system.parameters@,
            i <= params.len(),
            seen.wf(),
            first_invalid(params, 0, Map::empty()) == first_invalid(
                params,
                i as int,
                Map::new(|k: Seq<char>| seen@.contains_key(k), |k: Seq<char>| (seen@[k].0, seen@[k].1@)),
            ),
        decreases params.len() - i,
    {
        let ghost sv = Map::new(|k: Seq<char>| seen@.contains_key(k), |k: Seq<char>| (seen@[k].0, seen@[k].1@));
        match &system.parameters[i] {
            SystemParameter::Resource { name, resource_type, access, .. } => {
                let sig = type_to_resource_id(resource_type);
                match seen.get(name.as_str()) {
                    Some(earlier) => {
                        if earlier.1 != sig {
                            let mut reason = String::new();
                            reason.append("Resource '");
                            reason.append(name.as_str());
                            reason.append("' declared with conflicting types: '");
                            reason.append(earlier.1.as_str());
                            reason.append("' vs '");
                            reason.append(sig.as_str());
                            reason.append("'");
                            assert(reason@ =~= conflicting_types_reason(name@, earlier.1@, sig@));
                            return Err(SchedulerError::InvalidResourceAccess {
                                system: system.name.clone(),
                                resource: name.clone(),
                                reason,
                            });
                        }
                        if earlier.0 != *access {
                            let mut reason = String::new();
                            reason.append("System has conflicting access patterns to resource '");
                            reason.append(name.as_str());
                            reason.append("': previously declared as ");
                            append_access_name(&mut reason, earlier.0);
                            reason.append(", now ");
                            append_access_name(&mut reason, *access);
                            assert(reason@ =~= conflicting_access_reason(name@, earlier.0, *access));
                            return Err(SchedulerError::InvalidResourceAccess {
                                system: system.name.clone(),
                                resource: name.clone(),
                                reason,
                            });
                        }
                    },
                    None => {
                        let ghost key = name@;
                        let ghost sig_view = sig@;
                        seen.insert(name.clone(), (*access, sig));
                        assert(Map::new(|k: Seq<char>| seen@.contains_key(k), |k: Seq<char>| (seen@[k].0, seen@[k].1@))
                            =~= sv.insert(key, (*access, sig_view)));
                    },
                }
            },
            _ => {},
        }
        i = i + 1;
    }
    Ok(())
}

/// A system with what the scheduler knows of it.
#[derive(Debug)]
pub struct SchedulableSystem {
    pub definition: SystemDef,
    pub priority: SystemPriority,
    /// Estimated run time in milliseconds.
    pub estimated_runtime: Option<u64>,
    /// Systems that must complete before this one runs.
    pub dependencies: Vec<String>,
    /// When the system last started, in milliseconds.
    pub last_execution_time: Option<u64>,
}

/// Schedules systems so that their resource accesses never break the borrow rules.
#[derive(Debug)]
pub struct SystemScheduler {
    /// The systems, by name.
    pub systems: StrMap<SchedulableSystem>,
    /// Which systems wait, run and have finished, and the borrows they hold.
    pub state: SchedulerState,
    /// The conflicts between systems.
    pub conflict_graph: ConflictGraph,
    pub strategy: SchedulingStrategy,
    pub max_concurrent_systems: usize,
    /// Priorities set by name, also for systems not added yet.
    pub system_priorities: StrMap<SystemPriority>,
}

/// The dependencies of each system.
pub open spec fn dependency_edges(systems: Map<Seq<char>, SchedulableSystem>) -> Map<Seq<char>, Set<Seq<char>>> {
    Map::new(
        |k: Seq<char>| systems.contains_key(k),
        |k: Seq<char>| string_views(systems[k].dependencies@).to_set(),
    )
}

impl SystemScheduler {
    pub closed spec fn sched_state(&self) -> SchedulerState {
        self.state
    }

    pub closed spec fn strategy_of(&self) -> SchedulingStrategy {
        self.strategy
    }

    pub closed spec fn max_concurrent(&self) -> usize {
        self.max_concurrent_systems
    }

    /// The priorities set by name, whether or not the system is known yet.
    pub closed spec fn priorities(&self) -> Map<Seq<char>, SystemPriority> {
        self.system_priorities@
    }

    pub closed spec fn wf(&self) -> bool {
        &&& self.systems.wf()
        &&& self.state.wf()
        &&& self.conflict_graph.wf()
        &&& self.conflict_graph.symmetric()
        &&& self.system_priorities.wf()
    }

    /// A scheduler with no systems, ordering by `strategy` and running at most
    /// `max_concurrent` systems at once.
    pub fn with_config(strategy: SchedulingStrategy, max_concurrent: usize) -> (r: SystemScheduler)
        ensures
            r.wf(),
            r.systems@ == Map::<Seq<char>, SchedulableSystem>::empty(),
            r.conflict_graph.systems@ == Set::<Seq<char>>::empty(),
            forall|s: Seq<char>| r.conflict_graph.neighbors(s) == Seq::<(Seq<char>, ConflictType)>::empty(),
            r.sched_state().executing() == Set::<Seq<char>>::empty(),
            r.sched_state().completed() == Set::<Seq<char>>::empty(),
            r.sched_state().pending() == Seq::<Seq<char>>::empty(),
            r.sched_state().tracker().active() == Set::<Seq<char>>::empty(),
            r.strategy_of() == strategy,
            r.max_concurrent() == max_concurrent,
            r.priorities() == Map::<Seq<char>, SystemPriority>::empty(),
    {
        SystemScheduler {
            systems: StrMap::new(),
            state: SchedulerState::new(),
            conflict_graph: ConflictGraph::new(),
            strategy,
            max_concurrent_systems: max_concurrent,
            system_priorities: StrMap::new(),
        }
    }

    /// Changes the strategy.
    pub fn set_strategy(&mut self, strategy: SchedulingStrategy)
        requires
            old(self).wf(),
        ensures
            final(self).wf(),
            final(self).strategy_of() == strategy,
            final(self).systems@ == old(self).systems@,
            final(self).conflict_graph == old(self).conflict_graph,
            final(self).sched_state() == old(self).sched_state(),
            final(self).max_concurrent() == old(self).max_concurrent(),
            final(self).priorities() == old(self).priorities(),
    {
        self.strategy = strategy;
    }

    /// Sets the priority of a system, now and for when it is added.
    pub fn set_system_priority(&mut self, system_name: &str, priority: SystemPriority)
        requires
            old(self).wf(),
        ensures
            final(self).wf(),
            final(self).priorities() == old(self).priorities().insert(system_name@, priority),
            final(self).systems@.dom() == old(self).systems@.dom(),
            forall|k: Seq<char>| #[trigger] final(self).systems@.contains_key(k) && k != system_name@
                ==> final(self).systems@[k] == old(self).systems@[k],
            old(self).systems@.contains_key(system_name@) ==> ({
                let before = old(self).systems@[system_name@];
                let after = final(self).systems@[system_name@];
                &&& after.priority == priority
                &&& after.definition == before.definition
                &&& after.estimated_runtime == before.estimated_runtime
                &&& after.dependencies == before.dependencies
                &&& after.last_execution_time == before.last_execution_time
            }),
            final(self).conflict_graph == old(self).conflict_graph,
            final(self).sched_state() == old(self).sched_state(),
            final(self).strategy_of() == old(self).strategy_of(),
            final(self).max_concurrent() == old(self).max_concurrent(),
    {
        self.system_priorities.insert(system_name.to_owned(), priority);
        match self.systems.remove(system_name) {
            Some(system) => {
                let mut updated = system;
                updated.priority = priority;
                self.systems.insert(system_name.to_owned(), updated);
                assert(self.systems@.dom() =~= old(self).systems@.dom());
            },
            None => {},
        }
    }

    /// Whether making `from` depend on `to` would close a cycle of dependencies: `from` is
    /// `to`, or `to` already depends on `from`, directly or through other systems.
    pub fn would_create_cycle(&self, from: &str, to: &str) -> (r: bool)
        requires
            self.wf(),
        ensures
            r == (from@ == to@ || reaches(dependency_edges(self.systems@), to@, from@)),
    {
        let from_owned: String = from.to_owned();
        let to_owned: String = to.to_owned();
        if from_owned == to_owned {
            return true;
        }
        let g = self.dependency_graph();
        let reach = reachable_from(&g, to);
        reach.contains(from)
    }

    /// The dependencies of each system, as a graph.
    fn dependency_graph(&self) -> (g: StrMap<NameSet>)
        requires
            self.wf(),
        ensures
            graph_wf(&g),
            graph_view(&g) == dependency_edges(self.systems@),
    {
        let ghost de = dependency_edges(self.systems@);
        let mut g: StrMap<NameSet> = StrMap::new();
        let n = self.systems.entry_count();
        let mut i: usize = 0;
        proof {
            self.systems.lemma_dom();
        }
        while i < n
            invariant
                self.wf(),
                de == dependency_edges(self.systems@),
                n == self.systems.key_seq().len(),
                i <= n,
                graph_wf(&g),
                forall|k: Seq<char>| #[trigger] g@.contains_key(k) <==> exists|j: int| 0 <= j < i && self.systems.key_seq()[j] == k,
                forall|k: Seq<char>| #[trigger] g@.contains_key(k) ==> g@[k]@ == de[k],
            decreases n - i,
        {
            let name = self.systems.key_at(i);
            let system = self.systems.value_at(i);
            let ghost key = self.systems.key_seq()[i as int];
            let mut deps = NameSet::new();
            let mut j: usize = 0;
            while j < system.dependencies.len()
                invariant
                    j <= system.dependencies@.len(),
                    deps.wf(),
                    deps@ == string_views(system.dependencies@.take(j as int)).to_set(),
                decreases system.dependencies@.len() - j,
            {
                deps.insert(system.dependencies[j].clone());
                proof {
                    let prev = string_views(system.dependencies@.take(j as int));
                    assert(string_views(system.dependencies@.take(j + 1)) =~= prev.push(system.dependencies@[j as int]@));
                    prev.lemma_push_to_set_commute(system.dependencies@[j as int]@);
                }
                j = j + 1;
            }
            assert(system.dependencies@.take(j as int) =~= system.dependencies@);
            g.insert(name.clone(), deps);
            proof {
                assert forall|k: Seq<char>| #[trigger] g@.contains_key(k) <==> exists|t: int| 0 <= t < i + 1 && self.systems.key_seq()[t] == k by {
                    if g@.contains_key(k) && k != key {
                        let t = choose|t: int| 0 <= t < i && self.systems.key_seq()[t] == k;
                    }
                    if exists|t: int| 0 <= t < i + 1 && self.systems.key_seq()[t] == k {
                        let t = choose|t: int| 0 <= t < i + 1 && self.systems.key_seq()[t] == k;
                        if t < i {
                            assert(exists|t2: int| 0 <= t2 < i && self.systems.key_seq()[t2] == k);
                        }
                    }
                }
            }
            i = i + 1;
        }
        proof {
            assert(graph_view(&g) =~= de) by {
                assert forall|k: Seq<char>| graph_view(&g).contains_key(k) <==> de.contains_key(k) by {
                    if de.contains_key(k) {
                        assert(self.systems.key_seq().to_set().contains(k));
                        let t = choose|t: int| 0 <= t < self.systems.key_seq().len() && self.systems.key_seq()[t] == k;
                    }
                    if g@.contains_key(k) {
                        let t = choose|t: int| 0 <= t < n && self.systems.key_seq()[t] == k;
                        assert(self.systems@.contains_key(self.systems.key_seq()[t]));
                    }
                }
            }
        }
        g
    }

    /// Makes `dependent` wait for `dependency`, unless that would close a cycle of
    /// dependencies; an unknown `dependent` is left as it is.
    pub fn add_dependency(&mut self, dependent: &str, dependency: &str) -> (r: Result<(), SchedulerError>)
        requires
            old(self).wf(),
        ensures
            final(self).wf(),
            (dependent@ == dependency@ || reaches(dependency_edges(old(self).systems@), dependency@, dependent@))
                <==> r is Err,
            r matches Err(e) ==> (e matches SchedulerError::DeadlockDetected { cycle }
                && string_views(cycle@) == seq![dependent@, dependency@]
                && final(self).systems@ == old(self).systems@),
            r is Ok ==> final(self).systems@.dom() == old(self).systems@.dom()
                && (forall|k: Seq<char>| #[trigger] final(self).systems@.contains_key(k) && k != dependent@
                    ==> final(self).systems@[k] == old(self).systems@[k])
                && (old(self).systems@.contains_key(dependent@) ==> {
                    let before = old(self).systems@[dependent@];
                    let after = final(self).systems@[dependent@];
                    &&& string_views(after.dependencies@) == string_views(before.dependencies@).push(dependency@)
                    &&& after.definition == before.definition
                    &&& after.priority == before.priority
                    &&& after.estimated_runtime == before.estimated_runtime
                    &&& after.last_execution_time == before.last_execution_time
                }),
            final(self).conflict_graph == old(self).conflict_graph,
            final(self).sched_state() == old(self).sched_state(),
            final(self).strategy_of() == old(self).strategy_of(),
            final(self).max_concurrent() == old(self).max_concurrent(),
            final(self).priorities() == old(self).priorities(),
    {
        if self.would_create_cycle(dependent, dependency) {
            let mut cycle: Vec<String> = Vec::new();
            cycle.push(dependent.to_owned());
            cycle.push(dependency.to_owned());
            assert(string_views(cycle@) =~= seq![dependent@, dependency@]);
            return Err(SchedulerError::DeadlockDetected { cycle });
        }
        match self.systems.remove(dependent) {
            Some(system) => {
                let mut updated = system;
                let ghost before = string_views(updated.dependencies@);
                updated.dependencies.push(dependency.to_owned());
                assert(string_views(updated.dependencies@) =~= before.push(dependency@));
                self.systems.insert(dependent.to_owned(), updated);
                assert(self.systems@.dom() =~= old(self).systems@.dom());
            },
            None => {},
        }
        Ok(())
    }

    /// Adds a system after checking its resource declarations; its priority is the one set
    /// for its name, else normal. A system of the same name is replaced.
    pub fn add_system(&mut self, system: SystemDef) -> (r: Result<(), SchedulerError>)
        requires
            old(self).wf(),
        ensures
            final(self).wf(),
            match first_invalid(system.parameters@, 0, Map::empty()) {
                None => r is Ok,
                Some(bad) => r matches Err(SchedulerError::InvalidResourceAccess { system: s, resource, reason })
                    && s@ == system.name@ && resource@ == bad.0 && reason@ == bad.1,
            },
            r is Err ==> *final(self) == *old(self),
            r is Ok ==> ({
                let name = system.name@;
                let added = final(self).systems@[name];
                &&& final(self).systems@.dom() == old(self).systems@.dom().insert(name)
                &&& forall|k: Seq<char>| #[trigger] final(self).systems@.contains_key(k) && k != name
                    ==> final(self).systems@[k] == old(self).systems@[k]
                &&& added.definition == system
                &&& added.priority == (if old(self).priorities().contains_key(name) {
                    old(self).priorities()[name]
                } else {
                    SystemPriority::Normal
                })
                &&& added.estimated_runtime is None
                &&& added.dependencies@.len() == 0
                &&& added.last_execution_time is None
                &&& final(self).conflict_graph.systems@ == old(self).conflict_graph.systems@.insert(name)
                &&& forall|x: Seq<char>| final(self).conflict_graph.neighbors(x) == old(self).conflict_graph.neighbors(x)
                &&& final(self).sched_state() == old(self).sched_state()
                &&& final(self).strategy_of() == old(self).strategy_of()
                &&& final(self).max_concurrent() == old(self).max_concurrent()
                &&& final(self).priorities() == old(self).priorities()
            }),
    {
        validate_system_resources(&system)?;
        let system_name = system.name.clone();
        self.conflict_graph.add_system(system_name.clone());
        let priority = match self.system_priorities.get(system_name.as_str()) {
            Some(p) => *p,
            None => SystemPriority::Normal,
        };
        let schedulable = SchedulableSystem {
            definition: system,
            priority,
            estimated_runtime: None,
            dependencies: Vec::new(),
            last_execution_time: None,
        };
        self.systems.insert(system_name, schedulable);
        Ok(())
    }

    /// Position of the first dependency in `deps` from position `i` on that is not a known
    /// system.
    pub open spec fn first_unknown(systems: Map<Seq<char>, SchedulableSystem>, deps: Seq<Seq<char>>, i: int) -> Option<int>
        decreases deps.len() - i,
    {
        if i < 0 || i >= deps.len() {
            None
        } else if !systems.contains_key(deps[i]) {
            Some(i)
        } else {
            Self::first_unknown(systems, deps, i + 1)
        }
    }

    /// Position of the first dependency in `deps` from position `i` on whose addition to `name`
    /// would close a cycle.
    pub open spec fn first_cyclic(systems: Map<Seq<char>, SchedulableSystem>, name: Seq<char>, deps: Seq<Seq<char>>, i: int) -> Option<int>
        decreases deps.len() - i,
    {
        if i < 0 || i >= deps.len() {
            None
        } else if name == deps[i] || reaches(dependency_edges(systems), deps[i], name) {
            Some(i)
        } else {
            Self::first_cyclic(systems, name, deps, i + 1)
        }
    }

    /// Adds a system with a priority, a run time estimate and dependencies on known systems.
    /// The system joins the conflict graph once its resources are valid, even when a
    /// dependency is then refused.
    pub fn add_system_with_metadata(
        &mut self,
        system: SystemDef,
        priority: SystemPriority,
        estimated_runtime: Option<u64>,
        dependencies: Vec<String>,
    ) -> (r: Result<(), SchedulerError>)
        requires
            old(self).wf(),
        ensures
            final(self).wf(),
            ({
                let name = system.name@;
                let deps = string_views(dependencies@);
                let invalid = first_invalid(system.parameters@, 0, Map::empty());
                let unknown = Self::first_unknown(old(self).systems@, deps, 0);
                let cyclic = Self::first_cyclic(old(self).systems@, name, deps, 0);
                let bad = invalid->0;
                &&& (invalid is Some ==> (r matches Err(SchedulerError::InvalidResourceAccess { system: s, resource, reason })
                    && s@ == name && resource@ == bad.0 && reason@ == bad.1 && *final(self) == *old(self)))
                &&& (invalid is None ==> final(self).conflict_graph.systems@ == old(self).conflict_graph.systems@.insert(name)
                    && (forall|x: Seq<char>| final(self).conflict_graph.neighbors(x) == old(self).conflict_graph.neighbors(x))
                    && final(self).sched_state() == old(self).sched_state()
                    && final(self).priorities() == old(self).priorities()
                    && final(self).strategy_of() == old(self).strategy_of()
                    && final(self).max_concurrent() == old(self).max_concurrent())
                &&& (invalid is None && unknown is Some ==> (r matches Err(SchedulerError::SchedulingFailure { reason })
                    && reason@ == "Dependency '"@ + deps[unknown->0] + "' not found for system '"@ + name + "'"@
                    && final(self).systems@ == old(self).systems@))
                &&& (invalid is None && unknown is None && cyclic is Some ==> (r matches Err(SchedulerError::DeadlockDetected { cycle })
                    && string_views(cycle@) == seq![name, deps[cyclic->0]]
                    && final(self).systems@ == old(self).systems@))
                &&& (invalid is None && unknown is None && cyclic is None ==> r is Ok
                    && final(self).systems@.dom() == old(self).systems@.dom().insert(name)
                    && (forall|k: Seq<char>| #[trigger] final(self).systems@.contains_key(k) && k != name
                        ==> final(self).systems@[k] == old(self).systems@[k])
                    && final(self).systems@[name].definition == system
                    && final(self).systems@[name].priority == priority
                    && final(self).systems@[name].estimated_runtime == estimated_runtime
                    && final(self).systems@[name].dependencies == dependencies
                    && final(self).systems@[name].last_execution_time is None)
            }),
    {
        match validate_system_resources(&system) {
            Ok(()) => {
                assert(first_invalid(system.parameters@, 0, Map::empty()) is None);
            },
            Err(e) => {
                return Err(e);
            },
        }
        let system_name = system.name.clone();
        self.conflict_graph.add_system(system_name.clone());
        let ghost deps = string_views(dependencies@);
        let mut i: usize = 0;
        while i < dependencies.len()
            invariant
                self.wf(),
                self.systems@ == old(self).systems@,
                deps == string_views(dependencies@),
                self.conflict_graph.systems@ == old(self).conflict_graph.systems@.insert(system.name@),
                forall|x: Seq<char>| self.conflict_graph.neighbors(x) == old(self).conflict_graph.neighbors(x),
                self.state == old(self).state,
                self.system_priorities == old(self).system_priorities,
                self.strategy == old(self).strategy,
                self.max_concurrent_systems == old(self).max_concurrent_systems,
                system_name@ == system.name@,
                first_invalid(system.parameters@, 0, Map::empty()) is None,
                i <= dependencies@.len(),
                Self::first_unknown(old(self).systems@, deps, 0) == Self::first_unknown(old(self).systems@, deps, i as int),
            decreases dependencies@.len() - i,
        {
            if !self.systems.contains_key(dependencies[i].as_str()) {
                let mut reason = String::new();
                reason.append("Dependency '");
                reason.append(dependencies[i].as_str());
                reason.append("' not found for system '");
                reason.append(system_name.as_str());
                reason.append("'");
                assert(deps[i as int] == dependencies@[i as int]@);
                return Err(SchedulerError::SchedulingFailure { reason });
            }
            i = i + 1;
        }
        let mut i: usize = 0;
        while i < dependencies.len()
            invariant
                self.wf(),
                self.systems@ == old(self).systems@,
                deps == string_views(dependencies@),
                self.conflict_graph.systems@ == old(self).conflict_graph.systems@.insert(system.name@),
                forall|x: Seq<char>| self.conflict_graph.neighbors(x) == old(self).conflict_graph.neighbors(x),
                self.state == old(self).state,
                self.system_priorities == old(self).system_priorities,
                self.strategy == old(self).strategy,
                self.max_concurrent_systems == old(self).max_concurrent_systems,
                system_name@ == system.name@,
                first_invalid(system.parameters@, 0, Map::empty()) is None,
                i <= dependencies@.len(),
                Self::first_unknown(old(self).systems@, deps, 0) is None,
                Self::first_cyclic(old(self).systems@, system.name@, deps, 0) == Self::first_cyclic(
                    old(self).systems@,
                    system.name@,
                    deps,
                    i as int,
                ),
            decreases dependencies@.len() - i,
        {
            assert(deps[i as int] == dependencies@[i as int]@);
            if self.would_create_cycle(system_name.as_str(), dependencies[i].as_str()) {
                let mut cycle: Vec<String> = Vec::new();
                cycle.push(system_name.clone());
                cycle.push(dependencies[i].clone());
                assert(string_views(cycle@) =~= seq![system.name@, deps[i as int]]);
                return Err(SchedulerError::DeadlockDetected { cycle });
            }
            i = i + 1;
        }
        let schedulable = SchedulableSystem {
            definition: system,
            priority,
            estimated_runtime,
            dependencies,
            last_execution_time: None,
        };
        self.systems.insert(system_name, schedulable);
        Ok(())
    }

    /// The resource accesses a known system declares.
    pub open spec fn accesses_of(&self, name: Seq<char>) -> Map<Seq<char>, ResourceAccess> {
        resource_accesses(self.systems@[name].definition.parameters@)
    }

    /// Records a conflict between every two known systems whose resource accesses clash.
    pub fn build_conflict_graph(&mut self) -> (r: Result<(), SchedulerError>)
        requires
            old(self).wf(),
        ensures
            final(self).wf(),
            r is Ok,
            final(self).systems@ == old(self).systems@,
            final(self).conflict_graph.systems@ == old(self).conflict_graph.systems@,
            forall|a: Seq<char>, b: Seq<char>| #[trigger] final(self).conflict_graph.conflicts(a, b) <==> old(
                self,
            ).conflict_graph.conflicts(a, b) || (a != b && old(self).systems@.contains_key(a)
                && old(self).systems@.contains_key(b) && accesses_clash(old(self).accesses_of(a), old(self).accesses_of(b))),
            final(self).sched_state() == old(self).sched_state(),
            final(self).priorities() == old(self).priorities(),
            final(self).strategy_of() == old(self).strategy_of(),
            final(self).max_concurrent() == old(self).max_concurrent(),
    {
        let n = self.systems.entry_count();
        let ghost keys = self.systems.key_seq();
        proof {
            self.systems.lemma_dom();
        }
        let mut i: usize = 0;
        while i < n
            invariant
                self.wf(),
                self.systems@ == old(self).systems@,
                self.systems.key_seq() == keys,
                keys.no_duplicates(),
                n == keys.len(),
                i <= n,
                self.conflict_graph.systems@ == old(self).conflict_graph.systems@,
                self.state == old(self).state,
                self.system_priorities == old(self).system_priorities,
                self.strategy == old(self).strategy,
                self.max_concurrent_systems == old(self).max_concurrent_systems,
                forall|a: Seq<char>, b: Seq<char>| #[trigger] self.conflict_graph.conflicts(a, b) <==> old(
                    self,
                ).conflict_graph.conflicts(a, b) || exists|p: int, q: int| 0 <= p < q < n && p < i
                    && ((keys[p] == a && keys[q] == b) || (keys[p] == b && keys[q] == a))
                    && accesses_clash(old(self).accesses_of(keys[p]), old(self).accesses_of(keys[q])),
            decreases n - i,
        {
            let mut j: usize = i + 1;
            while j < n
                invariant
                    self.wf(),
                    self.systems@ == old(self).systems@,
                    self.systems.key_seq() == keys,
                    keys.no_duplicates(),
                    n == keys.len(),
                    i < n,
                    i < j <= n,
                    self.conflict_graph.systems@ == old(self).conflict_graph.systems@,
                    self.state == old(self).state,
                    self.system_priorities == old(self).system_priorities,
                    self.strategy == old(self).strategy,
                    self.max_concurrent_systems == old(self).max_concurrent_systems,
                    forall|a: Seq<char>, b: Seq<char>| #[trigger] self.conflict_graph.conflicts(a, b) <==> old(
                        self,
                    ).conflict_graph.conflicts(a, b) || exists|p: int, q: int| 0 <= p < q < n && (p < i || (p == i && q < j))
                        && ((keys[p] == a && keys[q] == b) || (keys[p] == b && keys[q] == a))
                        && accesses_clash(old(self).accesses_of(keys[p]), old(self).accesses_of(keys[q])),
                decreases n - j,
            {
                let name1 = self.systems.key_at(i).clone();
                let name2 = self.systems.key_at(j).clone();
                let res1 = extract_resource_accesses(&self.systems.value_at(i).definition);
                let res2 = extract_resource_accesses(&self.systems.value_at(j).definition);
                let conflict = accesses_conflict(&res1, &res2);
                let ghost before = self.conflict_graph;
                self.conflict_graph.add_conflict(name1.as_str(), name2.as_str(), conflict);
                proof {
                    let ka = keys[i as int];
                    let kb = keys[j as int];
                    assert(name1@ == ka && name2@ == kb);
                    assert(res1@ == old(self).accesses_of(ka));
                    assert(res2@ == old(self).accesses_of(kb));
                    if conflict != ConflictType::NoConflict {
                        ConflictGraph::lemma_conflicts_after_add(&before, &self.conflict_graph, name1@, name2@, conflict);
                    } else {
                        assert forall|a: Seq<char>, b: Seq<char>| #[trigger] self.conflict_graph.conflicts(a, b) == before.conflicts(a, b) by {
                            assert(self.conflict_graph.neighbors(a) == before.neighbors(a));
                        }
                    }
                    assert forall|a: Seq<char>, b: Seq<char>| #[trigger] self.conflict_graph.conflicts(a, b) <==> old(
                        self,
                    ).conflict_graph.conflicts(a, b) || exists|p: int, q: int| 0 <= p < q < n && (p < i || (p == i && q < j + 1))
                        && ((keys[p] == a && keys[q] == b) || (keys[p] == b && keys[q] == a))
                        && accesses_clash(old(self).accesses_of(keys[p]), old(self).accesses_of(keys[q])) by {
                        let old_range = exists|p: int, q: int| 0 <= p < q < n && (p < i || (p == i && q < j))
                            && ((keys[p] == a && keys[q] == b) || (keys[p] == b && keys[q] == a))
                            && accesses_clash(old(self).accesses_of(keys[p]), old(self).accesses_of(keys[q]));
                        let new_range = exists|p: int, q: int| 0 <= p < q < n && (p < i || (p == i && q < j + 1))
                            && ((keys[p] == a && keys[q] == b) || (keys[p] == b && keys[q] == a))
                            && accesses_clash(old(self).accesses_of(keys[p]), old(self).accesses_of(keys[q]));
                        let this_pair = ((ka == a && kb == b) || (ka == b && kb == a)) && accesses_clash(old(self).accesses_of(ka), old(self).accesses_of(kb));
                        assert(before.conflicts(a, b) <==> old(self).conflict_graph.conflicts(a, b) || old_range);
                        if new_range {
                            let (p, q) = choose|p: int, q: int| 0 <= p < q < n && (p < i || (p == i && q < j + 1))
                                && ((keys[p] == a && keys[q] == b) || (keys[p] == b && keys[q] == a))
                                && accesses_clash(old(self).accesses_of(keys[p]), old(self).accesses_of(keys[q]));
                            if !(p == i && q == j) {
                                assert(old_range);
                            } else {
                                assert(this_pair);
                            }
                        }
                        if old_range {
                            let (p, q) = choose|p: int, q: int| 0 <= p < q < n && (p < i || (p == i && q < j))
                                && ((keys[p] == a && keys[q] == b) || (keys[p] == b && keys[q] == a))
                                && accesses_clash(old(self).accesses_of(keys[p]), old(self).accesses_of(keys[q]));
                            assert(new_range);
                        }
                        if this_pair {
                            assert(0 <= i < j < n);
                            assert(new_range);
                            assert(conflict != ConflictType::NoConflict);
                        }
                        if conflict != ConflictType::NoConflict && ((a == name1@ && b == name2@) || (a == name2@ && b == name1@)) {
                            assert(accesses_clash(res1@, res2@));
                            if a == name2@ && b == name1@ && !(a == name1@ && b == name2@) {
                                assert(this_pair);
                            }
                            assert(this_pair);
                        }
                    }
                }
                j = j + 1;
            }
            i = i + 1;
        }
        proof {
            assert forall|a: Seq<char>, b: Seq<char>| #[trigger] self.conflict_graph.conflicts(a, b) <==> old(
                self,
            ).conflict_graph.conflicts(a, b) || (a != b && old(self).systems@.contains_key(a)
                && old(self).systems@.contains_key(b) && accesses_clash(old(self).accesses_of(a), old(self).accesses_of(b))) by {
                if a != b && old(self).systems@.contains_key(a) && old(self).systems@.contains_key(b)
                    && accesses_clash(old(self).accesses_of(a), old(self).accesses_of(b)) {
                    assert(keys.to_set().contains(a));
                    assert(keys.to_set().contains(b));
                    let pa = choose|pa: int| 0 <= pa < n && keys[pa] == a;
                    let pb = choose|pb: int| 0 <= pb < n && keys[pb] == b;
                    if pa < pb {
                        assert(exists|p: int, q: int| 0 <= p < q < n && p < i
                            && ((keys[p] == a && keys[q] == b) || (keys[p] == b && keys[q] == a))
                            && accesses_clash(old(self).accesses_of(keys[p]), old(self).accesses_of(keys[q])));
                    } else {
                        lemma_clash_symmetric(old(self).accesses_of(a), old(self).accesses_of(b));
                        assert(exists|p: int, q: int| 0 <= p < q < n && p < i
                            && ((keys[p] == a && keys[q] == b) || (keys[p] == b && keys[q] == a))
                            && accesses_clash(old(self).accesses_of(keys[p]), old(self).accesses_of(keys[q])));
                    }
                }
                if exists|p: int, q: int| 0 <= p < q < n && p < i
                    && ((keys[p] == a && keys[q] == b) || (keys[p] == b && keys[q] == a))
                    && accesses_clash(old(self).accesses_of(keys[p]), old(self).accesses_of(keys[q])) {
                    let (p, q) = choose|p: int, q: int| 0 <= p < q < n && p < i
                        && ((keys[p] == a && keys[q] == b) || (keys[p] == b && keys[q] == a))
                        && accesses_clash(old(self).accesses_of(keys[p]), old(self).accesses_of(keys[q]));
                    assert(old(self).systems@.contains_key(keys[p]));
                    assert(old(self).systems@.contains_key(keys[q]));
                    assert(keys[p] != keys[q]);
                    if keys[p] == b {
                        lemma_clash_symmetric(old(self).accesses_of(keys[p]), old(self).accesses_of(keys[q]));
                    }
                }
            }
        }
        Ok(())
    }

    /// The first system a system's conflict list names.
    pub open spec fn first_neighbor(g: ConflictGraph, x: Seq<char>) -> Seq<char> {
        g.neighbors(x)[0].0
    }

    /// Each node of `p` has a conflict and is followed by the first system it conflicts with.
    pub open spec fn follows_first_neighbors(g: ConflictGraph, p: Seq<Seq<char>>) -> bool {
        &&& forall|i: int| 0 <= i < p.len() ==> (#[trigger] g.neighbors(p[i])).len() > 0
        &&& forall|i: int| 0 <= i < p.len() - 1 ==> p[i + 1] == Self::first_neighbor(g, #[trigger] p[i])
    }

    /// Position of the first system, in the order systems joined the graph, that has a
    /// conflict, from position `i` on.
    pub open spec fn first_with_conflict(g: ConflictGraph, order: Seq<Seq<char>>, i: int) -> Option<int>
        decreases order.len() - i,
    {
        if i < 0 || i >= order.len() {
            None
        } else if g.neighbors(order[i]).len() > 0 {
            Some(i)
        } else {
            Self::first_with_conflict(g, order, i + 1)
        }
    }

    /// Looks for a cycle of conflicts. Conflicts are recorded both ways, so a depth-first
    /// search from the first system that has a conflict always meets one: it follows each
    /// system's first conflict until it comes back to a system on its path, and that part of
    /// the path, closed, is reported.
    pub fn detect_deadlocks(&self) -> (r: Result<(), SchedulerError>)
        requires
            self.wf(),
        ensures
            r is Ok <==> forall|s: Seq<char>| #[trigger] self.conflict_graph.systems@.contains(s)
                ==> self.conflict_graph.neighbors(s).len() == 0,
            r matches Err(e) ==> (e matches SchedulerError::DeadlockDetected { cycle } && ({
                let g = self.conflict_graph;
                let c = string_views(cycle@);
                let start = g.systems.ordered()[Self::first_with_conflict(g, g.systems.ordered(), 0)->0];
                exists|p: Seq<Seq<char>>, j: int| {
                    &&& p.len() >= 1
                    &&& p[0] == start
                    &&& Self::follows_first_neighbors(g, p)
                    &&& p.no_duplicates()
                    &&& 0 <= j < p.len()
                    &&& Self::first_neighbor(g, p.last()) == p[j]
                    &&& c == p.subrange(j, p.len() as int).push(p[j])
                }
            })),
    {
        let ghost g = self.conflict_graph;
        let systems = &self.conflict_graph.systems;
        let ghost order = systems.ordered();
        let n = systems.len();
        proof {
            systems.lemma_ordered();
        }
        let mut i: usize = 0;
        while i < n
            invariant
                self.wf(),
                g == self.conflict_graph,
                *systems == self.conflict_graph.systems,
                order == systems.ordered(),
                n == order.len(),
                i <= n,
                Self::first_with_conflict(g, order, 0) == Self::first_with_conflict(g, order, i as int),
                forall|k: int| 0 <= k < i ==> g.neighbors(#[trigger] order[k]).len() == 0,
            decreases n - i,
        {
            let name = systems.item_at(i);
            let has = match self.conflict_graph.edges.get(name.as_str()) {
                Some(list) => list.len() > 0,
                None => false,
            };
            if has {
                proof {
                    assert(name@ == order[i as int]);
                    assert(g.neighbors(name@).len() > 0);
                    systems.lemma_ordered();
                    assert(g.systems@.contains(order[i as int]));
                    assert(Self::first_with_conflict(g, order, i as int) == Some(i as int));
                }
                return self.follow_first_conflicts(name.clone());
            }
            i = i + 1;
        }
        proof {
            systems.lemma_ordered();
            assert forall|s: Seq<char>| #[trigger] self.conflict_graph.systems@.contains(s)
                implies self.conflict_graph.neighbors(s).len() == 0 by {
                assert(order.to_set().contains(s));
                let k = choose|k: int| 0 <= k < order.len() && order[k] == s;
                assert(g.neighbors(order[k]).len() == 0);
            }
        }
        Ok(())
    }

    /// From `start`, which has a conflict, follows first conflicts until a system repeats,
    /// and reports the cycle.
    fn follow_first_conflicts(&self, start: String) -> (r: Result<(), SchedulerError>)
        requires
            self.wf(),
            self.conflict_graph.neighbors(start@).len() > 0,
        ensures
            r matches Err(e) && (e matches SchedulerError::DeadlockDetected { cycle } && ({
                let g = self.conflict_graph;
                let c = string_views(cycle@);
                exists|p: Seq<Seq<char>>, j: int| {
                    &&& p.len() >= 1
                    &&& p[0] == start@
                    &&& Self::follows_first_neighbors(g, p)
                    &&& p.no_duplicates()
                    &&& 0 <= j < p.len()
                    &&& Self::first_neighbor(g, p.last()) == p[j]
                    &&& c == p.subrange(j, p.len() as int).push(p[j])
                }
            })),
    {
        let ghost g = self.conflict_graph;
        let edges = &self.conflict_graph.edges;
        let bound = edges.len();
        let mut path: Vec<String> = Vec::new();
        path.push(start);
        proof {
            edges.lemma_dom();
            assert(string_views(path@) =~= seq![path@[0]@]);
        }
        loop
            invariant
                self.wf(),
                g == self.conflict_graph,
                *edges == self.conflict_graph.edges,
                bound == edges@.len(),
                edges@.dom().finite(),
                path@.len() >= 1,
                string_views(path@)[0] == start@,
                Self::follows_first_neighbors(g, string_views(path@)),
                string_views(path@).no_duplicates(),
                string_views(path@).to_set().subset_of(edges@.dom()),
            decreases bound - path@.len(),
        {
            let ghost pv = string_views(path@);
            let last = path.len() - 1;
            let cur = &path[last];
            assert(cur@ == pv.last());
            let list = match edges.get(cur.as_str()) {
                Some(list) => list,
                None => {
                    assert(g.neighbors(pv[last as int]).len() > 0);
                    assert(false);
                    return Ok(());
                },
            };
            if list.len() == 0 {
                assert(g.neighbors(pv[last as int]).len() > 0);
                assert(false);
                return Ok(());
            }
            let next = list[0].0.clone();
            assert(next@ == Self::first_neighbor(g, pv.last()));
            match crate::names::find_string(&path, &next) {
                Some(j) => {
                    let mut cycle: Vec<String> = Vec::new();
                    let mut k: usize = j;
                    assert(string_views(cycle@) =~= pv.subrange(j as int, k as int));
                    while k < path.len()
                        invariant
                            pv == string_views(path@),
                            j <= k <= path@.len(),
                            string_views(cycle@) == pv.subrange(j as int, k as int),
                        decreases path@.len() - k,
                    {
                        let ghost before = string_views(cycle@);
                        cycle.push(path[k].clone());
                        assert(string_views(cycle@) =~= before.push(pv[k as int]));
                        assert(pv.subrange(j as int, k + 1) =~= pv.subrange(j as int, k as int).push(pv[k as int]));
                        k = k + 1;
                    }
                    let ghost before = string_views(cycle@);
                    cycle.push(next);
                    assert(string_views(cycle@) =~= before.push(pv[j as int]));
                    return Err(SchedulerError::DeadlockDetected { cycle });
                },
                None => {
                    proof {
                        assert(g.conflicts(pv.last(), next@)) by {
                            assert(g.neighbors(pv.last())[0].0 == next@);
                        }
                        assert(g.conflicts(next@, pv.last()));
                        let t = choose|t: int| 0 <= t < g.neighbors(next@).len() && #[trigger] g.neighbors(next@)[t].0 == pv.last();
                        assert(g.neighbors(next@).len() > 0);
                        assert(edges@.contains_key(next@));
                    }
                    path.push(next);
                    proof {
                        let nv = string_views(path@);
                        assert(nv =~= pv.push(next@));
                        assert(!pv.contains(next@)) by {
                            if pv.contains(next@) {
                                let m = choose|m: int| 0 <= m < pv.len() && pv[m] == next@;
                                assert(path@[m]@ == next@);
                            }
                        }
                        assert(nv.no_duplicates()) by {
                            assert forall|a: int, b: int| 0 <= a < b < nv.len() implies nv[a] != nv[b] by {
                                if b == pv.len() {
                                    assert(pv.contains(nv[a]));
                                }
                            }
                        }
                        assert forall|a: int| 0 <= a < nv.len() implies (#[trigger] g.neighbors(nv[a])).len() > 0 by {
                            if a < pv.len() {
                                assert(nv[a] == pv[a]);
                            }
                        }
                        assert forall|a: int| 0 <= a < nv.len() - 1 implies nv[a + 1] == Self::first_neighbor(g, #[trigger] nv[a]) by {
                            if a < pv.len() - 1 {
                                assert(nv[a] == pv[a] && nv[a + 1] == pv[a + 1]);
                            } else {
                                assert(nv[a] == pv.last());
                            }
                        }
                        assert(nv.to_set().subset_of(edges@.dom())) by {
                            assert forall|x: Seq<char>| nv.to_set().contains(x) implies edges@.dom().contains(x) by {
                                if x != next@ {
                                    let m = choose|m: int| 0 <= m < nv.len() && nv[m] == x;
                                    assert(pv[m] == x);
                                    assert(pv.to_set().contains(x));
                                }
                            }
                        }
                        nv.unique_seq_to_set();
                        vstd::set_lib::lemma_len_subset(nv.to_set(), edges@.dom());
                    }
                },
            }
        }
    }

    /// Whether a system may start now: it is known, its dependencies have completed, it
    /// conflicts with no running system, and the borrow rules allow each of its resource
    /// accesses.
    pub open spec fn schedulable(&self, name: Seq<char>) -> bool {
        &&& self.systems@.contains_key(name)
        &&& forall|d: Seq<char>| #[trigger] string_views(self.systems@[name].dependencies@).contains(d)
            ==> self.sched_state().completed().contains(d)
        &&& forall|e: Seq<char>| #[trigger] self.sched_state().executing().contains(e)
            ==> !self.conflict_graph.conflicts(name, e)
        &&& forall|r: Seq<char>| #[trigger] self.accesses_of(name).contains_key(r)
            ==> self.sched_state().tracker().access_allowed(r, name, self.accesses_of(name)[r])
    }

    /// Whether a system may start now.
    pub fn can_schedule_system(&self, system_name: &str) -> (r: bool)
        requires
            self.wf(),
        ensures
            r == self.schedulable(system_name@),
    {
        let system = match self.systems.get(system_name) {
            Some(s) => s,
            None => {
                return false;
            },
        };
        proof {
            self.state.lemma_wf();
        }
        let completed = self.state.completed_names();
        let mut i: usize = 0;
        while i < system.dependencies.len()
            invariant
                self.wf(),
                self.systems@.contains_key(system_name@),
                *system == self.systems@[system_name@],
                completed.wf(),
                completed@ == self.sched_state().completed(),
                i <= system.dependencies@.len(),
                forall|k: int| 0 <= k < i ==> completed@.contains(#[trigger] string_views(system.dependencies@)[k]),
            decreases system.dependencies@.len() - i,
        {
            if !completed.contains(system.dependencies[i].as_str()) {
                assert(string_views(system.dependencies@).contains(system.dependencies@[i as int]@)) by {
                    assert(string_views(system.dependencies@)[i as int] == system.dependencies@[i as int]@);
                }
                return false;
            }
            i = i + 1;
        }
        assert forall|d: Seq<char>| #[trigger] string_views(system.dependencies@).contains(d) implies completed@.contains(d) by {
            let k = choose|k: int| 0 <= k < string_views(system.dependencies@).len() && string_views(system.dependencies@)[k] == d;
        }
        let executing = self.state.executing_names();
        let m = executing.len();
        proof {
            executing.lemma_ordered();
        }
        let mut j: usize = 0;
        while j < m
            invariant
                self.wf(),
                executing.wf(),
                executing@ == self.sched_state().executing(),
                m == executing.ordered().len(),
                j <= m,
                forall|k: int| 0 <= k < j ==> !self.conflict_graph.conflicts(system_name@, #[trigger] executing.ordered()[k]),
            decreases m - j,
        {
            if self.conflict_graph.has_conflict(system_name, executing.item_at(j).as_str()) {
                proof {
                    executing.lemma_ordered();
                    assert(executing@.contains(executing.ordered()[j as int]));
                }
                return false;
            }
            j = j + 1;
        }
        proof {
            executing.lemma_ordered();
            assert forall|e: Seq<char>| #[trigger] self.sched_state().executing().contains(e)
                implies !self.conflict_graph.conflicts(system_name@, e) by {
                assert(executing.ordered().to_set().contains(e));
                let k = choose|k: int| 0 <= k < m && executing.ordered()[k] == e;
                assert(!self.conflict_graph.conflicts(system_name@, executing.ordered()[k]));
            }
        }
        let accesses = extract_resource_accesses(&system.definition);
        let count = accesses.entry_count();
        proof {
            accesses.lemma_dom();
        }
        let mut k: usize = 0;
        while k < count
            invariant
                self.wf(),
                accesses.wf(),
                accesses@ == self.accesses_of(system_name@),
                count == accesses.key_seq().len(),
                k <= count,
                forall|t: int| 0 <= t < k ==> self.sched_state().tracker().access_allowed(
                    #[trigger] accesses.key_seq()[t],
                    system_name@,
                    accesses@[accesses.key_seq()[t]],
                ),
            decreases count - k,
        {
            let r = accesses.key_at(k);
            let a = accesses.value_at(k);
            if self.state.can_system_access_resource(r.as_str(), system_name, a).is_err() {
                return false;
            }
            k = k + 1;
        }
        proof {
            accesses.lemma_dom();
            assert forall|r: Seq<char>| #[trigger] self.accesses_of(system_name@).contains_key(r) implies self.sched_state().tracker().access_allowed(
                r,
                system_name@,
                self.accesses_of(system_name@)[r],
            ) by {
                assert(accesses.key_seq().to_set().contains(r));
                let t = choose|t: int| 0 <= t < count && accesses.key_seq()[t] == r;
                assert(self.sched_state().tracker().access_allowed(accesses.key_seq()[t], system_name@, accesses@[accesses.key_seq()[t]]));
            }
        }
        true
    }

    /// The order key of a system under the current strategy: systems with smaller keys come
    /// first, and systems with equal keys keep their queue order. Priority puts higher
    /// priorities first, shortest-job-first shorter estimates (unknown last), round-robin the
    /// least recently started (never started first), and work stealing systems with more
    /// dependencies; first-come-first-served keeps the queue order.
    pub open spec fn strategy_key(&self, name: Seq<char>) -> u64 {
        let known = self.systems@.contains_key(name);
        let sys = self.systems@[name];
        match self.strategy_of() {
            SchedulingStrategy::FCFS => 0,
            SchedulingStrategy::Priority => (3 - priority_rank(if known {
                sys.priority
            } else {
                SystemPriority::Normal
            })) as u64,
            SchedulingStrategy::SJF => if known && sys.estimated_runtime is Some {
                sys.estimated_runtime->0
            } else {
                u64::MAX
            },
            SchedulingStrategy::RoundRobin => if known && sys.last_execution_time is Some {
                sys.last_execution_time->0
            } else {
                0
            },
            SchedulingStrategy::WorkStealing => (u64::MAX - (if known {
                sys.dependencies@.len()
            } else {
                0
            })) as u64,
        }
    }

    fn key_for(&self, name: &String) -> (k: u64)
        requires
            self.wf(),
        ensures
            k == self.strategy_key(name@),
    {
        let found = self.systems.get(name.as_str());
        match self.strategy {
            SchedulingStrategy::FCFS => 0,
            SchedulingStrategy::Priority => {
                let p = match found {
                    Some(sys) => sys.priority,
                    None => SystemPriority::Normal,
                };
                match p {
                    SystemPriority::Low => 3,
                    SystemPriority::Normal => 2,
                    SystemPriority::High => 1,
                    SystemPriority::Critical => 0,
                }
            },
            SchedulingStrategy::SJF => match found {
                Some(sys) => match sys.estimated_runtime {
                    Some(t) => t,
                    None => u64::MAX,
                },
                None => u64::MAX,
            },
            SchedulingStrategy::RoundRobin => match found {
                Some(sys) => match sys.last_execution_time {
                    Some(t) => t,
                    None => 0,
                },
                None => 0,
            },
            SchedulingStrategy::WorkStealing => match found {
                Some(sys) => u64::MAX - (sys.dependencies.len() as u64),
                None => u64::MAX,
            },
        }
    }

    /// The systems of the queue that may start now, in queue order.
    pub open spec fn schedulable_queue(&self, q: Seq<Seq<char>>) -> Seq<Seq<char>>
        decreases q.len(),
    {
        if q.len() == 0 {
            q
        } else if self.schedulable(q.last()) {
            self.schedulable_queue(q.drop_last()).push(q.last())
        } else {
            self.schedulable_queue(q.drop_last())
        }
    }

    proof fn lemma_queue_members(&self, q: Seq<Seq<char>>)
        ensures
            forall|k: int| 0 <= k < self.schedulable_queue(q).len()
                ==> q.contains(#[trigger] self.schedulable_queue(q)[k]),
        decreases q.len(),
    {
        if q.len() > 0 {
            let rest = q.drop_last();
            self.lemma_queue_members(rest);
            assert forall|k: int| 0 <= k < self.schedulable_queue(q).len()
                implies q.contains(#[trigger] self.schedulable_queue(q)[k]) by {
                let sr = self.schedulable_queue(rest);
                if k < sr.len() {
                    assert(self.schedulable_queue(q)[k] == sr[k]);
                    let m = choose|m: int| 0 <= m < rest.len() && rest[m] == sr[k];
                    assert(q[m] == rest[m]);
                } else {
                    assert(self.schedulable_queue(q)[k] == q[q.len() - 1]);
                }
            }
        }
    }

    /// Every system the strategy orders for a start comes from the queue.
    proof fn lemma_order_from_queue(&self, q: Seq<Seq<char>>)
        ensures
            forall|k: int| 0 <= k < self.schedulable_order(q).len()
                ==> q.contains(#[trigger] self.schedulable_order(q)[k]),
    {
        let sq = self.schedulable_queue(q);
        let keyed = sq.map_values(|n: Seq<char>| (self.strategy_key(n), n));
        self.lemma_queue_members(q);
        lemma_sort_keyed_members(keyed);
        assert forall|k: int| 0 <= k < self.schedulable_order(q).len()
            implies q.contains(#[trigger] self.schedulable_order(q)[k]) by {
            let e = sort_keyed(keyed)[k];
            assert(keyed.contains(e));
            let m = choose|m: int| 0 <= m < keyed.len() && keyed[m] == e;
            assert(e.1 == sq[m]);
            assert(q.contains(sq[m]));
        }
    }

    proof fn lemma_queue_schedulable(&self, q: Seq<Seq<char>>)
        ensures
            forall|k: int| 0 <= k < self.schedulable_queue(q).len()
                ==> self.schedulable(#[trigger] self.schedulable_queue(q)[k]),
        decreases q.len(),
    {
        if q.len() > 0 {
            let rest = q.drop_last();
            self.lemma_queue_schedulable(rest);
            assert forall|k: int| 0 <= k < self.schedulable_queue(q).len()
                implies self.schedulable(#[trigger] self.schedulable_queue(q)[k]) by {
                let sr = self.schedulable_queue(rest);
                if k < sr.len() {
                    assert(self.schedulable_queue(q)[k] == sr[k]);
                }
            }
        }
    }

    /// Every system the strategy orders for a start may start now.
    proof fn lemma_order_schedulable(&self, q: Seq<Seq<char>>)
        ensures
            forall|k: int| 0 <= k < self.schedulable_order(q).len()
                ==> self.schedulable(#[trigger] self.schedulable_order(q)[k]),
    {
        let sq = self.schedulable_queue(q);
        let keyed = sq.map_values(|n: Seq<char>| (self.strategy_key(n), n));
        self.lemma_queue_schedulable(q);
        lemma_sort_keyed_members(keyed);
        assert forall|k: int| 0 <= k < self.schedulable_order(q).len()
            implies self.schedulable(#[trigger] self.schedulable_order(q)[k]) by {
            let e = sort_keyed(keyed)[k];
            assert(keyed.contains(e));
            let m = choose|m: int| 0 <= m < keyed.len() && keyed[m] == e;
            assert(e.1 == sq[m]);
        }
    }

    /// Under the priority strategy a more urgent system gets a smaller key, so it is ordered
    /// first.
    pub proof fn law_priority_key_follows_urgency(&self, a: Seq<char>, b: Seq<char>)
        requires
            self.strategy_of() is Priority,
            self.systems@.contains_key(a),
            self.systems@.contains_key(b),
            more_urgent(self.systems@[a].priority, self.systems@[b].priority),
        ensures
            self.strategy_key(a) < self.strategy_key(b),
    {
    }

    proof fn lemma_smaller_key_first(&self, q: Seq<Seq<char>>, i: int, j: int)
        requires
            0 <= i < self.schedulable_order(q).len(),
            0 <= j < self.schedulable_order(q).len(),
            self.strategy_key(self.schedulable_order(q)[i]) < self.strategy_key(self.schedulable_order(q)[j]),
        ensures
            i < j,
    {
        let sq = self.schedulable_queue(q);
        let keyed = sq.map_values(|n: Seq<char>| (self.strategy_key(n), n));
        let sorted = sort_keyed(keyed);
        lemma_sort_keyed_ascending(keyed);
        lemma_sort_keyed_members(keyed);
        assert(keyed.contains(sorted[i]));
        assert(keyed.contains(sorted[j]));
        let mi = choose|m: int| 0 <= m < keyed.len() && keyed[m] == sorted[i];
        let mj = choose|m: int| 0 <= m < keyed.len() && keyed[m] == sorted[j];
        assert(sorted[i].0 == self.strategy_key(sorted[i].1));
        assert(sorted[j].0 == self.strategy_key(sorted[j].1));
        assert(self.schedulable_order(q)[i] == sorted[i].1);
        assert(self.schedulable_order(q)[j] == sorted[j].1);
        if j < i {
            assert(sorted[j].0 <= sorted[i].0);
        }
    }

    /// Under the priority strategy, of two systems that may start now, the more urgent one comes
    /// first in the order the batch tries them.
    pub proof fn law_more_urgent_ordered_first(&self, q: Seq<Seq<char>>, i: int, j: int)
        requires
            self.strategy_of() is Priority,
            0 <= i < self.schedulable_order(q).len(),
            0 <= j < self.schedulable_order(q).len(),
            self.systems@.contains_key(self.schedulable_order(q)[i]),
            self.systems@.contains_key(self.schedulable_order(q)[j]),
            more_urgent(
                self.systems@[self.schedulable_order(q)[i]].priority,
                self.systems@[self.schedulable_order(q)[j]].priority,
            ),
        ensures
            i < j,
    {
        self.law_priority_key_follows_urgency(self.schedulable_order(q)[i], self.schedulable_order(q)[j]);
        self.lemma_smaller_key_first(q, i, j);
    }

    /// Under shortest-job-first, of two known systems that may start now, one with a shorter
    /// estimated run time comes first, and one with an estimate before one without.
    pub proof fn law_shorter_job_ordered_first(&self, q: Seq<Seq<char>>, i: int, j: int)
        requires
            self.strategy_of() is SJF,
            0 <= i < self.schedulable_order(q).len(),
            0 <= j < self.schedulable_order(q).len(),
            self.systems@.contains_key(self.schedulable_order(q)[i]),
            self.systems@.contains_key(self.schedulable_order(q)[j]),
            self.systems@[self.schedulable_order(q)[i]].estimated_runtime matches Some(ti) && match self.systems@[
                self.schedulable_order(q)[j]
            ].estimated_runtime {
                Some(tj) => ti < tj,
                None => ti < u64::MAX,
            },
        ensures
            i < j,
    {
        self.lemma_smaller_key_first(q, i, j);
    }

    /// Under round robin, of two known systems that may start now, the one that last ran
    /// earlier comes first; one that never ran counts as having run at time zero.
    pub proof fn law_least_recent_ordered_first(&self, q: Seq<Seq<char>>, i: int, j: int)
        requires
            self.strategy_of() is RoundRobin,
            0 <= i < self.schedulable_order(q).len(),
            0 <= j < self.schedulable_order(q).len(),
            self.systems@.contains_key(self.schedulable_order(q)[i]),
            self.systems@.contains_key(self.schedulable_order(q)[j]),
            (match self.systems@[self.schedulable_order(q)[i]].last_execution_time {
                Some(t) => t,
                None => 0,
            }) < (match self.systems@[self.schedulable_order(q)[j]].last_execution_time {
                Some(t) => t,
                None => 0,
            }),
        ensures
            i < j,
    {
        self.lemma_smaller_key_first(q, i, j);
    }

    /// Under work stealing, of two known systems that may start now, the one with more
    /// dependencies comes first.
    pub proof fn law_more_dependencies_ordered_first(&self, q: Seq<Seq<char>>, i: int, j: int)
        requires
            self.strategy_of() is WorkStealing,
            0 <= i < self.schedulable_order(q).len(),
            0 <= j < self.schedulable_order(q).len(),
            self.systems@.contains_key(self.schedulable_order(q)[i]),
            self.systems@.contains_key(self.schedulable_order(q)[j]),
            self.systems@[self.schedulable_order(q)[i]].dependencies@.len() > self.systems@[
                self.schedulable_order(q)[j]
            ].dependencies@.len(),
            self.systems@[self.schedulable_order(q)[i]].dependencies@.len() <= u64::MAX,
        ensures
            i < j,
    {
        self.lemma_smaller_key_first(q, i, j);
    }

    /// The queued systems that may start now, sorted by the strategy's key.
    pub open spec fn schedulable_order(&self, q: Seq<Seq<char>>) -> Seq<Seq<char>> {
        sort_keyed(self.schedulable_queue(q).map_values(|n: Seq<char>| (self.strategy_key(n), n)))
            .map_values(|e: (u64, Seq<char>)| e.1)
    }

    /// The queued systems that may start now, ordered by the strategy; none when the
    /// running systems already reach the limit.
    pub fn get_schedulable_systems(&self) -> (r: Vec<String>)
        requires
            self.wf(),
        ensures
            string_views(r@) == if self.sched_state().executing().len() >= self.max_concurrent() {
                Seq::<Seq<char>>::empty()
            } else {
                self.schedulable_order(self.sched_state().pending())
            },
    {
        if self.state.executing_count() >= self.max_concurrent_systems {
            let r: Vec<String> = Vec::new();
            assert(string_views(r@) =~= Seq::<Seq<char>>::empty());
            return r;
        }
        let ghost q = self.sched_state().pending();
        let n = self.state.pending_count();
        let mut keyed: Vec<(u64, String)> = Vec::new();
        let mut i: usize = 0;
        assert(q.take(0) =~= Seq::<Seq<char>>::empty());
        assert(keyed_views(keyed@) =~= Seq::<(u64, Seq<char>)>::empty());
        while i < n
            invariant
                self.wf(),
                q == self.sched_state().pending(),
                n == q.len(),
                i <= n,
                keyed_views(keyed@) == self.schedulable_queue(q.take(i as int)).map_values(
                    |x: Seq<char>| (self.strategy_key(x), x),
                ),
            decreases n - i,
        {
            let name = self.state.pending_at(i);
            assert(q.take(i + 1).drop_last() =~= q.take(i as int));
            assert(q.take(i + 1).last() == name@);
            if self.can_schedule_system(name.as_str()) {
                let k = self.key_for(name);
                let ghost before = keyed_views(keyed@);
                keyed.push((k, name.clone()));
                assert(keyed_views(keyed@) =~= before.push((k, name@)));
                assert(self.schedulable_queue(q.take(i + 1)) == self.schedulable_queue(q.take(i as int)).push(name@));
                assert(self.schedulable_queue(q.take(i + 1)).map_values(|x: Seq<char>| (self.strategy_key(x), x))
                    =~= before.push((k, name@)));
            } else {
                assert(self.schedulable_queue(q.take(i + 1)) == self.schedulable_queue(q.take(i as int)));
            }
            i = i + 1;
        }
        assert(q.take(i as int) =~= q);
        let sorted = sort_keyed_pairs(keyed);
        let mut names: Vec<String> = Vec::new();
        let mut j: usize = 0;
        while j < sorted.len()
            invariant
                j <= sorted@.len(),
                string_views(names@) == keyed_views(sorted@).take(j as int).map_values(|e: (u64, Seq<char>)| e.1),
            decreases sorted@.len() - j,
        {
            let ghost before = string_views(names@);
            names.push(sorted[j].1.clone());
            assert(string_views(names@) =~= before.push(sorted@[j as int].1@));
            assert(keyed_views(sorted@).take(j + 1).map_values(|e: (u64, Seq<char>)| e.1) =~= keyed_views(sorted@).take(j as int).map_values(|e: (u64, Seq<char>)| e.1).push(sorted@[j as int].1@));
            j = j + 1;
        }
        assert(keyed_views(sorted@).take(j as int) =~= keyed_views(sorted@));
        names
    }

    /// Whether `after` is `self` with system `name` started: out of the queue and running,
    /// holding its resource accesses, with a start time recorded and nothing else changed.
    pub open spec fn started(self, after: Self, name: Seq<char>) -> bool {
        let entry = self.systems@[name];
        let entry2 = after.systems@[name];
        &&& after.sched_state().pending() == without_name(self.sched_state().pending(), name)
        &&& after.sched_state().executing() == self.sched_state().executing().insert(name)
        &&& after.sched_state().completed() == self.sched_state().completed()
        &&& granted_on(self.sched_state().tracker(), after.sched_state().tracker(), name, self.accesses_of(name))
        &&& after.systems@.dom() == self.systems@.dom()
        &&& forall|k: Seq<char>| #[trigger] after.systems@.contains_key(k) && k != name
            ==> after.systems@[k] == self.systems@[k]
        &&& entry2.definition == entry.definition
        &&& entry2.priority == entry.priority
        &&& entry2.estimated_runtime == entry.estimated_runtime
        &&& entry2.dependencies == entry.dependencies
        &&& entry2.last_execution_time is Some
        &&& after.conflict_graph == self.conflict_graph
        &&& after.priorities() == self.priorities()
        &&& after.strategy_of() == self.strategy_of()
        &&& after.max_concurrent() == self.max_concurrent()
    }

    /// Starts a system that may start now: it leaves the queue, joins the running systems,
    /// records the start time by the system clock, and takes each of its resource accesses.
    pub fn schedule_system(&mut self, system_name: &str) -> (r: Result<(), SchedulerError>)
        requires
            old(self).wf(),
        ensures
            final(self).wf(),
            r is Ok <==> old(self).schedulable(system_name@),
            r matches Err(e) ==> (e matches SchedulerError::SchedulingFailure { reason }
                && reason@ == "System '"@ + system_name@ + "' cannot be scheduled due to conflicts"@
                && *final(self) == *old(self)),
            r is Ok ==> old(self).started(*final(self), system_name@),
    {
        if !self.can_schedule_system(system_name) {
            let mut reason = String::new();
            reason.append("System '");
            reason.append(system_name);
            reason.append("' cannot be scheduled due to conflicts");
            return Err(SchedulerError::SchedulingFailure { reason });
        }
        let ghost t0 = self.sched_state().tracker();
        let ghost acc = self.accesses_of(system_name@);
        self.state.remove_pending(system_name);
        self.state.mark_executing(system_name.to_owned());
        let now = now_millis();
        let system = match self.systems.remove(system_name) {
            Some(s) => s,
            None => {
                assert(false);
                return Ok(());
            },
        };
        let mut updated = system;
        updated.last_execution_time = Some(now);
        let accesses = extract_resource_accesses(&updated.definition);
        self.systems.insert(system_name.to_owned(), updated);
        assert(self.systems@.dom() =~= old(self).systems@.dom());
        let ghost systems_now = self.systems@;
        let count = accesses.entry_count();
        proof {
            accesses.lemma_dom();
            self.state.lemma_wf();
        }
        let ghost keys = accesses.key_seq();
        let mut k: usize = 0;
        proof {
            assert forall|x: Seq<char>| #[trigger] self.sched_state().tracker().readers(x) == t0.readers(x) by {}
        }
        while k < count
            invariant
                self.wf(),
                accesses.wf(),
                accesses@ == acc,
                keys == accesses.key_seq(),
                keys.no_duplicates(),
                count == keys.len(),
                k <= count,
                forall|x: Seq<char>| #[trigger] acc.contains_key(x) ==> t0.access_allowed(x, system_name@, acc[x]),
                granted_on_keys(t0, self.sched_state().tracker(), system_name@, acc, keys.take(k as int).to_set()),
                self.systems@ == systems_now,
                systems_now == old(self).systems@.insert(system_name@, systems_now[system_name@]),
                self.sched_state().pending() == without_name(old(self).sched_state().pending(), system_name@),
                self.sched_state().executing() == old(self).sched_state().executing().insert(system_name@),
                self.sched_state().completed() == old(self).sched_state().completed(),
                self.conflict_graph == old(self).conflict_graph,
                self.system_priorities == old(self).system_priorities,
                self.strategy == old(self).strategy,
                self.max_concurrent_systems == old(self).max_concurrent_systems,
            decreases count - k,
        {
            let res = accesses.key_at(k);
            let a = accesses.value_at(k);
            let ghost tk = self.sched_state().tracker();
            let ghost rk = keys[k as int];
            proof {
                assert(acc.contains_key(rk));
                assert(!keys.take(k as int).to_set().contains(rk)) by {
                    if keys.take(k as int).to_set().contains(rk) {
                        let m = choose|m: int| 0 <= m < k && keys.take(k as int)[m] == rk;
                        assert(keys[m] == keys[k as int]);
                    }
                }
                assert(tk.access_allowed(rk, system_name@, acc[rk])) by {
                    assert(t0.access_allowed(rk, system_name@, acc[rk]));
                    assert(tk.readers(rk) == t0.readers(rk));
                }
            }
            match self.state.try_acquire_resource(res.as_str(), system_name, a) {
                Ok(()) => {},
                Err(e) => {
                    assert(false);
                    return Err(e);
                },
            }
            proof {
                let done = keys.take(k as int).to_set();
                let done2 = keys.take(k + 1).to_set();
                assert(keys.take(k + 1) =~= keys.take(k as int).push(rk));
                keys.take(k as int).lemma_push_to_set_commute(rk);
                assert(done2 == done.insert(rk));
                lemma_grant_step(t0, tk, self.sched_state().tracker(), system_name@, acc, done, rk);
            }
            k = k + 1;
        }
        proof {
            assert(keys.take(k as int) =~= keys);
            assert(keys.to_set() == acc.dom());
            assert forall|x: Seq<char>| #[trigger] self.sched_state().tracker().readers(x) == self.sched_state().tracker().readers(x) by {}
        }
        Ok(())
    }

    /// Marks a running system finished and gives up its resource accesses.
    pub fn complete_system(&mut self, system_name: &str) -> (r: Result<(), SchedulerError>)
        requires
            old(self).wf(),
        ensures
            final(self).wf(),
            r is Ok <==> old(self).sched_state().executing().contains(system_name@),
            r matches Err(e) ==> (e matches SchedulerError::SchedulingFailure { reason }
                && reason@ == "System '"@ + system_name@ + "' is not currently executing"@
                && *final(self) == *old(self)),
            r is Ok ==> ({
                let name = system_name@;
                &&& final(self).sched_state().executing() == old(self).sched_state().executing().remove(name)
                &&& final(self).sched_state().completed() == old(self).sched_state().completed().insert(name)
                &&& final(self).sched_state().pending() == old(self).sched_state().pending()
                &&& (old(self).systems@.contains_key(name) ==> revoked_on(
                    old(self).sched_state().tracker(),
                    final(self).sched_state().tracker(),
                    name,
                    old(self).accesses_of(name),
                ))
                &&& (!old(self).systems@.contains_key(name) ==> final(self).sched_state().tracker()
                    == old(self).sched_state().tracker())
                &&& final(self).systems@ == old(self).systems@
                &&& final(self).conflict_graph == old(self).conflict_graph
                &&& final(self).priorities() == old(self).priorities()
                &&& final(self).strategy_of() == old(self).strategy_of()
                &&& final(self).max_concurrent() == old(self).max_concurrent()
            }),
    {
        proof {
            self.state.lemma_wf();
        }
        if !self.state.executing_names().contains(system_name) {
            let mut reason = String::new();
            reason.append("System '");
            reason.append(system_name);
            reason.append("' is not currently executing");
            return Err(SchedulerError::SchedulingFailure { reason });
        }
        let ghost t0 = self.sched_state().tracker();
        match self.systems.get(system_name) {
            Some(system) => {
                let accesses = extract_resource_accesses(&system.definition);
                let ghost acc = accesses@;
                let count = accesses.entry_count();
                proof {
                    accesses.lemma_dom();
                }
                let ghost keys = accesses.key_seq();
                let mut k: usize = 0;
                while k < count
                    invariant
                        self.wf(),
                        accesses.wf(),
                        accesses@ == acc,
                        acc == old(self).accesses_of(system_name@),
                        keys == accesses.key_seq(),
                        keys.no_duplicates(),
                        count == keys.len(),
                        k <= count,
                        revoked_on_keys(t0, self.sched_state().tracker(), system_name@, acc, keys.take(k as int).to_set()),
                        self.systems@ == old(self).systems@,
                        self.sched_state().pending() == old(self).sched_state().pending(),
                        self.sched_state().executing() == old(self).sched_state().executing(),
                        self.sched_state().completed() == old(self).sched_state().completed(),
                        self.conflict_graph == old(self).conflict_graph,
                        self.system_priorities == old(self).system_priorities,
                        self.strategy == old(self).strategy,
                        self.max_concurrent_systems == old(self).max_concurrent_systems,
                    decreases count - k,
                {
                    let res = accesses.key_at(k);
                    let a = accesses.value_at(k);
                    let ghost tk = self.sched_state().tracker();
                    let ghost rk = keys[k as int];
                    proof {
                        assert(!keys.take(k as int).to_set().contains(rk)) by {
                            if keys.take(k as int).to_set().contains(rk) {
                                let m = choose|m: int| 0 <= m < k && keys.take(k as int)[m] == rk;
                                assert(keys[m] == keys[k as int]);
                            }
                        }
                    }
                    self.state.release_resource(res.as_str(), system_name, a);
                    proof {
                        let done = keys.take(k as int).to_set();
                        let done2 = keys.take(k + 1).to_set();
                        assert(keys.take(k + 1) =~= keys.take(k as int).push(rk));
                        keys.take(k as int).lemma_push_to_set_commute(rk);
                        assert(done2 == done.insert(rk));
                        lemma_revoke_step(t0, tk, self.sched_state().tracker(), system_name@, acc, done, rk);
                    }
                    k = k + 1;
                }
                proof {
                    assert(keys.take(k as int) =~= keys);
                    assert(keys.to_set() == acc.dom());
                }
            },
            None => {},
        }
        self.state.complete_system(system_name);
        Ok(())
    }

    /// The estimated time, in milliseconds, to finish the queued and running systems, each
    /// counted at its estimate (one second when unknown), spread over the concurrency limit.
    pub fn estimate_completion_time(&self) -> (r: Option<u64>)
        requires
            self.wf(),
            runtime_total(self.systems@, self.sched_state().pending())
                + runtime_total(self.systems@, self.sched_state().executing_order()) <= u64::MAX,
        ensures
            r == Some(if self.sched_state().executing().len() == 0 && self.sched_state().pending().len() == 0 {
                0u64
            } else {
                ((runtime_total(self.systems@, self.sched_state().pending())
                    + runtime_total(self.systems@, self.sched_state().executing_order()))
                    / (if self.max_concurrent() == 0 { 1 } else { self.max_concurrent() as int })) as u64
            }),
    {
        if self.state.is_complete() {
            return Some(0);
        }
        let ghost q = self.sched_state().pending();
        let ghost e = self.sched_state().executing_order();
        let mut total: u64 = 0;
        let n = self.state.pending_count();
        let mut i: usize = 0;
        proof {
            assert(q.take(0) =~= Seq::<Seq<char>>::empty());
            lemma_runtime_total_prefix(self.systems@, q, 0);
        }
        while i < n
            invariant
                self.wf(),
                q == self.sched_state().pending(),
                e == self.sched_state().executing_order(),
                n == q.len(),
                i <= n,
                total == runtime_total(self.systems@, q.take(i as int)),
                runtime_total(self.systems@, q) + runtime_total(self.systems@, e) <= u64::MAX,
            decreases n - i,
        {
            let name = self.state.pending_at(i);
            proof {
                assert(q.take(i + 1).drop_last() =~= q.take(i as int));
                lemma_runtime_total_prefix(self.systems@, q, i + 1);
                lemma_runtime_nonneg(self.systems@, e);
            }
            total = total + self.runtime_of(name);
            i = i + 1;
        }
        assert(q.take(i as int) =~= q);
        let executing = self.state.executing_names();
        let m = executing.len();
        proof {
            executing.lemma_ordered();
            self.state.lemma_executing_order();
        }
        let mut j: usize = 0;
        assert(e.take(0) =~= Seq::<Seq<char>>::empty());
        while j < m
            invariant
                self.wf(),
                executing.wf(),
                executing.ordered() == e,
                m == e.len(),
                j <= m,
                total == runtime_total(self.systems@, q) + runtime_total(self.systems@, e.take(j as int)),
                runtime_total(self.systems@, q) + runtime_total(self.systems@, e) <= u64::MAX,
            decreases m - j,
        {
            let name = executing.item_at(j);
            proof {
                assert(e.take(j + 1).drop_last() =~= e.take(j as int));
                lemma_runtime_total_prefix(self.systems@, e, j + 1);
            }
            total = total + self.runtime_of(name);
            j = j + 1;
        }
        assert(e.take(j as int) =~= e);
        let parallel: u64 = if self.max_concurrent_systems == 0 { 1 } else { self.max_concurrent_systems as u64 };
        Some(total / parallel)
    }

    fn runtime_of(&self, name: &String) -> (t: u64)
        requires
            self.wf(),
        ensures
            t == runtime_estimate(self.systems@, name@),
    {
        match self.systems.get(name.as_str()) {
            Some(sys) => match sys.estimated_runtime {
                Some(t) => t,
                None => 1000,
            },
            None => 0,
        }
    }

    /// The systems a batch tries: as many of the first in the strategy's order as there is
    /// room for beside the running ones.
    pub open spec fn batch_candidates(self) -> Seq<Seq<char>> {
        let order = self.schedulable_order(self.sched_state().pending());
        let room = self.max_concurrent() - self.sched_state().executing().len();
        if room < order.len() {
            order.take(room)
        } else {
            order
        }
    }

    /// Whether starting the systems of `s` took `self` to `after` by trying the batch's
    /// candidates in turn.
    pub open spec fn batch_tried(self, after: Self, s: Seq<Seq<char>>) -> bool {
        exists|states: Seq<SystemScheduler>| states.len() > 0 && states[0] == self && states.last() == after
            && #[trigger] tried_in_turn(self.batch_candidates(), states, s)
    }

    /// Schedules up to as many systems as the concurrency limit leaves room for, in the
    /// strategy's order; under work stealing the order is worked out again after each start.
    /// The systems started come from the queue and leave it, and the running systems stay
    /// within the limit. When there is room, the first system in the strategy's order starts
    /// first; under the other strategies the systems started are taken, in order, from as many
    /// of the first ones in that order as there is room for.
    pub fn schedule_batch(&mut self) -> (r: Result<Vec<String>, SchedulerError>)
        requires
            old(self).wf(),
            old(self).sched_state().executing().len() <= old(self).max_concurrent(),
        ensures
            final(self).wf(),
            r matches Ok(started) && ({
                let s = string_views(started@);
                &&& s.len() <= old(self).max_concurrent() - old(self).sched_state().executing().len()
                &&& final(self).sched_state().executing() == old(self).sched_state().executing() + s.to_set()
                &&& final(self).sched_state().executing().len() <= final(self).max_concurrent()
                &&& forall|k: int| 0 <= k < s.len() ==> old(self).sched_state().pending().contains(#[trigger] s[k])
                &&& forall|x: Seq<char>| #[trigger] final(self).sched_state().pending().contains(x)
                    <==> old(self).sched_state().pending().contains(x) && !s.contains(x)
                &&& (old(self).sched_state().executing().len() < old(self).max_concurrent()
                    && old(self).schedulable_order(old(self).sched_state().pending()).len() > 0) ==> (s.len() > 0
                    && s[0] == old(self).schedulable_order(old(self).sched_state().pending())[0])
                &&& (old(self).sched_state().executing().len() >= old(self).max_concurrent()
                    || old(self).schedulable_order(old(self).sched_state().pending()).len() == 0) ==> s.len() == 0
                &&& final(self).sched_state().completed() == old(self).sched_state().completed()
                &&& final(self).systems@.dom() == old(self).systems@.dom()
                &&& final(self).conflict_graph == old(self).conflict_graph
                &&& final(self).max_concurrent() == old(self).max_concurrent()
                &&& final(self).strategy_of() == old(self).strategy_of()
            }),
            r matches Ok(started) ==> ({
                let s = string_views(started@);
                &&& forall|j: int, k: int| 0 <= j < k < s.len()
                    ==> !old(self).conflict_graph.conflicts(#[trigger] s[k], #[trigger] s[j])
                &&& forall|k: int, e: Seq<char>| 0 <= k < s.len() && #[trigger] old(self).sched_state().executing().contains(e)
                    ==> !old(self).conflict_graph.conflicts(#[trigger] s[k], e)
                &&& !(old(self).strategy_of() is WorkStealing) ==> old(self).batch_tried(*final(self), s)
            }),
    {
        let mut scheduled: Vec<String> = Vec::new();
        proof {
            self.state.lemma_wf();
            assert(string_views(scheduled@) =~= Seq::<Seq<char>>::empty());
            assert(self.sched_state().executing() + Seq::<Seq<char>>::empty().to_set() =~= self.sched_state().executing());
        }
        let max_to_schedule = self.max_concurrent_systems - self.state.executing_count();
        if max_to_schedule == 0 {
            proof {
                let states = seq![*self];
                let order = self.schedulable_order(self.sched_state().pending());
                let room = old(self).max_concurrent() - old(self).sched_state().executing().len();
                let lim = if room < order.len() { room } else { order.len() as int };
                assert(lim == 0);
                assert(order.take(lim) =~= Seq::<Seq<char>>::empty());
                assert(tried_in_turn(order.take(lim), states, string_views(scheduled@)));
                assert(order.take(order.len() as int) =~= order);
                assert(order.take(lim) == old(self).batch_candidates());
                assert(states[0] == *old(self) && states.last() == *self);
                assert(old(self).batch_tried(*self, string_views(scheduled@)));
            }
            return Ok(scheduled);
        }
        let mut schedulable = self.get_schedulable_systems();
        let ghost order = self.schedulable_order(self.sched_state().pending());
        let ghost mut states: Seq<SystemScheduler> = seq![*self];
        proof {
            assert(order.take(0) =~= Seq::<Seq<char>>::empty());
        }
        proof {
            self.lemma_order_from_queue(self.sched_state().pending());
        }
        let limit = if max_to_schedule < schedulable.len() { max_to_schedule } else { schedulable.len() };
        let work_stealing = match self.strategy {
            SchedulingStrategy::WorkStealing => true,
            _ => false,
        };
        let mut i: usize = 0;
        while i < limit
            invariant
                self.wf(),
                i <= limit,
                limit <= max_to_schedule,
                max_to_schedule == old(self).max_concurrent() - old(self).sched_state().executing().len(),
                string_views(scheduled@).len() <= i,
                self.sched_state().executing() == old(self).sched_state().executing() + string_views(scheduled@).to_set(),
                forall|k: int| 0 <= k < string_views(scheduled@).len()
                    ==> old(self).sched_state().pending().contains(#[trigger] string_views(scheduled@)[k]),
                forall|k: int| 0 <= k < string_views(schedulable@).len()
                    ==> old(self).sched_state().pending().contains(#[trigger] string_views(schedulable@)[k]),
                forall|x: Seq<char>| #[trigger] self.sched_state().pending().contains(x)
                    ==> old(self).sched_state().pending().contains(x),
                self.sched_state().completed() == old(self).sched_state().completed(),
                self.systems@.dom() == old(self).systems@.dom(),
                self.conflict_graph == old(self).conflict_graph,
                self.max_concurrent_systems == old(self).max_concurrent_systems,
                self.strategy == old(self).strategy,
                order == old(self).schedulable_order(old(self).sched_state().pending()),
                limit == if max_to_schedule < order.len() { max_to_schedule as int } else { order.len() as int },
                work_stealing == (old(self).strategy_of() is WorkStealing),
                i == 0 ==> *self == *old(self) && string_views(schedulable@) == order,
                !work_stealing ==> string_views(schedulable@) == order,
                states.len() == i + 1,
                states[0] == *old(self),
                !work_stealing ==> states.last() == *self,
                !work_stealing ==> tried_in_turn(order.take(i as int), states, string_views(scheduled@)),
                forall|j: int, k: int| 0 <= j < k < string_views(scheduled@).len()
                    ==> !old(self).conflict_graph.conflicts(#[trigger] string_views(scheduled@)[k], #[trigger] string_views(scheduled@)[j]),
                forall|k: int, e: Seq<char>| 0 <= k < string_views(scheduled@).len()
                    && #[trigger] old(self).sched_state().executing().contains(e)
                    ==> !old(self).conflict_graph.conflicts(#[trigger] string_views(scheduled@)[k], e),
                i > 0 && order.len() > 0 ==> string_views(scheduled@).len() > 0 && string_views(scheduled@)[0] == order[0],
                forall|x: Seq<char>| #[trigger] self.sched_state().pending().contains(x)
                    <==> old(self).sched_state().pending().contains(x) && !string_views(scheduled@).contains(x),
            decreases limit - i,
        {
            proof {
                if i == 0 {
                    self.lemma_order_schedulable(self.sched_state().pending());
                }
            }
            let candidate: Option<String> = if i < schedulable.len() {
                if work_stealing {
                    let ghost before = string_views(schedulable@);
                    let c = schedulable.remove(i);
                    proof {
                        assert(before[i as int] == c@);
                        assert forall|k: int| 0 <= k < string_views(schedulable@).len()
                            implies old(self).sched_state().pending().contains(#[trigger] string_views(schedulable@)[k]) by {
                            if k < i {
                                assert(string_views(schedulable@)[k] == before[k]);
                            } else {
                                assert(string_views(schedulable@)[k] == before[k + 1]);
                            }
                        }
                    }
                    Some(c)
                } else {
                    Some(schedulable[i].clone())
                }
            } else {
                None
            };
            proof {
                if candidate is Some {
                    assert(old(self).sched_state().pending().contains(candidate->0@)) by {
                        if !work_stealing {
                            assert(string_views(schedulable@)[i as int] == candidate->0@);
                        }
                    }
                }
            }
            match candidate {
                Some(name) => {
                    let ghost sv = string_views(scheduled@);
                    let ghost pend = self.sched_state().pending();
                    let ghost pre = *self;
                    match self.schedule_system(name.as_str()) {
                        Ok(()) => {
                            scheduled.push(name);
                            proof {
                                assert(string_views(scheduled@) =~= sv.push(name@));
                                sv.lemma_push_to_set_commute(name@);
                                assert(self.sched_state().executing() =~= old(self).sched_state().executing()
                                    + string_views(scheduled@).to_set());
                                lemma_without_name_members(pend, name@);
                                lemma_without_name_keeps(pend, name@);
                                assert forall|k: int| 0 <= k < string_views(scheduled@).len()
                                    implies old(self).sched_state().pending().contains(#[trigger] string_views(scheduled@)[k]) by {
                                    if k < sv.len() {
                                        assert(string_views(scheduled@)[k] == sv[k]);
                                    }
                                }
                                assert forall|x: Seq<char>| #[trigger] self.sched_state().pending().contains(x)
                                    <==> old(self).sched_state().pending().contains(x) && !string_views(scheduled@).contains(x) by {
                                    if sv.push(name@).contains(x) && x != name@ {
                                        let m = choose|m: int| 0 <= m < sv.push(name@).len() && sv.push(name@)[m] == x;
                                        assert(sv[m] == x);
                                    }
                                    if sv.contains(x) {
                                        let m = choose|m: int| 0 <= m < sv.len() && sv[m] == x;
                                        assert(sv.push(name@)[m] == x);
                                    }
                                    if x == name@ {
                                        assert(sv.push(name@)[sv.len() as int] == x);
                                    }
                                }
                                if i == 0 && order.len() > 0 {
                                    assert(sv.len() == 0);
                                    assert(string_views(scheduled@)[0] == name@);
                                }
                                if i > 0 && order.len() > 0 {
                                    assert(string_views(scheduled@)[0] == sv[0]);
                                }
                                assert forall|j: int, k: int| 0 <= j < k < string_views(scheduled@).len() implies
                                    !old(self).conflict_graph.conflicts(#[trigger] string_views(scheduled@)[k], #[trigger] string_views(scheduled@)[j]) by {
                                    if k == sv.len() {
                                        assert(string_views(scheduled@)[j] == sv[j]);
                                        assert(sv.to_set().contains(sv[j]));
                                        assert(pre.sched_state().executing().contains(sv[j]));
                                    } else {
                                        assert(string_views(scheduled@)[j] == sv[j]);
                                        assert(string_views(scheduled@)[k] == sv[k]);
                                    }
                                }
                                assert forall|k: int, e: Seq<char>| 0 <= k < string_views(scheduled@).len()
                                    && #[trigger] old(self).sched_state().executing().contains(e) implies
                                    !old(self).conflict_graph.conflicts(#[trigger] string_views(scheduled@)[k], e) by {
                                    if k == sv.len() {
                                        assert(pre.sched_state().executing().contains(e));
                                    } else {
                                        assert(string_views(scheduled@)[k] == sv[k]);
                                    }
                                }
                                if !work_stealing {
                                    assert(name@ == order[i as int]);
                                    let ghost states2 = states.push(*self);
                                    assert(order.take(i + 1).drop_last() =~= order.take(i as int));
                                    assert(states2.drop_last() =~= states);
                                    assert(string_views(scheduled@).drop_last() =~= sv);
                                    assert(tried_in_turn(order.take(i + 1), states2, string_views(scheduled@)));
                                }
                            }
                            if work_stealing {
                                schedulable = self.get_schedulable_systems();
                                proof {
                                    self.lemma_order_from_queue(self.sched_state().pending());
                                    assert(string_views(schedulable@) =~= string_views(schedulable@));
                                }
                            }
                        },
                        Err(_) => {
                            proof {
                                if i == 0 && order.len() > 0 {
                                    assert(order.contains(order[0]));
                                    assert(old(self).schedulable(order[0]));
                                }
                                if !work_stealing {
                                    assert(name@ == order[i as int]);
                                    let ghost states2 = states.push(*self);
                                    assert(order.take(i + 1).drop_last() =~= order.take(i as int));
                                    assert(states2.drop_last() =~= states);
                                    assert(tried_in_turn(order.take(i + 1), states2, string_views(scheduled@)));
                                }
                            }
                        },
                    }
                },
                None => {},
            }
            proof {
                states = states.push(*self);
            }
            i = i + 1;
        }
        proof {
            self.state.lemma_wf();
            if !work_stealing {
                let room = old(self).max_concurrent() - old(self).sched_state().executing().len();
                let lim = if room < order.len() { room } else { order.len() as int };
                assert(lim == limit);
                assert(tried_in_turn(order.take(lim), states, string_views(scheduled@)));
                assert(order.take(order.len() as int) =~= order);
                assert(order.take(lim) == old(self).batch_candidates());
                assert(states[0] == *old(self) && states.last() == *self);
                assert(old(self).batch_tried(*self, string_views(scheduled@)));
            }
            let sv = string_views(scheduled@);
            sv.lemma_cardinality_of_set();
            vstd::set_lib::lemma_len_union(old(self).sched_state().executing(), sv.to_set());
        }
        Ok(scheduled)
    }

    /// Scheduling counts.
    pub fn get_scheduling_stats(&self) -> (r: SchedulingStats)
        requires
            self.wf(),
        ensures
            r.total_systems == self.systems@.len(),
            r.pending_systems == self.sched_state().pending().len(),
            r.executing_systems == self.sched_state().executing().len(),
            r.completed_systems == self.sched_state().completed().len(),
            r.active_resources == self.sched_state().tracker().active().len(),
            r.max_concurrent == self.max_concurrent(),
            r.strategy == self.strategy_of(),
    {
        proof {
            self.state.lemma_wf();
        }
        let active = self.state.resource_tracker().get_active_resources();
        SchedulingStats {
            total_systems: self.systems.len(),
            pending_systems: self.state.pending_count(),
            executing_systems: self.state.executing_count(),
            completed_systems: self.state.completed_count(),
            active_resources: active.len(),
            max_concurrent: self.max_concurrent_systems,
            strategy: self.strategy,
        }
    }

    /// The scheduler state.
    pub fn get_state(&self) -> (r: &SchedulerState)
        ensures
            *r == self.sched_state(),
    {
        &self.state
    }

    /// The conflict graph.
    pub fn get_conflict_graph(&self) -> (r: &ConflictGraph)
        requires
            self.wf(),
        ensures
            *r == self.conflict_graph,
            r.wf(),
            r.symmetric(),
    {
        &self.conflict_graph
    }

    /// Queues a system unless it runs or has finished.
    pub fn enqueue_system(&mut self, system_name: String)
        requires
            old(self).wf(),
        ensures
            final(self).wf(),
            final(self).sched_state().pending() == if old(self).sched_state().completed().contains(system_name@)
                || old(self).sched_state().executing().contains(system_name@) {
                old(self).sched_state().pending()
            } else {
                old(self).sched_state().pending().push(system_name@)
            },
            final(self).sched_state().executing() == old(self).sched_state().executing(),
            final(self).sched_state().completed() == old(self).sched_state().completed(),
            final(self).sched_state().tracker() == old(self).sched_state().tracker(),
            final(self).systems@ == old(self).systems@,
            final(self).conflict_graph == old(self).conflict_graph,
            final(self).strategy_of() == old(self).strategy_of(),
            final(self).max_concurrent() == old(self).max_concurrent(),
            final(self).priorities() == old(self).priorities(),
    {
        self.state.enqueue_system(system_name);
    }

    /// Whether nothing runs and nothing waits.
    pub fn is_complete(&self) -> (r: bool)
        requires
            self.wf(),
        ensures
            r == (self.sched_state().executing().len() == 0 && self.sched_state().pending().len() == 0),
    {
        self.state.is_complete()
    }
}

/// Clashing accesses clash both ways.
pub proof fn lemma_clash_symmetric(a: Map<Seq<char>, ResourceAccess>, b: Map<Seq<char>, ResourceAccess>)
    requires
        accesses_clash(a, b),
    ensures
        accesses_clash(b, a),
{
    let x = choose|x: Seq<char>| #[trigger] a.contains_key(x) && b.contains_key(x) && crate::conflicts::access_conflict(a[x], b[x]) is Some;
    assert(b.contains_key(x) && a.contains_key(x) && crate::conflicts::access_conflict(b[x], a[x]) is Some);
}

/// The rank of a priority: low 0 up to critical 3.
pub open spec fn priority_rank(p: SystemPriority) -> int {
    match p {
        SystemPriority::Low => 0,
        SystemPriority::Normal => 1,
        SystemPriority::High => 2,
        SystemPriority::Critical => 3,
    }
}

/// Keys with names, by their views.
pub open spec fn keyed_views(s: Seq<(u64, String)>) -> Seq<(u64, Seq<char>)> {
    s.map_values(|e: (u64, String)| (e.0, e.1@))
}

/// Where an entry with key `k` goes in a sorted list: after every entry with a key no larger.
pub open spec fn keyed_insert_position(s: Seq<(u64, Seq<char>)>, k: u64) -> int
    decreases s.len(),
{
    if s.len() == 0 {
        0
    } else if k < s[0].0 {
        0
    } else {
        1 + keyed_insert_position(s.drop_first(), k)
    }
}

/// Whether trying the systems of `order` one after another, from the state `states[0]`,
/// starts exactly those of `s`: each system that may start in the state the tries before it
/// left starts (the next state is that one with it started), and each other one leaves the
/// state as it is.
pub open spec fn tried_in_turn(order: Seq<Seq<char>>, states: Seq<SystemScheduler>, s: Seq<Seq<char>>) -> bool
    decreases order.len(),
{
    &&& states.len() == order.len() + 1
    &&& if order.len() == 0 {
        s.len() == 0
    } else {
        let k = order.len() - 1;
        if states[k].schedulable(order[k]) {
            &&& s.len() > 0
            &&& s.last() == order[k]
            &&& states[k].started(states[k + 1], order[k])
            &&& tried_in_turn(order.drop_last(), states.drop_last(), s.drop_last())
        } else {
            &&& states[k + 1] == states[k]
            &&& tried_in_turn(order.drop_last(), states.drop_last(), s)
        }
    }
}

/// The entries sorted by key, smallest first; entries with equal keys keep their order.
pub open spec fn sort_keyed(s: Seq<(u64, Seq<char>)>) -> Seq<(u64, Seq<char>)>
    decreases s.len(),
{
    if s.len() == 0 {
        s
    } else {
        let sorted = sort_keyed(s.drop_last());
        sorted.insert(keyed_insert_position(sorted, s.last().0), s.last())
    }
}

/// Whether priority `p` is more urgent than `q`: `Critical` over `High` over `Normal` over
/// `Low`.
pub open spec fn more_urgent(p: SystemPriority, q: SystemPriority) -> bool {
    ||| p == SystemPriority::Critical && q != SystemPriority::Critical
    ||| p == SystemPriority::High && (q == SystemPriority::Normal || q == SystemPriority::Low)
    ||| p == SystemPriority::Normal && q == SystemPriority::Low
}

/// Whether the keys of the entries never go down.
pub open spec fn keys_ascending(s: Seq<(u64, Seq<char>)>) -> bool {
    forall|i: int, j: int| 0 <= i < j < s.len() ==> (#[trigger] s[i]).0 <= (#[trigger] s[j]).0
}

proof fn lemma_insert_position_bounds(s: Seq<(u64, Seq<char>)>, k: u64)
    requires
        keys_ascending(s),
    ensures
        0 <= keyed_insert_position(s, k) <= s.len(),
        forall|m: int| 0 <= m < keyed_insert_position(s, k) ==> (#[trigger] s[m]).0 <= k,
        forall|m: int| keyed_insert_position(s, k) <= m < s.len() ==> k < (#[trigger] s[m]).0,
    decreases s.len(),
{
    if s.len() > 0 {
        if k >= s[0].0 {
            let t = s.drop_first();
            assert forall|i: int, j: int| 0 <= i < j < t.len() implies (#[trigger] t[i]).0 <= (#[trigger] t[j]).0 by {
                assert(s[i + 1].0 <= s[j + 1].0);
            }
            lemma_insert_position_bounds(t, k);
            assert forall|m: int| 0 <= m < keyed_insert_position(s, k) implies (#[trigger] s[m]).0 <= k by {
                if m > 0 {
                    assert(s[m] == t[m - 1]);
                }
            }
            assert forall|m: int| keyed_insert_position(s, k) <= m < s.len() implies k < (#[trigger] s[m]).0 by {
                assert(s[m] == t[m - 1]);
            }
        } else {
            assert forall|m: int| 0 <= m < s.len() implies k < (#[trigger] s[m]).0 by {
                if m > 0 {
                    assert(s[0].0 <= s[m].0);
                }
            }
        }
    }
}

proof fn lemma_sort_keyed_ascending(s: Seq<(u64, Seq<char>)>)
    ensures
        keys_ascending(sort_keyed(s)),
        sort_keyed(s).len() == s.len(),
    decreases s.len(),
{
    if s.len() > 0 {
        let rest = s.drop_last();
        lemma_sort_keyed_ascending(rest);
        let sorted = sort_keyed(rest);
        let k = s.last().0;
        let pos = keyed_insert_position(sorted, k);
        lemma_insert_position_bounds(sorted, k);
        let r = sorted.insert(pos, s.last());
        assert(sort_keyed(s) == r);
        assert forall|i: int, j: int| 0 <= i < j < r.len() implies (#[trigger] r[i]).0 <= (#[trigger] r[j]).0 by {
            if j < pos {
                assert(r[i] == sorted[i] && r[j] == sorted[j]);
            } else if j == pos {
                assert(r[i] == sorted[i]);
            } else if i < pos {
                assert(r[i] == sorted[i] && r[j] == sorted[j - 1]);
            } else if i == pos {
                assert(r[j] == sorted[j - 1]);
            } else {
                assert(r[i] == sorted[i - 1] && r[j] == sorted[j - 1]);
            }
        }
    }
}

proof fn lemma_keyed_insert_position(s: Seq<(u64, Seq<char>)>, k: u64)
    ensures
        0 <= keyed_insert_position(s, k) <= s.len(),
    decreases s.len(),
{
    if s.len() > 0 && k >= s[0].0 {
        lemma_keyed_insert_position(s.drop_first(), k);
    }
}

proof fn lemma_sort_keyed_members(s: Seq<(u64, Seq<char>)>)
    ensures
        sort_keyed(s).len() == s.len(),
        forall|k: int| 0 <= k < s.len() ==> s.contains(#[trigger] sort_keyed(s)[k]),
    decreases s.len(),
{
    if s.len() > 0 {
        let rest = s.drop_last();
        lemma_sort_keyed_members(rest);
        let sorted = sort_keyed(rest);
        let pos = keyed_insert_position(sorted, s.last().0);
        lemma_keyed_insert_position(sorted, s.last().0);
        assert forall|k: int| 0 <= k < s.len() implies s.contains(#[trigger] sort_keyed(s)[k]) by {
            let r = sorted.insert(pos, s.last());
            assert(sort_keyed(s) == r);
            if k < pos {
                assert(r[k] == sorted[k]);
                assert(rest.contains(sorted[k]));
                let m = choose|m: int| 0 <= m < rest.len() && rest[m] == sorted[k];
                assert(s[m] == rest[m]);
            } else if k == pos {
                assert(r[k] == s[s.len() - 1]);
            } else {
                assert(r[k] == sorted[k - 1]);
                assert(rest.contains(sorted[k - 1]));
                let m = choose|m: int| 0 <= m < rest.len() && rest[m] == sorted[k - 1];
                assert(s[m] == rest[m]);
            }
        }
    }
}

proof fn lemma_without_name_keeps(q: Seq<Seq<char>>, name: Seq<char>)
    ensures
        forall|x: Seq<char>| q.contains(x) && x != name ==> #[trigger] without_name(q, name).contains(x),
    decreases q.len(),
{
    if q.len() > 0 {
        let rest = q.drop_last();
        lemma_without_name_keeps(rest, name);
        assert forall|x: Seq<char>| q.contains(x) && x != name implies #[trigger] without_name(q, name).contains(x) by {
            let w = without_name(rest, name);
            let m = choose|m: int| 0 <= m < q.len() && q[m] == x;
            if m < rest.len() {
                assert(rest[m] == x);
                assert(rest.contains(x));
                assert(w.contains(x));
                let j = choose|j: int| 0 <= j < w.len() && w[j] == x;
                if q.last() != name {
                    assert(w.push(q.last())[j] == x);
                }
            } else {
                assert(q.last() == x);
                assert(w.push(q.last())[w.len() as int] == x);
            }
        }
    }
}

proof fn lemma_without_name_members(q: Seq<Seq<char>>, name: Seq<char>)
    ensures
        forall|x: Seq<char>| #[trigger] without_name(q, name).contains(x) ==> q.contains(x) && x != name,
    decreases q.len(),
{
    if q.len() > 0 {
        let rest = q.drop_last();
        lemma_without_name_members(rest, name);
        assert forall|x: Seq<char>| #[trigger] without_name(q, name).contains(x) implies q.contains(x) && x != name by {
            let w = without_name(rest, name);
            if q.last() == name {
                assert(w.contains(x));
            } else {
                let i = choose|i: int| 0 <= i < w.push(q.last()).len() && w.push(q.last())[i] == x;
                if i < w.len() {
                    assert(w[i] == x);
                    assert(w.contains(x));
                } else {
                    assert(x == q[q.len() - 1]);
                }
            }
            if rest.contains(x) {
                let m = choose|m: int| 0 <= m < rest.len() && rest[m] == x;
                assert(q[m] == x);
            }
        }
    }
}

fn keyed_position(sorted: &Vec<(u64, String)>, k: u64) -> (r: usize)
    ensures
        r == keyed_insert_position(keyed_views(sorted@), k),
{
    let ghost views = keyed_views(sorted@);
    let mut i: usize = 0;
    assert(views.skip(0) =~= views);
    while i < sorted.len()
        invariant
            views == keyed_views(sorted@),
            i <= sorted@.len(),
            keyed_insert_position(views, k) == i + keyed_insert_position(views.skip(i as int), k),
        decreases sorted@.len() - i,
    {
        if k < sorted[i].0 {
            assert(views.skip(i as int)[0] == views[i as int]);
            return i;
        }
        assert(views.skip(i as int).drop_first() =~= views.skip(i + 1));
        i = i + 1;
    }
    assert(views.skip(i as int) =~= Seq::<(u64, Seq<char>)>::empty());
    i
}

/// The entries sorted by key, smallest first, keeping the order of equal keys.
pub fn sort_keyed_pairs(entries: Vec<(u64, String)>) -> (r: Vec<(u64, String)>)
    ensures
        keyed_views(r@) == sort_keyed(keyed_views(entries@)),
{
    let ghost all = keyed_views(entries@);
    let mut input = entries;
    let mut sorted: Vec<(u64, String)> = Vec::new();
    let mut done: usize = 0;
    let n = input.len();
    assert(all.take(0) =~= Seq::<(u64, Seq<char>)>::empty());
    assert(keyed_views(input@) =~= all.skip(0));
    while input.len() > 0
        invariant
            n == all.len(),
            done + input@.len() == n,
            keyed_views(input@) == all.skip(done as int),
            keyed_views(sorted@) == sort_keyed(all.take(done as int)),
        decreases input@.len(),
    {
        let ghost rest = input@;
        let t = input.remove(0);
        assert(keyed_views(input@) =~= all.skip(done + 1)) by {
            assert forall|x: int| 0 <= x < input@.len() implies (#[trigger] input@[x]).0 == all[done + 1 + x].0
                && input@[x].1@ == all[done + 1 + x].1 by {
                assert(input@[x] == rest[x + 1]);
                assert(keyed_views(rest)[x + 1] == all.skip(done as int)[x + 1]);
            }
        }
        assert((t.0, t.1@) == all[done as int]) by {
            assert(keyed_views(rest)[0] == all.skip(done as int)[0]);
        }
        let pos = keyed_position(&sorted, t.0);
        proof {
            lemma_keyed_insert_position(keyed_views(sorted@), t.0);
        }
        let ghost before = keyed_views(sorted@);
        let ghost tv = (t.0, t.1@);
        sorted.insert(pos, t);
        assert(keyed_views(sorted@) =~= before.insert(pos as int, tv));
        assert(all.take(done + 1).drop_last() =~= all.take(done as int));
        assert(all.take(done + 1).last() == tv);
        done = done + 1;
    }
    assert(all.take(done as int) =~= all);
    sorted
}

/// `after` holds `s`'s accesses on the resources in `keys` as granted, and is `before`
/// everywhere else.
pub open spec fn granted_on_keys(before: ResourceTracker, after: ResourceTracker, s: Seq<char>, acc: Map<Seq<char>, ResourceAccess>, keys: Set<Seq<char>>) -> bool {
    forall|x: Seq<char>| {
        &&& #[trigger] after.readers(x) == if keys.contains(x) && acc[x] == ResourceAccess::Immutable {
            before.readers(x).insert(s)
        } else {
            before.readers(x)
        }
        &&& after.writer(x) == if keys.contains(x) && acc[x] == ResourceAccess::Mutable {
            Some(s)
        } else {
            before.writer(x)
        }
        &&& after.owner(x) == if keys.contains(x) && acc[x] == ResourceAccess::Owned {
            Some(s)
        } else {
            before.owner(x)
        }
    }
}

/// `after` is `before` with every access of `acc` granted to `s`.
pub open spec fn granted_on(before: ResourceTracker, after: ResourceTracker, s: Seq<char>, acc: Map<Seq<char>, ResourceAccess>) -> bool {
    granted_on_keys(before, after, s, acc, acc.dom())
}

/// `after` is `before` with `s`'s accesses on the resources in `keys` given up.
pub open spec fn revoked_on_keys(before: ResourceTracker, after: ResourceTracker, s: Seq<char>, acc: Map<Seq<char>, ResourceAccess>, keys: Set<Seq<char>>) -> bool {
    forall|x: Seq<char>| {
        &&& #[trigger] after.readers(x) == if keys.contains(x) && acc[x] == ResourceAccess::Immutable {
            before.readers(x).remove(s)
        } else {
            before.readers(x)
        }
        &&& after.writer(x) == if keys.contains(x) && acc[x] == ResourceAccess::Mutable && before.writer(x) == Some(s) {
            None
        } else {
            before.writer(x)
        }
        &&& after.owner(x) == if keys.contains(x) && acc[x] == ResourceAccess::Owned && before.owner(x) == Some(s) {
            None
        } else {
            before.owner(x)
        }
    }
}

/// `after` is `before` with every access of `acc` given up by `s`.
pub open spec fn revoked_on(before: ResourceTracker, after: ResourceTracker, s: Seq<char>, acc: Map<Seq<char>, ResourceAccess>) -> bool {
    revoked_on_keys(before, after, s, acc, acc.dom())
}

proof fn lemma_grant_step(
    t0: ResourceTracker,
    tk: ResourceTracker,
    tn: ResourceTracker,
    s: Seq<char>,
    acc: Map<Seq<char>, ResourceAccess>,
    done: Set<Seq<char>>,
    rk: Seq<char>,
)
    requires
        granted_on_keys(t0, tk, s, acc, done),
        !done.contains(rk),
        ResourceTracker::granted(&tk, &tn, rk, s, acc[rk]),
    ensures
        granted_on_keys(t0, tn, s, acc, done.insert(rk)),
{
    let d2 = done.insert(rk);
    assert forall|x: Seq<char>| #![trigger tn.readers(x)] {
        &&& tn.readers(x) == if d2.contains(x) && acc[x] == ResourceAccess::Immutable {
            t0.readers(x).insert(s)
        } else {
            t0.readers(x)
        }
        &&& tn.writer(x) == if d2.contains(x) && acc[x] == ResourceAccess::Mutable {
            Some(s)
        } else {
            t0.writer(x)
        }
        &&& tn.owner(x) == if d2.contains(x) && acc[x] == ResourceAccess::Owned {
            Some(s)
        } else {
            t0.owner(x)
        }
    } by {
        assert(tk.readers(x) == tk.readers(x));
        assert(tn.readers(x) == tn.readers(x));
    }
}

#[verifier::spinoff_prover]
pub proof fn lemma_revoke_step(
    t0: ResourceTracker,
    tk: ResourceTracker,
    tn: ResourceTracker,
    s: Seq<char>,
    acc: Map<Seq<char>, ResourceAccess>,
    done: Set<Seq<char>>,
    rk: Seq<char>,
)
    requires
        revoked_on_keys(t0, tk, s, acc, done),
        !done.contains(rk),
        ResourceTracker::revoked(&tk, &tn, rk, s, acc[rk]),
    ensures
        revoked_on_keys(t0, tn, s, acc, done.insert(rk)),
{
    let d2 = done.insert(rk);
    assert forall|x: Seq<char>| #![trigger tn.readers(x)] {
        &&& tn.readers(x) == if d2.contains(x) && acc[x] == ResourceAccess::Immutable {
            t0.readers(x).remove(s)
        } else {
            t0.readers(x)
        }
        &&& tn.writer(x) == if d2.contains(x) && acc[x] == ResourceAccess::Mutable && t0.writer(x) == Some(s) {
            None
        } else {
            t0.writer(x)
        }
        &&& tn.owner(x) == if d2.contains(x) && acc[x] == ResourceAccess::Owned && t0.owner(x) == Some(s) {
            None
        } else {
            t0.owner(x)
        }
    } by {
        assert(tk.readers(x) == tk.readers(x));
        assert(tn.readers(x) == tn.readers(x));
    }
}

/// The estimated run time of a system: its estimate, one second when it has none, nothing
/// for an unknown system.
pub open spec fn runtime_estimate(systems: Map<Seq<char>, SchedulableSystem>, name: Seq<char>) -> int {
    if systems.contains_key(name) {
        match systems[name].estimated_runtime {
            Some(t) => t as int,
            None => 1000,
        }
    } else {
        0
    }
}

/// The summed estimates of the systems named in `names`.
pub open spec fn runtime_total(systems: Map<Seq<char>, SchedulableSystem>, names: Seq<Seq<char>>) -> int
    decreases names.len(),
{
    if names.len() == 0 {
        0
    } else {
        runtime_total(systems, names.drop_last()) + runtime_estimate(systems, names.last())
    }
}

proof fn lemma_runtime_nonneg(systems: Map<Seq<char>, SchedulableSystem>, names: Seq<Seq<char>>)
    ensures
        runtime_total(systems, names) >= 0,
    decreases names.len(),
{
    if names.len() > 0 {
        lemma_runtime_nonneg(systems, names.drop_last());
    }
}

proof fn lemma_runtime_total_prefix(systems: Map<Seq<char>, SchedulableSystem>, names: Seq<Seq<char>>, k: int)
    requires
        0 <= k <= names.len(),
    ensures
        0 <= runtime_total(systems, names.take(k)) <= runtime_total(systems, names),
    decreases names.len(),
{
    lemma_runtime_nonneg(systems, names.take(k));
    if k < names.len() {
        assert(names.drop_last().take(k) =~= names.take(k));
        lemma_runtime_total_prefix(systems, names.drop_last(), k);
    } else {
        assert(names.take(k) =~= names);
    }
}

} // verus!
