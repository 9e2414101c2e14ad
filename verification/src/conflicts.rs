//! Conflicts between systems that access the same resources.
use vstd::prelude::*;

use crate::ast::{ResourceAccess, SystemDef, SystemParameter};
use crate::names::StrMap;
use crate::scheduler::ConflictType;

verus! {

/// The conflict between a first and a second access to one resource: reads share, anything
/// else clashes.
pub open spec fn access_conflict(first: ResourceAccess, second: ResourceAccess) -> Option<ConflictType> {
    match (first, second) {
        (ResourceAccess::Immutable, ResourceAccess::Immutable) => None,
        (ResourceAccess::Immutable, _) => Some(ConflictType::ReadWrite),
        (_, ResourceAccess::Immutable) => Some(ConflictType::WriteRead),
        _ => Some(ConflictType::WriteWrite),
    }
}

/// The conflict between a first and a second access to one resource, if any.
pub fn determine_conflict_type(access1: &ResourceAccess, access2: &ResourceAccess) -> (r: Option<ConflictType>)
    ensures
        r == access_conflict(*access1, *access2),
{
    match (access1, access2) {
        (ResourceAccess::Immutable, ResourceAccess::Immutable) => None,
        (ResourceAccess::Immutable, _) => Some(ConflictType::ReadWrite),
        (_, ResourceAccess::Immutable) => Some(ConflictType::WriteRead),
        _ => Some(ConflictType::WriteWrite),
    }
}

/// The resources named by resource parameters, each with its access; a later declaration of a
/// name replaces an earlier one.
pub open spec fn resource_accesses(params: Seq<SystemParameter>) -> Map<Seq<char>, ResourceAccess>
    decreases params.len(),
{
    if params.len() == 0 {
        Map::empty()
    } else {
        let earlier = resource_accesses(params.drop_last());
        match params.last() {
            SystemParameter::Resource { name, access, .. } => earlier.insert(name@, access),
            _ => earlier,
        }
    }
}

/// The resources a system declares, with the access it asks for.
pub fn extract_resource_accesses(system: &SystemDef) -> (r: StrMap<ResourceAccess>)
    ensures
        r.wf(),
        r@ == resource_accesses(system.parameters@),
{
    let mut accesses: StrMap<ResourceAccess> = StrMap::new();
    let mut i: usize = 0;
    while i < system.parameters.len()
        invariant
            i <= system.parameters.len(),
            accesses.wf(),
            accesses@ == resource_accesses(system.parameters@.take(i as int)),
        decreases system.parameters.len() - i,
    {
        assert(system.parameters@.take(i + 1).drop_last() =~= system.parameters@.take(i as int));
        match &system.parameters[i] {
            SystemParameter::Resource { name, access, .. } => {
                accesses.insert(name.clone(), *access);
            },
            _ => {},
        }
        i = i + 1;
    }
    assert(system.parameters@.take(i as int) =~= system.parameters@);
    accesses
}

/// Whether two systems' accesses clash on some resource that both use.
pub open spec fn accesses_clash(a: Map<Seq<char>, ResourceAccess>, b: Map<Seq<char>, ResourceAccess>) -> bool {
    exists|x: Seq<char>| #[trigger] a.contains_key(x) && b.contains_key(x) && access_conflict(a[x], b[x]) is Some
}

/// `c` is a correct report of the conflict between two systems: none exactly when no shared
/// resource clashes, else the clash on one shared resource.
pub open spec fn conflict_between(a: Map<Seq<char>, ResourceAccess>, b: Map<Seq<char>, ResourceAccess>, c: ConflictType) -> bool {
    &&& (c == ConflictType::NoConflict <==> !accesses_clash(a, b))
    &&& (c != ConflictType::NoConflict ==> exists|x: Seq<char>| #[trigger] a.contains_key(x)
        && b.contains_key(x) && access_conflict(a[x], b[x]) == Some(c))
}

/// The conflict between two systems: none when no shared resource clashes, else the conflict
/// on one shared resource that clashes.
pub fn accesses_conflict(a: &StrMap<ResourceAccess>, b: &StrMap<ResourceAccess>) -> (r: ConflictType)
    requires
        a.wf(),
        b.wf(),
    ensures
        conflict_between(a@, b@, r),
{
    let n = a.entry_count();
    let mut i: usize = 0;
    while i < n
        invariant
            a.wf(),
            b.wf(),
            n == a.key_seq().len(),
            i <= n,
            forall|k: int| 0 <= k < i ==> !(b@.contains_key(#[trigger] a.key_seq()[k])
                && access_conflict(a@[a.key_seq()[k]], b@[a.key_seq()[k]]) is Some),
        decreases n - i,
    {
        let name = a.key_at(i);
        let access1 = a.value_at(i);
        match b.get(name.as_str()) {
            Some(access2) => {
                match determine_conflict_type(access1, access2) {
                    Some(c) => {
                        assert(a@.contains_key(a.key_seq()[i as int]));
                        return c;
                    },
                    None => {},
                }
            },
            None => {},
        }
        i = i + 1;
    }
    proof {
        a.lemma_dom();
        assert forall|x: Seq<char>| #[trigger] a@.contains_key(x) && b@.contains_key(x)
            implies access_conflict(a@[x], b@[x]) is None by {
            assert(a.key_seq().to_set().contains(x));
            let k = choose|k: int| 0 <= k < a.key_seq().len() && a.key_seq()[k] == x;
            assert(a.key_seq()[k] == x);
        }
    }
    ConflictType::NoConflict
}

/// Two accesses to one resource clash unless both only read: reads share; a read beside a
/// write or an owner is a read-write (or write-read) conflict; two writers or owners are a
/// write-write conflict.
pub proof fn law_only_reads_share(first: ResourceAccess, second: ResourceAccess)
    ensures
        access_conflict(first, second) is None <==> (first == ResourceAccess::Immutable && second
            == ResourceAccess::Immutable),
        first != ResourceAccess::Immutable && second != ResourceAccess::Immutable ==> access_conflict(first, second)
            == Some(ConflictType::WriteWrite),
        first == ResourceAccess::Immutable && second != ResourceAccess::Immutable ==> access_conflict(first, second)
            == Some(ConflictType::ReadWrite),
        first != ResourceAccess::Immutable && second == ResourceAccess::Immutable ==> access_conflict(first, second)
            == Some(ConflictType::WriteRead),
{
}

/// Two systems that both write or own a shared resource clash, whatever else they access.
pub proof fn law_shared_writers_clash(
    a: Map<Seq<char>, ResourceAccess>,
    b: Map<Seq<char>, ResourceAccess>,
    x: Seq<char>,
)
    requires
        a.contains_key(x),
        b.contains_key(x),
        a[x] != ResourceAccess::Immutable,
        b[x] != ResourceAccess::Immutable,
    ensures
        accesses_clash(a, b),
        forall|c: ConflictType| conflict_between(a, b, c) ==> c != ConflictType::NoConflict,
{
    assert(access_conflict(a[x], b[x]) is Some);
}

} // verus!
