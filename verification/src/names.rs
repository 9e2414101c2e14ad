//! Sets and maps keyed by names (strings), kept as vectors in insertion order.
use vstd::prelude::*;

use crate::table_values::ColumnValue;

verus! {

broadcast use vstd::seq_lib::group_seq_properties;

/// The first name of `s` that differs from `name`.
pub open spec fn first_other(s: Seq<Seq<char>>, name: Seq<char>) -> Option<Seq<char>>
    decreases s.len(),
{
    if s.len() == 0 {
        None
    } else if s[0] != name {
        Some(s[0])
    } else {
        first_other(s.drop_first(), name)
    }
}

/// The character sequences of a vector of strings.
pub open spec fn string_views(v: Seq<String>) -> Seq<Seq<char>> {
    v.map_values(|s: String| s@)
}

/// Whether a string equals a string slice, compared character by character.
pub fn string_eq_str(a: &String, b: &str) -> (r: bool)
    ensures
        r == (a@ == b@),
{
    let b_owned: String = b.to_owned();
    *a == b_owned
}

/// Position of `name` in `v`, if it occurs there.
pub fn find_string(v: &Vec<String>, name: &String) -> (r: Option<usize>)
    ensures
        match r {
            Some(i) => i < v.len() && v@[i as int]@ == name@ && forall|j: int|
                0 <= j < i ==> v@[j]@ != name@,
            None => forall|j: int| 0 <= j < v.len() ==> v@[j]@ != name@,
        },
{
    let mut i: usize = 0;
    while i < v.len()
        invariant
            i <= v.len(),
            forall|j: int| 0 <= j < i ==> v@[j]@ != name@,
        decreases v.len() - i,
    {
        if v[i] == *name {
            return Some(i);
        }
        i = i + 1;
    }
    None
}

/// A finite set of names. Each name is stored once, in the order it was first inserted.
#[derive(Debug)]
pub struct NameSet {
    items: Vec<String>,
}

impl View for NameSet {
    type V = Set<Seq<char>>;

    closed spec fn view(&self) -> Set<Seq<char>> {
        self.names().to_set()
    }
}

impl NameSet {
    /// The stored names, in insertion order.
    pub closed spec fn names(&self) -> Seq<Seq<char>> {
        string_views(self.items@)
    }

    /// Well-formedness: no name is stored twice.
    pub closed spec fn wf(&self) -> bool {
        self.names().no_duplicates()
    }

    proof fn lemma_view(&self)
        requires
            self.names().no_duplicates(),
        ensures
            self@.finite(),
            self@.len() == self.items@.len(),
            forall|i: int| 0 <= i < self.items@.len() ==> self@.contains(#[trigger] self.items@[i]@),
            forall|n: Seq<char>| self@.contains(n) <==> exists|i: int|
                0 <= i < self.items@.len() && #[trigger] self.items@[i]@ == n,
    {
        self.names().unique_seq_to_set();
        assert forall|i: int| 0 <= i < self.items@.len() implies self@.contains(
            #[trigger] self.items@[i]@,
        ) by {
            assert(self.names()[i] == self.items@[i]@);
        }
        assert forall|n: Seq<char>| self@.contains(n) implies exists|i: int|
            0 <= i < self.items@.len() && #[trigger] self.items@[i]@ == n by {
            let k = choose|k: int| 0 <= k < self.names().len() && self.names()[k] == n;
            assert(self.items@[k]@ == n);
        }
    }

    /// The names, as they were inserted.
    pub closed spec fn ordered(&self) -> Seq<Seq<char>> {
        self.names()
    }

    /// The set holds exactly the stored names, each once.
    pub proof fn lemma_ordered(&self)
        requires
            self.wf(),
        ensures
            self@ == self.ordered().to_set(),
            self@.finite(),
            self@.len() == self.ordered().len(),
            self.ordered().no_duplicates(),
            forall|i: int| 0 <= i < self.ordered().len() ==> self@.contains(#[trigger] self.ordered()[i]),
    {
        self.names().unique_seq_to_set();
        assert forall|i: int| 0 <= i < self.ordered().len() implies self@.contains(#[trigger] self.ordered()[i]) by {
            assert(self.names().contains(self.names()[i]));
        }
    }

    /// The `i`-th name, in insertion order.
    pub fn item_at(&self, i: usize) -> (r: &String)
        requires
            i < self.ordered().len(),
        ensures
            r@ == self.ordered()[i as int],
    {
        &self.items[i]
    }

    /// An empty set.
    pub fn new() -> (r: NameSet)
    ensures
            r.wf(),
            r@ == Set::<Seq<char>>::empty(),
            r.ordered() == Seq::<Seq<char>>::empty(),
    {
        let r = NameSet { items: Vec::new() };
        assert(r.names() =~= Seq::<Seq<char>>::empty());
        assert(r@ =~= Set::<Seq<char>>::empty());
        r
    }

    /// Number of names in the set.
    pub fn len(&self) -> (r: usize)
    requires
            self.wf(),
        ensures
            r == self@.len(),
    {
        proof {
            self.lemma_view();
        }
        self.items.len()
    }

    /// Whether the set holds no name.
    pub fn is_empty(&self) -> (r: bool)
    requires
            self.wf(),
        ensures
            r == (self@.len() == 0),
            r == (self@ == Set::<Seq<char>>::empty()),
    {
        proof {
            self.lemma_view();
            if self.items.len() > 0 {
                assert(self@.contains(self.items@[0]@));
            } else {
                assert(self@ =~= Set::<Seq<char>>::empty());
            }
        }
        self.items.len() == 0
    }

    /// Whether `name` is in the set.
    pub fn contains(&self, name: &str) -> (r: bool)
    requires
            self.wf(),
        ensures
            r == self@.contains(name@),
    {
        let owned: String = name.to_owned();
        self.contains_string(&owned)
    }

    /// Whether `name` is in the set.
    pub fn contains_string(&self, name: &String) -> (r: bool)
    requires
            self.wf(),
        ensures
            r == self@.contains(name@),
    {
        proof {
            self.lemma_view();
        }
        find_string(&self.items, name).is_some()
    }

    /// Adds `name`; returns whether it was new.
    pub fn insert(&mut self, name: String) -> (r: bool)
    requires
            old(self).wf(),
        ensures
            final(self).wf(),
            final(self)@ == old(self)@.insert(name@),
            r == !old(self)@.contains(name@),
            r ==> final(self).ordered() == old(self).ordered().push(name@),
            !r ==> final(self).ordered() == old(self).ordered(),
    {
        proof {
            self.lemma_view();
        }
        if find_string(&self.items, &name).is_some() {
            assert(self@ =~= self@.insert(name@));
            false
        } else {
            let ghost old_names = self.names();
            self.items.push(name);
            proof {
                assert(self.names() =~= old_names.push(name@));
                assert(self.names().no_duplicates()) by {
                    assert forall|i: int, j: int|
                        0 <= i < self.names().len() && 0 <= j < self.names().len() && i != j
                        implies self.names()[i] != self.names()[j] by {
                        if i < old_names.len() && j < old_names.len() {
                        } else if i == old_names.len() {
                            assert(old_names[j] == old(self).items@[j]@);
                        } else {
                            assert(old_names[i] == old(self).items@[i]@);
                        }
                    }
                }
                assert(self@ =~= old(self)@.insert(name@));
            }
            true
        }
    }

    /// Removes `name` if present; returns whether it was present.
    pub fn remove(&mut self, name: &str) -> (r: bool)
    requires
            old(self).wf(),
        ensures
            final(self).wf(),
            final(self)@ == old(self)@.remove(name@),
            r == old(self)@.contains(name@),
    {
        proof {
            self.lemma_view();
        }
        let owned: String = name.to_owned();
        match find_string(&self.items, &owned) {
            None => {
                assert(self@ =~= self@.remove(name@));
                false
            },
            Some(i) => {
                let ghost old_names = self.names();
                let _removed = self.items.remove(i);
                proof {
                    assert(self.names() =~= old_names.remove(i as int));
                    assert(self.names().no_duplicates());
                    assert(old_names[i as int] == name@);
                    assert forall|n: Seq<char>| self@.contains(n) == old(self)@.remove(
                        name@,
                    ).contains(n) by {
                        if self@.contains(n) {
                            let k = choose|k: int|
                                0 <= k < self.names().len() && self.names()[k] == n;
                            if k < i {
                                assert(old_names[k] == n);
                                assert(n != name@);
                            } else {
                                assert(old_names[k + 1] == n);
                                assert(n != name@);
                            }
                        }
                        if old(self)@.remove(name@).contains(n) {
                            let k = choose|k: int| 0 <= k < old_names.len() && old_names[k] == n;
                            if k < i {
                                assert(self.names()[k] == n);
                            } else if k > i {
                                assert(self.names()[k - 1] == n);
                            }
                        }
                    }
                    assert(self@ =~= old(self)@.remove(name@));
                }
                true
            },
        }
    }

    /// The first name, in insertion order, that differs from `name`.
    pub fn find_other(&self, name: &String) -> (r: Option<String>)
    requires
            self.wf(),
        ensures
            match r {
                Some(o) => self@.contains(o@) && o@ != name@,
                None => forall|o: Seq<char>| self@.contains(o) ==> o == name@,
            },
            first_other(self.ordered(), name@) == match r {
                Some(o) => Some(o@),
                None => None::<Seq<char>>,
            },
    {
        proof {
            self.lemma_view();
        }
        let mut i: usize = 0;
        assert(self.names().skip(0) =~= self.names());
        while i < self.items.len()
            invariant
                i <= self.items.len(),
                forall|j: int| 0 <= j < i ==> self.items@[j]@ == name@,
                self.wf(),
                first_other(self.names(), name@) == first_other(self.names().skip(i as int), name@),
            decreases self.items.len() - i,
        {
            assert(self.names().skip(i as int)[0] == self.items@[i as int]@);
            if !(self.items[i] == *name) {
                proof {
                    self.lemma_view();
                }
                return Some(self.items[i].clone());
            }
            assert(self.names().skip(i as int).drop_first() =~= self.names().skip(i + 1));
            i = i + 1;
        }
        None
    }

    /// The first name in insertion order, if any.
    pub fn first(&self) -> (r: Option<String>)
    requires
            self.wf(),
        ensures
            match r {
                Some(o) => self@.contains(o@) && o@ == self.ordered()[0],
                None => self@.len() == 0,
            },
    {
        proof {
            self.lemma_view();
        }
        if self.items.len() == 0 {
            None
        } else {
            Some(self.items[0].clone())
        }
    }

    /// A copy of the names, in insertion order.
    pub fn to_vec(&self) -> (r: Vec<String>)
        ensures
            string_views(r@) == self.ordered(),
    {
        let r = self.items.clone();
        assert(string_views(r@) =~= self.ordered());
        r
    }
}


/// A finite map from names to values. Each name is stored once, in the order it was first inserted.
#[derive(Debug, Clone)]
pub struct StrMap<V> {
    entries: Vec<(String, V)>,
}

impl<V> View for StrMap<V> {
    type V = Map<Seq<char>, V>;

    closed spec fn view(&self) -> Map<Seq<char>, V> {
        Map::new(
            |k: Seq<char>| self.key_seq().contains(k),
            |k: Seq<char>| self.entries@[self.key_index(k)].1,
        )
    }
}

impl<V> StrMap<V> {
    /// The stored keys, in insertion order.
    pub closed spec fn key_seq(&self) -> Seq<Seq<char>> {
        self.entries@.map_values(|e: (String, V)| e.0@)
    }

    closed spec fn key_index(&self, k: Seq<char>) -> int {
        choose|i: int| 0 <= i < self.entries@.len() && self.entries@[i].0@ == k
    }

    /// Well-formedness: no key is stored twice.
    pub closed spec fn wf(&self) -> bool {
        self.key_seq().no_duplicates()
    }

    proof fn lemma_index(&self, i: int)
        requires
            self.wf(),
            0 <= i < self.entries@.len(),
        ensures
            self@.contains_key(self.entries@[i].0@),
            self@[self.entries@[i].0@] == self.entries@[i].1,
            self.key_index(self.entries@[i].0@) == i,
    {
        let k = self.entries@[i].0@;
        assert(self.key_seq()[i] == k);
        let j = self.key_index(k);
        assert(self.key_seq()[j] == k);
    }

    proof fn lemma_absent(&self, k: Seq<char>)
        requires
            forall|j: int| 0 <= j < self.entries@.len() ==> self.entries@[j].0@ != k,
        ensures
            !self@.contains_key(k),
    {
        if self.key_seq().contains(k) {
            let j = choose|j: int| 0 <= j < self.key_seq().len() && self.key_seq()[j] == k;
            assert(self.entries@[j].0@ == k);
        }
    }

    /// Position of the entry for `key`, if any.
    fn find(&self, key: &String) -> (r: Option<usize>)
        requires
            self.wf(),
        ensures
            match r {
                Some(i) => i < self.entries@.len() && self.entries@[i as int].0@ == key@
                    && self@.contains_key(key@) && self@[key@] == self.entries@[i as int].1,
                None => !self@.contains_key(key@),
            },
    {
        let mut i: usize = 0;
        while i < self.entries.len()
            invariant
                i <= self.entries.len(),
                forall|j: int| 0 <= j < i ==> self.entries@[j].0@ != key@,
                self.wf(),
            decreases self.entries.len() - i,
        {
            if self.entries[i].0 == *key {
                proof {
                    self.lemma_index(i as int);
                }
                return Some(i);
            }
            i = i + 1;
        }
        proof {
            self.lemma_absent(key@);
        }
        None
    }

    /// An empty map.
    pub fn new() -> (r: StrMap<V>)
        ensures
            r.wf(),
            r@ == Map::<Seq<char>, V>::empty(),
    {
        let r = StrMap { entries: Vec::new() };
        assert(r.key_seq() =~= Seq::<Seq<char>>::empty());
        assert(r@ =~= Map::<Seq<char>, V>::empty());
        r
    }

    pub proof fn lemma_finite(&self)
        ensures
            self@.dom().finite(),
    {
        assert(self@.dom() =~= self.key_seq().to_set());
    }

    /// Number of keys.
    pub fn len(&self) -> (r: usize)
        requires
            self.wf(),
        ensures
            r == self@.len(),
    {
        proof {
            self.key_seq().unique_seq_to_set();
            assert(self@.dom() =~= self.key_seq().to_set());
        }
        self.entries.len()
    }

    /// The value stored for `key`.
    pub fn get(&self, key: &str) -> (r: Option<&V>)
        requires
            self.wf(),
        ensures
            match r {
                Some(v) => self@.contains_key(key@) && *v == self@[key@],
                None => !self@.contains_key(key@),
            },
    {
        let owned: String = key.to_owned();
        match self.find(&owned) {
            Some(i) => Some(&self.entries[i].1),
            None => None,
        }
    }

    /// Whether `key` has an entry.
    pub fn contains_key(&self, key: &str) -> (r: bool)
        requires
            self.wf(),
        ensures
            r == self@.contains_key(key@),
    {
        let owned: String = key.to_owned();
        self.find(&owned).is_some()
    }

    /// Removes the entry for `key`, returning its value.
    pub fn remove(&mut self, key: &str) -> (r: Option<V>)
        requires
            old(self).wf(),
        ensures
            final(self).wf(),
            final(self)@ == old(self)@.remove(key@),
            match r {
                Some(v) => old(self)@.contains_key(key@) && v == old(self)@[key@],
                None => !old(self)@.contains_key(key@),
            },
    {
        let owned: String = key.to_owned();
        match self.find(&owned) {
            None => {
                assert(self@ =~= old(self)@.remove(key@));
                None
            },
            Some(i) => {
                let ghost old_self = *self;
                let (_k, v) = self.entries.remove(i);
                proof {
                    let ok = old_self.key_seq();
                    assert(self.key_seq() =~= ok.remove(i as int));
                    assert(ok[i as int] == key@);
                    assert forall|j: int| 0 <= j < self.entries@.len() implies #[trigger] self@[self.entries@[j].0@] == self.entries@[j].1 && self.entries@[j].0@ != key@ by {
                        self.lemma_index(j);
                        if j < i {
                            assert(ok[j] == self.entries@[j].0@);
                        } else {
                            assert(ok[j + 1] == self.entries@[j].0@);
                            assert(old_self.entries@[j + 1] == self.entries@[j]);
                            old_self.lemma_index(j + 1);
                        }
                        if j < i {
                            assert(old_self.entries@[j] == self.entries@[j]);
                            old_self.lemma_index(j);
                        }
                    }
                    assert forall|k: Seq<char>| #[trigger] self@.contains_key(k) == old_self@.remove(key@).contains_key(k) by {
                        if self@.contains_key(k) {
                            let j = choose|j: int| 0 <= j < self.key_seq().len() && self.key_seq()[j] == k;
                            assert(self.entries@[j].0@ == k);
                            if j < i {
                                assert(old_self.entries@[j] == self.entries@[j]);
                                old_self.lemma_index(j);
                            } else {
                                assert(old_self.entries@[j + 1] == self.entries@[j]);
                                old_self.lemma_index(j + 1);
                            }
                        }
                        if old_self@.remove(key@).contains_key(k) {
                            let j = choose|j: int| 0 <= j < ok.len() && ok[j] == k;
                            if j < i {
                                assert(self.key_seq()[j] == k);
                            } else if j > i {
                                assert(self.key_seq()[j - 1] == k);
                            }
                        }
                    }
                    assert forall|k: Seq<char>| #[trigger] self@.contains_key(k) implies self@[k] == old_self@[k] by {
                        let j = choose|j: int| 0 <= j < self.key_seq().len() && self.key_seq()[j] == k;
                        assert(self.entries@[j].0@ == k);
                        self.lemma_index(j);
                        if j < i {
                            assert(old_self.entries@[j] == self.entries@[j]);
                            old_self.lemma_index(j);
                        } else {
                            assert(old_self.entries@[j + 1] == self.entries@[j]);
                            old_self.lemma_index(j + 1);
                        }
                    }
                    assert(self@ =~= old_self@.remove(key@));
                    old_self.lemma_index(i as int);
                }
                Some(v)
            },
        }
    }

    /// Sets the value for `key`, replacing any earlier one.
    pub fn insert(&mut self, key: String, value: V)
        requires
            old(self).wf(),
        ensures
            final(self).wf(),
            final(self)@ == old(self)@.insert(key@, value),
    {
        let key_view = Ghost(key@);
        let _old = self.remove(key.as_str());
        let ghost mid = *self;
        self.entries.push((key, value));
        proof {
            let mk = mid.key_seq();
            assert(self.key_seq() =~= mk.push(key_view@));
            assert(!mk.contains(key_view@)) by {
                if mk.contains(key_view@) {
                    let j = choose|j: int| 0 <= j < mk.len() && mk[j] == key_view@;
                    assert(mid.entries@[j].0@ == key_view@);
                    mid.lemma_index(j);
                }
            }
            assert(self.wf());
            let n = mid.entries@.len() as int;
            self.lemma_index(n);
            assert forall|k: Seq<char>| #[trigger] self@.contains_key(k) == mid@.insert(key_view@, value).contains_key(k) by {
                if k != key_view@ {
                    if self@.contains_key(k) {
                        let j = choose|j: int| 0 <= j < self.key_seq().len() && self.key_seq()[j] == k;
                        assert(j < n);
                        assert(mid.entries@[j] == self.entries@[j]);
                        mid.lemma_index(j);
                    }
                    if mid@.contains_key(k) {
                        let j = choose|j: int| 0 <= j < mk.len() && mk[j] == k;
                        assert(self.key_seq()[j] == k);
                    }
                }
            }
            assert forall|k: Seq<char>| #[trigger] self@.contains_key(k) && k != key_view@ implies self@[k] == mid@[k] by {
                let j = choose|j: int| 0 <= j < self.key_seq().len() && self.key_seq()[j] == k;
                assert(self.entries@[j].0@ == k);
                assert(j < n);
                self.lemma_index(j);
                assert(mid.entries@[j] == self.entries@[j]);
                mid.lemma_index(j);
            }
            assert(self@ =~= mid@.insert(key_view@, value));
            assert(mid@.insert(key_view@, value) =~= old(self)@.insert(key_view@, value));
        }
    }

    /// The keys are exactly the stored key sequence, which has no duplicates.
    pub proof fn lemma_dom(&self)
        requires
            self.wf(),
        ensures
            self@.dom() == self.key_seq().to_set(),
            self@.dom().finite(),
            self@.len() == self.key_seq().len(),
            self.key_seq().no_duplicates(),
            forall|i: int| 0 <= i < self.key_seq().len() ==> self@.contains_key(#[trigger] self.key_seq()[i]),
    {
        assert(self@.dom() =~= self.key_seq().to_set());
        self.key_seq().unique_seq_to_set();
    }

    /// Number of stored entries.
    pub fn entry_count(&self) -> (r: usize)
        ensures
            r == self.key_seq().len(),
    {
        self.entries.len()
    }

    /// The key of the `i`-th entry, in insertion order.
    pub fn key_at(&self, i: usize) -> (r: &String)
        requires
            i < self.key_seq().len(),
        ensures
            r@ == self.key_seq()[i as int],
    {
        &self.entries[i].0
    }

    /// The value of the `i`-th entry, in insertion order.
    pub fn value_at(&self, i: usize) -> (r: &V)
        requires
            self.wf(),
            i < self.key_seq().len(),
        ensures
            self@.contains_key(self.key_seq()[i as int]),
            *r == self@[self.key_seq()[i as int]],
    {
        proof {
            self.lemma_index(i as int);
        }
        &self.entries[i].1
    }

    /// The keys, in insertion order.
    pub fn keys(&self) -> (r: Vec<String>)
        requires
            self.wf(),
        ensures
            string_views(r@).to_set() == self@.dom(),
            string_views(r@).no_duplicates(),
    {
        let mut r: Vec<String> = Vec::new();
        let mut i: usize = 0;
        while i < self.entries.len()
            invariant
                i <= self.entries.len(),
                string_views(r@) == self.key_seq().take(i as int),
            decreases self.entries.len() - i,
        {
            let ghost old_r = r@;
            let k = self.entries[i].0.clone();
            r.push(k);
            assert(r@ == old_r.push(k));
            assert(string_views(r@) =~= string_views(old_r).push(k@));
            assert(self.key_seq()[i as int] == k@);
            assert(string_views(r@) =~= self.key_seq().take(i + 1));
            i = i + 1;
        }
        assert(self.key_seq().take(i as int) =~= self.key_seq());
        assert(string_views(r@).to_set() =~= self@.dom());
        r
    }
}

impl StrMap<ColumnValue> {
    /// A copy of the map: the same entries, in the same order.
    pub fn copy_entries(&self) -> (r: StrMap<ColumnValue>)
        ensures
            r@ == self@,
            r.key_seq() == self.key_seq(),
            r.wf() == self.wf(),
    {
        let mut entries: Vec<(String, ColumnValue)> = Vec::new();
        let mut i: usize = 0;
        while i < self.entries.len()
            invariant
                i <= self.entries@.len(),
                entries@ == self.entries@.take(i as int),
            decreases self.entries@.len() - i,
        {
            let e = (self.entries[i].0.clone(), self.entries[i].1.copy_value());
            entries.push(e);
            assert(self.entries@.take(i + 1) =~= self.entries@.take(i as int).push(self.entries@[i as int]));
            i = i + 1;
        }
        assert(self.entries@.take(i as int) =~= self.entries@);
        let r = StrMap { entries };
        assert(r.key_seq() =~= self.key_seq());
        assert(r@ =~= self@);
        r
    }
}

} // verus!
