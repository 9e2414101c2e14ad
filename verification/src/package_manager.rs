//! Package manifests and the order in which a package's dependencies are resolved. Fetching
//! a package (from the cache or the registry) is the caller's work: the resolver asks for one
//! package at a time and is handed what was fetched.
use vstd::prelude::*;

use crate::names::{NameSet, StrMap};

verus! {

/// A package manifest.
#[derive(Debug, Clone)]
pub struct Package {
    pub name: String,
    pub version: String,
    pub description: Option<String>,
    pub authors: Vec<String>,
    pub license: Option<String>,
    pub dependencies: StrMap<VersionRequirement>,
    pub dev_dependencies: StrMap<VersionRequirement>,
    pub lib: Option<LibraryTarget>,
    pub bin: Vec<BinaryTarget>,
}

/// The library a package builds.
#[derive(Debug, Clone)]
pub struct LibraryTarget {
    pub name: Option<String>,
    pub path: String,
}

/// A program a package builds.
#[derive(Debug, Clone)]
pub struct BinaryTarget {
    pub name: String,
    pub path: String,
}

/// The version of a dependency and where it comes from.
#[derive(Debug, Clone)]
pub struct VersionRequirement {
    pub version: String,
    pub source: PackageSource,
}

/// Where a package comes from.
#[derive(Debug, Clone)]
pub enum PackageSource {
    Registry { url: String },
    Git { url: String, rev: Option<String> },
    Path { path: String },
}

/// An error of package management.
#[derive(Debug)]
pub enum PackageError {
    /// A failed read or write, by its message.
    IoError(String),
    ParseError(String),
    NetworkError(String),
    DependencyConflict(String),
    NotFound(String),
}

impl PackageError {
    /// The message of the error.
    pub fn message(&self) -> (r: String)
        ensures
            r@ == match self {
                PackageError::IoError(m) => "IO error: "@ + m@,
                PackageError::ParseError(m) => "Parse error: "@ + m@,
                PackageError::NetworkError(m) => "Network error: "@ + m@,
                PackageError::DependencyConflict(m) => "Dependency conflict: "@ + m@,
                PackageError::NotFound(n) => "Package not found: "@ + n@,
            },
    {
        let mut r = String::new();
        match self {
            PackageError::IoError(m) => {
                r.append("IO error: ");
                r.append(m.as_str());
            },
            PackageError::ParseError(m) => {
                r.append("Parse error: ");
                r.append(m.as_str());
            },
            PackageError::NetworkError(m) => {
                r.append("Network error: ");
                r.append(m.as_str());
            },
            PackageError::DependencyConflict(m) => {
                r.append("Dependency conflict: ");
                r.append(m.as_str());
            },
            PackageError::NotFound(n) => {
                r.append("Package not found: ");
                r.append(n.as_str());
            },
        }
        r
    }
}

/// A package manager over one registry and cache directory.
pub struct PackageManager {
    registry_url: String,
    cache_dir: String,
}

impl PackageManager {
    /// The registry packages are downloaded from.
    pub closed spec fn registry(&self) -> Seq<char> {
        self.registry_url@
    }

    /// The directory fetched packages are kept in.
    pub closed spec fn cache(&self) -> Seq<char> {
        self.cache_dir@
    }

    /// A manager for `registry_url` and `cache_dir`.
    pub fn new(registry_url: String, cache_dir: String) -> (r: PackageManager)
        ensures
            r.registry() == registry_url@,
            r.cache() == cache_dir@,
    {
        PackageManager { registry_url, cache_dir }
    }

    /// The registry packages are downloaded from.
    pub fn registry_url(&self) -> (r: &String)
        ensures
            r@ == self.registry(),
    {
        &self.registry_url
    }

    /// The directory fetched packages are kept in.
    pub fn cache_dir(&self) -> (r: &String)
        ensures
            r@ == self.cache(),
    {
        &self.cache_dir
    }

    /// Starts resolving the dependencies of `package`.
    pub fn resolve_dependencies(&self, package: Package) -> (r: DependencyResolver)
        requires
            package.dependencies.wf(),
        ensures
            r.wf(),
            r.resolved_names() == Seq::<Seq<char>>::empty(),
            r.visited() == set![package.name@],
            r.pending_names() == seq![package.name@],
    {
        DependencyResolver::new(package)
    }
}

/// A package whose dependencies are being resolved, and how many of them have been fetched.
#[derive(Debug)]
struct Frame {
    package: Package,
    next_dependency: usize,
}

/// What the resolver needs next.
#[derive(Debug)]
pub enum ResolveStep {
    /// The package `name` at `version` is to be fetched and handed over with `supply`.
    Fetch { name: String, version: String },
    /// Every package is resolved.
    Done,
}

/// Resolves a package's dependencies depth first: each package is taken once, by name, and
/// comes after the packages it depends on that were taken for the first time below it.
pub struct DependencyResolver {
    visited: NameSet,
    resolved: Vec<Package>,
    stack: Vec<Frame>,
}

/// Moving the last pending name to the end of the resolved names keeps the names distinct
/// and the same as a set.
proof fn lemma_move_last(r: Seq<Seq<char>>, p: Seq<Seq<char>>, x: Seq<char>)
    requires
        (r + p.push(x)).no_duplicates(),
    ensures
        (r.push(x) + p).no_duplicates(),
        (r.push(x) + p).to_set() == (r + p.push(x)).to_set(),
{
    let a = r + p.push(x);
    let b = r.push(x) + p;
    let f = |i: int| if i < r.len() { i } else if i == r.len() { a.len() - 1 } else { i - 1 };
    assert forall|i: int| 0 <= i < b.len() implies 0 <= #[trigger] f(i) < a.len() && b[i] == a[f(i)] by {
        if i < r.len() {
        } else if i == r.len() {
        } else {
            assert(b[i] == p[i - r.len() - 1]);
            assert(a[i - 1] == p[i - 1 - r.len()]);
        }
    }
    assert forall|i: int, j: int| 0 <= i < b.len() && 0 <= j < b.len() && i != j implies b[i] != b[j] by {
        assert(f(i) != f(j));
        assert(b[i] == a[f(i)] && b[j] == a[f(j)]);
    }
    assert forall|y: Seq<char>| b.to_set().contains(y) <==> a.to_set().contains(y) by {
        if b.contains(y) {
            let i = choose|i: int| 0 <= i < b.len() && b[i] == y;
            assert(a[f(i)] == y);
        }
        if a.contains(y) {
            let k = choose|k: int| 0 <= k < a.len() && a[k] == y;
            if k < r.len() {
                assert(b[k] == y);
            } else if k == a.len() - 1 {
                assert(b[r.len() as int] == y);
            } else {
                assert(b[k + 1] == a[k]);
            }
        }
    }
    assert(b.to_set() =~= a.to_set());
}

impl DependencyResolver {
    /// The names of the packages taken so far.
    pub closed spec fn visited(&self) -> Set<Seq<char>> {
        self.visited@
    }

    /// The names of the resolved packages, in order.
    pub closed spec fn resolved_names(&self) -> Seq<Seq<char>> {
        self.resolved@.map_values(|p: Package| p.name@)
    }

    /// The names of the packages still being resolved, outermost first.
    pub closed spec fn pending_names(&self) -> Seq<Seq<char>> {
        self.stack@.map_values(|f: Frame| f.package.name@)
    }

    /// Every package taken is either resolved or still being resolved, and once.
    pub closed spec fn wf(&self) -> bool {
        &&& self.visited.wf()
        &&& (self.resolved_names() + self.pending_names()).no_duplicates()
        &&& (self.resolved_names() + self.pending_names()).to_set() == self.visited@
        &&& forall|i: int| 0 <= i < self.stack@.len() ==> {
            &&& (#[trigger] self.stack@[i]).package.dependencies.wf()
            &&& self.stack@[i].next_dependency <= self.stack@[i].package.dependencies@.len()
        }
    }

    fn new(package: Package) -> (r: DependencyResolver)
        requires
            package.dependencies.wf(),
        ensures
            r.wf(),
            r.resolved_names() == Seq::<Seq<char>>::empty(),
            r.visited() == set![package.name@],
            r.pending_names() == seq![package.name@],
    {
        let mut visited = NameSet::new();
        visited.insert(package.name.clone());
        let mut stack: Vec<Frame> = Vec::new();
        stack.push(Frame { package, next_dependency: 0 });
        let r = DependencyResolver { visited, resolved: Vec::new(), stack };
        proof {
            package.dependencies.lemma_dom();
            assert(r.resolved_names() =~= Seq::<Seq<char>>::empty());
            assert(r.pending_names() =~= seq![package.name@]);
            assert(r.resolved_names() + r.pending_names() =~= seq![package.name@]);
            assert(seq![package.name@].to_set() =~= set![package.name@]) by {
                assert(seq![package.name@].contains(package.name@)) by {
                    assert(seq![package.name@][0] == package.name@);
                }
            }
            assert(r.visited() =~= set![package.name@]);
        }
        r
    }

    /// Finishes the packages whose dependencies have all been fetched, then asks for the next
    /// dependency to fetch, or reports that all are resolved.
    pub fn next_step(&mut self) -> (r: ResolveStep)
        requires
            old(self).wf(),
        ensures
            final(self).wf(),
            final(self).visited() == old(self).visited(),
            final(self).pending_names() == old(self).pending_names().take(final(self).pending_names().len() as int),
            final(self).resolved_names() == old(self).resolved_names()
                + old(self).pending_names().skip(final(self).pending_names().len() as int).reverse(),
            r is Done <==> final(self).pending_names().len() == 0,
    {
        while self.stack.len() > 0
            invariant
                self.wf(),
                self.visited() == old(self).visited(),
                self.pending_names().len() <= old(self).pending_names().len(),
                self.pending_names() == old(self).pending_names().take(self.pending_names().len() as int),
                self.resolved_names() == old(self).resolved_names()
                    + old(self).pending_names().skip(self.pending_names().len() as int).reverse(),
            decreases self.stack@.len(),
        {
            let last = self.stack.len() - 1;
            let count = self.stack[last].package.dependencies.entry_count();
            proof {
                self.stack@[last as int].package.dependencies.lemma_dom();
            }
            if self.stack[last].next_dependency < count {
                let deps = &self.stack[last].package.dependencies;
                let k = self.stack[last].next_dependency;
                let name = deps.key_at(k).clone();
                let version = deps.value_at(k).version.clone();
                return ResolveStep::Fetch { name, version };
            }
            let ghost before = *self;
            let frame = self.stack.pop().unwrap();
            self.resolved.push(frame.package);
            proof {
                let x = frame.package.name@;
                assert(self.resolved_names() =~= before.resolved_names().push(x));
                assert(self.pending_names() =~= before.pending_names().drop_last());
                assert(before.pending_names() =~= self.pending_names().push(x));
                lemma_move_last(before.resolved_names(), self.pending_names(), x);
                let op = old(self).pending_names();
                let n = self.pending_names().len() as int;
                assert(before.pending_names() == op.take(n + 1));
                assert(before.pending_names()[n] == x);
                assert(op.take(n + 1)[n] == op[n]);
                assert(self.pending_names() =~= op.take(n));
                assert(op[n] == x);
                assert(op.skip(n).reverse() =~= op.skip(n + 1).reverse().push(x));
                assert(self.resolved_names() =~= old(self).resolved_names() + op.skip(n).reverse());
                assert forall|i: int| 0 <= i < self.stack@.len() implies {
                    &&& (#[trigger] self.stack@[i]).package.dependencies.wf()
                    &&& self.stack@[i].next_dependency <= self.stack@[i].package.dependencies@.len()
                } by {
                    assert(self.stack@[i] == before.stack@[i]);
                }
            }
        }
        ResolveStep::Done
    }

    /// Hands over the package fetched for the dependency last asked for: the dependency counts
    /// as fetched, and the package is taken unless one of its name was taken before.
    pub fn supply(&mut self, fetched: Package)
        requires
            old(self).wf(),
            old(self).pending_names().len() > 0,
            fetched.dependencies.wf(),
        ensures
            final(self).wf(),
            final(self).resolved_names() == old(self).resolved_names(),
            old(self).visited().contains(fetched.name@) ==> final(self).visited() == old(self).visited()
                && final(self).pending_names() == old(self).pending_names(),
            !old(self).visited().contains(fetched.name@) ==> final(self).visited() == old(self).visited().insert(fetched.name@)
                && final(self).pending_names() == old(self).pending_names().push(fetched.name@),
    {
        let last = self.stack.len() - 1;
        let ghost before = *self;
        let mut frame = self.stack.pop().unwrap();
        proof {
            assert(frame == before.stack@[last as int]);
        }
        if frame.next_dependency < frame.package.dependencies.entry_count() {
            frame.next_dependency = frame.next_dependency + 1;
        }
        proof {
            frame.package.dependencies.lemma_dom();
        }
        self.stack.push(frame);
        proof {
            assert(self.pending_names() =~= before.pending_names());
            assert forall|i: int| 0 <= i < self.stack@.len() implies {
                &&& (#[trigger] self.stack@[i]).package.dependencies.wf()
                &&& self.stack@[i].next_dependency <= self.stack@[i].package.dependencies@.len()
            } by {
                if i < last {
                    assert(self.stack@[i] == before.stack@[i]);
                }
            }
        }
        if self.visited.contains_string(&fetched.name) {
            return;
        }
        let ghost mid = *self;
        self.visited.insert(fetched.name.clone());
        let ghost fname = fetched.name@;
        proof {
            fetched.dependencies.lemma_dom();
        }
        self.stack.push(Frame { package: fetched, next_dependency: 0 });
        proof {
            assert(self.pending_names() =~= mid.pending_names().push(fname));
            let all = mid.resolved_names() + mid.pending_names();
            assert(self.resolved_names() + self.pending_names() =~= all.push(fname));
            assert(!all.contains(fname)) by {
                if all.contains(fname) {
                    let j = choose|j: int| 0 <= j < all.len() && all[j] == fname;
                    assert(all.to_set().contains(fname));
                }
            }
            all.lemma_push_to_set_commute(fname);
            assert forall|i: int, j: int| 0 <= i < j < all.push(fname).len() implies all.push(fname)[i] != all.push(fname)[j] by {
                if j == all.len() {
                    assert(all.push(fname)[i] == all[i]);
                }
            }
            assert forall|i: int| 0 <= i < self.stack@.len() implies {
                &&& (#[trigger] self.stack@[i]).package.dependencies.wf()
                &&& self.stack@[i].next_dependency <= self.stack@[i].package.dependencies@.len()
            } by {
                if i < self.stack@.len() - 1 {
                    assert(self.stack@[i] == mid.stack@[i]);
                }
            }
        }
    }

    /// The resolved packages, in order; each after the packages it depends on that were first
    /// taken below it.
    pub fn finish(self) -> (r: Vec<Package>)
        requires
            self.wf(),
        ensures
            r@.map_values(|p: Package| p.name@) == self.resolved_names(),
    {
        self.resolved
    }
}

} // verus!
