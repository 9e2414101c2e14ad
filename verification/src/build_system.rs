//! Build targets and the order in which they are built: every target after the targets it
//! depends on. Paths are kept as strings; compiling and linking is done by the caller.
use vstd::prelude::*;

use crate::graph::{
    edge, graph_view, graph_wf, has_cycle_spec, lemma_order_excludes_cycle,
    lemma_stuck_set_has_cycle, topological_order, topological_order_of,
};
use crate::names::{string_views, NameSet, StrMap};

verus! {

broadcast use vstd::seq_lib::group_seq_properties;

/// A unit of the build: its sources, the targets it needs first, and what it produces.
#[derive(Debug, Clone)]
pub struct BuildTarget {
    pub name: String,
    pub source_files: Vec<String>,
    pub dependencies: Vec<String>,
    pub output_type: OutputType,
    pub output_path: String,
}

/// What a target produces.
#[derive(Debug, Clone, Copy, PartialEq, Eq, Structural)]
pub enum OutputType {
    Executable,
    Library,
    Object,
}

/// The targets of a build, keyed by name, and how to build them.
#[derive(Debug)]
pub struct BuildConfig {
    pub targets: StrMap<BuildTarget>,
    pub optimization_level: OptimizationLevel,
    pub debug_info: bool,
    pub target_triple: String,
}

/// How much the compiler optimises.
#[derive(Debug, Clone, Copy, PartialEq, Eq, Structural)]
pub enum OptimizationLevel {
    Unoptimized,
    Speed,
    Size,
    Maximum,
}

/// An error of the build.
#[derive(Debug)]
pub enum BuildError {
    TargetNotFound(String),
    /// A failed read or write, by its message.
    IoError(String),
    CompilationError(String),
    LinkError(String),
    DependencyError(String),
}

impl BuildError {
    /// The message of the error.
    pub fn message(&self) -> (r: String)
        ensures
            r@ == match self {
                BuildError::TargetNotFound(n) => "Target not found: "@ + n@,
                BuildError::IoError(m) => "IO error: "@ + m@,
                BuildError::CompilationError(m) => "Compilation error: "@ + m@,
                BuildError::LinkError(m) => "Link error: "@ + m@,
                BuildError::DependencyError(m) => "Dependency error: "@ + m@,
            },
    {
        let mut r = String::new();
        match self {
            BuildError::TargetNotFound(n) => {
                r.append("Target not found: ");
                r.append(n.as_str());
            },
            BuildError::IoError(m) => {
                r.append("IO error: ");
                r.append(m.as_str());
            },
            BuildError::CompilationError(m) => {
                r.append("Compilation error: ");
                r.append(m.as_str());
            },
            BuildError::LinkError(m) => {
                r.append("Link error: ");
                r.append(m.as_str());
            },
            BuildError::DependencyError(m) => {
                r.append("Dependency error: ");
                r.append(m.as_str());
            },
        }
        r
    }
}

/// The graph with an edge from each target to each of its dependencies.
pub open spec fn dependency_graph(targets: Map<Seq<char>, BuildTarget>) -> Map<Seq<char>, Set<Seq<char>>> {
    Map::new(
        |k: Seq<char>| targets.contains_key(k),
        |k: Seq<char>| string_views(targets[k].dependencies@).to_set(),
    )
}

/// Whether `n` is named as a dependency of some target but is no target itself.
pub open spec fn missing_dependency(targets: Map<Seq<char>, BuildTarget>, n: Seq<char>) -> bool {
    &&& !targets.contains_key(n)
    &&& exists|t: Seq<char>| #[trigger] targets.contains_key(t)
        && string_views(targets[t].dependencies@).contains(n)
}

/// A build system over one configuration.
pub struct BuildSystem {
    config: BuildConfig,
}

/// The names in `v`, as a set.
fn name_set_of(v: &Vec<String>) -> (r: NameSet)
    ensures
        r.wf(),
        r@ == string_views(v@).to_set(),
{
    let mut r = NameSet::new();
    let mut i: usize = 0;
    while i < v.len()
        invariant
            i <= v.len(),
            r.wf(),
            r@ == string_views(v@).take(i as int).to_set(),
        decreases v.len() - i,
    {
        r.insert(v[i].clone());
        proof {
            assert(string_views(v@).take(i + 1) =~= string_views(v@).take(i as int).push(v@[i as int]@));
            string_views(v@).take(i as int).lemma_push_to_set_commute(v@[i as int]@);
        }
        i = i + 1;
    }
    assert(string_views(v@).take(i as int) =~= string_views(v@));
    r
}

impl BuildSystem {
    /// The targets, by name.
    pub closed spec fn targets(&self) -> Map<Seq<char>, BuildTarget> {
        self.config.targets@
    }

    /// The configuration's map of targets is well formed.
    pub closed spec fn wf(&self) -> bool {
        self.config.targets.wf()
    }

    /// A build system for `config`.
    pub fn new(config: BuildConfig) -> (r: BuildSystem)
        requires
            config.targets.wf(),
        ensures
            r.wf(),
            r.targets() == config.targets@,
    {
        BuildSystem { config }
    }

    /// The configuration.
    pub fn config(&self) -> (r: &BuildConfig)
        ensures
            r.targets@ == self.targets(),
    {
        &self.config
    }

    /// The first dependency, in target order, that names no target.
    fn find_missing_dependency(&self) -> (r: Option<String>)
        requires
            self.wf(),
        ensures
            r matches Some(n) ==> missing_dependency(self.targets(), n@),
            r is None ==> forall|t: Seq<char>, d: Seq<char>| #[trigger] self.targets().contains_key(t)
                && #[trigger] string_views(self.targets()[t].dependencies@).contains(d)
                ==> self.targets().contains_key(d),
    {
        let targets = &self.config.targets;
        let n = targets.entry_count();
        proof {
            targets.lemma_dom();
        }
        let mut i: usize = 0;
        while i < n
            invariant
                self.wf(),
                *targets == self.config.targets,
                n == targets.key_seq().len(),
                i <= n,
                forall|j: int, d: Seq<char>| 0 <= j < i
                    && #[trigger] string_views(self.targets()[targets.key_seq()[j]].dependencies@).contains(d)
                    ==> self.targets().contains_key(d),
            decreases n - i,
        {
            let target = targets.value_at(i);
            let ghost key = targets.key_seq()[i as int];
            let deps = &target.dependencies;
            let mut j: usize = 0;
            while j < deps.len()
                invariant
                    self.wf(),
                    *targets == self.config.targets,
                    self.targets().contains_key(key),
                    *target == self.targets()[key],
                    *deps == target.dependencies,
                    j <= deps.len(),
                    forall|m: int| 0 <= m < j ==> self.targets().contains_key(#[trigger] string_views(deps@)[m]),
                decreases deps.len() - j,
            {
                if !targets.contains_key(deps[j].as_str()) {
                    proof {
                        assert(string_views(deps@).contains(deps@[j as int]@)) by {
                            assert(string_views(deps@)[j as int] == deps@[j as int]@);
                        }
                    }
                    return Some(deps[j].clone());
                }
                proof {
                    assert(string_views(deps@)[j as int] == deps@[j as int]@);
                }
                j = j + 1;
            }
            proof {
                assert forall|j2: int, d: Seq<char>| 0 <= j2 < i + 1
                    && #[trigger] string_views(self.targets()[targets.key_seq()[j2]].dependencies@).contains(d)
                    implies self.targets().contains_key(d) by {
                    if j2 == i {
                        let m = choose|m: int| 0 <= m < string_views(deps@).len() && string_views(deps@)[m] == d;
                    }
                }
            }
            i = i + 1;
        }
        proof {
            assert forall|t: Seq<char>, d: Seq<char>| #[trigger] self.targets().contains_key(t)
                && #[trigger] string_views(self.targets()[t].dependencies@).contains(d)
                implies self.targets().contains_key(d) by {
                assert(targets.key_seq().to_set().contains(t));
                let j = choose|j: int| 0 <= j < targets.key_seq().len() && targets.key_seq()[j] == t;
            }
        }
        None
    }

    /// The dependency graph of the targets as a map of name sets.
    fn graph_of_targets(&self) -> (g: StrMap<NameSet>)
        requires
            self.wf(),
        ensures
            graph_wf(&g),
            graph_view(&g) == dependency_graph(self.targets()),
    {
        let targets = &self.config.targets;
        let ghost dg = dependency_graph(self.targets());
        let mut g: StrMap<NameSet> = StrMap::new();
        let n = targets.entry_count();
        proof {
            targets.lemma_dom();
        }
        let mut i: usize = 0;
        while i < n
            invariant
                self.wf(),
                *targets == self.config.targets,
                dg == dependency_graph(self.targets()),
                n == targets.key_seq().len(),
                i <= n,
                g.wf(),
                forall|k: Seq<char>| #[trigger] g@.contains_key(k) ==> g@[k].wf(),
                forall|k: Seq<char>| #[trigger] g@.contains_key(k) <==> exists|j: int| 0 <= j < i && targets.key_seq()[j] == k,
                forall|k: Seq<char>| #[trigger] g@.contains_key(k) ==> g@[k]@ == dg[k],
            decreases n - i,
        {
            let name = targets.key_at(i);
            let target = targets.value_at(i);
            let ghost key = targets.key_seq()[i as int];
            let deps = name_set_of(&target.dependencies);
            g.insert(name.clone(), deps);
            proof {
                assert forall|k: Seq<char>| #[trigger] g@.contains_key(k) <==> exists|j: int| 0 <= j < i + 1 && targets.key_seq()[j] == k by {
                    if g@.contains_key(k) && k != key {
                        let j = choose|j: int| 0 <= j < i && targets.key_seq()[j] == k;
                    }
                    if exists|j: int| 0 <= j < i + 1 && targets.key_seq()[j] == k {
                        let j = choose|j: int| 0 <= j < i + 1 && targets.key_seq()[j] == k;
                        if j < i {
                            assert(exists|j2: int| 0 <= j2 < i && targets.key_seq()[j2] == k);
                        }
                    }
                }
            }
            i = i + 1;
        }
        proof {
            assert(graph_view(&g) =~= dg) by {
                assert forall|k: Seq<char>| graph_view(&g).contains_key(k) <==> dg.contains_key(k) by {
                    if dg.contains_key(k) {
                        assert(targets.key_seq().to_set().contains(k));
                        let j = choose|j: int| 0 <= j < targets.key_seq().len() && targets.key_seq()[j] == k;
                    }
                    if g@.contains_key(k) {
                        let j = choose|j: int| 0 <= j < n && targets.key_seq()[j] == k;
                    }
                }
            }
        }
        g
    }

    /// Whether the dependencies of the targets form a cycle; a build of such targets never
    /// finishes ordering them.
    pub fn has_dependency_cycle(&self) -> (r: bool)
        requires
            self.wf(),
        ensures
            r == has_cycle_spec(dependency_graph(self.targets())),
    {
        let g = self.graph_of_targets();
        crate::graph::graph_has_cycle(&g)
    }

    /// The names of all targets in the order they are built: each once, and each after every
    /// target it depends on. Fails with the name of a dependency that is no target, if there
    /// is one. The dependencies must not form a cycle.
    pub fn build_all(&self) -> (r: Result<Vec<String>, BuildError>)
        requires
            self.wf(),
            !has_cycle_spec(dependency_graph(self.targets())),
        ensures
            r is Ok <==> !exists|n: Seq<char>| #[trigger] missing_dependency(self.targets(), n),
            r matches Ok(order) ==> topological_order(dependency_graph(self.targets()), string_views(order@))
                && string_views(order@).to_set() == self.targets().dom(),
            r matches Err(e) ==> (e matches BuildError::TargetNotFound(n) && missing_dependency(self.targets(), n@)),
    {
        match self.find_missing_dependency() {
            Some(n) => {
                return Err(BuildError::TargetNotFound(n));
            },
            None => {},
        }
        let ghost dg = dependency_graph(self.targets());
        let g = self.graph_of_targets();
        proof {
            assert forall|x: Seq<char>, y: Seq<char>| #[trigger] edge(graph_view(&g), x, y)
                implies graph_view(&g).contains_key(y) by {
                assert(self.targets().contains_key(x));
                assert(string_views(self.targets()[x].dependencies@).contains(y));
            }
        }
        let (order, stuck) = topological_order_of(&g);
        proof {
            if string_views(stuck@).len() > 0 {
                let sv = string_views(stuck@);
                assert(sv.to_set().contains(sv[0]));
                lemma_stuck_set_has_cycle(dg, sv.to_set());
            }
            assert forall|k: Seq<char>| dg.contains_key(k) implies string_views(order@).contains(k) by {
                if !string_views(order@).contains(k) {
                    assert(string_views(stuck@).contains(k));
                }
            }
            assert(string_views(order@).to_set() =~= dg.dom());
            assert(!exists|n: Seq<char>| #[trigger] missing_dependency(self.targets(), n)) by {
                if exists|n: Seq<char>| #[trigger] missing_dependency(self.targets(), n) {
                    let n = choose|n: Seq<char>| #[trigger] missing_dependency(self.targets(), n);
                    let t = choose|t: Seq<char>| #[trigger] self.targets().contains_key(t)
                        && string_views(self.targets()[t].dependencies@).contains(n);
                }
            }
        }
        Ok(order)
    }
}

} // verus!
