use tricti::ast::{Attribute, ConstValue, Expression, IntegerLiteral, Literal, Program, Statement};
use tricti::build_system::{BuildConfig, BuildError, BuildSystem, BuildTarget, OptimizationLevel, OutputType};
use tricti::filesystem::FileSystem;
use tricti::names::{NameSet, StrMap};
use tricti::package_manager::{Package, PackageManager, PackageSource, ResolveStep, VersionRequirement};
use tricti::program_loader::{
    add_default_use, add_implicit_modules, decide_stdlib_status, expansion_of, place_expansion, has_program_no_std_attribute, implicit_module_names,
    module_candidates, scan_candidates, use_candidates, Expansion, LoadOptions, ModuleDirEntry, Probe, ScanOutcome,
    SearchContext, StdlibStatus,
};

fn const_decl(name: &str, attributes: Vec<Attribute>) -> Statement {
    Statement::ConstDecl {
        attributes,
        name: name.to_string(),
        type_params: vec![],
        type_annotation: None,
        value: ConstValue::Expression(Expression::Literal(Literal::Integer(IntegerLiteral {
            raw: "0".to_string(),
            value: 0,
            suffix: None,
        }))),
        extern_linkage: None,
    }
}

fn options(skip_env: bool, skip_flag: bool) -> LoadOptions {
    LoadOptions {
        skip_std_env: skip_env,
        skip_std_flag: skip_flag,
        stdlib_path: "/lib/stdlib/std.tri".to_string(),
        stdlib_root: "/lib/stdlib".to_string(),
        base_dir: "/work".to_string(),
    }
}

fn use_stmt(path: &[&str]) -> Statement {
    Statement::Use { is_public: false, path: path.iter().map(|s| s.to_string()).collect(), alias: None }
}

#[test]
fn no_std_attribute_is_read_from_the_first_declaration() {
    let with = Program {
        statements: vec![const_decl("main", vec![Attribute { name: "no_std".to_string(), arguments: vec![] }])],
    };
    assert!(has_program_no_std_attribute(&with));
    let later = Program {
        statements: vec![
            const_decl("main", vec![]),
            const_decl("other", vec![Attribute { name: "no_std".to_string(), arguments: vec![] }]),
        ],
    };
    assert!(!has_program_no_std_attribute(&later));
    assert!(!has_program_no_std_attribute(&Program { statements: vec![] }));
}

#[test]
fn stdlib_status_follows_environment_flag_then_attribute() {
    assert_eq!(decide_stdlib_status(&options(true, true), true), StdlibStatus::SkippedEnvironment);
    assert_eq!(decide_stdlib_status(&options(false, true), true), StdlibStatus::SkippedFlag);
    assert_eq!(decide_stdlib_status(&options(false, false), true), StdlibStatus::SkippedAttribute);
    assert_eq!(decide_stdlib_status(&options(false, false), false), StdlibStatus::Included);
}

#[test]
fn default_use_is_added_once() {
    let mut program = Program { statements: vec![const_decl("main", vec![])] };
    add_default_use(&mut program, &options(false, false));
    assert_eq!(program.statements.len(), 2);
    match &program.statements[0] {
        Statement::Use { is_public, path, alias } => {
            assert!(!is_public);
            assert_eq!(path, &vec!["std".to_string(), "core".to_string()]);
            assert!(alias.is_none());
        }
        _ => panic!("expected a use"),
    }
    add_default_use(&mut program, &options(false, false));
    assert_eq!(program.statements.len(), 2);

    let mut skipped = Program { statements: vec![const_decl("main", vec![])] };
    add_default_use(&mut skipped, &options(false, true));
    assert_eq!(skipped.statements.len(), 1);
}

#[test]
fn statements_expand_by_kind() {
    let module = Statement::ModuleDecl { is_public: false, name: "net".to_string(), items: None };
    assert!(matches!(expansion_of(&module), Expansion::LoadModule(n) if n == "net"));
    let inline = Statement::ModuleDecl { is_public: false, name: "net".to_string(), items: Some(vec![]) };
    assert!(matches!(expansion_of(&inline), Expansion::KeepPublicModule));
    assert!(matches!(expansion_of(&use_stmt(&["a", "b"])), Expansion::ResolveUse(p) if p == vec!["a".to_string(), "b".to_string()]));
    assert!(matches!(expansion_of(&use_stmt(&[])), Expansion::Drop));
    assert!(matches!(expansion_of(&const_decl("x", vec![])), Expansion::Keep));
}

fn parts(v: &[&str]) -> Vec<String> {
    v.iter().map(|s| s.to_string()).collect()
}

fn context() -> SearchContext {
    SearchContext {
        base_dir: "/p/src".to_string(),
        root_dir: "/p".to_string(),
        base_parent: Some("/p".to_string()),
        current_parent: Some("/p/src".to_string()),
        current_stem: Some("main".to_string()),
        stdlib_root: "/lib/stdlib".to_string(),
    }
}

#[test]
fn module_candidates_follow_the_search_roots() {
    let found = module_candidates(&"net".to_string(), &context());
    assert_eq!(found.len(), 11 * 3);
    assert_eq!(found[0], parts(&["/p/src", "net.tri"]));
    assert_eq!(found[1], parts(&["/p/src", "net", "net.tri"]));
    assert_eq!(found[2], parts(&["/p/src", "net", "mod.tri"]));
    assert_eq!(found[3], parts(&["/p/src", "src", "net.tri"]));
    assert_eq!(found[32], parts(&["/p/src", "main", "net", "mod.tri"]));
}

#[test]
fn use_candidates_for_std_and_local_paths() {
    let std_paths = use_candidates(&parts(&["std", "io", "file"]), &context());
    assert_eq!(std_paths.len(), 6);
    assert_eq!(std_paths[0], parts(&["/lib/stdlib", "io/file.tri"]));
    assert_eq!(std_paths[1], parts(&["/lib/stdlib", "io/file", "io.tri"]));
    assert_eq!(std_paths[5], parts(&["/lib/stdlib", "io", "mod.tri"]));

    let bare_std = use_candidates(&parts(&["std"]), &context());
    assert_eq!(bare_std[0], parts(&["/lib/stdlib", "std.tri"]));

    let local = use_candidates(&parts(&["util"]), &context());
    assert_eq!(local.len(), 11 * 6);
    assert_eq!(local[0], parts(&["/p/src", "util.tri"]));
}

#[test]
fn first_readable_candidate_wins() {
    assert_eq!(scan_candidates(&vec![Probe::Missing, Probe::Visited, Probe::Readable]), ScanOutcome::Loaded(2));
    assert_eq!(scan_candidates(&vec![Probe::Unreadable, Probe::Visited]), ScanOutcome::AlreadyLoaded);
    assert_eq!(scan_candidates(&vec![Probe::Missing, Probe::Unreadable]), ScanOutcome::NotFound);
    assert_eq!(scan_candidates(&vec![]), ScanOutcome::NotFound);
}

fn target(name: &str, deps: &[&str]) -> BuildTarget {
    BuildTarget {
        name: name.to_string(),
        source_files: vec![format!("src/{}.tri", name)],
        dependencies: deps.iter().map(|d| d.to_string()).collect(),
        output_type: OutputType::Library,
        output_path: format!("out/{}", name),
    }
}

fn config(targets: Vec<BuildTarget>) -> BuildConfig {
    let mut map = StrMap::new();
    for t in targets {
        map.insert(t.name.clone(), t);
    }
    BuildConfig {
        targets: map,
        optimization_level: OptimizationLevel::Unoptimized,
        debug_info: false,
        target_triple: "x86_64-unknown-linux-gnu".to_string(),
    }
}

#[test]
fn build_order_puts_dependencies_first() {
    let system = BuildSystem::new(config(vec![target("app", &["core", "net"]), target("net", &["core"]), target("core", &[])]));
    assert!(!system.has_dependency_cycle());
    let order = system.build_all().unwrap();
    assert_eq!(order.len(), 3);
    let position = |n: &str| order.iter().position(|x| x == n).unwrap();
    assert!(position("core") < position("net"));
    assert!(position("net") < position("app"));
}

#[test]
fn build_reports_unknown_dependencies() {
    let system = BuildSystem::new(config(vec![target("app", &["missing"])]));
    match system.build_all() {
        Err(BuildError::TargetNotFound(name)) => assert_eq!(name, "missing"),
        _ => panic!("expected a missing target"),
    }
    assert_eq!(BuildError::TargetNotFound("x".to_string()).message(), "Target not found: x");
    let cyclic = BuildSystem::new(config(vec![target("a", &["b"]), target("b", &["a"])]));
    assert!(cyclic.has_dependency_cycle());
}

#[test]
fn path_helpers() {
    assert_eq!(FileSystem::get_extension("src/main.tri"), Some("tri"));
    assert_eq!(FileSystem::get_extension("Makefile"), None);
    assert_eq!(FileSystem::get_extension(".hidden"), None);
    assert_eq!(FileSystem::join_path("src", "lib.tri"), "src/lib.tri");
}

#[test]
fn extension_of_plain_names() {
    assert_eq!(FileSystem::get_extension("archive.tar.gz"), Some("gz"));
    assert_eq!(FileSystem::get_extension("notes."), Some(""));
    assert_eq!(FileSystem::get_extension("..."), Some(""));
    assert_eq!(FileSystem::get_extension("README"), None);
}

#[test]
fn joining_absolute_and_nested_paths() {
    assert_eq!(FileSystem::join_path("src", "/etc"), "/etc");
    assert_eq!(FileSystem::join_path("a/b", "c.tri"), "a/b/c.tri");
    assert_eq!(FileSystem::join_path("a", "b/c"), "a/b/c");
}

fn package(name: &str, deps: &[&str]) -> Package {
    let mut dependencies = StrMap::new();
    for d in deps {
        dependencies.insert(
            d.to_string(),
            VersionRequirement { version: "1.0".to_string(), source: PackageSource::Registry { url: "r".to_string() } },
        );
    }
    Package {
        name: name.to_string(),
        version: "1.0".to_string(),
        description: None,
        authors: vec![],
        license: None,
        dependencies,
        dev_dependencies: StrMap::new(),
        lib: None,
        bin: vec![],
    }
}

#[test]
fn dependencies_resolve_depth_first_each_once() {
    let manager = PackageManager::new("https://registry".to_string(), "/cache".to_string());
    let mut resolver = manager.resolve_dependencies(package("app", &["web", "log"]));
    let mut fetched = Vec::new();
    loop {
        match resolver.next_step() {
            ResolveStep::Fetch { name, version } => {
                assert_eq!(version, "1.0");
                let deps: &[&str] = if name == "web" { &["log"] } else { &[] };
                fetched.push(name.clone());
                resolver.supply(package(&name, deps));
            }
            ResolveStep::Done => break,
        }
    }
    assert_eq!(fetched, vec!["web".to_string(), "log".to_string(), "log".to_string()]);
    let names: Vec<String> = resolver.finish().into_iter().map(|p| p.name).collect();
    assert_eq!(names, vec!["log".to_string(), "web".to_string(), "app".to_string()]);
}

fn file_entry(dir: &str, name: &str, ext: &str) -> ModuleDirEntry {
    ModuleDirEntry {
        path: format!("{}/{}.{}", dir, name, ext),
        is_file: true,
        is_dir: false,
        extension: Some(ext.to_string()),
        stem: Some(name.to_string()),
        dir_name: Some(format!("{}.{}", name, ext)),
        has_module_file: false,
    }
}

fn dir_entry(dir: &str, name: &str, has_module_file: bool) -> ModuleDirEntry {
    ModuleDirEntry {
        path: format!("{}/{}", dir, name),
        is_file: false,
        is_dir: true,
        extension: None,
        stem: Some(name.to_string()),
        dir_name: Some(name.to_string()),
        has_module_file,
    }
}

#[test]
fn implicit_modules_are_sorted_and_filtered() {
    let mut explicit = NameSet::new();
    explicit.insert("lib".to_string());
    let entries = vec![
        file_entry("src", "zeta", "tri"),
        file_entry("src", "alpha", "tri"),
        file_entry("src", "notes", "txt"),
        file_entry("src", "main", "tri"),
        file_entry("src", "lib", "tri"),
        dir_entry("src", "util", true),
        dir_entry("src", "empty", false),
        dir_entry("src", "alpha", true),
        dir_entry("src", "main", true),
    ];
    let names = implicit_module_names(
        &entries,
        &Some("main".to_string()),
        &Some("src/main.tri".to_string()),
        &explicit,
    );
    assert_eq!(names, vec!["alpha".to_string(), "util".to_string(), "zeta".to_string()]);
}

#[test]
fn implicit_modules_compare_by_character() {
    let explicit = NameSet::new();
    let entries = vec![
        file_entry("m", "b", "tri"),
        file_entry("m", "B", "tri"),
        file_entry("m", "ab", "tri"),
        file_entry("m", "a", "tri"),
    ];
    let names = implicit_module_names(&entries, &None, &None, &explicit);
    let mut expected = vec!["b".to_string(), "B".to_string(), "ab".to_string(), "a".to_string()];
    expected.sort();
    assert_eq!(names, expected);
}

#[test]
fn expansion_places_loaded_modules_and_use_targets() {
    let mut expanded: Vec<Statement> = Vec::new();
    let module = Statement::ModuleDecl { is_public: false, name: "geometry".to_string(), items: None };
    let body = vec![Statement::Expression(Expression::Identifier("area".to_string()))];
    place_expansion(&mut expanded, module, Some(body));
    let missing = Statement::ModuleDecl { is_public: false, name: "gone".to_string(), items: None };
    place_expansion(&mut expanded, missing, None);
    let use_stmt = Statement::Use { is_public: false, path: vec!["util".to_string()], alias: None };
    let target = vec![
        Statement::Expression(Expression::Identifier("a".to_string())),
        Statement::Expression(Expression::Identifier("b".to_string())),
    ];
    place_expansion(&mut expanded, use_stmt, Some(target));
    let empty_use = Statement::Use { is_public: false, path: vec![], alias: None };
    place_expansion(&mut expanded, empty_use, None);
    place_expansion(&mut expanded, Statement::Expression(Expression::Identifier("c".to_string())), None);
    assert_eq!(expanded.len(), 4);
    match &expanded[0] {
        Statement::ModuleDecl { is_public, name, items: Some(items) } => {
            assert!(*is_public);
            assert_eq!(name, "geometry");
            assert_eq!(items.len(), 1);
        }
        _ => panic!("expected the loaded module"),
    }
    assert!(matches!(&expanded[1], Statement::Expression(Expression::Identifier(n)) if n == "a"));
    assert!(matches!(&expanded[2], Statement::Expression(Expression::Identifier(n)) if n == "b"));
    assert!(matches!(&expanded[3], Statement::Expression(Expression::Identifier(n)) if n == "c"));
}

#[test]
fn implicit_modules_are_declared_public_without_body() {
    let mut statements: Vec<Statement> = vec![Statement::Expression(Expression::Identifier("x".to_string()))];
    add_implicit_modules(&mut statements, vec!["alpha".to_string(), "beta".to_string()]);
    assert_eq!(statements.len(), 3);
    match &statements[2] {
        Statement::ModuleDecl { is_public, name, items } => {
            assert!(*is_public);
            assert_eq!(name, "beta");
            assert!(items.is_none());
        }
        _ => panic!("expected a module"),
    }
}
