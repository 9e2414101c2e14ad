//! The decisions of loading a program with its standard library and modules: whether the
//! standard library is included, the implicit `use std::core`, what each statement asks to
//! load, where a module or a `use` target is looked for, and which probe of the disk wins.
//! Reading, canonicalising and parsing files is left to the caller; paths are strings, and a
//! candidate path is the list of parts that are joined onto each other in order.
use vstd::prelude::*;

use crate::ast::{Program, Statement};
use crate::names::{string_eq_str, string_views, NameSet};
use crate::text::{insert_sorted, strictly_sorted};

verus! {

broadcast use vstd::seq_lib::group_seq_properties;

/// Whether the standard library was loaded, and if not, why.
#[derive(Debug, Clone, Copy, PartialEq, Eq, Structural)]
pub enum StdlibStatus {
    Included,
    SkippedEnvironment,
    SkippedFlag,
    SkippedAttribute,
}

/// How to load a program.
#[derive(Debug, Clone)]
pub struct LoadOptions {
    /// The environment asks to leave the standard library out.
    pub skip_std_env: bool,
    /// The command line asks to leave the standard library out.
    pub skip_std_flag: bool,
    /// The file of the standard library.
    pub stdlib_path: String,
    /// The directory that `use std::...` paths are resolved in.
    pub stdlib_root: String,
    /// The directory of the primary source.
    pub base_dir: String,
}

/// Whether the first statement is a constant declaration carrying `@no_std`.
pub open spec fn starts_with_no_std(stmts: Seq<Statement>) -> bool {
    stmts.len() > 0 && match stmts[0] {
        Statement::ConstDecl { attributes, .. } => exists|i: int| 0 <= i < attributes@.len()
            && #[trigger] attributes@[i].name@ == "no_std"@,
        _ => false,
    }
}

/// Whether the program opts out of the standard library with `@no_std` on its first
/// declaration.
pub fn has_program_no_std_attribute(program: &Program) -> (r: bool)
    ensures
        r == starts_with_no_std(program.statements@),
{
    if program.statements.len() == 0 {
        return false;
    }
    match &program.statements[0] {
        Statement::ConstDecl { attributes, .. } => {
            let mut i: usize = 0;
            while i < attributes.len()
                invariant
                    i <= attributes@.len(),
                    program.statements@.len() > 0,
                    program.statements@[0] matches Statement::ConstDecl { attributes: a, .. } && a == *attributes,
                    forall|j: int| 0 <= j < i ==> attributes@[j].name@ != "no_std"@,
                decreases attributes@.len() - i,
            {
                if string_eq_str(&attributes[i].name, "no_std") {
                    assert(attributes@[i as int].name@ == "no_std"@);
                    return true;
                }
                i = i + 1;
            }
            false
        },
        _ => false,
    }
}

/// The status of the standard library: the environment decides first, then the flag, then
/// the program's `@no_std`.
pub open spec fn stdlib_status_for(skip_env: bool, skip_flag: bool, no_std: bool) -> StdlibStatus {
    if skip_env {
        StdlibStatus::SkippedEnvironment
    } else if skip_flag {
        StdlibStatus::SkippedFlag
    } else if no_std {
        StdlibStatus::SkippedAttribute
    } else {
        StdlibStatus::Included
    }
}

/// Whether the standard library is loaded, given the options and the program's `@no_std`.
pub fn decide_stdlib_status(options: &LoadOptions, has_no_std_attr: bool) -> (r: StdlibStatus)
    ensures
        r == stdlib_status_for(options.skip_std_env, options.skip_std_flag, has_no_std_attr),
{
    if options.skip_std_env {
        StdlibStatus::SkippedEnvironment
    } else if options.skip_std_flag {
        StdlibStatus::SkippedFlag
    } else if has_no_std_attr {
        StdlibStatus::SkippedAttribute
    } else {
        StdlibStatus::Included
    }
}

/// Whether the statement is `use std::core`.
pub open spec fn is_default_use(s: Statement) -> bool {
    s matches Statement::Use { path, .. } && string_views(path@) == seq!["std"@, "core"@]
}

fn is_default_use_exec(s: &Statement) -> (r: bool)
    ensures
        r == is_default_use(*s),
{
    match s {
        Statement::Use { path, .. } => {
            if path.len() != 2 {
                assert(string_views(path@).len() != 2);
                return false;
            }
            let r = string_eq_str(&path[0], "std") && string_eq_str(&path[1], "core");
            proof {
                assert(string_views(path@)[0] == path@[0]@);
                assert(string_views(path@)[1] == path@[1]@);
                if r {
                    assert(string_views(path@) =~= seq!["std"@, "core"@]);
                } else if string_views(path@) == seq!["std"@, "core"@] {
                    assert(string_views(path@)[0] == seq!["std"@, "core"@][0]);
                    assert(string_views(path@)[1] == seq!["std"@, "core"@][1]);
                }
            }
            r
        },
        _ => false,
    }
}

/// When the standard library is wanted and the program does not opt out of it, makes sure
/// the program starts by using `std::core`: a private `use std::core` is put first unless the
/// program already has one somewhere.
pub fn add_default_use(program: &mut Program, options: &LoadOptions)
    ensures
        ({
            let before = old(program).statements@;
            let after = final(program).statements@;
            if !options.skip_std_env && !options.skip_std_flag && !starts_with_no_std(before)
                && !exists|i: int| 0 <= i < before.len() && #[trigger] is_default_use(before[i]) {
                &&& after.len() == before.len() + 1
                &&& after[0] matches Statement::Use { is_public, path, alias }
                    && !is_public && alias is None && string_views(path@) == seq!["std"@, "core"@]
                &&& after.skip(1) == before
            } else {
                after == before
            }
        }),
{
    let include_std = !options.skip_std_env && !options.skip_std_flag;
    let no_std = has_program_no_std_attribute(program);
    if !include_std || no_std {
        return;
    }
    let mut i: usize = 0;
    while i < program.statements.len()
        invariant
            i <= program.statements@.len(),
            program.statements@ == old(program).statements@,
            forall|j: int| 0 <= j < i ==> !is_default_use(#[trigger] program.statements@[j]),
        decreases program.statements@.len() - i,
    {
        if is_default_use_exec(&program.statements[i]) {
            return;
        }
        i = i + 1;
    }
    let mut path: Vec<String> = Vec::new();
    path.push("std".to_string());
    path.push("core".to_string());
    proof {
        assert(string_views(path@) =~= seq!["std"@, "core"@]);
    }
    program.statements.insert(0, Statement::Use { is_public: false, path, alias: None });
    assert(program.statements@.skip(1) =~= old(program).statements@);
}

/// What loading does with one statement.
#[derive(Debug)]
pub enum Expansion {
    /// A module declared without a body: its file is looked for and loaded in its place.
    LoadModule(String),
    /// A `use` of a path: the target's statements take its place.
    ResolveUse(Vec<String>),
    /// The statement is dropped.
    Drop,
    /// A module declared with a body is kept, made public.
    KeepPublicModule,
    /// The statement is kept as it is.
    Keep,
}

/// What loading does with `s`.
pub open spec fn expansion_spec(s: Statement) -> Expansion {
    match s {
        Statement::ModuleDecl { name, items, .. } => if items is None {
            Expansion::LoadModule(name)
        } else {
            Expansion::KeepPublicModule
        },
        Statement::Use { path, .. } => if path@.len() == 0 {
            Expansion::Drop
        } else {
            Expansion::ResolveUse(path)
        },
        _ => Expansion::Keep,
    }
}

/// What loading does with the statement: a body-less module is loaded from disk, a `use` of
/// a non-empty path is replaced by its target, an empty `use` is dropped, a module with a
/// body is kept and made public, and everything else is kept.
pub fn expansion_of(s: &Statement) -> (r: Expansion)
    ensures
        match (r, expansion_spec(*s)) {
            (Expansion::LoadModule(a), Expansion::LoadModule(b)) => a@ == b@,
            (Expansion::ResolveUse(a), Expansion::ResolveUse(b)) => string_views(a@) == string_views(b@),
            (Expansion::Drop, Expansion::Drop) => true,
            (Expansion::KeepPublicModule, Expansion::KeepPublicModule) => true,
            (Expansion::Keep, Expansion::Keep) => true,
            _ => false,
        },
{
    match s {
        Statement::ModuleDecl { name, items, .. } => {
            if items.is_none() {
                Expansion::LoadModule(name.clone())
            } else {
                Expansion::KeepPublicModule
            }
        },
        Statement::Use { path, .. } => {
            if path.len() == 0 {
                Expansion::Drop
            } else {
                let copy = clone_strings(path);
                Expansion::ResolveUse(copy)
            }
        },
        _ => Expansion::Keep,
    }
}

/// A copy of the strings.
pub fn clone_strings(v: &Vec<String>) -> (r: Vec<String>)
    ensures
        string_views(r@) == string_views(v@),
{
    let mut r: Vec<String> = Vec::new();
    let mut i: usize = 0;
    while i < v.len()
        invariant
            i <= v.len(),
            string_views(r@) == string_views(v@).take(i as int),
        decreases v.len() - i,
    {
        let ghost before = r@;
        r.push(v[i].clone());
        assert(string_views(r@) =~= string_views(before).push(v@[i as int]@));
        assert(string_views(v@).take(i + 1) =~= string_views(v@).take(i as int).push(v@[i as int]@));
        i = i + 1;
    }
    assert(string_views(v@).take(i as int) =~= string_views(v@));
    r
}

/// Where modules are looked for, around the file being loaded.
#[derive(Debug, Clone)]
pub struct SearchContext {
    /// The directory of the file being loaded.
    pub base_dir: String,
    /// The directory of the primary program.
    pub root_dir: String,
    /// The parent of `base_dir`, if it has one.
    pub base_parent: Option<String>,
    /// The directory of the file being loaded, when a file is being loaded.
    pub current_parent: Option<String>,
    /// The file name of the file being loaded without its extension, when known.
    pub current_stem: Option<String>,
    /// The directory that `use std::...` paths are resolved in.
    pub stdlib_root: String,
}

/// The directories searched, in order: the base directory and its `src` and `stdlib`, the
/// same for the root directory and for the base's parent, then the loaded file's directory
/// and the directory named after the file.
pub open spec fn search_roots(ctx: SearchContext) -> Seq<Seq<Seq<char>>> {
    let b = ctx.base_dir@;
    let r = ctx.root_dir@;
    let fixed = seq![seq![b], seq![b, "src"@], seq![b, "stdlib"@], seq![r], seq![r, "src"@], seq![r, "stdlib"@]];
    let with_parent = match ctx.base_parent {
        Some(p) => fixed + seq![seq![p@], seq![p@, "src"@], seq![p@, "stdlib"@]],
        None => fixed,
    };
    match ctx.current_parent {
        Some(cp) => match ctx.current_stem {
            Some(st) => with_parent + seq![seq![cp@], seq![cp@, st@]],
            None => with_parent + seq![seq![cp@]],
        },
        None => with_parent,
    }
}

/// The file names tried for a module `name` under one directory: `name.tri`,
/// `name/name.tri` and `name/mod.tri`.
pub open spec fn module_files_under(root: Seq<Seq<char>>, name: Seq<char>) -> Seq<Seq<Seq<char>>> {
    seq![
        root.push(name + ".tri"@),
        root.push(name).push(name + ".tri"@),
        root.push(name).push("mod.tri"@),
    ]
}

/// The candidates for a module `name` under each of the roots, root by root.
pub open spec fn module_candidates_spec(roots: Seq<Seq<Seq<char>>>, name: Seq<char>) -> Seq<Seq<Seq<char>>>
    decreases roots.len(),
{
    if roots.len() == 0 {
        Seq::empty()
    } else {
        module_candidates_spec(roots.drop_last(), name) + module_files_under(roots.last(), name)
    }
}

/// The path parts of candidates, as character sequences.
pub open spec fn candidate_views(v: Seq<Vec<String>>) -> Seq<Seq<Seq<char>>> {
    v.map_values(|c: Vec<String>| string_views(c@))
}

fn strings_of2(a: &String, b: &str) -> (r: Vec<String>)
    ensures
        string_views(r@) == seq![a@, b@],
{
    let mut r: Vec<String> = Vec::new();
    r.push(a.clone());
    r.push(b.to_string());
    assert(string_views(r@) =~= seq![a@, b@]);
    r
}

fn strings_of1(a: &String) -> (r: Vec<String>)
    ensures
        string_views(r@) == seq![a@],
{
    let mut r: Vec<String> = Vec::new();
    r.push(a.clone());
    assert(string_views(r@) =~= seq![a@]);
    r
}

/// The directories searched for modules, as path parts.
pub fn search_roots_of(ctx: &SearchContext) -> (r: Vec<Vec<String>>)
    ensures
        candidate_views(r@) == search_roots(*ctx),
{
    let mut r: Vec<Vec<String>> = Vec::new();
    r.push(strings_of1(&ctx.base_dir));
    r.push(strings_of2(&ctx.base_dir, "src"));
    r.push(strings_of2(&ctx.base_dir, "stdlib"));
    r.push(strings_of1(&ctx.root_dir));
    r.push(strings_of2(&ctx.root_dir, "src"));
    r.push(strings_of2(&ctx.root_dir, "stdlib"));
    let ghost b = ctx.base_dir@;
    let ghost rd = ctx.root_dir@;
    let ghost fixed = seq![seq![b], seq![b, "src"@], seq![b, "stdlib"@], seq![rd], seq![rd, "src"@], seq![rd, "stdlib"@]];
    assert(candidate_views(r@) =~= fixed);
    match &ctx.base_parent {
        Some(p) => {
            let ghost before = candidate_views(r@);
            r.push(strings_of1(p));
            r.push(strings_of2(p, "src"));
            r.push(strings_of2(p, "stdlib"));
            assert(candidate_views(r@) =~= before + seq![seq![p@], seq![p@, "src"@], seq![p@, "stdlib"@]]);
        },
        None => {},
    }
    match &ctx.current_parent {
        Some(cp) => {
            let ghost before = candidate_views(r@);
            r.push(strings_of1(cp));
            match &ctx.current_stem {
                Some(st) => {
                    r.push(strings_of2(cp, st.as_str()));
                    assert(candidate_views(r@) =~= before + seq![seq![cp@], seq![cp@, st@]]);
                },
                None => {
                    assert(candidate_views(r@) =~= before + seq![seq![cp@]]);
                },
            }
        },
        None => {},
    }
    r
}

fn concat_str(a: &String, b: &str) -> (r: String)
    ensures
        r@ == a@ + b@,
{
    let mut r = a.clone();
    r.append(b);
    r
}

fn with_parts(root: &Vec<String>, parts: &Vec<String>) -> (r: Vec<String>)
    ensures
        string_views(r@) == string_views(root@) + string_views(parts@),
{
    let mut r = clone_strings(root);
    let mut i: usize = 0;
    while i < parts.len()
        invariant
            i <= parts.len(),
            string_views(r@) == string_views(root@) + string_views(parts@).take(i as int),
        decreases parts.len() - i,
    {
        let ghost before = r@;
        r.push(parts[i].clone());
        assert(string_views(r@) =~= string_views(before).push(parts@[i as int]@));
        assert(string_views(parts@).take(i + 1) =~= string_views(parts@).take(i as int).push(parts@[i as int]@));
        i = i + 1;
    }
    assert(string_views(parts@).take(i as int) =~= string_views(parts@));
    r
}

/// Every place a module `name` is looked for, in the order they are tried.
pub fn module_candidates(name: &String, ctx: &SearchContext) -> (r: Vec<Vec<String>>)
    ensures
        candidate_views(r@) == module_candidates_spec(search_roots(*ctx), name@),
{
    let roots = search_roots_of(ctx);
    let file = concat_str(name, ".tri");
    let mut r: Vec<Vec<String>> = Vec::new();
    let mut i: usize = 0;
    let ghost rv = candidate_views(roots@);
    assert(rv.take(0) =~= Seq::<Seq<Seq<char>>>::empty());
    assert(candidate_views(r@) =~= Seq::<Seq<Seq<char>>>::empty());
    while i < roots.len()
        invariant
            i <= roots.len(),
            rv == candidate_views(roots@),
            rv == search_roots(*ctx),
            file@ == name@ + ".tri"@,
            candidate_views(r@) == module_candidates_spec(rv.take(i as int), name@),
        decreases roots.len() - i,
    {
        let root = &roots[i];
        let ghost before = candidate_views(r@);
        let ghost rt = string_views(root@);
        let mut p1: Vec<String> = Vec::new();
        p1.push(file.clone());
        let c1 = with_parts(root, &p1);
        let p2 = strings_of2(name, file.as_str());
        let c2 = with_parts(root, &p2);
        let p3 = strings_of2(name, "mod.tri");
        let c3 = with_parts(root, &p3);
        r.push(c1);
        r.push(c2);
        r.push(c3);
        proof {
            assert(string_views(p1@) =~= seq![file@]);
            assert(rt + seq![file@] =~= rt.push(name@ + ".tri"@));
            assert(rt + seq![name@, file@] =~= rt.push(name@).push(name@ + ".tri"@));
            assert(rt + seq![name@, "mod.tri"@] =~= rt.push(name@).push("mod.tri"@));
            assert(candidate_views(r@) =~= before + module_files_under(rt, name@));
            assert(rv.take(i + 1).drop_last() =~= rv.take(i as int));
            assert(rv.take(i + 1).last() == rt);
        }
        i = i + 1;
    }
    assert(rv.take(i as int) =~= rv);
    r
}

/// The path of a `use` with a leading `std` taken off, resolved in the standard library
/// root; a bare `use std` stands for the module `std` there.
pub open spec fn std_relative(path: Seq<Seq<char>>) -> Seq<Seq<char>> {
    if path.len() > 1 {
        path.skip(1)
    } else {
        seq!["std"@]
    }
}

/// The segments joined with `/`.
pub open spec fn join_slash(segs: Seq<Seq<char>>) -> Seq<char>
    decreases segs.len(),
{
    if segs.len() == 0 {
        Seq::empty()
    } else if segs.len() == 1 {
        segs[0]
    } else {
        join_slash(segs.drop_last()) + "/"@ + segs.last()
    }
}

/// The file names tried for a `use` of `segs` under one directory, with `joined` the
/// segments joined by `/` and `name` the first segment: `joined.tri`, `joined/name.tri`,
/// `joined/mod.tri`, `name.tri`, `name/name.tri` and `name/mod.tri`.
pub open spec fn use_files_under(root: Seq<Seq<char>>, segs: Seq<Seq<char>>) -> Seq<Seq<Seq<char>>> {
    let joined = join_slash(segs);
    let name = segs[0];
    seq![
        root.push(joined + ".tri"@),
        root.push(joined).push(name + ".tri"@),
        root.push(joined).push("mod.tri"@),
        root.push(name + ".tri"@),
        root.push(name).push(name + ".tri"@),
        root.push(name).push("mod.tri"@),
    ]
}

/// The candidates for a `use` of `segs` under each of the roots, root by root.
pub open spec fn use_candidates_spec(roots: Seq<Seq<Seq<char>>>, segs: Seq<Seq<char>>) -> Seq<Seq<Seq<char>>>
    decreases roots.len(),
{
    if roots.len() == 0 {
        Seq::empty()
    } else {
        use_candidates_spec(roots.drop_last(), segs) + use_files_under(roots.last(), segs)
    }
}

/// The roots and segments a `use` of `path` is resolved with: a path starting with `std` is
/// looked for in the standard library root only.
pub open spec fn use_search(ctx: SearchContext, path: Seq<Seq<char>>) -> (Seq<Seq<Seq<char>>>, Seq<Seq<char>>) {
    if path.len() > 0 && path[0] == "std"@ {
        (seq![seq![ctx.stdlib_root@]], std_relative(path))
    } else {
        (search_roots(ctx), path)
    }
}

fn join_with_slash(segs: &Vec<String>) -> (r: String)
    ensures
        r@ == join_slash(string_views(segs@)),
{
    let mut r = String::new();
    let mut i: usize = 0;
    assert(string_views(segs@).take(0) =~= Seq::<Seq<char>>::empty());
    while i < segs.len()
        invariant
            i <= segs.len(),
            r@ == join_slash(string_views(segs@).take(i as int)),
        decreases segs.len() - i,
    {
        let ghost before = r@;
        if i > 0 {
            r.append("/");
        }
        r.append(segs[i].as_str());
        proof {
            let t = string_views(segs@).take(i + 1);
            assert(t.drop_last() =~= string_views(segs@).take(i as int));
            assert(t.last() == segs@[i as int]@);
            if i == 0 {
                assert(t.len() == 1);
                assert(r@ =~= t[0]);
            }
        }
        i = i + 1;
    }
    assert(string_views(segs@).take(i as int) =~= string_views(segs@));
    r
}

/// Every place the target of `use path` is looked for, in the order they are tried; `path`
/// must not be empty.
pub fn use_candidates(path: &Vec<String>, ctx: &SearchContext) -> (r: Vec<Vec<String>>)
    requires
        path@.len() > 0,
    ensures
        candidate_views(r@) == use_candidates_spec(use_search(*ctx, string_views(path@)).0, use_search(*ctx, string_views(path@)).1),
{
    let ghost pv = string_views(path@);
    let is_std = string_eq_str(&path[0], "std");
    let segs: Vec<String> = if is_std {
        if path.len() > 1 {
            let mut s: Vec<String> = Vec::new();
            let mut k: usize = 1;
            while k < path.len()
                invariant
                    1 <= k <= path.len(),
                    pv == string_views(path@),
                    string_views(s@) == pv.subrange(1, k as int),
                decreases path.len() - k,
            {
                let ghost before = s@;
                s.push(path[k].clone());
                assert(string_views(s@) =~= string_views(before).push(path@[k as int]@));
                assert(pv.subrange(1, k + 1) =~= pv.subrange(1, k as int).push(path@[k as int]@));
                k = k + 1;
            }
            assert(pv.subrange(1, k as int) =~= pv.skip(1));
            s
        } else {
            let mut s: Vec<String> = Vec::new();
            s.push("std".to_string());
            assert(string_views(s@) =~= seq!["std"@]);
            s
        }
    } else {
        clone_strings(path)
    };
    let roots: Vec<Vec<String>> = if is_std {
        let mut v: Vec<Vec<String>> = Vec::new();
        v.push(strings_of1(&ctx.stdlib_root));
        assert(candidate_views(v@) =~= seq![seq![ctx.stdlib_root@]]);
        v
    } else {
        search_roots_of(ctx)
    };
    proof {
        assert(pv[0] == path@[0]@);
        assert(use_search(*ctx, pv) == (candidate_views(roots@), string_views(segs@)));
    }
    let joined = join_with_slash(&segs);
    let joined_file = concat_str(&joined, ".tri");
    let name = &segs[0];
    let module_file = concat_str(name, ".tri");
    let ghost sv = string_views(segs@);
    let ghost rv = candidate_views(roots@);
    assert(sv[0] == name@);
    let mut r: Vec<Vec<String>> = Vec::new();
    let mut i: usize = 0;
    assert(rv.take(0) =~= Seq::<Seq<Seq<char>>>::empty());
    assert(candidate_views(r@) =~= Seq::<Seq<Seq<char>>>::empty());
    while i < roots.len()
        invariant
            i <= roots.len(),
            rv == candidate_views(roots@),
            sv == string_views(segs@),
            sv.len() > 0,
            sv[0] == name@,
            joined@ == join_slash(sv),
            joined_file@ == join_slash(sv) + ".tri"@,
            module_file@ == name@ + ".tri"@,
            candidate_views(r@) == use_candidates_spec(rv.take(i as int), sv),
        decreases roots.len() - i,
    {
        let root = &roots[i];
        let ghost before = candidate_views(r@);
        let ghost rt = string_views(root@);
        let c1 = with_parts(root, &strings_of1(&joined_file));
        let c2 = with_parts(root, &strings_of2(&joined, module_file.as_str()));
        let c3 = with_parts(root, &strings_of2(&joined, "mod.tri"));
        let c4 = with_parts(root, &strings_of1(&module_file));
        let c5 = with_parts(root, &strings_of2(name, module_file.as_str()));
        let c6 = with_parts(root, &strings_of2(name, "mod.tri"));
        r.push(c1);
        r.push(c2);
        r.push(c3);
        r.push(c4);
        r.push(c5);
        r.push(c6);
        proof {
            assert(rt + seq![joined_file@] =~= rt.push(join_slash(sv) + ".tri"@));
            assert(rt + seq![joined@, module_file@] =~= rt.push(join_slash(sv)).push(sv[0] + ".tri"@));
            assert(rt + seq![joined@, "mod.tri"@] =~= rt.push(join_slash(sv)).push("mod.tri"@));
            assert(rt + seq![module_file@] =~= rt.push(sv[0] + ".tri"@));
            assert(rt + seq![name@, module_file@] =~= rt.push(sv[0]).push(sv[0] + ".tri"@));
            assert(rt + seq![name@, "mod.tri"@] =~= rt.push(sv[0]).push("mod.tri"@));
            assert(candidate_views(r@) =~= before + use_files_under(rt, sv));
            assert(rv.take(i + 1).drop_last() =~= rv.take(i as int));
            assert(rv.take(i + 1).last() == rt);
        }
        i = i + 1;
    }
    assert(rv.take(i as int) =~= rv);
    r
}

/// What the disk showed for one candidate path.
#[derive(Debug, Clone, Copy, PartialEq, Eq, Structural)]
pub enum Probe {
    /// The path does not lead to a file.
    Missing,
    /// The file was loaded before.
    Visited,
    /// The file is new but could not be read.
    Unreadable,
    /// The file is new and was read.
    Readable,
}

/// The result of trying the candidates in order.
#[derive(Debug, Clone, Copy, PartialEq, Eq, Structural)]
pub enum ScanOutcome {
    /// The candidate at this index is loaded.
    Loaded(usize),
    /// Nothing new was found, but one candidate was loaded before.
    AlreadyLoaded,
    /// No candidate leads to a file.
    NotFound,
}

/// The first readable candidate is loaded; failing that, a candidate loaded before means the
/// target is already in; otherwise it was not found.
pub fn scan_candidates(probes: &Vec<Probe>) -> (r: ScanOutcome)
    ensures
        match r {
            ScanOutcome::Loaded(i) => i < probes@.len() && probes@[i as int] == Probe::Readable
                && forall|j: int| 0 <= j < i ==> probes@[j] != Probe::Readable,
            ScanOutcome::AlreadyLoaded => (forall|j: int| 0 <= j < probes@.len() ==> probes@[j] != Probe::Readable)
                && exists|j: int| 0 <= j < probes@.len() && probes@[j] == Probe::Visited,
            ScanOutcome::NotFound => forall|j: int| 0 <= j < probes@.len()
                ==> probes@[j] != Probe::Readable && probes@[j] != Probe::Visited,
        },
{
    let mut already = false;
    let mut i: usize = 0;
    while i < probes.len()
        invariant
            i <= probes@.len(),
            forall|j: int| 0 <= j < i ==> probes@[j] != Probe::Readable,
            already <==> exists|j: int| 0 <= j < i && probes@[j] == Probe::Visited,
        decreases probes@.len() - i,
    {
        match probes[i] {
            Probe::Readable => {
                return ScanOutcome::Loaded(i);
            },
            Probe::Visited => {
                already = true;
            },
            _ => {},
        }
        i = i + 1;
    }
    if already {
        ScanOutcome::AlreadyLoaded
    } else {
        ScanOutcome::NotFound
    }
}

/// One entry of a directory scanned for modules, as the file system describes it.
#[derive(Debug, Clone)]
pub struct ModuleDirEntry {
    /// The entry's path.
    pub path: String,
    pub is_file: bool,
    pub is_dir: bool,
    /// For a file: its extension and its name without the extension, when they are text.
    pub extension: Option<String>,
    pub stem: Option<String>,
    /// For a directory: its name, when it is text.
    pub dir_name: Option<String>,
    /// For a directory: whether it holds `<name>.tri` or `mod.tri`.
    pub has_module_file: bool,
}

/// The module that a scanned entry stands for, if any: a `.tri` file other than the current
/// file, named neither like the current file nor like a declared module; or a directory with a
/// module file, named neither like a declared module nor like the current file.
pub open spec fn implicit_module_of(
    e: ModuleDirEntry,
    current_stem: Option<Seq<char>>,
    current_path: Option<Seq<char>>,
    explicit_modules: Set<Seq<char>>,
) -> Option<Seq<char>> {
    if e.is_file {
        match (e.extension, e.stem) {
            (Some(ext), Some(stem)) => if ext@ == "tri"@ && current_path != Some(e.path@) && current_stem != Some(stem@)
                && !explicit_modules.contains(stem@) {
                Some(stem@)
            } else {
                None
            },
            _ => None,
        }
    } else if e.is_dir {
        match e.dir_name {
            Some(name) => if !explicit_modules.contains(name@) && current_stem != Some(name@) && e.has_module_file {
                Some(name@)
            } else {
                None
            },
            None => None,
        }
    } else {
        None
    }
}

/// Whether `name` is the module of one of the entries.
pub open spec fn implicit_module_found(
    entries: Seq<ModuleDirEntry>,
    name: Seq<char>,
    current_stem: Option<Seq<char>>,
    current_path: Option<Seq<char>>,
    explicit_modules: Set<Seq<char>>,
) -> bool {
    exists|i: int|
        0 <= i < entries.len() && #[trigger] implicit_module_of(entries[i], current_stem, current_path, explicit_modules)
            == Some(name)
}

/// The module of a scanned entry, if it stands for one.
fn implicit_module_name(
    e: &ModuleDirEntry,
    current_stem: &Option<String>,
    current_path: &Option<String>,
    explicit_modules: &NameSet,
) -> (r: Option<String>)
    requires
        explicit_modules.wf(),
    ensures
        match r {
            Some(n) => implicit_module_of(
                *e,
                option_string_view(*current_stem),
                option_string_view(*current_path),
                explicit_modules@,
            ) == Some(n@),
            None => implicit_module_of(
                *e,
                option_string_view(*current_stem),
                option_string_view(*current_path),
                explicit_modules@,
            ) is None,
        },
{
    let same_stem = |name: &String| -> (b: bool)
        ensures
            b == (option_string_view(*current_stem) == Some(name@)),
        {
            match current_stem {
                Some(c) => *c == *name,
                None => false,
            }
        };
    if e.is_file {
        match (&e.extension, &e.stem) {
            (Some(ext), Some(stem)) => {
                proof {
                    reveal_strlit("tri");
                }
                let is_current = match current_path {
                    Some(p) => *p == e.path,
                    None => false,
                };
                if string_eq_str(ext, "tri") && !is_current && !same_stem(stem) && !explicit_modules.contains_string(stem) {
                    Some(stem.clone())
                } else {
                    None
                }
            },
            _ => None,
        }
    } else if e.is_dir {
        match &e.dir_name {
            Some(name) => {
                if !explicit_modules.contains_string(name) && !same_stem(name) && e.has_module_file {
                    Some(name.clone())
                } else {
                    None
                }
            },
            None => None,
        }
    } else {
        None
    }
}

/// The view of an optional string.
pub open spec fn option_string_view(s: Option<String>) -> Option<Seq<char>> {
    match s {
        Some(x) => Some(x@),
        None => None,
    }
}

/// The implicit modules of the scanned entries: each name once, in order. `current_stem` and
/// `current_path` describe the file being loaded, if any; `explicit_modules` are the modules
/// the program declares.
pub fn implicit_module_names(
    entries: &Vec<ModuleDirEntry>,
    current_stem: &Option<String>,
    current_path: &Option<String>,
    explicit_modules: &NameSet,
) -> (r: Vec<String>)
    requires
        explicit_modules.wf(),
    ensures
        strictly_sorted(string_views(r@)),
        forall|n: Seq<char>| #[trigger] string_views(r@).contains(n) <==> implicit_module_found(
            entries@,
            n,
            option_string_view(*current_stem),
            option_string_view(*current_path),
            explicit_modules@,
        ),
{
    let ghost cs = option_string_view(*current_stem);
    let ghost cp = option_string_view(*current_path);
    let mut names: Vec<String> = Vec::new();
    let mut i: usize = 0;
    proof {
        assert(string_views(names@) =~= Seq::<Seq<char>>::empty());
    }
    while i < entries.len()
        invariant
            explicit_modules.wf(),
            cs == option_string_view(*current_stem),
            cp == option_string_view(*current_path),
            i <= entries@.len(),
            strictly_sorted(string_views(names@)),
            forall|n: Seq<char>| #[trigger] string_views(names@).to_set().contains(n) <==> implicit_module_found(
                entries@.take(i as int),
                n,
                cs,
                cp,
                explicit_modules@,
            ),
        decreases entries@.len() - i,
    {
        let found = implicit_module_name(&entries[i], current_stem, current_path, explicit_modules);
        let ghost before = string_views(names@).to_set();
        let ghost m = implicit_module_of(entries@[i as int], cs, cp, explicit_modules@);
        match found {
            Some(name) => {
                insert_sorted(&mut names, name);
            },
            None => {},
        }
        proof {
            let prev = entries@.take(i as int);
            let next = entries@.take(i + 1);
            assert forall|n: Seq<char>| #[trigger] string_views(names@).to_set().contains(n) <==> implicit_module_found(
                next,
                n,
                cs,
                cp,
                explicit_modules@,
            ) by {
                if implicit_module_found(next, n, cs, cp, explicit_modules@) {
                    let j = choose|j: int| 0 <= j < next.len() && #[trigger] implicit_module_of(next[j], cs, cp, explicit_modules@) == Some(n);
                    if j < i {
                        assert(prev[j] == next[j]);
                        assert(implicit_module_found(prev, n, cs, cp, explicit_modules@));
                    } else {
                        assert(next[j] == entries@[i as int]);
                    }
                }
                if implicit_module_found(prev, n, cs, cp, explicit_modules@) {
                    let j = choose|j: int| 0 <= j < prev.len() && #[trigger] implicit_module_of(prev[j], cs, cp, explicit_modules@) == Some(n);
                    assert(next[j] == prev[j]);
                }
                if m == Some(n) {
                    assert(next[i as int] == entries@[i as int]);
                }
            }
        }
        i = i + 1;
    }
    proof {
        assert(entries@.take(entries@.len() as int) =~= entries@);
        assert forall|n: Seq<char>| #[trigger] string_views(names@).contains(n) == string_views(names@).to_set().contains(n) by {}
    }
    names
}

/// What `s` contributes to the loaded program, `loaded` being the statements of the file
/// found for it (already expanded), if one was loaded: a module declared without a body
/// becomes a public module holding them, a `use` of a path is replaced by them, an empty
/// `use` and a target that was not loaded contribute nothing, a module with a body is kept
/// and made public, and any other statement is kept.
pub open spec fn placed(s: Statement, loaded: Option<Vec<Statement>>) -> Seq<Statement> {
    match s {
        Statement::ModuleDecl { name, items, .. } => match items {
            None => match loaded {
                Some(stmts) => seq![Statement::ModuleDecl { is_public: true, name, items: Some(stmts) }],
                None => seq![],
            },
            Some(body) => seq![Statement::ModuleDecl { is_public: true, name, items: Some(body) }],
        },
        Statement::Use { path, .. } => if path@.len() == 0 {
            seq![]
        } else {
            match loaded {
                Some(stmts) => stmts@,
                None => seq![],
            }
        },
        _ => seq![s],
    }
}

/// Appends to `expanded` what `s` contributes to the loaded program; see `placed`.
pub fn place_expansion(expanded: &mut Vec<Statement>, s: Statement, loaded: Option<Vec<Statement>>)
    ensures
        final(expanded)@ == old(expanded)@ + placed(s, loaded),
{
    let ghost s0 = s;
    let ghost l0 = loaded;
    match s {
        Statement::ModuleDecl { name, items, .. } => match items {
            None => match loaded {
                Some(stmts) => {
                    expanded.push(Statement::ModuleDecl { is_public: true, name, items: Some(stmts) });
                    assert(expanded@ =~= old(expanded)@ + placed(s0, l0));
                },
                None => {
                    assert(old(expanded)@ + placed(s0, l0) =~= old(expanded)@);
                },
            },
            Some(body) => {
                expanded.push(Statement::ModuleDecl { is_public: true, name, items: Some(body) });
                assert(expanded@ =~= old(expanded)@ + placed(s0, l0));
            },
        },
        Statement::Use { path, .. } => {
            if path.len() == 0 {
                assert(old(expanded)@ + placed(s0, l0) =~= old(expanded)@);
            } else {
                match loaded {
                    Some(stmts) => {
                        let mut stmts = stmts;
                        expanded.append(&mut stmts);
                    },
                    None => {
                        assert(old(expanded)@ + placed(s0, l0) =~= old(expanded)@);
                    },
                }
            }
        },
        other => {
            expanded.push(other);
            assert(expanded@ =~= old(expanded)@ + placed(s0, l0));
        },
    }
}

/// Appends a public module declared without a body for each name, in order: the modules
/// found beside the file that the program does not declare.
pub fn add_implicit_modules(statements: &mut Vec<Statement>, names: Vec<String>)
    ensures
        final(statements)@.len() == old(statements)@.len() + names@.len(),
        final(statements)@.take(old(statements)@.len() as int) == old(statements)@,
        forall|k: int| 0 <= k < names@.len() ==> (#[trigger] final(statements)@[old(statements)@.len() + k]) == (Statement::ModuleDecl {
            is_public: true,
            name: names@[k],
            items: None,
        }),
{
    let n = names.len();
    let mut i: usize = 0;
    while i < n
        invariant
            n == names@.len(),
            i <= n,
            statements@.len() == old(statements)@.len() + i,
            statements@.take(old(statements)@.len() as int) == old(statements)@,
            forall|k: int| 0 <= k < i ==> (#[trigger] statements@[old(statements)@.len() + k]) == (Statement::ModuleDecl {
                is_public: true,
                name: names@[k],
                items: None,
            }),
        decreases n - i,
    {
        let name = names[i].clone();
        statements.push(Statement::ModuleDecl { is_public: true, name, items: None });
        assert(statements@.take(old(statements)@.len() as int) =~= old(statements)@);
        i = i + 1;
    }
}

} // verus!
