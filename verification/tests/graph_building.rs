use kernel_core::config::Language;
use kernel_core::error::KernelError;
use kernel_core::graph::{
    imports_for, resolve_js_import_candidates, resolve_lua_import_candidates, resolve_python_by_name,
    resolve_python_import_candidates, visit_name_for, DependencyGraph, GraphAction, GraphBuilder, GraphEvent,
};
use kernel_core::imports::{js_imports_from_source, lua_imports_from_source, python_imports_from_source};
use kernel_core::util::{unique_push, ExistingPaths, ModuleMap};

fn known(paths: &[&str]) -> ExistingPaths {
    let mut k = ExistingPaths::new();
    for p in paths {
        k.record(p.to_string(), true);
    }
    k
}

fn strings(items: &[&str]) -> Vec<String> {
    items.iter().map(|s| s.to_string()).collect()
}

/// The path with `/./` pieces dropped, as a file system would find it.
fn tidy(p: &str) -> String {
    let mut s = p.to_string();
    while s.contains("/./") {
        s = s.replace("/./", "/");
    }
    s
}

/// Runs a builder against an in-memory file system of (path, text) pairs.
fn drive(mut builder: GraphBuilder, mut action: GraphAction, files: &[(&str, &str)]) -> Result<DependencyGraph, KernelError> {
    loop {
        action = match action {
            GraphAction::Canonicalize(p) => builder.step(GraphEvent::Canonical(tidy(&p))),
            GraphAction::Read(p) => match files.iter().find(|(f, _)| *f == p) {
                Some((_, text)) => builder.step(GraphEvent::Source(text.to_string())),
                None => builder.step(GraphEvent::IoFailed(format!("no such file: {p}"))),
            },
            GraphAction::Probe(paths) => {
                let flags = paths.iter().map(|p| files.iter().any(|(f, _)| *f == tidy(p))).collect();
                builder.step(GraphEvent::Probed(flags))
            },
            GraphAction::Finished => return Ok(builder.into_graph()),
            GraphAction::Failed(e) => return Err(e),
        };
    }
}

#[test]
fn python_imports_of_a_source() {
    let source = "import os, sys as system\nfrom pkg.sub import a, b as c\nfrom . import helper\nfrom ..up import thing  # note\n# import nothing\n\n   import   spaced\r\n";
    assert_eq!(
        python_imports_from_source(source),
        strings(&[".", "..up", "..up.thing", ".helper", "os", "pkg.sub", "pkg.sub.a", "pkg.sub.b", "spaced", "sys"])
    );
}

#[test]
fn python_imports_need_a_full_statement() {
    assert!(python_imports_from_source("importlib_thing = 1\nfromage = 2\nx = 'import y'\n").is_empty());
    assert_eq!(python_imports_from_source("from a import\n"), Vec::<String>::new());
    assert_eq!(python_imports_from_source("import a,,b\n"), strings(&["a", "b"]));
}

#[test]
fn python_imports_with_unicode_names() {
    assert_eq!(python_imports_from_source("from café import crème\n"), strings(&["café", "café.crème"]));
    assert_eq!(python_imports_from_source("from a-b import c\n"), Vec::<String>::new());
}

#[test]
fn lua_requires_of_a_source() {
    let source = "local a = require(\"mod.a\")\nlocal b = require 'b'\nrequire ( 'mod.a' )\nrequire\"c\"";
    assert_eq!(lua_imports_from_source(source), strings(&["b", "mod.a"]));
    assert!(lua_imports_from_source("required = 1").is_empty());
}

#[test]
fn js_imports_of_a_source() {
    let source = "import x from './x'\nconst y = require(\"../y.js\")\nimport {z} from \"zlib\";\n";
    assert_eq!(js_imports_from_source(source), strings(&["./x", "../y.js", "zlib"]));
    assert_eq!(imports_for(Language::Js, "require('a')"), strings(&["a"]));
}

#[test]
fn python_import_candidates() {
    let k = known(&["/proj/pkg/util.py", "/proj/shared.py", "/proj/pkg/shared.py"]);
    assert_eq!(
        resolve_python_import_candidates("/proj/pkg/main.py", "/proj", "pkg.main", ".util", &k),
        strings(&["/proj/pkg/util.py"])
    );
    assert_eq!(
        resolve_python_import_candidates("/proj/pkg/main.py", "/proj", "pkg.main", "shared", &k),
        strings(&["/proj/pkg/shared.py", "/proj/shared.py"])
    );
    assert!(resolve_python_import_candidates("/proj/pkg/main.py", "/proj", "pkg.main", "numpy", &k).is_empty());
    assert!(resolve_python_by_name("/proj", "/proj", "", &k).is_empty());
    assert_eq!(resolve_python_by_name("/proj", "/proj", "shared", &k), strings(&["/proj/shared.py"]));
}

#[test]
fn lua_import_candidates() {
    let k = known(&["/game/lib/vec.lua", "/game/ui/__init__.lua"]);
    assert_eq!(resolve_lua_import_candidates("/game/main.lua", "/game", "lib.vec", &k), strings(&["/game/lib/vec.lua"]));
    assert_eq!(resolve_lua_import_candidates("/game/main.lua", "/game", "ui", &k), strings(&["/game/ui/__init__.lua"]));
    assert!(resolve_lua_import_candidates("/game/main.lua", "/game", "none", &k).is_empty());
}

#[test]
fn js_import_candidates() {
    assert_eq!(
        resolve_js_import_candidates("/web/main.js", "./lib"),
        strings(&["/web/./lib", "/web/./lib.js", "/web/./lib/index.js"])
    );
    assert_eq!(
        resolve_js_import_candidates("/web/main.js", "lodash"),
        strings(&["lodash", "lodash.js", "lodash/index.js"])
    );
}

#[test]
fn names_of_visited_files() {
    assert_eq!(visit_name_for(Language::Python, "/proj", "/proj/a/b.py"), Some("a.b".to_string()));
    assert_eq!(visit_name_for(Language::Lua, "/proj", "/else/tool.lua"), Some("tool".to_string()));
    assert_eq!(visit_name_for(Language::Js, "/proj", "/else/x.js"), Some("x".to_string()));
    assert_eq!(visit_name_for(Language::Python, "/proj", "/"), Some("module".to_string()));
    assert_eq!(visit_name_for(Language::Js, "/proj", "/"), None);
}

#[test]
fn first_file_of_a_module_is_kept() {
    let mut m = ModuleMap::new();
    unique_push(&mut m, "b".to_string(), "/b1".to_string());
    unique_push(&mut m, "a".to_string(), "/a".to_string());
    unique_push(&mut m, "b".to_string(), "/b2".to_string());
    assert_eq!(m.len(), 2);
    assert_eq!(m.names(), strings(&["a", "b"]));
    assert_eq!(m.entries(), vec![("a".to_string(), "/a".to_string()), ("b".to_string(), "/b1".to_string())]);
}

#[test]
fn python_graph_of_a_project() {
    let files = [
        ("/proj/main.py", "import util\nfrom pkg import mod\n"),
        ("/proj/util.py", "import os\n"),
        ("/proj/pkg/__init__.py", ""),
        ("/proj/pkg/mod.py", "from . import util\nfrom .. import main\n"),
    ];
    let (b, a) = GraphBuilder::for_path_entry(Language::Python, "/proj".to_string(), "/proj/main.py".to_string(), true).unwrap();
    let graph = drive(b, a, &files).unwrap();
    assert_eq!(graph.discovered_module_names(), strings(&["main", "pkg", "pkg.mod", "util"]));
    assert_eq!(graph.entry_module, Some("main".to_string()));
    assert!(!graph.entry_is_code);
    assert_eq!(
        graph.modules.entries(),
        vec![
            ("main".to_string(), "/proj/main.py".to_string()),
            ("pkg".to_string(), "/proj/pkg/__init__.py".to_string()),
            ("pkg.mod".to_string(), "/proj/pkg/mod.py".to_string()),
            ("util".to_string(), "/proj/util.py".to_string()),
        ]
    );
    let report = graph.report();
    assert_eq!(report.language, Language::Python);
    assert_eq!(report.entry_path, "/proj/main.py");
    assert_eq!(report.discovered_modules, strings(&["main", "pkg", "pkg.mod", "util"]));
}

#[test]
fn lua_graph_of_a_project() {
    let files = [
        ("/game/main.lua", "local v = require('lib.vec')\nlocal m = require 'lib.math'\n"),
        ("/game/lib/vec.lua", "local m = require('lib.math')\nreturn {}"),
        ("/game/lib/math.lua", "return {}"),
    ];
    let (b, a) = GraphBuilder::for_path_entry(Language::Lua, "/game".to_string(), "/game/main.lua".to_string(), true).unwrap();
    let graph = drive(b, a, &files).unwrap();
    assert_eq!(graph.discovered_module_names(), strings(&["lib.math", "lib.vec", "main"]));
}

#[test]
fn js_graph_of_a_project() {
    let files = [
        ("/web/main.js", "import x from './lib'\nconst y = require('./lib')\n"),
        ("/web/lib.js", "module.exports = 1"),
    ];
    let (b, a) = GraphBuilder::for_path_entry(Language::Js, "/web".to_string(), "/web/main.js".to_string(), true).unwrap();
    let graph = drive(b, a, &files).unwrap();
    assert_eq!(graph.discovered_module_names(), strings(&["lib.js", "main.js"]));
}

#[test]
fn code_entry_graph() {
    let (b, a) = GraphBuilder::for_code_entry(Language::Python, "/proj".to_string(), "/proj/tmpab12".to_string());
    let graph = drive(b, a, &[("/proj/tmpab12", "import helper\n"), ("/proj/helper.py", "")]).unwrap();
    assert!(graph.entry_is_code);
    assert_eq!(graph.entry_module, Some("tmpab12".to_string()));
    assert_eq!(graph.discovered_module_names(), strings(&["helper", "tmpab12"]));
    let (b, _) = GraphBuilder::for_code_entry(Language::Js, "/proj".to_string(), "/proj/tmpab12".to_string());
    assert_eq!(b.into_graph().entry_module, Some("__kernel_entry__".to_string()));
    let (b, _) = GraphBuilder::for_code_entry(Language::Lua, "/proj".to_string(), "/tmp/x".to_string());
    assert_eq!(b.into_graph().entry_module, Some("__kernel_entry__".to_string()));
}

#[test]
fn missing_entry_is_an_error() {
    let res = GraphBuilder::for_path_entry(Language::Python, "/proj".to_string(), "/proj/none.py".to_string(), false);
    match res {
        Err(KernelError::EntryPathNotFound { path }) => assert_eq!(path, "/proj/none.py"),
        _ => panic!("expected EntryPathNotFound"),
    }
}

#[test]
fn unreadable_file_fails_the_build() {
    let files = [("/proj/main.py", "import util\n"), ("/proj/util.py", "")];
    let (mut b, _) = GraphBuilder::for_path_entry(Language::Python, "/proj".to_string(), "/proj/main.py".to_string(), true).unwrap();
    let action = b.step(GraphEvent::Canonical("/proj/main.py".to_string()));
    assert!(matches!(action, GraphAction::Read(ref p) if p == "/proj/main.py"));
    let action = b.step(GraphEvent::IoFailed("permission denied".to_string()));
    match action {
        GraphAction::Failed(KernelError::Io(msg)) => assert_eq!(msg, "permission denied"),
        other => panic!("unexpected {other:?}"),
    }
    let _ = files;
}

#[test]
fn a_file_reached_twice_is_visited_once() {
    let files = [
        ("/proj/main.py", "import a\nimport b\n"),
        ("/proj/a.py", "import b\n"),
        ("/proj/b.py", "import a\n"),
    ];
    let (mut b, a) = GraphBuilder::for_path_entry(Language::Python, "/proj".to_string(), "/proj/main.py".to_string(), true).unwrap();
    let mut action = a;
    let mut reads = Vec::new();
    loop {
        action = match action {
            GraphAction::Canonicalize(p) => b.step(GraphEvent::Canonical(p)),
            GraphAction::Read(p) => {
                reads.push(p.clone());
                let text = files.iter().find(|(f, _)| *f == p).unwrap().1;
                b.step(GraphEvent::Source(text.to_string()))
            },
            GraphAction::Probe(paths) => {
                let flags = paths.iter().map(|p| files.iter().any(|(f, _)| f == p)).collect();
                b.step(GraphEvent::Probed(flags))
            },
            GraphAction::Finished => break,
            GraphAction::Failed(e) => panic!("{e:?}"),
        };
    }
    assert_eq!(reads, strings(&["/proj/main.py", "/proj/a.py", "/proj/b.py"]));
    assert_eq!(b.into_graph().discovered_module_names(), strings(&["a", "b", "main"]));
}

#[test]
fn probes_name_the_candidate_files() {
    let (mut b, _) = GraphBuilder::for_path_entry(Language::Lua, "/g".to_string(), "/g/main.lua".to_string(), true).unwrap();
    let _ = b.step(GraphEvent::Canonical("/g/main.lua".to_string()));
    let action = b.step(GraphEvent::Source("require('m')".to_string()));
    match action {
        GraphAction::Probe(paths) => assert_eq!(
            paths,
            strings(&["/g/m.lua", "/g/m/__init__.lua", "/g/m.lua", "/g/m/__init__.lua"])
        ),
        other => panic!("unexpected {other:?}"),
    }
}

#[test]
fn builder_takes_answers_in_turn() {
    let (mut b, _) = GraphBuilder::for_path_entry(Language::Python, "/proj".to_string(), "/proj/main.py".to_string(), true).unwrap();
    assert!(b.accepts(&GraphEvent::Canonical("/proj/main.py".to_string())));
    assert!(b.accepts(&GraphEvent::IoFailed("gone".to_string())));
    assert!(!b.accepts(&GraphEvent::Source(String::new())));
    let _ = b.step(GraphEvent::Canonical("/proj/main.py".to_string()));
    assert!(b.accepts(&GraphEvent::Source(String::new())));
    assert!(!b.accepts(&GraphEvent::Probed(Vec::new())));
    let action = b.step(GraphEvent::Source("import x\n".to_string()));
    assert!(matches!(action, GraphAction::Probe(ref p) if p.len() == 4));
    assert!(!b.accepts(&GraphEvent::Probed(vec![true])));
    assert!(b.accepts(&GraphEvent::Probed(vec![false; 4])));
    let action = b.step(GraphEvent::Probed(vec![false; 4]));
    assert!(matches!(action, GraphAction::Finished));
    assert!(!b.accepts(&GraphEvent::Canonical("/proj/main.py".to_string())));
}

#[test]
fn imports_of_joined_python_sources() {
    let s1 = "import b\r";
    let s2 = "from a import x\nimport b";
    let joined = format!("{s1}\n{s2}");
    let mut both = python_imports_from_source(s1);
    both.extend(python_imports_from_source(s2));
    both.sort();
    both.dedup();
    assert_eq!(python_imports_from_source(&joined), both);
    assert_eq!(both, strings(&["a", "a.x", "b"]));
    assert_eq!(python_imports_from_source("\nimport z"), strings(&["z"]));
}
