use kernel_core::config::{KernelConfig, Language, RunRequest, ScriptInput, ScriptInputSource, ScriptPath};
use kernel_core::path::{join_chars, parent_chars, with_extension_chars};
use kernel_core::text::chars_of;
use kernel_core::util::{
    candidate_roots, canonical_if_possible, is_probably_package_dir, module_to_candidates, normalize_abs,
    parse_script_input_source, path_exists, path_to_module_name, resolve_module_file, script_input_probes,
    ExistingPaths,
};

fn known(paths: &[&str]) -> ExistingPaths {
    let mut k = ExistingPaths::new();
    for p in paths {
        k.record(p.to_string(), true);
    }
    k
}

fn text(v: Vec<char>) -> String {
    v.into_iter().collect()
}

fn as_code(input: &ScriptInput) -> Option<String> {
    match input {
        ScriptInput::Code(c) => Some(c.clone()),
        ScriptInput::Path(_) => None,
    }
}

fn as_path(input: &ScriptInput) -> Option<String> {
    match input {
        ScriptInput::Path(p) => Some(p.clone()),
        ScriptInput::Code(_) => None,
    }
}

#[test]
fn language_names() {
    assert_eq!(Language::Python.as_str(), "python");
    assert_eq!(Language::Lua.as_str(), "lua");
    assert_eq!(Language::Js.as_str(), "js");
}

#[test]
fn blank_input_is_code() {
    let k = ExistingPaths::new();
    let input = parse_script_input_source("/base", "   \n", &k);
    assert_eq!(as_code(&input), Some("   \n".to_string()));
    let input = parse_script_input_source("/base", "", &k);
    assert_eq!(as_code(&input), Some(String::new()));
}

#[test]
fn inline_code_is_kept_untouched() {
    let k = ExistingPaths::new();
    let input = parse_script_input_source("/base", "  print('hello')  ", &k);
    assert_eq!(as_code(&input), Some("  print('hello')  ".to_string()));
    let input = ScriptInput::from_source("local x = 1", "/base", &k);
    assert_eq!(as_code(&input), Some("local x = 1".to_string()));
}

#[test]
fn readme_path_forms_are_paths() {
    let k = ExistingPaths::new();
    for raw in ["python_app/main.py", "./python_app/main.py", "/abs/python_app/main.py"] {
        let input = parse_script_input_source("/base", raw, &k);
        assert_eq!(as_path(&input), Some(raw.to_string()), "{raw}");
    }
    let input = parse_script_input_source("/base", "python_app\\main.py", &k);
    assert_eq!(as_path(&input), Some("python_app/main.py".to_string()));
    let input = parse_script_input_source("/base", " ../lua_app/main.lua\n", &k);
    assert_eq!(as_path(&input), Some("../lua_app/main.lua".to_string()));
    let input = parse_script_input_source("/base", "..\\run", &k);
    assert_eq!(as_path(&input), Some("../run".to_string()));
    let input = parse_script_input_source("/base", ".\\tools\\run", &k);
    assert_eq!(as_path(&input), Some("./tools/run".to_string()));
}

#[test]
fn readme_path_forms_name_one_file() {
    let k = ExistingPaths::new();
    let a = parse_script_input_source("/base", "python_app\\main.py", &k);
    let b = parse_script_input_source("/base", "python_app/main.py", &k);
    assert_eq!(as_path(&a), as_path(&b));
    let a = normalize_abs(&as_path(&a).unwrap(), "/base");
    assert_eq!(a, "/base/python_app/main.py");
    let input = parse_script_input_source("/base", "\\abs\\x.py", &k);
    assert_eq!(as_path(&input), Some("/abs/x.py".to_string()));
    let k = known(&["/base/python_app/main"]);
    let input = parse_script_input_source("/base", "python_app\\main", &k);
    assert_eq!(as_path(&input), Some("python_app/main".to_string()));
    let input = ScriptPath { path: "lib\\run.py".to_string() }.into_script_input("/w", &k);
    assert_eq!(as_path(&input), Some("/w/lib/run.py".to_string()));
}

#[test]
fn base_directories_keep_their_names() {
    assert_eq!(normalize_abs("x.py", "/w\\v"), "/w\\v/x.py");
    assert_eq!(normalize_abs("a\\b", "/w"), "/w/a\\b");
    let input = ScriptPath { path: "run.py".to_string() }.into_script_input("/d\\e", &ExistingPaths::new());
    assert_eq!(as_path(&input), Some("/d\\e/run.py".to_string()));
}

#[test]
fn existing_names_are_paths() {
    let k = known(&["/base/runme"]);
    let input = parse_script_input_source("/base", "runme", &k);
    assert_eq!(as_path(&input), Some("runme".to_string()));
    let k = known(&["tool"]);
    let input = parse_script_input_source("/base", "tool", &k);
    assert_eq!(as_path(&input), Some("tool".to_string()));
    let k = ExistingPaths::new();
    let input = parse_script_input_source("/base", "runme", &k);
    assert_eq!(as_code(&input), Some("runme".to_string()));
}

#[test]
fn probes_for_an_input() {
    assert_eq!(script_input_probes("/base", "  x.py "), vec!["x.py".to_string(), "/base/x.py".to_string()]);
    assert_eq!(script_input_probes("/base/", "x"), vec!["x".to_string(), "/base/x".to_string()]);
    assert_eq!(script_input_probes("/base", "/abs"), vec!["/abs".to_string(), "/abs".to_string()]);
    assert_eq!(script_input_probes("/base", "a\\b"), vec!["a/b".to_string(), "/base/a/b".to_string()]);
    assert!(script_input_probes("/base", " \t ").is_empty());
}

#[test]
fn sources_turn_into_inputs() {
    let k = ExistingPaths::new();
    let input = "main.lua".into_script_input("/w", &k);
    assert_eq!(as_path(&input), Some("main.lua".to_string()));
    let input = String::from("return 1").into_script_input("/w", &k);
    assert_eq!(as_code(&input), Some("return 1".to_string()));
    let owned = String::from("a.py");
    let input = (&owned).into_script_input("/w", &k);
    assert_eq!(as_path(&input), Some("a.py".to_string()));
    let input = ScriptInput::Code("x".to_string()).into_script_input("/w", &k);
    assert_eq!(as_code(&input), Some("x".to_string()));
    let input = ScriptPath { path: "lib/run.py".to_string() }.into_script_input("/w", &k);
    assert_eq!(as_path(&input), Some("/w/lib/run.py".to_string()));
    let input = ScriptPath { path: "/etc/run.py".to_string() }.into_script_input("/w", &k);
    assert_eq!(as_path(&input), Some("/etc/run.py".to_string()));
}

#[test]
fn run_requests() {
    let r = RunRequest::code(Language::Lua, "print(1)".to_string());
    assert_eq!(r.language, Language::Lua);
    assert_eq!(as_code(&r.input), Some("print(1)".to_string()));
    assert!(r.working_dir.is_none());
    let mut r = RunRequest::path(Language::Python, "main.py".to_string());
    assert_eq!(as_path(&r.input), Some("main.py".to_string()));
    assert_eq!(r.effective_base_dir(&"/kernel".to_string()), "/kernel");
    r.working_dir = Some("/elsewhere".to_string());
    assert_eq!(r.effective_base_dir(&"/kernel".to_string()), "/elsewhere");
}

#[test]
fn default_config() {
    let c = KernelConfig::from_current_dir(Some("/work".to_string()));
    assert_eq!(c.base_dir, "/work");
    assert!(c.python_enabled && c.lua_enabled && c.js_enabled);
    let c = KernelConfig::from_current_dir(None);
    assert_eq!(c.base_dir, ".");
    let mut c = c;
    c.lua_enabled = false;
    assert!(c.runtime_enabled(Language::Python));
    assert!(!c.runtime_enabled(Language::Lua));
    assert!(c.runtime_enabled(Language::Js));
}

#[test]
fn module_names_of_files() {
    assert_eq!(path_to_module_name("/base", "/base/pkg/mod.py"), Some("pkg.mod".to_string()));
    assert_eq!(path_to_module_name("/base", "/base/pkg/__init__.py"), Some("pkg".to_string()));
    assert_eq!(path_to_module_name("/base", "/base/util.lua"), Some("util".to_string()));
    assert_eq!(path_to_module_name("/base", "/base/web/lib.js"), Some("web.lib.js".to_string()));
    assert_eq!(path_to_module_name("/base/", "/base//a/./b.py"), Some("a.b".to_string()));
    assert_eq!(path_to_module_name("/base", "/other/x.py"), None);
    assert_eq!(path_to_module_name("/base", "/base"), None);
    assert_eq!(path_to_module_name("/base", "/base/__init__.py"), None);
    assert_eq!(path_to_module_name("/base", "/basement/x.py"), None);
}

#[test]
fn candidate_files_of_a_module() {
    assert_eq!(
        module_to_candidates("/root", "pkg.mod", ".py"),
        vec!["/root/pkg/mod.py".to_string(), "/root/pkg/mod/__init__.py".to_string()]
    );
    assert_eq!(
        module_to_candidates("/root/", "a", ".lua"),
        vec!["/root/a.lua".to_string(), "/root/a/__init__.lua".to_string()]
    );
    assert_eq!(
        module_to_candidates("", "x.y", ".py"),
        vec!["x/y.py".to_string(), "x/y/__init__.py".to_string()]
    );
}

#[test]
fn candidates_are_named_after_the_module() {
    for (root, name, ext) in [("/root", "pkg.mod", ".py"), ("/r/", "a.b.c", ".lua"), ("rel", "x", ".py"), ("", "q.w", ".lua")] {
        let c = module_to_candidates(root, name, ext);
        assert_eq!(path_to_module_name(root, &c[0]), Some(name.to_string()));
        assert_eq!(path_to_module_name(root, &c[1]), Some(name.to_string()));
    }
    let c = module_to_candidates("/r", "a.__init__", ".py");
    assert_eq!(path_to_module_name("/r", &c[0]), Some("a".to_string()));
    assert_eq!(path_to_module_name("/r", &c[1]), Some("a.__init__".to_string()));
}

#[test]
fn resolving_module_files() {
    let k = known(&["/root/pkg/mod/__init__.py"]);
    assert_eq!(resolve_module_file("/root", "pkg.mod", ".py", &k), Some("/root/pkg/mod/__init__.py".to_string()));
    let k = known(&["/root/pkg/mod.py", "/root/pkg/mod/__init__.py"]);
    assert_eq!(resolve_module_file("/root", "pkg.mod", ".py", &k), Some("/root/pkg/mod.py".to_string()));
    assert_eq!(resolve_module_file("/root", "other", ".py", &k), None);
}

#[test]
fn package_directories() {
    assert!(is_probably_package_dir("/root/pkg", &known(&["/root/pkg/__init__.py"])));
    assert!(is_probably_package_dir("/root/pkg/", &known(&["/root/pkg/__init__.lua"])));
    assert!(!is_probably_package_dir("/root/pkg", &known(&["/root/pkg/mod.py"])));
}

#[test]
fn existence_answers() {
    let mut k = ExistingPaths::new();
    k.record("/a".to_string(), true);
    k.record("/b".to_string(), false);
    assert!(path_exists("/a", &k));
    assert!(!path_exists("/b", &k));
    assert!(!path_exists("/c", &k));
    let k = ExistingPaths::from_probes(&vec!["/x".to_string(), "/y".to_string()], &vec![false, true]);
    assert!(!path_exists("/x", &k));
    assert!(path_exists("/y", &k));
}

#[test]
fn search_roots() {
    assert_eq!(
        candidate_roots("/a/b", "/base"),
        vec!["/a/b".to_string(), "/a".to_string(), "/".to_string(), "/base".to_string()]
    );
    assert_eq!(candidate_roots("/a/b", "/"), vec!["/a/b".to_string(), "/a".to_string(), "/".to_string()]);
    assert_eq!(
        candidate_roots("x/y", "/b"),
        vec!["x/y".to_string(), "x".to_string(), String::new(), "/b".to_string()]
    );
    assert_eq!(candidate_roots("/", "//"), vec!["/".to_string()]);
    assert_eq!(
        candidate_roots("/a/./b/", "/a"),
        vec!["/a/./b/".to_string(), "/a".to_string(), "/".to_string(), "/a".to_string()]
    );
}

#[test]
fn absolute_paths() {
    assert_eq!(normalize_abs("/etc/x", "/cwd"), "/etc/x");
    assert_eq!(normalize_abs("rel/x", "/cwd"), "/cwd/rel/x");
    assert_eq!(normalize_abs("rel", "/cwd/"), "/cwd/rel");
    let once = normalize_abs("a/b", "/w");
    assert_eq!(normalize_abs(&once, "/elsewhere"), once);
    assert_eq!(canonical_if_possible("a", Some("/real/a".to_string()), "/w"), "/real/a");
    assert_eq!(canonical_if_possible("a", None, "/w"), "/w/a");
}

#[test]
fn path_text_operations() {
    assert_eq!(text(join_chars(&chars_of("/p"), &chars_of("./lib"))), "/p/./lib");
    assert_eq!(text(join_chars(&chars_of("/p"), &chars_of("/abs"))), "/abs");
    assert_eq!(text(join_chars(&chars_of(""), &chars_of("x"))), "x");
    assert_eq!(parent_chars(&chars_of("/a/b.py")).map(text), Some("/a".to_string()));
    assert_eq!(parent_chars(&chars_of("/")).map(text), None);
    assert_eq!(parent_chars(&chars_of("a")).map(text), Some(String::new()));
    assert_eq!(parent_chars(&chars_of("/p/./lib.js")).map(text), Some("/p".to_string()));
    assert_eq!(parent_chars(&chars_of("/q/./r/x")).map(text), Some("/q/./r".to_string()));
    assert_eq!(parent_chars(&chars_of("a/b//")).map(text), Some("a".to_string()));
    assert_eq!(parent_chars(&chars_of("./x")).map(text), Some(".".to_string()));
    assert_eq!(parent_chars(&chars_of("/x")).map(text), Some("/".to_string()));
    assert_eq!(parent_chars(&chars_of("//x")).map(text), Some("/".to_string()));
    assert_eq!(parent_chars(&chars_of("a/..")).map(text), Some("a".to_string()));
    assert_eq!(parent_chars(&chars_of("./")).map(text), Some(String::new()));
    assert_eq!(parent_chars(&chars_of("")).map(text), None);
    assert_eq!(text(with_extension_chars(&chars_of("/p/./lib"), &chars_of("js"))), "/p/./lib.js");
    assert_eq!(text(with_extension_chars(&chars_of("/p/x.ts"), &chars_of("js"))), "/p/x.js");
    assert_eq!(text(with_extension_chars(&chars_of("a/b.tar.gz/"), &chars_of("js"))), "a/b.tar.js");
    assert_eq!(text(with_extension_chars(&chars_of("/p/.hidden"), &chars_of("js"))), "/p/.hidden.js");
    assert_eq!(text(with_extension_chars(&chars_of("/p/name.ext"), &chars_of(""))), "/p/name");
    assert_eq!(text(with_extension_chars(&chars_of("/"), &chars_of("js"))), "/");
    assert_eq!(text(with_extension_chars(&chars_of("a/.."), &chars_of("js"))), "a/..");
}
