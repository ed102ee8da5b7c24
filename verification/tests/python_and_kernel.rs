use kernel_core::config::{KernelConfig, Language};
use kernel_core::error::KernelError;
use kernel_core::graph::DependencyGraph;
use kernel_core::host::{build_python_manifest_json, json_string_list};
use kernel_core::kernel::check_runtime_enabled;
use kernel_core::python_runtime::{
    build_python_bootstrap, classify_python_profile, python_run_script, should_use_python_module_runner,
    stale_modules, PythonExecutionProfile,
};
use kernel_core::util::{unique_push, ModuleMap};

fn strings(items: &[&str]) -> Vec<String> {
    items.iter().map(|s| s.to_string()).collect()
}

fn graph(entry: &str, module: Option<&str>, modules: &[(&str, &str)], is_code: bool) -> DependencyGraph {
    let mut map = ModuleMap::new();
    for (name, file) in modules {
        unique_push(&mut map, name.to_string(), file.to_string());
    }
    DependencyGraph {
        language: Language::Python,
        entry_path: entry.to_string(),
        entry_module: module.map(|m| m.to_string()),
        base_dir: "/proj".to_string(),
        modules: map,
        entry_is_code: is_code,
    }
}

fn bootstrap_text(
    manifest_json: &str,
    base_dir: &str,
    entry_path: &str,
    entry_module: &str,
    use_module_runner: bool,
    profile_name: &str,
    stale_modules_json: &str,
) -> String {
    format!(
        r#"
import importlib.abc
import importlib.util
import json
import runpy
import sys

_manifest = json.loads(r'''{manifest_json}''')
_base_dir = r'''{base_dir}'''
_entry_path = r'''{entry_path}'''
_entry_module = r'''{entry_module}'''
_profile = r'''{profile_name}'''
_stale_modules = json.loads(r'''{stale_modules_json}''')

class _KernelFinder(importlib.abc.MetaPathFinder):
    def find_spec(self, fullname, path=None, target=None):
        file_path = _manifest.get(fullname)
        if file_path is None:
            return None
        return importlib.util.spec_from_file_location(fullname, file_path)

if _base_dir not in sys.path:
    sys.path.insert(0, _base_dir)

if not any(type(item).__name__ == '_KernelFinder' for item in sys.meta_path):
    sys.meta_path.insert(0, _KernelFinder())

for module_name in _stale_modules:
    sys.modules.pop(module_name, None)

if {use_module_runner}:
    runpy.run_module(_entry_module, run_name='__main__')
else:
    runpy.run_path(_entry_path, run_name='__main__')
"#,
        use_module_runner = if use_module_runner { "True" } else { "False" },
    )
}

#[test]
fn stale_modules_are_both_runs_sorted_once() {
    assert_eq!(stale_modules(&strings(&["b", "a"]), &strings(&["c", "a"])), strings(&["a", "b", "c"]));
    assert_eq!(stale_modules(&Vec::new(), &strings(&["x"])), strings(&["x"]));
    assert!(stale_modules(&Vec::new(), &Vec::new()).is_empty());
}

#[test]
fn execution_profiles() {
    let g = graph("/proj/run.py", Some("run"), &[], true);
    assert_eq!(classify_python_profile(&g), PythonExecutionProfile::Ephemeral);
    let g = graph("/proj/my_bot.py", Some("my_bot"), &[], false);
    assert_eq!(classify_python_profile(&g), PythonExecutionProfile::Looping);
    let g = graph("/proj/WatchDog.py", Some("WatchDog"), &[], false);
    assert_eq!(classify_python_profile(&g), PythonExecutionProfile::Looping);
    let g = graph("/proj/DAEMON.py", None, &[], false);
    assert_eq!(classify_python_profile(&g), PythonExecutionProfile::Looping);
    let five = [("a", "/a"), ("b", "/b"), ("c", "/c"), ("d", "/d"), ("e", "/e")];
    let g = graph("/proj/app.py", Some("app"), &five, false);
    assert_eq!(classify_python_profile(&g), PythonExecutionProfile::Service);
    let g = graph("/proj/app.py", Some("app"), &five[..4], false);
    assert_eq!(classify_python_profile(&g), PythonExecutionProfile::Ephemeral);
}

#[test]
fn module_runner_choice() {
    assert!(should_use_python_module_runner(&graph("/proj/pkg/app.py", Some("pkg.app"), &[], false)));
    assert!(!should_use_python_module_runner(&graph("/proj/pkg/app.py", Some("pkg.app"), &[], true)));
    assert!(!should_use_python_module_runner(&graph("/proj/pkg/app.py", None, &[], false)));
    assert!(!should_use_python_module_runner(&graph("/proj/pkg/app.pyw", Some("pkg.app"), &[], false)));
    assert!(!should_use_python_module_runner(&graph("/other/app.py", Some("app"), &[], false)));
}

#[test]
fn bootstrap_program() {
    let got = build_python_bootstrap("{}", "/proj", "/proj/a.py", "a", true, PythonExecutionProfile::Service, "[]");
    assert_eq!(got, bootstrap_text("{}", "/proj", "/proj/a.py", "a", true, "service", "[]"));
    let got = build_python_bootstrap("{\"m\":\"/m.py\"}", "/b", "/b/x.py", "", false, PythonExecutionProfile::Looping, "[\"m\"]");
    assert_eq!(got, bootstrap_text("{\"m\":\"/m.py\"}", "/b", "/b/x.py", "", false, "looping", "[\"m\"]"));
    let got = build_python_bootstrap("{}", "", "", "", false, PythonExecutionProfile::Ephemeral, "[]");
    assert!(got.contains("_profile = r'''ephemeral'''"));
}

#[test]
fn manifest_json_keeps_last_file_per_name() {
    let manifest = vec![
        ("b".to_string(), "/x\"y".to_string()),
        ("a".to_string(), "/a".to_string()),
        ("b".to_string(), "/z".to_string()),
    ];
    assert_eq!(build_python_manifest_json(&manifest).unwrap(), r#"{"a":"/a","b":"/z"}"#);
    assert_eq!(build_python_manifest_json(&Vec::new()).unwrap(), "{}");
}

#[test]
fn manifest_json_escapes() {
    let manifest = vec![
        ("q\"k".to_string(), "tab\there\\".to_string()),
        ("ctl".to_string(), "\u{1}\u{8}\u{c}\r\n é".to_string()),
    ];
    assert_eq!(
        build_python_manifest_json(&manifest).unwrap(),
        "{\"ctl\":\"\\u0001\\b\\f\\r\\n é\",\"q\\\"k\":\"tab\\there\\\\\"}"
    );
}

#[test]
fn name_list_json() {
    assert_eq!(json_string_list(&strings(&["a\"b", "c\n", "é"])).unwrap(), "[\"a\\\"b\",\"c\\n\",\"é\"]");
    assert_eq!(json_string_list(&Vec::new()).unwrap(), "[]");
    assert_eq!(json_string_list(&strings(&["\u{1f}"])).unwrap(), "[\"\\u001f\"]");
}

#[test]
fn run_script_for_a_graph() {
    let g = graph("/proj/main.py", Some("main"), &[("main", "/proj/main.py"), ("util", "/proj/util.py")], false);
    let script = python_run_script(&g, &strings(&["old"])).unwrap();
    let manifest = r#"{"main":"/proj/main.py","util":"/proj/util.py"}"#;
    assert_eq!(script, bootstrap_text(manifest, "/proj", "/proj/main.py", "main", true, "ephemeral", "[\"old\"]"));
    let g = graph("/proj/tmpx", None, &[], true);
    let script = python_run_script(&g, &Vec::new()).unwrap();
    assert_eq!(script, bootstrap_text("{}", "/proj", "/proj/tmpx", "", false, "ephemeral", "[]"));
}

#[test]
fn nul_in_the_script_is_refused() {
    let g = graph("/proj/ma\0in.py", Some("main"), &[], false);
    match python_run_script(&g, &Vec::new()) {
        Err(KernelError::InvalidInput(msg)) => assert_eq!(msg, "source contains interior NUL byte"),
        other => panic!("unexpected {other:?}"),
    }
    let g = graph("/proj/main.py", Some("main"), &[], false);
    let script = python_run_script(&g, &strings(&["a\0"])).unwrap();
    assert!(script.contains("json.loads(r'''[\"a\\u0000\"]''')"));
    let g = graph("/proj/main.py", Some("ma\0in"), &[], false);
    assert!(matches!(python_run_script(&g, &Vec::new()), Err(KernelError::InvalidInput(_))));
}

#[test]
fn disabled_runtimes_refuse_to_start() {
    let mut c = KernelConfig::from_current_dir(Some("/w".to_string()));
    assert_eq!(check_runtime_enabled(&c, Language::Python), Ok(()));
    c.js_enabled = false;
    assert_eq!(check_runtime_enabled(&c, Language::Js), Err(KernelError::WorkerInit("js runtime disabled".to_string())));
    c.python_enabled = false;
    assert_eq!(
        check_runtime_enabled(&c, Language::Python),
        Err(KernelError::WorkerInit("python runtime disabled".to_string()))
    );
    c.lua_enabled = false;
    assert_eq!(check_runtime_enabled(&c, Language::Lua), Err(KernelError::WorkerInit("lua runtime disabled".to_string())));
}
