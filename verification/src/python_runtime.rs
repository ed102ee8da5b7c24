//! What the Python worker decides: which modules are stale, how a script is
//! run, and the bootstrap program that runs it.
use vstd::prelude::*;

use crate::error::{KernelError, KernelResult};
use crate::graph::DependencyGraph;
use crate::host::{build_python_manifest_json, json_array, json_object, json_string_list, manifest_map};
use crate::path::{
    extension, extension_chars, file_name, file_name_chars, path_starts_with, path_starts_with_chars,
};
use crate::text::{
    ascii_lower, ascii_lower_chars, chars_equal, chars_of, contains_chars, has_infix,
    is_sorted_set_of, lemma_chars_deep_view, sorted_unique, string_of, strings_of,
};

verus! {

/// Appends the characters of each name to `all`.
fn push_names(all: &mut Vec<Vec<char>>, names: &Vec<String>)
    ensures
        final(all).deep_view() == old(all).deep_view() + names.deep_view(),
{
    let ghost start = all.deep_view();
    let mut i: usize = 0;
    while i < names.len()
        invariant
            i <= names.len(),
            all.deep_view() == start + names.deep_view().take(i as int),
        decreases names.len() - i,
    {
        let x = chars_of(names[i].as_str());
        let ghost before = all.deep_view();
        proof {
            lemma_chars_deep_view(&x);
        }
        all.push(x);
        assert(all.deep_view() =~= before.push(names.deep_view()[i as int]));
        assert(names.deep_view().take(i + 1) =~= names.deep_view().take(i as int).push(
            names.deep_view()[i as int],
        ));
        i += 1;
    }
    assert(names.deep_view().take(i as int) =~= names.deep_view());
}

/// The modules a worker forgets before a run (the Python and the Lua worker
/// alike): those of the run before and those of this run, sorted, each once.
pub fn stale_modules(previous: &Vec<String>, current: &Vec<String>) -> (res: Vec<String>)
    ensures
        is_sorted_set_of(res.deep_view(), previous.deep_view() + current.deep_view()),
{
    let mut all: Vec<Vec<char>> = Vec::new();
    push_names(&mut all, previous);
    push_names(&mut all, current);
    assert(all.deep_view() =~= previous.deep_view() + current.deep_view());
    let sorted = sorted_unique(&all);
    strings_of(&sorted)
}

/// How long a Python script is expected to run.
#[derive(Debug, Clone, Copy, PartialEq, Eq, Structural)]
pub enum PythonExecutionProfile {
    Ephemeral,
    Service,
    Looping,
}

/// Inline code is ephemeral; a file whose name (in ASCII lowercase) holds
/// `bot`, `monitor`, `watch` or `daemon` loops; a graph of five modules or
/// more is a service; anything else is ephemeral.
pub open spec fn profile_of(graph: DependencyGraph) -> PythonExecutionProfile {
    if graph.entry_is_code {
        PythonExecutionProfile::Ephemeral
    } else {
        let name = ascii_lower(
            match file_name(graph.entry_path@) {
                Some(n) => n,
                None => Seq::empty(),
            },
        );
        if has_infix(name, "bot"@) || has_infix(name, "monitor"@) || has_infix(name, "watch"@)
            || has_infix(name, "daemon"@) {
            PythonExecutionProfile::Looping
        } else if graph.modules@.dom().len() >= 5 {
            PythonExecutionProfile::Service
        } else {
            PythonExecutionProfile::Ephemeral
        }
    }
}

/// How long the graph's script is expected to run.
pub fn classify_python_profile(graph: &DependencyGraph) -> (res: PythonExecutionProfile)
    ensures
        res == profile_of(*graph),
{
    if graph.entry_is_code {
        return PythonExecutionProfile::Ephemeral;
    }
    let module_count = graph.modules.len();
    let name = match file_name_chars(&chars_of(graph.entry_path.as_str())) {
        Some(n) => {
            proof {
                lemma_chars_deep_view(&n);
            }
            n
        },
        None => Vec::new(),
    };
    assert(name@ == (match file_name(graph.entry_path@) {
        Some(n) => n,
        None => Seq::<char>::empty(),
    }));
    let lower = ascii_lower_chars(&name);
    if contains_chars(&lower, &chars_of("bot")) || contains_chars(&lower, &chars_of("monitor"))
        || contains_chars(&lower, &chars_of("watch")) || contains_chars(
        &lower,
        &chars_of("daemon"),
    ) {
        return PythonExecutionProfile::Looping;
    }
    if module_count >= 5 {
        PythonExecutionProfile::Service
    } else {
        PythonExecutionProfile::Ephemeral
    }
}

/// Whether the script is run as a module (`runpy.run_module`) rather than as
/// a file: a file entry that has a module name, ends in `.py` and lies under
/// the base directory.
pub open spec fn uses_module_runner(graph: DependencyGraph) -> bool {
    &&& !graph.entry_is_code
    &&& graph.entry_module is Some
    &&& extension(graph.entry_path@) == Some("py"@)
    &&& path_starts_with(graph.entry_path@, graph.base_dir@)
}

/// Whether the graph's script is run as a module.
pub fn should_use_python_module_runner(graph: &DependencyGraph) -> (res: bool)
    ensures
        res == uses_module_runner(*graph),
{
    if graph.entry_is_code {
        return false;
    }
    if graph.entry_module.is_none() {
        return false;
    }
    let entry = chars_of(graph.entry_path.as_str());
    let is_py = match extension_chars(&entry) {
        Some(e) => {
            proof {
                lemma_chars_deep_view(&e);
            }
            chars_equal(&e, &chars_of("py"))
        },
        None => false,
    };
    if !is_py {
        return false;
    }
    path_starts_with_chars(&entry, &chars_of(graph.base_dir.as_str()))
}

/// The name of a profile.
pub open spec fn profile_name(profile: PythonExecutionProfile) -> Seq<char> {
    match profile {
        PythonExecutionProfile::Ephemeral => "ephemeral"@,
        PythonExecutionProfile::Service => "service"@,
        PythonExecutionProfile::Looping => "looping"@,
    }
}

/// The Python program that installs a finder for the manifest's modules, puts
/// the base directory on `sys.path`, forgets the stale modules and runs the
/// entry, as a module or as a file.
pub open spec fn python_bootstrap(
    manifest_json: Seq<char>,
    base_dir: Seq<char>,
    entry_path: Seq<char>,
    entry_module: Seq<char>,
    use_module_runner: bool,
    profile: PythonExecutionProfile,
    stale_modules_json: Seq<char>,
) -> Seq<char> {
    "\nimport importlib.abc\nimport importlib.util\nimport json\nimport runpy\nimport sys\n\n_manifest = json.loads(r'''"@
        + manifest_json + "''')\n_base_dir = r'''"@ + base_dir + "'''\n_entry_path = r'''"@
        + entry_path + "'''\n_entry_module = r'''"@ + entry_module + "'''\n_profile = r'''"@
        + profile_name(profile) + "'''\n_stale_modules = json.loads(r'''"@ + stale_modules_json
        + "''')\n\nclass _KernelFinder(importlib.abc.MetaPathFinder):\n    def find_spec(self, fullname, path=None, target=None):\n        file_path = _manifest.get(fullname)\n        if file_path is None:\n            return None\n        return importlib.util.spec_from_file_location(fullname, file_path)\n\nif _base_dir not in sys.path:\n    sys.path.insert(0, _base_dir)\n\nif not any(type(item).__name__ == '_KernelFinder' for item in sys.meta_path):\n    sys.meta_path.insert(0, _KernelFinder())\n\nfor module_name in _stale_modules:\n    sys.modules.pop(module_name, None)\n\nif "@
        + (if use_module_runner {
        "True"@
    } else {
        "False"@
    }) + ":\n    runpy.run_module(_entry_module, run_name='__main__')\nelse:\n    runpy.run_path(_entry_path, run_name='__main__')\n"@
}

fn push_text(out: &mut Vec<char>, s: &str)
    ensures
        final(out)@ == old(out)@ + s@,
{
    let t = chars_of(s);
    let mut i: usize = 0;
    while i < t.len()
        invariant
            i <= t.len(),
            out@ == old(out)@ + t@.take(i as int),
        decreases t.len() - i,
    {
        out.push(t[i]);
        i += 1;
        assert(out@ =~= old(out)@ + t@.take(i as int));
    }
    assert(t@.take(i as int) =~= t@);
}

/// The bootstrap program.
pub fn build_python_bootstrap(
    manifest_json: &str,
    base_dir: &str,
    entry_path: &str,
    entry_module: &str,
    use_module_runner: bool,
    profile: PythonExecutionProfile,
    stale_modules_json: &str,
) -> (res: String)
    ensures
        res@ == python_bootstrap(
            manifest_json@,
            base_dir@,
            entry_path@,
            entry_module@,
            use_module_runner,
            profile,
            stale_modules_json@,
        ),
{
    let profile_text = match profile {
        PythonExecutionProfile::Ephemeral => "ephemeral",
        PythonExecutionProfile::Service => "service",
        PythonExecutionProfile::Looping => "looping",
    };
    let mut out: Vec<char> = Vec::new();
    push_text(&mut out, "\nimport importlib.abc\nimport importlib.util\nimport json\nimport runpy\nimport sys\n\n_manifest = json.loads(r'''");
    push_text(&mut out, manifest_json);
    push_text(&mut out, "''')\n_base_dir = r'''");
    push_text(&mut out, base_dir);
    push_text(&mut out, "'''\n_entry_path = r'''");
    push_text(&mut out, entry_path);
    push_text(&mut out, "'''\n_entry_module = r'''");
    push_text(&mut out, entry_module);
    push_text(&mut out, "'''\n_profile = r'''");
    push_text(&mut out, profile_text);
    push_text(&mut out, "'''\n_stale_modules = json.loads(r'''");
    push_text(&mut out, stale_modules_json);
    push_text(&mut out, "''')\n\nclass _KernelFinder(importlib.abc.MetaPathFinder):\n    def find_spec(self, fullname, path=None, target=None):\n        file_path = _manifest.get(fullname)\n        if file_path is None:\n            return None\n        return importlib.util.spec_from_file_location(fullname, file_path)\n\nif _base_dir not in sys.path:\n    sys.path.insert(0, _base_dir)\n\nif not any(type(item).__name__ == '_KernelFinder' for item in sys.meta_path):\n    sys.meta_path.insert(0, _KernelFinder())\n\nfor module_name in _stale_modules:\n    sys.modules.pop(module_name, None)\n\nif ");
    push_text(&mut out, if use_module_runner { "True" } else { "False" });
    push_text(&mut out, ":\n    runpy.run_module(_entry_module, run_name='__main__')\nelse:\n    runpy.run_path(_entry_path, run_name='__main__')\n");
    string_of(&out)
}

/// Whether a text holds a NUL character.
fn holds_nul(s: &Vec<char>) -> (res: bool)
    ensures
        res == s@.contains('\0'),
{
    let mut i: usize = 0;
    while i < s.len()
        invariant
            i <= s.len(),
            forall|j: int| 0 <= j < i ==> s@[j] != '\0',
        decreases s.len() - i,
    {
        if s[i] == '\0' {
            assert(s@[i as int] == '\0');
            return true;
        }
        i += 1;
    }
    false
}

/// The bootstrap program for the graph's script, forgetting `stale` first.
pub open spec fn python_script_for(
    graph: DependencyGraph,
    manifest: Seq<(Seq<char>, Seq<char>)>,
    stale: Seq<Seq<char>>,
) -> Seq<char> {
    python_bootstrap(
        json_object(manifest),
        graph.base_dir@,
        graph.entry_path@,
        match graph.entry_module {
            Some(m) => m@,
            None => Seq::empty(),
        },
        uses_module_runner(graph),
        profile_of(graph),
        json_array(stale),
    )
}

/// The program that runs the graph's script, forgetting `stale_modules`
/// first; or, where it holds a NUL character (which no C string can), the
/// error `InvalidInput("source contains interior NUL byte")`.
pub fn python_run_script(graph: &DependencyGraph, stale_modules: &Vec<String>) -> (res: KernelResult<String>)
    ensures
        exists|pairs: Seq<(Seq<char>, Seq<char>)>|
            #![trigger manifest_map(graph.modules.pairs(), pairs)]
            manifest_map(graph.modules.pairs(), pairs) && {
                let script = python_script_for(*graph, pairs, stale_modules.deep_view());
                match res {
                    Ok(text) => text@ == script && !script.contains('\0'),
                    Err(e) => script.contains('\0') && (e matches KernelError::InvalidInput(m)
                        && m@ == "source contains interior NUL byte"@),
                }
            },
{
    let entries = graph.modules.entries();
    let manifest = match build_python_manifest_json(&entries) {
        Ok(m) => m,
        Err(e) => {
            return Err(e);
        },
    };
    let stale_json = match json_string_list(stale_modules) {
        Ok(s) => s,
        Err(e) => {
            return Err(e);
        },
    };
    let entry_module = match &graph.entry_module {
        Some(m) => m.clone(),
        None => String::new(),
    };
    let script = build_python_bootstrap(
        manifest.as_str(),
        graph.base_dir.as_str(),
        graph.entry_path.as_str(),
        entry_module.as_str(),
        should_use_python_module_runner(graph),
        classify_python_profile(graph),
        stale_json.as_str(),
    );
    let ghost pairs = choose|p: Seq<(Seq<char>, Seq<char>)>|
        manifest_map(entries.deep_view(), p) && manifest@ == json_object(p);
    assert(manifest_map(graph.modules.pairs(), pairs));
    assert(script@ == python_script_for(*graph, pairs, stale_modules.deep_view()));
    if holds_nul(&chars_of(script.as_str())) {
        let msg = String::from_str("source contains interior NUL byte");
        proof {
            reveal_strlit("source contains interior NUL byte");
        }
        return Err(KernelError::InvalidInput(msg));
    }
    Ok(script)
}

} // verus!
