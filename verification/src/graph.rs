//! Where imported modules are found, and the dependency graph of a script.
use vstd::prelude::*;

use crate::path::{
    is_absolute, lemma_path_lt_total, lemma_with_extension_keeps_head, file_stem, file_stem_chars, join, join_chars, parent, parent_chars, path_less, path_lt, same_path,
    same_path_chars, with_extension, with_extension_chars,
};
use crate::text::{
    chars_of, concat_chars, has_prefix, is_sorted_set_of, strictly_sorted, join_pieces, join_with, lemma_chars_deep_view,
    lemma_split_on_joined, slice_chars, split_chars, split_on, starts_with_chars, string_of,
};
use crate::config::{Language, RunReport};
use crate::error::KernelError;
use crate::imports::{
    js_import_list, js_imports_from_source, lua_import_list, lua_imports_from_source,
    python_import_list, python_imports_from_source,
};
use crate::util::{
    module_candidates, module_name_of, module_to_candidates, path_to_module_name, resolve_module_file,
    resolved_module_file, unique_push, ExistingPaths, ModuleMap,
};

verus! {

// ---------------------------------------------------------------------------
// Where imported modules are found.
/// The directory of `file`, or `base_dir` when `file` has no parent.
pub open spec fn dir_of(file: Seq<char>, base_dir: Seq<char>) -> Seq<char> {
    match parent(file) {
        Some(p) => p,
        None => base_dir,
    }
}

/// The paths that the options hold, in order.
pub open spec fn somes(a: Option<Seq<char>>, b: Option<Seq<char>>) -> Seq<Seq<char>> {
    (match a {
        Some(x) => seq![x],
        None => Seq::empty(),
    }) + (match b {
        Some(y) => seq![y],
        None => Seq::empty(),
    })
}

/// At most two paths sorted in the order of `Path`, a path that is the same
/// as the one before it dropped (what `sort` then `dedup` leaves).
pub open spec fn sorted_paths(found: Seq<Seq<char>>) -> Seq<Seq<char>> {
    if found.len() == 2 {
        if same_path(found[0], found[1]) {
            seq![found[0]]
        } else if path_lt(found[1], found[0]) {
            seq![found[1], found[0]]
        } else {
            found
        }
    } else {
        found
    }
}

/// The existing files of the module `module_name` with `extension`, looked
/// for in `current_dir` and then in `base_dir`, sorted, each once.
pub open spec fn module_files(
    base_dir: Seq<char>,
    current_dir: Seq<char>,
    module_name: Seq<char>,
    extension: Seq<char>,
    known: Set<Seq<char>>,
) -> Seq<Seq<char>> {
    sorted_paths(
        somes(
            resolved_module_file(current_dir, module_name, extension, known),
            resolved_module_file(base_dir, module_name, extension, known),
        ),
    )
}

/// The existing files of Python module `module_name`; none for an empty name.
pub open spec fn python_module_files(
    base_dir: Seq<char>,
    current_dir: Seq<char>,
    module_name: Seq<char>,
    known: Set<Seq<char>>,
) -> Seq<Seq<char>> {
    if module_name.len() == 0 {
        Seq::empty()
    } else {
        module_files(base_dir, current_dir, module_name, ".py"@, known)
    }
}

/// The number of `.` characters that `s` begins with.
pub open spec fn leading_dots(s: Seq<char>) -> int
    decreases s.len(),
{
    if s.len() > 0 && s[0] == '.' {
        1 + leading_dots(s.drop_first())
    } else {
        0
    }
}

/// The absolute name of a relative Python import made from module
/// `current_module`: each leading dot goes one package up from the module
/// (the first dot leaves the module itself), and the rest of the name is
/// added below what is left.
pub open spec fn relative_module(current_module: Seq<char>, imported: Seq<char>) -> Seq<char> {
    let dots = leading_dots(imported);
    let remainder = imported.skip(dots);
    let parts = split_on(current_module, '.');
    let kept = if dots <= parts.len() {
        parts.len() - dots
    } else {
        0
    };
    let prefix = join_with(parts.take(kept), "."@);
    if remainder.len() == 0 {
        prefix
    } else if prefix.len() == 0 {
        remainder
    } else {
        prefix + "."@ + remainder
    }
}

/// The name under which a Python import is looked for.
pub open spec fn python_target_name(current_module: Seq<char>, imported: Seq<char>) -> Seq<char> {
    if has_prefix(imported, "."@) {
        relative_module(current_module, imported)
    } else {
        imported
    }
}

/// The existing files that a Python import made from `file` (module
/// `current_module`) can mean.
pub open spec fn python_import_files(
    file: Seq<char>,
    base_dir: Seq<char>,
    current_module: Seq<char>,
    imported: Seq<char>,
    known: Set<Seq<char>>,
) -> Seq<Seq<char>> {
    python_module_files(
        base_dir,
        dir_of(file, base_dir),
        python_target_name(current_module, imported),
        known,
    )
}

/// The existing files that a Lua `require` made from `file` can mean.
pub open spec fn lua_import_files(
    file: Seq<char>,
    base_dir: Seq<char>,
    module_name: Seq<char>,
    known: Set<Seq<char>>,
) -> Seq<Seq<char>> {
    module_files(base_dir, dir_of(file, base_dir), module_name, ".lua"@, known)
}

/// The path that a JavaScript import made from `file` names: taken from the
/// directory of `file` (or `.`) when it begins with `./` or `../`, as given
/// otherwise.
pub open spec fn js_import_path(file: Seq<char>, module: Seq<char>) -> Seq<char> {
    if has_prefix(module, "./"@) || has_prefix(module, "../"@) {
        join(
            match parent(file) {
                Some(p) => p,
                None => "."@,
            },
            module,
        )
    } else {
        module
    }
}

/// The files that a JavaScript import can mean, in the order they are tried:
/// the path, the path with extension `js`, and its `index.js`.
pub open spec fn js_import_files(file: Seq<char>, module: Seq<char>) -> Seq<Seq<char>> {
    let p = js_import_path(file, module);
    seq![p, with_extension(p, "js"@), join(p, "index.js"@)]
}

fn dir_of_chars(file: &Vec<char>, base_dir: &Vec<char>) -> (res: Vec<char>)
    ensures
        res@ == dir_of(file@, base_dir@),
{
    match parent_chars(file) {
        Some(p) => {
            proof {
                lemma_chars_deep_view(&p);
            }
            p
        },
        None => slice_chars(base_dir, 0, base_dir.len()),
    }
}

fn sorted_paths_vec(found: Vec<String>) -> (res: Vec<String>)
    requires
        found.len() <= 2,
    ensures
        res.deep_view() == sorted_paths(found.deep_view()),
{
    if found.len() == 2 {
        let a = chars_of(found[0].as_str());
        let b = chars_of(found[1].as_str());
        if same_path_chars(&a, &b) {
            let mut res: Vec<String> = Vec::new();
            res.push(found[0].clone());
            assert(res.deep_view() =~= sorted_paths(found.deep_view()));
            res
        } else if path_less(&b, &a) {
            let mut res: Vec<String> = Vec::new();
            res.push(found[1].clone());
            res.push(found[0].clone());
            assert(res.deep_view() =~= sorted_paths(found.deep_view()));
            res
        } else {
            found
        }
    } else {
        found
    }
}

fn module_files_vec(
    base_dir: &str,
    current_dir: &str,
    module_name: &str,
    extension: &str,
    known: &ExistingPaths,
) -> (res: Vec<String>)
    ensures
        res.deep_view() == module_files(
            base_dir@,
            current_dir@,
            module_name@,
            extension@,
            known@,
        ),
{
    let mut found: Vec<String> = Vec::new();
    let first = resolve_module_file(current_dir, module_name, extension, known);
    let second = resolve_module_file(base_dir, module_name, extension, known);
    let ghost fv = first.deep_view();
    let ghost sv = second.deep_view();
    match first {
        Some(p) => {
            found.push(p);
        },
        None => {},
    }
    match second {
        Some(p) => {
            found.push(p);
        },
        None => {},
    }
    assert(found.deep_view() =~= somes(fv, sv));
    sorted_paths_vec(found)
}

/// The existing files of Python module `module_name`, looked for in
/// `current_dir` and then in `base_dir`, sorted, each once.
pub fn resolve_python_by_name(base_dir: &str, current_dir: &str, module_name: &str, known: &ExistingPaths) -> (res: Vec<String>)
    ensures
        res.deep_view() == python_module_files(base_dir@, current_dir@, module_name@, known@),
{
    let m = chars_of(module_name);
    if m.len() == 0 {
        let res: Vec<String> = Vec::new();
        assert(res.deep_view() =~= Seq::<Seq<char>>::empty());
        return res;
    }
    proof {
        reveal_strlit(".py");
    }
    module_files_vec(base_dir, current_dir, module_name, ".py", known)
}

fn leading_dots_count(s: &Vec<char>) -> (res: usize)
    ensures
        res == leading_dots(s@),
        res <= s.len(),
{
    let mut i: usize = 0;
    assert(s@.skip(0) =~= s@);
    while i < s.len() && s[i] == '.'
        invariant
            i <= s.len(),
            leading_dots(s@) == i + leading_dots(s@.skip(i as int)),
        decreases s.len() - i,
    {
        assert(s@.skip(i as int).drop_first() =~= s@.skip(i + 1));
        i += 1;
    }
    i
}

fn relative_module_chars(current_module: &Vec<char>, imported: &Vec<char>) -> (res: Vec<char>)
    ensures
        res@ == relative_module(current_module@, imported@),
{
    proof {
        reveal_strlit(".");
        assert(seq!['.'] =~= "."@);
    }
    let dots = leading_dots_count(imported);
    let remainder = slice_chars(imported, dots, imported.len());
    assert(remainder@ =~= imported@.skip(dots as int));
    let mut parts = split_chars(current_module, '.');
    let ghost pv = parts.deep_view();
    let kept = if dots <= parts.len() {
        parts.len() - dots
    } else {
        0
    };
    parts.truncate(kept);
    assert(parts.deep_view() =~= pv.take(kept as int));
    let prefix = join_pieces(&parts, '.');
    if remainder.len() == 0 {
        prefix
    } else if prefix.len() == 0 {
        remainder
    } else {
        let mut p2 = concat_chars(&prefix, &Vec::new());
        assert(p2@ =~= prefix@);
        p2.push('.');
        let r = concat_chars(&p2, &remainder);
        assert(r@ =~= prefix@ + "."@ + remainder@);
        r
    }
}

/// The existing files that a Python import made from `file`, the module
/// `current_module`, can mean: a relative import (beginning with `.`) is
/// made absolute from the module's package, and the name is looked for
/// beside `file` and in `base_dir`.
pub fn resolve_python_import_candidates(
    file: &str,
    base_dir: &str,
    current_module: &str,
    imported: &str,
    known: &ExistingPaths,
) -> (res: Vec<String>)
    ensures
        res.deep_view() == python_import_files(file@, base_dir@, current_module@, imported@, known@),
{
    proof {
        reveal_strlit(".");
    }
    let f = chars_of(file);
    let b = chars_of(base_dir);
    let current_dir = string_of(&dir_of_chars(&f, &b));
    let imp = chars_of(imported);
    if imp.len() > 0 && imp[0] == '.' {
        assert(has_prefix(imported@, "."@)) by {
            assert(imported@.take(1) =~= "."@);
        }
        let cm = chars_of(current_module);
        let resolved = string_of(&relative_module_chars(&cm, &imp));
        return resolve_python_by_name(base_dir, current_dir.as_str(), resolved.as_str(), known);
    }
    assert(!has_prefix(imported@, "."@)) by {
        if has_prefix(imported@, "."@) {
            assert(imported@.take(1)[0] == '.');
        }
    }
    resolve_python_by_name(base_dir, current_dir.as_str(), imported, known)
}

/// The existing files that a Lua `require` made from `file` can mean, looked
/// for beside `file` and in `base_dir`, sorted, each once.
pub fn resolve_lua_import_candidates(file: &str, base_dir: &str, module_name: &str, known: &ExistingPaths) -> (res: Vec<String>)
    ensures
        res.deep_view() == lua_import_files(file@, base_dir@, module_name@, known@),
{
    proof {
        reveal_strlit(".lua");
    }
    let f = chars_of(file);
    let b = chars_of(base_dir);
    let current_dir = string_of(&dir_of_chars(&f, &b));
    module_files_vec(base_dir, current_dir.as_str(), module_name, ".lua", known)
}

/// The files that a JavaScript import made from `file` can mean, in the order
/// they are tried.
pub fn resolve_js_import_candidates(file: &str, module: &str) -> (res: Vec<String>)
    ensures
        res.deep_view() == js_import_files(file@, module@),
{
    let f = chars_of(file);
    let m = chars_of(module);
    let relative = starts_with_chars(&m, &chars_of("./")) || starts_with_chars(&m, &chars_of("../"));
    let path = if relative {
        let dir = match parent_chars(&f) {
            Some(p) => {
                proof {
                    lemma_chars_deep_view(&p);
                }
                p
            },
            None => chars_of("."),
        };
        join_chars(&dir, &m)
    } else {
        m
    };
    assert(path@ == js_import_path(file@, module@));
    let with_js = with_extension_chars(&path, &chars_of("js"));
    let index = join_chars(&path, &chars_of("index.js"));
    let mut res: Vec<String> = Vec::new();
    res.push(string_of(&path));
    res.push(string_of(&with_js));
    res.push(string_of(&index));
    assert(res.deep_view() =~= js_import_files(file@, module@));
    res
}


// ---------------------------------------------------------------------------
// The dependency graph.
/// The modules that a script and the local modules it imports make up.
#[derive(Debug)]
pub struct DependencyGraph {
    pub language: Language,
    /// The canonical path of the entry file.
    pub entry_path: String,
    /// The module name of the entry file, if it has one.
    pub entry_module: Option<String>,
    /// The absolute directory that module names are relative to.
    pub base_dir: String,
    /// Each module name, with the file that defines it.
    pub modules: ModuleMap,
    /// Whether the entry was inline code written to a file.
    pub entry_is_code: bool,
}

impl DependencyGraph {
    /// The names of the modules, sorted.
    pub fn discovered_module_names(&self) -> (res: Vec<String>)
        ensures
            res.deep_view() == self.modules.keys(),
            strictly_sorted(res.deep_view()),
            res.deep_view().to_set() == self.modules@.dom(),
    {
        self.modules.names()
    }

    /// What a run of the graph reports: its language, its entry path and its
    /// module names.
    pub fn report(&self) -> (res: RunReport)
        ensures
            res.language == self.language,
            res.entry_path@ == self.entry_path@,
            res.discovered_modules.deep_view() == self.modules.keys(),
    {
        RunReport {
            language: self.language,
            entry_path: self.entry_path.clone(),
            discovered_modules: self.discovered_module_names(),
        }
    }
}

/// What the file system answered.
pub enum GraphEvent {
    /// The canonical form of the path that was asked for.
    Canonical(String),
    /// The text of the file that was asked for.
    Source(String),
    /// For each path that was asked about, whether it exists.
    Probed(Vec<bool>),
    /// The file system failed; the message says why.
    IoFailed(String),
}

/// What the file system is to do next.
#[derive(Debug)]
pub enum GraphAction {
    /// Give the canonical form of the path (or the path made absolute).
    Canonicalize(String),
    /// Read the file.
    Read(String),
    /// Say of each path whether it exists.
    Probe(Vec<String>),
    /// The graph is complete.
    Finished,
    /// Building the graph failed.
    Failed(KernelError),
}

/// An event, as text.
pub enum EventView {
    Canonical(Seq<char>),
    Source(Seq<char>),
    Probed(Seq<bool>),
    IoFailed(String),
}

/// An action, as text.
pub enum ActionView {
    Canonicalize(Seq<char>),
    Read(Seq<char>),
    Probe(Seq<Seq<char>>),
    Finished,
    Failed(KernelError),
}

impl GraphEvent {
    pub open spec fn view(&self) -> EventView {
        match self {
            GraphEvent::Canonical(p) => EventView::Canonical(p@),
            GraphEvent::Source(t) => EventView::Source(t@),
            GraphEvent::Probed(f) => EventView::Probed(f@),
            GraphEvent::IoFailed(m) => EventView::IoFailed(*m),
        }
    }
}

impl GraphAction {
    pub open spec fn view(&self) -> ActionView {
        match self {
            GraphAction::Canonicalize(p) => ActionView::Canonicalize(p@),
            GraphAction::Read(p) => ActionView::Read(p@),
            GraphAction::Probe(ps) => ActionView::Probe(ps.deep_view()),
            GraphAction::Finished => ActionView::Finished,
            GraphAction::Failed(e) => ActionView::Failed(*e),
        }
    }
}

/// Where a graph builder stands.
pub enum Stage {
    /// Waiting for the canonical form of the next queued path.
    Canonicalizing,
    /// Waiting for the text of `file`, the module `module`.
    Reading(Seq<char>, Seq<char>),
    /// Waiting for the existence of the candidate files of `imports`, read
    /// from `file`, the module `module`.
    Probing(Seq<char>, Seq<char>, Seq<Seq<char>>, Seq<Seq<char>>),
    /// The graph is complete.
    Done,
    /// Building the graph failed.
    Failed,
}

enum Phase {
    Canonicalizing,
    Reading { file: String, module: String },
    Probing { file: String, module: String, imports: Vec<String>, targets: Vec<String> },
    Done,
    Failed,
}

/// The modules that `text` imports, in the order they are followed: sorted,
/// each once, for Python and Lua; in order of appearance for JavaScript.
pub open spec fn imports_match(language: Language, imports: Seq<Seq<char>>, text: Seq<char>) -> bool {
    match language {
        Language::Python => is_sorted_set_of(imports, python_import_list(text)),
        Language::Lua => is_sorted_set_of(imports, lua_import_list(text)),
        Language::Js => imports == js_import_list(text),
    }
}

/// The paths whose existence decides where one import is found.
pub open spec fn import_probe_paths(
    language: Language,
    file: Seq<char>,
    base_dir: Seq<char>,
    module: Seq<char>,
    imported: Seq<char>,
) -> Seq<Seq<char>> {
    match language {
        Language::Python => {
            let name = python_target_name(module, imported);
            if name.len() == 0 {
                Seq::empty()
            } else {
                module_candidates(dir_of(file, base_dir), name, ".py"@) + module_candidates(
                    base_dir,
                    name,
                    ".py"@,
                )
            }
        },
        Language::Lua => module_candidates(dir_of(file, base_dir), imported, ".lua"@)
            + module_candidates(base_dir, imported, ".lua"@),
        Language::Js => js_import_files(file, imported),
    }
}

/// The paths whose existence decides where the imports are found.
pub open spec fn probe_paths(
    language: Language,
    file: Seq<char>,
    base_dir: Seq<char>,
    module: Seq<char>,
    imports: Seq<Seq<char>>,
) -> Seq<Seq<char>> {
    imports.map_values(|i: Seq<char>| import_probe_paths(language, file, base_dir, module, i)).flatten()
}

/// The files that one import can mean.
pub open spec fn import_files(
    language: Language,
    file: Seq<char>,
    base_dir: Seq<char>,
    module: Seq<char>,
    imported: Seq<char>,
    known: Set<Seq<char>>,
) -> Seq<Seq<char>> {
    match language {
        Language::Python => python_import_files(file, base_dir, module, imported, known),
        Language::Lua => lua_import_files(file, base_dir, imported, known),
        Language::Js => js_import_files(file, imported),
    }
}

/// The first of `cands` that exists, as a sequence of at most one path.
pub open spec fn first_existing(cands: Seq<Seq<char>>, known: Set<Seq<char>>) -> Seq<Seq<char>>
    decreases cands.len(),
{
    if cands.len() == 0 {
        Seq::empty()
    } else if known.contains(cands[0]) {
        seq![cands[0]]
    } else {
        first_existing(cands.drop_first(), known)
    }
}

/// The files that the imports add to the queue: for each import in turn, the
/// first of its files that exists.
pub open spec fn queued_files(
    language: Language,
    file: Seq<char>,
    base_dir: Seq<char>,
    module: Seq<char>,
    imports: Seq<Seq<char>>,
    known: Set<Seq<char>>,
) -> Seq<Seq<char>> {
    imports.map_values(
        |i: Seq<char>| first_existing(import_files(language, file, base_dir, module, i, known), known),
    ).flatten()
}

/// The paths that the probes found to exist.
pub open spec fn probe_set(paths: Seq<Seq<char>>, flags: Seq<bool>) -> Set<Seq<char>> {
    Set::new(|p: Seq<char>| exists|i: int| 0 <= i < paths.len() && paths[i] == p && flags[i])
}

/// The module name that a visited file is recorded under: its name relative to
/// `base_dir`, or else its file stem (for Python and Lua, `module` when it has
/// none; for JavaScript there is then no name).
pub open spec fn visit_name(language: Language, base_dir: Seq<char>, file: Seq<char>) -> Option<Seq<char>> {
    match module_name_of(base_dir, file) {
        Some(n) => Some(n),
        None => match language {
            Language::Js => file_stem(file),
            _ => Some(
                match file_stem(file) {
                    Some(st) => st,
                    None => "module"@,
                },
            ),
        },
    }
}

/// Whether a file the same as `file` was visited.
pub open spec fn seen(visited: Seq<Seq<char>>, file: Seq<char>) -> bool {
    exists|i: int| 0 <= i < visited.len() && same_path(visited[i], file)
}

/// The stage and the action that come when the builder moves to the next
/// queued path, the queue being `pending` before and `after` after.
pub open spec fn advances(
    pending: Seq<Seq<char>>,
    after: Seq<Seq<char>>,
    stage: Stage,
    action: ActionView,
) -> bool {
    if pending.len() == 0 {
        &&& after == pending
        &&& stage == Stage::Done
        &&& action == ActionView::Finished
    } else {
        &&& after == pending.drop_first()
        &&& stage == Stage::Canonicalizing
        &&& action == ActionView::Canonicalize(pending[0])
    }
}

/// Whether a builder waits for `event` now.
pub open spec fn stage_accepts(stage: Stage, event: EventView) -> bool {
    match (stage, event) {
        (Stage::Canonicalizing, EventView::Canonical(_)) => true,
        (Stage::Canonicalizing, EventView::IoFailed(_)) => true,
        (Stage::Reading(_, _), EventView::Source(_)) => true,
        (Stage::Reading(_, _), EventView::IoFailed(_)) => true,
        (Stage::Probing(_, _, _, targets), EventView::Probed(flags)) => flags.len() == targets.len(),
        _ => false,
    }
}


/// The modules that `text` imports, in the order they are followed.
pub fn imports_for(language: Language, text: &str) -> (res: Vec<String>)
    ensures
        imports_match(language, res.deep_view(), text@),
{
    match language {
        Language::Python => python_imports_from_source(text),
        Language::Lua => lua_imports_from_source(text),
        Language::Js => js_imports_from_source(text),
    }
}

fn python_target_name_chars(current_module: &Vec<char>, imported: &Vec<char>) -> (res: Vec<char>)
    ensures
        res@ == python_target_name(current_module@, imported@),
{
    proof {
        reveal_strlit(".");
    }
    if imported.len() > 0 && imported[0] == '.' {
        assert(imported@.take(1) =~= "."@);
        relative_module_chars(current_module, imported)
    } else {
        assert(!has_prefix(imported@, "."@)) by {
            if has_prefix(imported@, "."@) {
                assert(imported@.take(1)[0] == '.');
            }
        }
        slice_chars(imported, 0, imported.len())
    }
}

fn append_strings(out: &mut Vec<String>, more: &Vec<String>)
    ensures
        final(out).deep_view() == old(out).deep_view() + more.deep_view(),
{
    let ghost start = out.deep_view();
    let mut j: usize = 0;
    while j < more.len()
        invariant
            j <= more.len(),
            out.deep_view() == start + more.deep_view().take(j as int),
        decreases more.len() - j,
    {
        let ghost prev = out.deep_view();
        let x = more[j].clone();
        out.push(x);
        assert(out.deep_view() =~= prev.push(more.deep_view()[j as int]));
        j += 1;
        assert(out.deep_view() =~= start + more.deep_view().take(j as int));
    }
    assert(more.deep_view().take(j as int) =~= more.deep_view());
}

/// The paths whose existence decides where one import is found.
fn import_probe_paths_vec(
    language: Language,
    file: &str,
    base_dir: &str,
    module: &str,
    imported: &str,
) -> (res: Vec<String>)
    ensures
        res.deep_view() == import_probe_paths(language, file@, base_dir@, module@, imported@),
{
    let f = chars_of(file);
    let b = chars_of(base_dir);
    let cur = string_of(&dir_of_chars(&f, &b));
    match language {
        Language::Python => {
            let name = python_target_name_chars(&chars_of(module), &chars_of(imported));
            if name.len() == 0 {
                let res: Vec<String> = Vec::new();
                assert(res.deep_view() =~= Seq::<Seq<char>>::empty());
                return res;
            }
            let name_s = string_of(&name);
            proof {
                reveal_strlit(".py");
            }
            let mut res = module_to_candidates(cur.as_str(), name_s.as_str(), ".py");
            let more = module_to_candidates(base_dir, name_s.as_str(), ".py");
            append_strings(&mut res, &more);
            res
        },
        Language::Lua => {
            proof {
                reveal_strlit(".lua");
            }
            let mut res = module_to_candidates(cur.as_str(), imported, ".lua");
            let more = module_to_candidates(base_dir, imported, ".lua");
            append_strings(&mut res, &more);
            res
        },
        Language::Js => resolve_js_import_candidates(file, imported),
    }
}

/// The paths whose existence decides where the imports of `file` are found.
pub fn probe_paths_for(
    language: Language,
    file: &str,
    base_dir: &str,
    module: &str,
    imports: &Vec<String>,
) -> (res: Vec<String>)
    ensures
        res.deep_view() == probe_paths(language, file@, base_dir@, module@, imports.deep_view()),
{
    let ghost per = imports.deep_view().map_values(
        |i: Seq<char>| import_probe_paths(language, file@, base_dir@, module@, i),
    );
    let mut res: Vec<String> = Vec::new();
    let mut k: usize = 0;
    assert(per.take(0) =~= Seq::<Seq<Seq<char>>>::empty());
    while k < imports.len()
        invariant
            k <= imports.len(),
            per == imports.deep_view().map_values(
                |i: Seq<char>| import_probe_paths(language, file@, base_dir@, module@, i),
            ),
            res.deep_view() == per.take(k as int).flatten(),
        decreases imports.len() - k,
    {
        let more = import_probe_paths_vec(language, file, base_dir, module, imports[k].as_str());
        append_strings(&mut res, &more);
        proof {
            assert(per.take(k + 1) =~= per.take(k as int).push(per[k as int]));
            per.take(k as int).lemma_flatten_push(per[k as int]);
        }
        k += 1;
    }
    assert(per.take(k as int) =~= per);
    res
}

/// The files that one import can mean.
fn import_files_vec(
    language: Language,
    file: &str,
    base_dir: &str,
    module: &str,
    imported: &str,
    known: &ExistingPaths,
) -> (res: Vec<String>)
    ensures
        res.deep_view() == import_files(language, file@, base_dir@, module@, imported@, known@),
{
    match language {
        Language::Python => resolve_python_import_candidates(file, base_dir, module, imported, known),
        Language::Lua => resolve_lua_import_candidates(file, base_dir, imported, known),
        Language::Js => resolve_js_import_candidates(file, imported),
    }
}

/// The first of `cands` that exists.
fn first_existing_vec(cands: &Vec<String>, known: &ExistingPaths) -> (res: Vec<String>)
    ensures
        res.deep_view() == first_existing(cands.deep_view(), known@),
{
    let ghost dv = cands.deep_view();
    let mut j: usize = 0;
    assert(dv.skip(0) =~= dv);
    while j < cands.len()
        invariant
            j <= cands.len(),
            dv == cands.deep_view(),
            first_existing(dv, known@) == first_existing(dv.skip(j as int), known@),
        decreases cands.len() - j,
    {
        if known.contains(&chars_of(cands[j].as_str())) {
            let mut res: Vec<String> = Vec::new();
            res.push(cands[j].clone());
            assert(res.deep_view() =~= seq![dv[j as int]]);
            return res;
        }
        assert(dv.skip(j as int).drop_first() =~= dv.skip(j + 1));
        j += 1;
    }
    let res: Vec<String> = Vec::new();
    assert(res.deep_view() =~= Seq::<Seq<char>>::empty());
    res
}

/// The files that the imports of `file` add to the queue.
pub fn queued_files_for(
    language: Language,
    file: &str,
    base_dir: &str,
    module: &str,
    imports: &Vec<String>,
    known: &ExistingPaths,
) -> (res: Vec<String>)
    ensures
        res.deep_view() == queued_files(language, file@, base_dir@, module@, imports.deep_view(), known@),
{
    let ghost per = imports.deep_view().map_values(
        |i: Seq<char>| first_existing(import_files(language, file@, base_dir@, module@, i, known@), known@),
    );
    let mut res: Vec<String> = Vec::new();
    let mut k: usize = 0;
    assert(per.take(0) =~= Seq::<Seq<Seq<char>>>::empty());
    while k < imports.len()
        invariant
            k <= imports.len(),
            per == imports.deep_view().map_values(
                |i: Seq<char>| first_existing(import_files(language, file@, base_dir@, module@, i, known@), known@),
            ),
            res.deep_view() == per.take(k as int).flatten(),
        decreases imports.len() - k,
    {
        let files = import_files_vec(language, file, base_dir, module, imports[k].as_str(), known);
        let chosen = first_existing_vec(&files, known);
        append_strings(&mut res, &chosen);
        proof {
            assert(per.take(k + 1) =~= per.take(k as int).push(per[k as int]));
            per.take(k as int).lemma_flatten_push(per[k as int]);
        }
        k += 1;
    }
    assert(per.take(k as int) =~= per);
    res
}

/// The module name that a visited file is recorded under, if any.
pub fn visit_name_for(language: Language, base_dir: &str, file: &str) -> (res: Option<String>)
    ensures
        res.deep_view() == visit_name(language, base_dir@, file@),
{
    match path_to_module_name(base_dir, file) {
        Some(n) => Some(n),
        None => {
            let stem = file_stem_chars(&chars_of(file));
            match language {
                Language::Js => match stem {
                    Some(st) => {
                        proof {
                            lemma_chars_deep_view(&st);
                        }
                        Some(string_of(&st))
                    },
                    None => None,
                },
                _ => match stem {
                    Some(st) => {
                        proof {
                            lemma_chars_deep_view(&st);
                        }
                        Some(string_of(&st))
                    },
                    None => Some(string_of(&chars_of("module"))),
                },
            }
        },
    }
}

/// Whether a file the same as `file` was visited.
fn seen_vec(visited: &Vec<String>, file: &str) -> (res: bool)
    ensures
        res == seen(visited.deep_view(), file@),
{
    let f = chars_of(file);
    let mut i: usize = 0;
    while i < visited.len()
        invariant
            i <= visited.len(),
            f@ == file@,
            forall|k: int| 0 <= k < i ==> !same_path(#[trigger] visited.deep_view()[k], file@),
        decreases visited.len() - i,
    {
        if same_path_chars(&chars_of(visited[i].as_str()), &f) {
            assert(same_path(visited.deep_view()[i as int], file@));
            return true;
        }
        i += 1;
    }
    false
}

/// Builds the dependency graph of a script, asking the file system for what
/// it needs: it canonicalizes each queued path, skips a file it has visited,
/// records a new one under its module name (the first file of a name is the
/// one kept), reads it, asks which candidate files of its imports exist, and
/// queues for each import the first of them that does.
pub struct GraphBuilder {
    graph: DependencyGraph,
    queue: Vec<String>,
    visited: Vec<String>,
    phase: Phase,
}

/// What one step of a builder does.
pub open spec fn step_spec(old: GraphBuilder, new: GraphBuilder, event: EventView, action: ActionView) -> bool {
    let g = old.graph();
    &&& new.graph().language == g.language
    &&& new.graph().entry_path == g.entry_path
    &&& new.graph().entry_module == g.entry_module
    &&& new.graph().base_dir == g.base_dir
    &&& new.graph().entry_is_code == g.entry_is_code
    &&& match (old.stage(), event) {
        (Stage::Canonicalizing, EventView::Canonical(c)) => if seen(old.visited(), c) {
            &&& new.visited() == old.visited()
            &&& new.graph().modules@ == g.modules@
            &&& advances(old.pending(), new.pending(), new.stage(), action)
        } else {
            let name = visit_name(g.language, g.base_dir@, c).unwrap();
            &&& new.visited() == old.visited().push(c)
            &&& new.graph().modules@ == (if g.modules@.dom().contains(name) {
                g.modules@
            } else {
                g.modules@.insert(name, c)
            })
            &&& new.pending() == old.pending()
            &&& new.stage() == Stage::Reading(c, name)
            &&& action == ActionView::Read(c)
        },
        (Stage::Reading(f, m), EventView::Source(text)) => {
            &&& new.visited() == old.visited()
            &&& new.graph().modules@ == g.modules@
            &&& new.pending() == old.pending()
            &&& new.stage() matches Stage::Probing(f2, m2, imports, targets)
            &&& f2 == f
            &&& m2 == m
            &&& imports_match(g.language, imports, text)
            &&& targets == probe_paths(g.language, f, g.base_dir@, m, imports)
            &&& action == ActionView::Probe(targets)
        },
        (Stage::Probing(f, m, imports, targets), EventView::Probed(flags)) => {
            &&& new.visited() == old.visited()
            &&& new.graph().modules@ == g.modules@
            &&& advances(
                old.pending() + queued_files(
                    g.language,
                    f,
                    g.base_dir@,
                    m,
                    imports,
                    probe_set(targets, flags),
                ),
                new.pending(),
                new.stage(),
                action,
            )
        },
        (_, EventView::IoFailed(msg)) => {
            &&& new.visited() == old.visited()
            &&& new.graph().modules@ == g.modules@
            &&& new.pending() == old.pending()
            &&& new.stage() == Stage::Failed
            &&& action == ActionView::Failed(KernelError::Io(msg))
        },
        _ => true,
    }
}

impl GraphBuilder {
    /// The graph built so far.
    pub closed spec fn graph(&self) -> DependencyGraph {
        self.graph
    }

    /// The paths queued and not yet taken, in order.
    pub closed spec fn pending(&self) -> Seq<Seq<char>> {
        self.queue.deep_view()
    }

    /// The files visited, in order.
    pub closed spec fn visited(&self) -> Seq<Seq<char>> {
        self.visited.deep_view()
    }

    /// Where the builder stands.
    pub closed spec fn stage(&self) -> Stage {
        match &self.phase {
            Phase::Canonicalizing => Stage::Canonicalizing,
            Phase::Reading { file, module } => Stage::Reading(file@, module@),
            Phase::Probing { file, module, imports, targets } => Stage::Probing(
                file@,
                module@,
                imports.deep_view(),
                targets.deep_view(),
            ),
            Phase::Done => Stage::Done,
            Phase::Failed => Stage::Failed,
        }
    }

    /// Takes the next queued path, if any.
    fn advance(&mut self) -> (action: GraphAction)
        ensures
            final(self).graph() == old(self).graph(),
            final(self).visited() == old(self).visited(),
            advances(old(self).pending(), final(self).pending(), final(self).stage(), action.view()),
    {
        if self.queue.len() > 0 {
            let ghost before = self.queue@;
            let next = self.queue.remove(0);
            proof {
                assert(next@ == old(self).pending()[0]);
            }
            self.phase = Phase::Canonicalizing;
            assert(self.pending() =~= old(self).pending().drop_first());
            GraphAction::Canonicalize(next)
        } else {
            self.phase = Phase::Done;
            assert(self.pending() =~= old(self).pending());
            GraphAction::Finished
        }
    }

    fn start(language: Language, base_dir: String, entry_path: String, entry_module: Option<String>, entry_is_code: bool) -> (res: (GraphBuilder, GraphAction))
        ensures
            res.0.graph().language == language,
            res.0.graph().base_dir == base_dir,
            res.0.graph().entry_path == entry_path,
            res.0.graph().entry_module == entry_module,
            res.0.graph().entry_is_code == entry_is_code,
            res.0.graph().modules@ == Map::<Seq<char>, Seq<char>>::empty(),
            res.0.visited() == Seq::<Seq<char>>::empty(),
            res.0.pending() == Seq::<Seq<char>>::empty(),
            res.0.stage() == Stage::Canonicalizing,
            res.1.view() == ActionView::Canonicalize(entry_path@),
    {
        let mut queue: Vec<String> = Vec::new();
        queue.push(entry_path.clone());
        let graph = DependencyGraph {
            language,
            entry_path,
            entry_module,
            base_dir,
            modules: ModuleMap::new(),
            entry_is_code,
        };
        let mut b = GraphBuilder { graph, queue, visited: Vec::new(), phase: Phase::Canonicalizing };
        assert(b.visited() =~= Seq::<Seq<char>>::empty());
        assert(b.pending() =~= seq![entry_path@]);
        let action = b.advance();
        (b, action)
    }

    /// A builder for the script at `entry_path` (canonical, under absolute
    /// `base_dir`), or the error that the entry does not exist.
    pub fn for_path_entry(language: Language, base_dir: String, entry_path: String, exists: bool) -> (res: Result<(GraphBuilder, GraphAction), KernelError>)
        ensures
            !exists ==> res == Err::<(GraphBuilder, GraphAction), KernelError>(
                KernelError::EntryPathNotFound { path: entry_path },
            ),
            exists ==> (res matches Ok((b, action)) && {
                &&& b.graph().language == language
                &&& b.graph().base_dir == base_dir
                &&& b.graph().entry_path == entry_path
                &&& b.graph().entry_module.deep_view() == module_name_of(base_dir@, entry_path@)
                &&& !b.graph().entry_is_code
                &&& b.graph().modules@ == Map::<Seq<char>, Seq<char>>::empty()
                &&& b.visited() == Seq::<Seq<char>>::empty()
                &&& b.pending() == Seq::<Seq<char>>::empty()
                &&& b.stage() == Stage::Canonicalizing
                &&& action.view() == ActionView::Canonicalize(entry_path@)
            }),
    {
        if !exists {
            return Err(KernelError::EntryPathNotFound { path: entry_path });
        }
        let module = path_to_module_name(base_dir.as_str(), entry_path.as_str());
        Ok(GraphBuilder::start(language, base_dir, entry_path, module, false))
    }

    /// A builder for inline code written to `entry_path` (canonical, under
    /// absolute `base_dir`). Its module is named after the file for Python and
    /// Lua when the file has a name under `base_dir`, and `__kernel_entry__`
    /// otherwise.
    pub fn for_code_entry(language: Language, base_dir: String, entry_path: String) -> (res: (GraphBuilder, GraphAction))
        ensures
            res.0.graph().language == language,
            res.0.graph().base_dir == base_dir,
            res.0.graph().entry_path == entry_path,
            res.0.graph().entry_module.deep_view() == Some(
                match (language, module_name_of(base_dir@, entry_path@)) {
                    (Language::Js, _) => "__kernel_entry__"@,
                    (_, Some(n)) => n,
                    (_, None) => "__kernel_entry__"@,
                },
            ),
            res.0.graph().entry_is_code,
            res.0.graph().modules@ == Map::<Seq<char>, Seq<char>>::empty(),
            res.0.visited() == Seq::<Seq<char>>::empty(),
            res.0.pending() == Seq::<Seq<char>>::empty(),
            res.0.stage() == Stage::Canonicalizing,
            res.1.view() == ActionView::Canonicalize(entry_path@),
    {
        let module = match language {
            Language::Js => Some(string_of(&chars_of("__kernel_entry__"))),
            _ => match path_to_module_name(base_dir.as_str(), entry_path.as_str()) {
                Some(n) => Some(n),
                None => Some(string_of(&chars_of("__kernel_entry__"))),
            },
        };
        GraphBuilder::start(language, base_dir, entry_path, module, true)
    }

    /// Whether the builder waits for `event` now: `step` takes only such an
    /// event.
    pub fn accepts(&self, event: &GraphEvent) -> (res: bool)
        ensures
            res == stage_accepts(self.stage(), event.view()),
    {
        match (&self.phase, event) {
            (Phase::Canonicalizing, GraphEvent::Canonical(_)) => true,
            (Phase::Canonicalizing, GraphEvent::IoFailed(_)) => true,
            (Phase::Reading { .. }, GraphEvent::Source(_)) => true,
            (Phase::Reading { .. }, GraphEvent::IoFailed(_)) => true,
            (Phase::Probing { targets, .. }, GraphEvent::Probed(flags)) => flags.len() == targets.len(),
            _ => false,
        }
    }

    /// Takes the file system's answer and says what it is to do next.
    pub fn step(&mut self, event: GraphEvent) -> (action: GraphAction)
        requires
            stage_accepts(old(self).stage(), event.view()),
            event.view() matches EventView::Canonical(c) ==> (seen(old(self).visited(), c)
                || visit_name(old(self).graph().language, old(self).graph().base_dir@, c) is Some),
        ensures
            step_spec(*old(self), *final(self), event.view(), action.view()),
    {
        let mut phase = Phase::Failed;
        std::mem::swap(&mut phase, &mut self.phase);
        match event {
            GraphEvent::IoFailed(msg) => {
                assert(self.pending() == old(self).pending());
                GraphAction::Failed(KernelError::Io(msg))
            },
            GraphEvent::Canonical(c) => {
                if seen_vec(&self.visited, c.as_str()) {
                    self.advance()
                } else {
                    let name = match visit_name_for(self.graph.language, self.graph.base_dir.as_str(), c.as_str()) {
                        Some(n) => n,
                        None => {
                            assert(false);
                            c.clone()
                        },
                    };
                    let ghost before = self.visited.deep_view();
                    self.visited.push(c.clone());
                    assert(self.visited.deep_view() =~= before.push(c@));
                    unique_push(&mut self.graph.modules, name.clone(), c.clone());
                    self.phase = Phase::Reading { file: c.clone(), module: name };
                    assert(self.pending() == old(self).pending());
                    GraphAction::Read(c)
                }
            },
            GraphEvent::Source(text) => {
                match phase {
                    Phase::Reading { file, module } => {
                        let imports = imports_for(self.graph.language, text.as_str());
                        let targets = probe_paths_for(
                            self.graph.language,
                            file.as_str(),
                            self.graph.base_dir.as_str(),
                            module.as_str(),
                            &imports,
                        );
                        let mut probes: Vec<String> = Vec::new();
                        append_strings(&mut probes, &targets);
                        assert(probes.deep_view() =~= targets.deep_view());
                        self.phase = Phase::Probing { file, module, imports, targets };
                        assert(self.pending() == old(self).pending());
                        GraphAction::Probe(probes)
                    },
                    _ => {
                        assert(false);
                        GraphAction::Finished
                    },
                }
            },
            GraphEvent::Probed(flags) => {
                match phase {
                    Phase::Probing { file, module, imports, targets } => {
                        let known = ExistingPaths::from_probes(&targets, &flags);
                        assert(known@ =~= probe_set(targets.deep_view(), flags@));
                        let added = queued_files_for(
                            self.graph.language,
                            file.as_str(),
                            self.graph.base_dir.as_str(),
                            module.as_str(),
                            &imports,
                            &known,
                        );
                        let ghost before = self.pending();
                        let ghost q0 = self.queue.deep_view();
                        append_strings(&mut self.queue, &added);
                        assert(self.pending() =~= before + added.deep_view()) by {
                            assert(self.queue.deep_view() == q0 + added.deep_view());
                        }
                        self.advance()
                    },
                    _ => {
                        assert(false);
                        GraphAction::Finished
                    },
                }
            },
        }
    }

    /// The graph built.
    pub fn into_graph(self) -> (res: DependencyGraph)
        ensures
            res == self.graph(),
    {
        self.graph
    }
}


/// Whether `k` is the module name of the `j`-th file that `b` visited and of
/// no file visited before it.
pub open spec fn first_named(b: GraphBuilder, k: Seq<char>, j: int) -> bool {
    &&& 0 <= j < b.visited().len()
    &&& visit_name(b.graph().language, b.graph().base_dir@, b.visited()[j]) == Some(k)
    &&& forall|i: int|
        0 <= i < j ==> visit_name(b.graph().language, b.graph().base_dir@, #[trigger] b.visited()[i]) != Some(k)
}

/// What building keeps true of a builder: the graph's module names are those
/// of the visited files, each recorded with the first visited file of that
/// name, and no file was visited twice (no two visited paths are the same
/// path).
pub open spec fn discovery_consistent(b: GraphBuilder) -> bool {
    &&& forall|k: Seq<char>| #[trigger] b.graph().modules@.dom().contains(k) ==> exists|j: int|
        #[trigger] first_named(b, k, j) && b.visited()[j] == b.graph().modules@[k]
    &&& forall|i: int| 0 <= i < b.visited().len() ==> {
        &&& visit_name(b.graph().language, b.graph().base_dir@, #[trigger] b.visited()[i]) is Some
        &&& b.graph().modules@.dom().contains(
            visit_name(b.graph().language, b.graph().base_dir@, b.visited()[i]).unwrap(),
        )
    }
    &&& forall|i: int, j: int|
        0 <= i < j < b.visited().len() ==> !same_path(#[trigger] b.visited()[i], #[trigger] b.visited()[j])
}

/// A builder that has visited nothing and recorded nothing, as
/// `GraphBuilder::for_path_entry` and `GraphBuilder::for_code_entry` give it,
/// is consistent.
pub proof fn lemma_fresh_builder_consistent(b: GraphBuilder)
    requires
        b.visited() == Seq::<Seq<char>>::empty(),
        b.graph().modules@ == Map::<Seq<char>, Seq<char>>::empty(),
    ensures
        discovery_consistent(b),
{
}

/// Every step keeps a builder consistent, and a module name, once recorded,
/// keeps its file: the first file found for a name is the one the graph
/// holds.
pub proof fn lemma_step_keeps_discovery(
    before: GraphBuilder,
    after: GraphBuilder,
    event: EventView,
    action: ActionView,
)
    requires
        discovery_consistent(before),
        stage_accepts(before.stage(), event),
        event matches EventView::Canonical(c) ==> (seen(before.visited(), c) || visit_name(
            before.graph().language,
            before.graph().base_dir@,
            c,
        ) is Some),
        step_spec(before, after, event, action),
    ensures
        discovery_consistent(after),
        forall|k: Seq<char>| #[trigger] before.graph().modules@.dom().contains(k) ==> {
            &&& after.graph().modules@.dom().contains(k)
            &&& after.graph().modules@[k] == before.graph().modules@[k]
        },
{
    let g = before.graph();
    let lang = g.language;
    let base = g.base_dir@;
    let v0 = before.visited();
    let m0 = g.modules@;
    let v = after.visited();
    let m = after.graph().modules@;
    // the visited files grow by at most one, and names once recorded stay
    let added = (before.stage() matches Stage::Canonicalizing) && (event matches EventView::Canonical(
        c,
    ) && !seen(v0, c));
    if added {
        let c = event->Canonical_0;
        let n = visit_name(lang, base, c).unwrap();
        assert(v == v0.push(c));
        assert(m == (if m0.dom().contains(n) {
            m0
        } else {
            m0.insert(n, c)
        }));
        assert forall|k: Seq<char>| #[trigger] m.dom().contains(k) implies exists|j: int|
            #[trigger] first_named(after, k, j) && v[j] == m[k] by {
            if m0.dom().contains(k) {
                let j = choose|j: int| #[trigger] first_named(before, k, j) && v0[j] == m0[k];
                assert(v[j] == v0[j]);
                assert forall|i: int| 0 <= i < j implies visit_name(lang, base, #[trigger] v[i]) != Some(k) by {
                    assert(v[i] == v0[i]);
                }
                assert(first_named(after, k, j));
            } else {
                let j = v0.len() as int;
                assert(v[j] == c);
                assert(k == n);
                assert forall|i: int| 0 <= i < j implies visit_name(lang, base, #[trigger] v[i]) != Some(k) by {
                    assert(v[i] == v0[i]);
                    assert(m0.dom().contains(visit_name(lang, base, v0[i]).unwrap()));
                }
                assert(first_named(after, k, j));
            }
        }
        assert forall|i: int| 0 <= i < v.len() implies {
            &&& visit_name(lang, base, #[trigger] v[i]) is Some
            &&& m.dom().contains(visit_name(lang, base, v[i]).unwrap())
        } by {
            if i < v0.len() {
                assert(v[i] == v0[i]);
            } else {
                assert(v[i] == c);
            }
        }
        assert forall|i: int, j: int| 0 <= i < j < v.len() implies !same_path(
            #[trigger] v[i],
            #[trigger] v[j],
        ) by {
            if j == v.len() - 1 {
                assert(v[j] == c);
                assert(v[i] == v0[i]);
            } else {
                assert(v[i] == v0[i]);
                assert(v[j] == v0[j]);
            }
        }
    } else {
        assert(v == v0 && m == m0);
        assert forall|k: Seq<char>| #[trigger] m.dom().contains(k) implies exists|j: int|
            #[trigger] first_named(after, k, j) && v[j] == m[k] by {
            let j = choose|j: int| #[trigger] first_named(before, k, j) && v0[j] == m0[k];
            assert(first_named(after, k, j));
        }
    }
}

/// A run of a builder: each builder is the one before it after one accepted
/// answer.
pub open spec fn is_run(builders: Seq<GraphBuilder>, events: Seq<EventView>, actions: Seq<ActionView>) -> bool {
    &&& builders.len() == events.len() + 1
    &&& actions.len() == events.len()
    &&& forall|i: int| #![trigger events[i]] 0 <= i < events.len() ==> {
        &&& stage_accepts(builders[i].stage(), events[i])
        &&& (events[i] matches EventView::Canonical(c) ==> (seen(builders[i].visited(), c) || visit_name(
            builders[i].graph().language,
            builders[i].graph().base_dir@,
            c,
        ) is Some))
        &&& step_spec(builders[i], builders[i + 1], events[i], actions[i])
    }
}

/// Over a whole run from a fresh builder, the graph's module names are
/// exactly the names of the files visited, each recorded with the first
/// visited file of that name, and no file is visited twice.
pub proof fn lemma_run_discovery(builders: Seq<GraphBuilder>, events: Seq<EventView>, actions: Seq<ActionView>)
    requires
        is_run(builders, events, actions),
        builders[0].visited() == Seq::<Seq<char>>::empty(),
        builders[0].graph().modules@ == Map::<Seq<char>, Seq<char>>::empty(),
    ensures
        discovery_consistent(builders.last()),
    decreases events.len(),
{
    let n = events.len() as int;
    if n == 0 {
        lemma_fresh_builder_consistent(builders[0]);
    } else {
        let bs = builders.drop_last();
        let es = events.drop_last();
        let acts = actions.drop_last();
        assert forall|i: int| #![trigger es[i]] 0 <= i < es.len() implies {
            &&& stage_accepts(bs[i].stage(), es[i])
            &&& (es[i] matches EventView::Canonical(c) ==> (seen(bs[i].visited(), c) || visit_name(
                bs[i].graph().language,
                bs[i].graph().base_dir@,
                c,
            ) is Some))
            &&& step_spec(bs[i], bs[i + 1], es[i], acts[i])
        } by {
            assert(events[i] == es[i]);
        }
        lemma_run_discovery(bs, es, acts);
        assert(bs.last() == builders[n - 1]);
        assert(events[n - 1] == events[n - 1]);
        lemma_step_keeps_discovery(builders[n - 1], builders[n], events[n - 1], actions[n - 1]);
    }
}

/// A step reads only a file not visited before, and marks it visited; the
/// visited files otherwise stay as they were, or grow by that one file.
pub proof fn lemma_step_reads_new_file(before: GraphBuilder, after: GraphBuilder, event: EventView, action: ActionView)
    requires
        stage_accepts(before.stage(), event),
        step_spec(before, after, event, action),
    ensures
        action matches ActionView::Read(f) ==> {
            &&& !seen(before.visited(), f)
            &&& after.visited() == before.visited().push(f)
        },
        after.visited() == before.visited() || exists|c: Seq<char>| after.visited() == before.visited().push(c),
        after.stage() == Stage::Done ==> after.pending().len() == 0,
        action matches ActionView::Canonicalize(_) ==> after.stage() == Stage::Canonicalizing,
        after.stage() == Stage::Failed ==> event is IoFailed,
{
    match (before.stage(), event) {
        (Stage::Canonicalizing, EventView::Canonical(c)) => {
            if !seen(before.visited(), c) {
                assert(after.visited() == before.visited().push(c));
            }
        },
        _ => {},
    }
}

/// Whether `v` begins with `u`.
pub open spec fn begins_with(v: Seq<Seq<char>>, u: Seq<Seq<char>>) -> bool {
    u.len() <= v.len() && v.take(u.len() as int) == u
}

proof fn lemma_run_step(builders: Seq<GraphBuilder>, events: Seq<EventView>, actions: Seq<ActionView>, i: int)
    requires
        is_run(builders, events, actions),
        0 <= i < events.len(),
    ensures
        stage_accepts(builders[i].stage(), events[i]),
        step_spec(builders[i], builders[i + 1], events[i], actions[i]),
{
    assert(events[i] == events[i]);
}

/// Along a run, the files visited only grow.
pub proof fn lemma_run_visited_grows(
    builders: Seq<GraphBuilder>,
    events: Seq<EventView>,
    actions: Seq<ActionView>,
    i: int,
    k: int,
)
    requires
        is_run(builders, events, actions),
        0 <= i <= k < builders.len(),
    ensures
        begins_with(builders[k].visited(), builders[i].visited()),
    decreases k - i,
{
    if i == k {
        assert(builders[k].visited().take(builders[k].visited().len() as int) =~= builders[k].visited());
    } else {
        lemma_run_visited_grows(builders, events, actions, i, k - 1);
        lemma_run_step(builders, events, actions, k - 1);
        lemma_step_reads_new_file(builders[k - 1], builders[k], events[k - 1], actions[k - 1]);
        let u = builders[i].visited();
        let w = builders[k - 1].visited();
        let v = builders[k].visited();
        if v != w {
            let c = choose|c: Seq<char>| v == w.push(c);
            assert(v.take(u.len() as int) =~= w.take(u.len() as int));
        }
    }
}

/// Along a run, no file is read twice: two reads are of files that are not
/// the same path.
pub proof fn lemma_run_reads_once(
    builders: Seq<GraphBuilder>,
    events: Seq<EventView>,
    actions: Seq<ActionView>,
    s: int,
    t: int,
)
    requires
        is_run(builders, events, actions),
        0 <= s < t < events.len(),
        actions[s] is Read,
        actions[t] is Read,
    ensures
        !same_path(actions[s]->Read_0, actions[t]->Read_0),
{
    let f1 = actions[s]->Read_0;
    let f2 = actions[t]->Read_0;
    lemma_run_step(builders, events, actions, s);
    lemma_run_step(builders, events, actions, t);
    lemma_step_reads_new_file(builders[s], builders[s + 1], events[s], actions[s]);
    lemma_step_reads_new_file(builders[t], builders[t + 1], events[t], actions[t]);
    lemma_run_visited_grows(builders, events, actions, s + 1, t);
    let u = builders[s + 1].visited();
    let v = builders[t].visited();
    let idx = u.len() - 1;
    assert(u[idx] == f1);
    assert(v[idx] == v.take(u.len() as int)[idx]);
    assert(v[idx] == f1);
    if same_path(f1, f2) {
        assert(seen(v, f2));
    }
}

/// In a run that ends complete, no step failed.
proof fn lemma_run_no_failure(builders: Seq<GraphBuilder>, events: Seq<EventView>, actions: Seq<ActionView>, i: int)
    requires
        is_run(builders, events, actions),
        builders.last().stage() == Stage::Done,
        0 <= i < builders.len(),
    ensures
        builders[i].stage() != Stage::Failed,
{
    if builders[i].stage() == Stage::Failed && i + 1 < builders.len() {
        lemma_run_step(builders, events, actions, i);
    }
}

/// In a run that ends complete, every path queued at some point is later
/// handed out to be canonicalized.
pub proof fn lemma_run_asks_for_queued(
    builders: Seq<GraphBuilder>,
    events: Seq<EventView>,
    actions: Seq<ActionView>,
    i: int,
    j: int,
)
    requires
        is_run(builders, events, actions),
        builders.last().stage() == Stage::Done,
        builders[0].pending().len() == 0,
        0 <= i < builders.len(),
        0 <= j < builders[i].pending().len(),
    ensures
        exists|t: int| i <= t < events.len() && #[trigger] actions[t] == ActionView::Canonicalize(
            builders[i].pending()[j],
        ),
    decreases builders.len() - i,
{
    let n = events.len() as int;
    if i == n {
        if n > 0 {
            lemma_run_step(builders, events, actions, n - 1);
            lemma_step_reads_new_file(builders[n - 1], builders[n], events[n - 1], actions[n - 1]);
        }
        assert(false);
    } else {
        lemma_run_step(builders, events, actions, i);
        lemma_step_reads_new_file(builders[i], builders[i + 1], events[i], actions[i]);
        lemma_run_no_failure(builders, events, actions, i + 1);
        let b = builders[i];
        let a = builders[i + 1];
        let p = b.pending();
        let g = b.graph();
        match (b.stage(), events[i]) {
            (Stage::Canonicalizing, EventView::Canonical(c)) => {
                if seen(b.visited(), c) {
                    if j == 0 {
                        assert(actions[i] == ActionView::Canonicalize(p[0]));
                    } else {
                        assert(a.pending()[j - 1] == p[j]);
                        lemma_run_asks_for_queued(builders, events, actions, i + 1, j - 1);
                    }
                } else {
                    lemma_run_asks_for_queued(builders, events, actions, i + 1, j);
                }
            },
            (Stage::Reading(_, _), EventView::Source(_)) => {
                lemma_run_asks_for_queued(builders, events, actions, i + 1, j);
            },
            (Stage::Probing(f, m, imports, targets), EventView::Probed(flags)) => {
                let all = p + queued_files(g.language, f, g.base_dir@, m, imports, probe_set(targets, flags));
                assert(all[j] == p[j]);
                if j == 0 {
                    assert(actions[i] == ActionView::Canonicalize(p[0]));
                } else {
                    assert(a.pending()[j - 1] == p[j]);
                    lemma_run_asks_for_queued(builders, events, actions, i + 1, j - 1);
                }
            },
            _ => {},
        }
    }
}

/// In a run that ends complete, a path handed out to be canonicalized is
/// answered with its canonical form, and that file is among those visited at
/// the end.
pub proof fn lemma_run_answers_visited(
    builders: Seq<GraphBuilder>,
    events: Seq<EventView>,
    actions: Seq<ActionView>,
    t: int,
)
    requires
        is_run(builders, events, actions),
        builders.last().stage() == Stage::Done,
        0 <= t < events.len(),
        actions[t] is Canonicalize,
    ensures
        t + 1 < events.len(),
        events[t + 1] is Canonical,
        seen(builders.last().visited(), events[t + 1]->Canonical_0),
{
    let n = events.len() as int;
    lemma_run_step(builders, events, actions, t);
    lemma_step_reads_new_file(builders[t], builders[t + 1], events[t], actions[t]);
    assert(t + 1 < n);
    lemma_run_step(builders, events, actions, t + 1);
    lemma_step_reads_new_file(builders[t + 1], builders[t + 2], events[t + 1], actions[t + 1]);
    lemma_run_no_failure(builders, events, actions, t + 2);
    let c = events[t + 1]->Canonical_0;
    let w = builders[t + 2].visited();
    assert(seen(w, c)) by {
        if !seen(builders[t + 1].visited(), c) {
            assert(w[w.len() - 1] == c);
            assert(same_path(w[w.len() - 1], c));
        } else {
            let u = builders[t + 1].visited();
            let i = choose|i: int| 0 <= i < u.len() && same_path(#[trigger] u[i], c);
            assert(w[i] == u[i]);
        }
    }
    lemma_run_visited_grows(builders, events, actions, t + 2, n);
    let v = builders[n].visited();
    let i = choose|i: int| 0 <= i < w.len() && same_path(#[trigger] w[i], c);
    assert(v[i] == v.take(w.len() as int)[i]);
}

proof fn lemma_visit_name_same_path(language: Language, base_dir: Seq<char>, a: Seq<char>, b: Seq<char>)
    requires
        same_path(a, b),
    ensures
        visit_name(language, base_dir, a) == visit_name(language, base_dir, b),
{
}

/// Over a whole run from a fresh builder that ends complete, the graph holds
/// a module for every file reached: each path ever queued (the entry, and
/// each import found to exist) is canonicalized, and the module map holds the
/// name of that canonical file.
pub proof fn lemma_run_reaches_queued(
    builders: Seq<GraphBuilder>,
    events: Seq<EventView>,
    actions: Seq<ActionView>,
    i: int,
    j: int,
)
    requires
        is_run(builders, events, actions),
        builders[0].visited() == Seq::<Seq<char>>::empty(),
        builders[0].graph().modules@ == Map::<Seq<char>, Seq<char>>::empty(),
        builders[0].pending().len() == 0,
        builders.last().stage() == Stage::Done,
        0 <= i < builders.len(),
        0 <= j < builders[i].pending().len(),
    ensures
        exists|t: int| #![trigger actions[t]] i <= t && t + 1 < events.len() && {
            &&& actions[t] == ActionView::Canonicalize(builders[i].pending()[j])
            &&& events[t + 1] matches EventView::Canonical(c) && {
                let g = builders.last().graph();
                &&& visit_name(g.language, g.base_dir@, c) is Some
                &&& g.modules@.dom().contains(visit_name(g.language, g.base_dir@, c).unwrap())
            }
        },
{
    lemma_run_asks_for_queued(builders, events, actions, i, j);
    let t = choose|t: int| i <= t < events.len() && #[trigger] actions[t] == ActionView::Canonicalize(
        builders[i].pending()[j],
    );
    lemma_run_answers_visited(builders, events, actions, t);
    lemma_run_discovery(builders, events, actions);
    let last = builders.last();
    let g = last.graph();
    let c = events[t + 1]->Canonical_0;
    let v = last.visited();
    let k = choose|k: int| 0 <= k < v.len() && same_path(#[trigger] v[k], c);
    lemma_visit_name_same_path(g.language, g.base_dir@, v[k], c);
    assert(v[k] == v[k]);
}

proof fn lemma_first_existing_known(cands: Seq<Seq<char>>, known: Set<Seq<char>>)
    ensures
        forall|i: int| 0 <= i < first_existing(cands, known).len() ==> known.contains(
            #[trigger] first_existing(cands, known)[i],
        ),
    decreases cands.len(),
{
    if cands.len() > 0 {
        if known.contains(cands[0]) {
            let f = first_existing(cands, known);
            assert(f == seq![cands[0]]);
            assert forall|i: int| 0 <= i < f.len() implies known.contains(#[trigger] f[i]) by {
                assert(i == 0);
            }
        } else {
            lemma_first_existing_known(cands.drop_first(), known);
            assert(first_existing(cands, known) == first_existing(cands.drop_first(), known));
        }
    } else {
        assert(first_existing(cands, known).len() == 0);
    }
}

proof fn lemma_flatten_known(parts: Seq<Seq<Seq<char>>>, known: Set<Seq<char>>)
    requires
        forall|j: int, i: int| 0 <= j < parts.len() && 0 <= i < parts[j].len() ==> known.contains(
            #[trigger] parts[j][i],
        ),
    ensures
        forall|i: int| 0 <= i < parts.flatten().len() ==> known.contains(#[trigger] parts.flatten()[i]),
    decreases parts.len(),
{
    if parts.len() > 0 {
        let rest = parts.drop_first();
        assert forall|j: int, i: int| 0 <= j < rest.len() && 0 <= i < rest[j].len() implies known.contains(
            #[trigger] rest[j][i],
        ) by {
            assert(rest[j] == parts[j + 1]);
        }
        lemma_flatten_known(rest, known);
        let f = parts.flatten();
        assert(f == parts.first() + rest.flatten());
        assert forall|i: int| 0 <= i < f.len() implies known.contains(#[trigger] f[i]) by {
            if i < parts.first().len() {
                assert(f[i] == parts[0][i]);
            } else {
                assert(f[i] == rest.flatten()[i - parts.first().len()]);
            }
        }
    }
}

/// The builder follows imports only to files that exist: every path it
/// queues after reading a file was answered to exist.
pub proof fn lemma_queued_files_exist(
    language: Language,
    file: Seq<char>,
    base_dir: Seq<char>,
    module: Seq<char>,
    imports: Seq<Seq<char>>,
    known: Set<Seq<char>>,
)
    ensures
        forall|i: int| 0 <= i < queued_files(language, file, base_dir, module, imports, known).len()
            ==> known.contains(#[trigger] queued_files(language, file, base_dir, module, imports, known)[i]),
{
    let parts = imports.map_values(
        |m: Seq<char>| first_existing(import_files(language, file, base_dir, module, m, known), known),
    );
    assert forall|j: int, i: int| 0 <= j < parts.len() && 0 <= i < parts[j].len() implies known.contains(
        #[trigger] parts[j][i],
    ) by {
        lemma_first_existing_known(import_files(language, file, base_dir, module, imports[j], known), known);
    }
    lemma_flatten_known(parts, known);
}

/// After the answer to its probes, every path the builder has queued, or
/// asks to canonicalize next, was queued before or was answered to exist.
pub proof fn lemma_probed_step_queues_existing(
    before: GraphBuilder,
    after: GraphBuilder,
    flags: Seq<bool>,
    action: ActionView,
)
    requires
        stage_accepts(before.stage(), EventView::Probed(flags)),
        step_spec(before, after, EventView::Probed(flags), action),
    ensures
        before.stage() matches Stage::Probing(f, m, imports, targets) ==> {
            &&& forall|i: int| 0 <= i < after.pending().len() ==> {
                ||| before.pending().contains(#[trigger] after.pending()[i])
                ||| probe_set(targets, flags).contains(after.pending()[i])
            }
            &&& action matches ActionView::Canonicalize(p) ==> {
                ||| before.pending().contains(p)
                ||| probe_set(targets, flags).contains(p)
            }
        },
{
    match before.stage() {
        Stage::Probing(f, m, imports, targets) => {
            let g = before.graph();
            let known = probe_set(targets, flags);
            let added = queued_files(g.language, f, g.base_dir@, m, imports, known);
            lemma_queued_files_exist(g.language, f, g.base_dir@, m, imports, known);
            let all = before.pending() + added;
            assert forall|i: int| 0 <= i < all.len() implies before.pending().contains(#[trigger] all[i])
                || known.contains(all[i]) by {
                if i < before.pending().len() {
                    assert(all[i] == before.pending()[i]);
                } else {
                    assert(all[i] == added[i - before.pending().len()]);
                }
            }
            if all.len() > 0 {
                assert forall|i: int| 0 <= i < after.pending().len() implies {
                    ||| before.pending().contains(#[trigger] after.pending()[i])
                    ||| known.contains(after.pending()[i])
                } by {
                    assert(after.pending()[i] == all[i + 1]);
                }
                assert(action == ActionView::Canonicalize(all[0]));
            }
        },
        _ => {},
    }
}

/// Each import adds at most one file to the queue: none when no candidate
/// file exists, and otherwise the first candidate that exists.
pub proof fn lemma_first_existing_is_first(cands: Seq<Seq<char>>, known: Set<Seq<char>>)
    ensures
        first_existing(cands, known).len() <= 1,
        first_existing(cands, known).len() == 0 <==> forall|i: int|
            0 <= i < cands.len() ==> !known.contains(#[trigger] cands[i]),
        first_existing(cands, known).len() == 1 ==> exists|i: int|
            0 <= i < cands.len() && first_existing(cands, known)[0] == #[trigger] cands[i] && known.contains(
                cands[i],
            ) && forall|k: int| 0 <= k < i ==> !known.contains(#[trigger] cands[k]),
    decreases cands.len(),
{
    if cands.len() > 0 {
        if known.contains(cands[0]) {
            assert(first_existing(cands, known) == seq![cands[0]]);
            assert(first_existing(cands, known)[0] == cands[0]);
        } else {
            let rest = cands.drop_first();
            lemma_first_existing_is_first(rest, known);
            assert(first_existing(cands, known) == first_existing(rest, known));
            assert forall|i: int| 0 <= i < rest.len() implies rest[i] == cands[i + 1] by {}
            if first_existing(rest, known).len() == 1 {
                let i = choose|i: int|
                    0 <= i < rest.len() && first_existing(rest, known)[0] == #[trigger] rest[i] && known.contains(
                        rest[i],
                    ) && forall|k: int| 0 <= k < i ==> !known.contains(#[trigger] rest[k]);
                assert(cands[i + 1] == rest[i]);
                assert forall|k: int| 0 <= k < i + 1 implies !known.contains(#[trigger] cands[k]) by {
                    if k > 0 {
                        assert(cands[k] == rest[k - 1]);
                    }
                }
            } else {
                assert forall|i: int| 0 <= i < cands.len() implies !known.contains(#[trigger] cands[i]) by {
                    if i > 0 {
                        assert(cands[i] == rest[i - 1]);
                    }
                }
            }
        }
    } else {
        assert(first_existing(cands, known).len() == 0);
    }
}

proof fn lemma_flatten_at_most_one(parts: Seq<Seq<Seq<char>>>)
    requires
        forall|j: int| 0 <= j < parts.len() ==> (#[trigger] parts[j]).len() <= 1,
    ensures
        parts.flatten().len() <= parts.len(),
    decreases parts.len(),
{
    if parts.len() > 0 {
        let rest = parts.drop_first();
        assert forall|j: int| 0 <= j < rest.len() implies (#[trigger] rest[j]).len() <= 1 by {
            assert(rest[j] == parts[j + 1]);
        }
        lemma_flatten_at_most_one(rest);
        assert(parts.flatten() == parts.first() + rest.flatten());
        assert(parts[0].len() <= 1);
    }
}

/// The files that the imports of a file add to the queue are no more than
/// its imports: one at most for each.
pub proof fn lemma_queued_files_one_per_import(
    language: Language,
    file: Seq<char>,
    base_dir: Seq<char>,
    module: Seq<char>,
    imports: Seq<Seq<char>>,
    known: Set<Seq<char>>,
)
    ensures
        queued_files(language, file, base_dir, module, imports, known).len() <= imports.len(),
{
    let parts = imports.map_values(
        |m: Seq<char>| first_existing(import_files(language, file, base_dir, module, m, known), known),
    );
    assert forall|j: int| 0 <= j < parts.len() implies (#[trigger] parts[j]).len() <= 1 by {
        lemma_first_existing_is_first(import_files(language, file, base_dir, module, imports[j], known), known);
    }
    lemma_flatten_at_most_one(parts);
}

/// The files found for a module name are in the order of `Path`, each
/// strictly after the one before, and each of them exists.
pub proof fn lemma_module_files_sorted(
    base_dir: Seq<char>,
    current_dir: Seq<char>,
    module_name: Seq<char>,
    extension: Seq<char>,
    known: Set<Seq<char>>,
)
    ensures
        module_files(base_dir, current_dir, module_name, extension, known).len() <= 2,
        forall|i: int|
            0 <= i < module_files(base_dir, current_dir, module_name, extension, known).len() - 1 ==> path_lt(
                #[trigger] module_files(base_dir, current_dir, module_name, extension, known)[i],
                module_files(base_dir, current_dir, module_name, extension, known)[i + 1],
            ),
        forall|i: int|
            0 <= i < module_files(base_dir, current_dir, module_name, extension, known).len() ==> known.contains(
                #[trigger] module_files(base_dir, current_dir, module_name, extension, known)[i],
            ),
{
    let found = somes(
        resolved_module_file(current_dir, module_name, extension, known),
        resolved_module_file(base_dir, module_name, extension, known),
    );
    assert forall|i: int| 0 <= i < found.len() implies known.contains(#[trigger] found[i]) by {}
    if found.len() == 2 {
        lemma_path_lt_total(found[0], found[1]);
    }
}

/// The name a relative Python import is looked up under: from a module of
/// dotted parts `p1..pk`, an import of `d` leading dots and rest `r` names
/// `p1..p(k-d)` (the module's own name and `d - 1` packages above it left
/// out), followed by `.` and `r` when `r` is not empty; with more dots than
/// parts, `r` alone. So `.x` from `a.b.c` is `a.b.x`, and `..x` is `a.x`.
pub proof fn lemma_relative_import_target(parts: Seq<Seq<char>>, d: int, rest: Seq<char>)
    requires
        parts.len() > 0,
        forall|i: int| 0 <= i < parts.len() ==> (#[trigger] parts[i]).len() > 0 && !parts[i].contains('.'),
        d >= 1,
        rest.len() == 0 || rest[0] != '.',
    ensures
        d <= parts.len() ==> relative_module(
            join_with(parts, "."@),
            Seq::new(d as nat, |_i: int| '.') + rest,
        ) == (if rest.len() == 0 {
            join_with(parts.take(parts.len() - d), "."@)
        } else if d == parts.len() {
            rest
        } else {
            join_with(parts.take(parts.len() - d), "."@) + "."@ + rest
        }),
        d > parts.len() ==> relative_module(join_with(parts, "."@), Seq::new(d as nat, |_i: int| '.') + rest)
            == rest,
{
    reveal_strlit(".");
    assert("."@ =~= seq!['.']);
    let imported = Seq::new(d as nat, |_i: int| '.') + rest;
    lemma_leading_dots_of(d, rest);
    assert(imported.skip(d) =~= rest);
    lemma_split_on_joined(parts, Seq::empty(), '.');
    assert(join_with(parts, seq!['.']) + Seq::<char>::empty() =~= join_with(parts, seq!['.']));
    assert(parts.update(parts.len() - 1, parts.last() + Seq::<char>::empty()) =~= parts);
    let k = parts.len() as int;
    if d < k {
        let up = parts.take(k - d);
        assert(up.len() > 0);
        lemma_join_with_nonempty(up);
    }
    if d >= k {
        assert(parts.take(0) =~= Seq::<Seq<char>>::empty());
    }
}

proof fn lemma_leading_dots_of(d: int, rest: Seq<char>)
    requires
        d >= 0,
        rest.len() == 0 || rest[0] != '.',
    ensures
        leading_dots(Seq::new(d as nat, |_i: int| '.') + rest) == d,
    decreases d,
{
    let s = Seq::new(d as nat, |_i: int| '.') + rest;
    if d > 0 {
        assert(s.drop_first() =~= Seq::new((d - 1) as nat, |_i: int| '.') + rest);
        lemma_leading_dots_of(d - 1, rest);
        assert(s[0] == '.');
    } else {
        assert(s =~= rest);
    }
}

proof fn lemma_join_with_nonempty(q: Seq<Seq<char>>)
    requires
        q.len() > 0,
        q.last().len() > 0,
    ensures
        join_with(q, "."@).len() > 0,
{
}

/// A JavaScript import written `./...` or `../...` is taken from the
/// importing file's directory: its first candidate file is the module joined
/// to that directory; for `../...`, every candidate lies under that
/// directory's text.
pub proof fn lemma_js_relative_candidates(file: Seq<char>, module: Seq<char>, dir: Seq<char>)
    requires
        has_prefix(module, "./"@) || has_prefix(module, "../"@),
        parent(file) == Some(dir),
    ensures
        js_import_files(file, module)[0] == join(dir, module),
        has_prefix(module, "../"@) ==> forall|k: int|
            0 <= k < 3 ==> has_prefix(#[trigger] js_import_files(file, module)[k], dir),
{
    reveal_strlit("../");
    reveal_strlit("./");
    let p = join(dir, module);
    if has_prefix(module, "../"@) {
        assert(module.take(3) == "../"@);
        assert(module.take(3)[0] == module[0] && module.take(3)[1] == module[1] && module.take(3)[2]
            == module[2]);
        assert(module[0] == '.' && module[1] == '.' && module[2] == '/');
        assert(!is_absolute(module));
        assert(has_prefix(p, dir)) by {
            assert(p.take(dir.len() as int) =~= dir);
        }
        let c = js_import_files(file, module);
        assert(has_prefix(c[2], dir)) by {
            assert(c[2] == join(p, "index.js"@));
            assert(!is_absolute("index.js"@)) by {
                reveal_strlit("index.js");
            }
            assert(c[2].take(dir.len() as int) =~= dir);
        }
        if dir.len() > 0 {
            let sl = if dir.last() != '/' {
                dir.len() as int
            } else {
                dir.len() - 1
            };
            assert(p[sl] == '/' && p[sl + 1] == '.' && p[sl + 2] == '.');
            lemma_with_extension_keeps_head(p, "js"@, sl);
            assert(has_prefix(c[1], dir)) by {
                assert(c[1] == with_extension(p, "js"@));
                assert(c[1].take(dir.len() as int) =~= c[1].take(sl + 1).take(dir.len() as int));
                assert(p.take(sl + 1).take(dir.len() as int) =~= dir);
            }
        } else {
            assert(c[1].take(0) =~= dir);
        }
        assert forall|k: int| 0 <= k < 3 implies has_prefix(#[trigger] c[k], dir) by {}
    }
}
} // verus!
