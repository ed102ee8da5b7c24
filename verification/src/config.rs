//! Configuration, script inputs and run requests.
use vstd::prelude::*;


use crate::text::{chars_of, string_of};
use crate::util::{
    absolute_path, normalize_abs, parse_script_input_source, replace_chars, script_input_of, unix_separators,
    ExistingPaths,
};

verus! {

/// The settings of a kernel.
#[derive(Debug, Clone)]
pub struct KernelConfig {
    /// The directory that relative script paths are taken from.
    pub base_dir: String,
    pub python_enabled: bool,
    pub lua_enabled: bool,
    pub js_enabled: bool,
}

impl KernelConfig {
    /// The default settings, given the process's current directory when it
    /// could be found: every runtime enabled, scripts taken from the current
    /// directory, or from `.` when there is none.
    pub fn from_current_dir(current_dir: Option<String>) -> (res: KernelConfig)
        ensures
            res.base_dir@ == (match current_dir {
                Some(d) => d@,
                None => "."@,
            }),
            res.python_enabled,
            res.lua_enabled,
            res.js_enabled,
    {
        let base_dir = match current_dir {
            Some(d) => d,
            None => string_of(&chars_of(".")),
        };
        KernelConfig { base_dir, python_enabled: true, lua_enabled: true, js_enabled: true }
    }

    /// Whether the settings enable the runtime of `language`.
    pub open spec fn enables(&self, language: Language) -> bool {
        match language {
            Language::Python => self.python_enabled,
            Language::Lua => self.lua_enabled,
            Language::Js => self.js_enabled,
        }
    }

    /// Whether the runtime of `language` is enabled.
    pub fn runtime_enabled(&self, language: Language) -> (res: bool)
        ensures
            res == self.enables(language),
    {
        match language {
            Language::Python => self.python_enabled,
            Language::Lua => self.lua_enabled,
            Language::Js => self.js_enabled,
        }
    }
}

/// A scripting language the kernel runs.
#[derive(Debug, Clone, Copy, PartialEq, Eq, Hash, Structural)]
pub enum Language {
    Python,
    Lua,
    Js,
}

/// The name of a language.
pub open spec fn language_name(language: Language) -> Seq<char> {
    match language {
        Language::Python => "python"@,
        Language::Lua => "lua"@,
        Language::Js => "js"@,
    }
}

impl Language {
    /// The name of the language.
    pub fn as_str(self) -> (res: &'static str)
        ensures
            res@ == language_name(self),
    {
        match self {
            Language::Python => "python",
            Language::Lua => "lua",
            Language::Js => "js",
        }
    }
}

/// A script to run: code given inline, or a path to a file.
#[derive(Debug, Clone)]
pub enum ScriptInput {
    Code(String),
    Path(String),
}

/// A script input, as text.
pub enum ScriptInputView {
    Code(Seq<char>),
    Path(Seq<char>),
}

impl DeepView for ScriptInput {
    type V = ScriptInputView;

    open spec fn deep_view(&self) -> ScriptInputView {
        match self {
            ScriptInput::Code(c) => ScriptInputView::Code(c@),
            ScriptInput::Path(p) => ScriptInputView::Path(p@),
        }
    }
}

impl ScriptInput {
    /// Reads `input` as a path when it looks like one and as code otherwise
    /// (see `parse_script_input_source`); `known` says which paths exist.
    pub fn from_source(input: &str, base_dir: &str, known: &ExistingPaths) -> (res: ScriptInput)
        ensures
            res.deep_view() == script_input_of(base_dir@, input@, known@),
    {
        parse_script_input_source(base_dir, input, known)
    }
}

/// A path to a script file.
#[derive(Debug, Clone)]
pub struct ScriptPath {
    pub path: String,
}

/// What can be turned into a script input.
pub trait ScriptInputSource: Sized {
    /// The script input, with relative paths taken from `base_dir`; `known`
    /// says which paths exist.
    fn into_script_input(self, base_dir: &str, known: &ExistingPaths) -> ScriptInput;
}

impl ScriptInputSource for ScriptInput {
    /// The input itself.
    fn into_script_input(self, base_dir: &str, known: &ExistingPaths) -> (res: ScriptInput)
        ensures
            res.deep_view() == self.deep_view(),
    {
        self
    }
}

impl<'a> ScriptInputSource for &'a str {
    /// The text read as a path or as code.
    fn into_script_input(self, base_dir: &str, known: &ExistingPaths) -> (res: ScriptInput)
        ensures
            res.deep_view() == script_input_of(base_dir@, self@, known@),
    {
        ScriptInput::from_source(self, base_dir, known)
    }
}

impl ScriptInputSource for String {
    /// The text read as a path or as code.
    fn into_script_input(self, base_dir: &str, known: &ExistingPaths) -> (res: ScriptInput)
        ensures
            res.deep_view() == script_input_of(base_dir@, self@, known@),
    {
        ScriptInput::from_source(self.as_str(), base_dir, known)
    }
}

impl<'a> ScriptInputSource for &'a String {
    /// The text read as a path or as code.
    fn into_script_input(self, base_dir: &str, known: &ExistingPaths) -> (res: ScriptInput)
        ensures
            res.deep_view() == script_input_of(base_dir@, self@, known@),
    {
        ScriptInput::from_source(self.as_str(), base_dir, known)
    }
}

impl ScriptInputSource for ScriptPath {
    /// The path, `\` read as a separator in it, joined to `base_dir` when it
    /// is relative.
    fn into_script_input(self, base_dir: &str, known: &ExistingPaths) -> (res: ScriptInput)
        ensures
            res.deep_view() == ScriptInputView::Path(absolute_path(unix_separators(self.path@), base_dir@)),
    {
        let p = string_of(&replace_chars(&chars_of(self.path.as_str()), '\\', '/'));
        ScriptInput::Path(normalize_abs(p.as_str(), base_dir))
    }
}

/// A request to run a script.
#[derive(Debug, Clone)]
pub struct RunRequest {
    pub language: Language,
    pub input: ScriptInput,
    /// The directory to take relative paths from, in place of the kernel's.
    pub working_dir: Option<String>,
}

impl RunRequest {
    /// A request to run inline code.
    pub fn code(language: Language, code: String) -> (res: RunRequest)
        ensures
            res.language == language,
            res.input.deep_view() == ScriptInputView::Code(code@),
            res.working_dir is None,
    {
        RunRequest { language, input: ScriptInput::Code(code), working_dir: None }
    }

    /// A request to run the script at `path`.
    pub fn path(language: Language, path: String) -> (res: RunRequest)
        ensures
            res.language == language,
            res.input.deep_view() == ScriptInputView::Path(path@),
            res.working_dir is None,
    {
        RunRequest { language, input: ScriptInput::Path(path), working_dir: None }
    }

    /// The directory the request's relative paths are taken from: its own
    /// working directory when it has one, else `kernel_base_dir`.
    pub fn effective_base_dir(&self, kernel_base_dir: &String) -> (res: String)
        ensures
            res@ == (match &self.working_dir {
                Some(d) => d@,
                None => kernel_base_dir@,
            }),
    {
        match &self.working_dir {
            Some(d) => d.clone(),
            None => kernel_base_dir.clone(),
        }
    }
}

/// What a run reports.
#[derive(Debug, Clone)]
pub struct RunReport {
    pub language: Language,
    pub entry_path: String,
    pub discovered_modules: Vec<String>,
}

} // verus!
