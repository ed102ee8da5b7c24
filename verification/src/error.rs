//! Errors of the kernel.
use vstd::prelude::*;

verus! {

/// What went wrong while preparing or running a script.
#[derive(Debug, Clone, PartialEq, Eq)]
pub enum KernelError {
    /// Reading or writing a file failed; the message says why.
    Io(String),
    /// Encoding or decoding JSON failed.
    Json(String),
    /// The Python runtime reported an error.
    Python(String),
    /// The Lua runtime reported an error.
    Lua(String),
    /// The JavaScript runtime reported an error.
    Js(String),
    /// The language is not supported.
    UnsupportedLanguage(String),
    /// The entry path does not exist.
    EntryPathNotFound { path: String },
    /// A module could not be resolved.
    ModuleNotFound { module: String, from: String },
    /// A worker's channel is closed.
    WorkerClosed,
    /// A worker could not start.
    WorkerInit(String),
    /// The script input is not acceptable.
    InvalidInput(String),
}

/// The result of a kernel operation.
pub type KernelResult<T> = Result<T, KernelError>;

} // verus!
