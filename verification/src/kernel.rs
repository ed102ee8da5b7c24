//! What a kernel decides before it starts its workers.
use vstd::prelude::*;

use crate::config::{language_name, KernelConfig, Language};
use crate::error::{KernelError, KernelResult};
use crate::text::{chars_of, string_of};

verus! {

/// The message of the error for a disabled runtime: the language's name and
/// ` runtime disabled`.
pub open spec fn disabled_message(language: Language) -> Seq<char> {
    language_name(language) + " runtime disabled"@
}

/// Whether the worker of `language` may start: `Ok` when the configuration
/// enables its runtime, else `WorkerInit` with `disabled_message`.
pub fn check_runtime_enabled(config: &KernelConfig, language: Language) -> (res: KernelResult<()>)
    ensures
        res is Ok <==> config.enables(language),
        res matches Err(e) ==> (e matches KernelError::WorkerInit(m) && m@ == disabled_message(
            language,
        )),
{
    if config.runtime_enabled(language) {
        return Ok(());
    }
    let mut text = chars_of(language.as_str());
    let suffix = chars_of(" runtime disabled");
    let ghost start = text@;
    let mut i: usize = 0;
    while i < suffix.len()
        invariant
            i <= suffix.len(),
            text@ == start + suffix@.take(i as int),
        decreases suffix.len() - i,
    {
        text.push(suffix[i]);
        i += 1;
        assert(text@ =~= start + suffix@.take(i as int));
    }
    assert(suffix@.take(i as int) =~= suffix@);
    Err(KernelError::WorkerInit(string_of(&text)))
}

} // verus!
