//! The front door for callers that already hold the invocation's tokens.

use vstd::prelude::*;

use crate::classify::classifies;
use crate::extractor::PromptExtractor;
use crate::prompt::Prompt;
use crate::prompt::PromptError;

verus! {

/// Hands out prompts built from a supplied token sequence.
pub struct PromptService {}

impl PromptService {
    /// Classify `args` with standard input treated as a terminal. Fails with
    /// `MissingProgramName` exactly when `args` is empty.
    pub fn get_with_args(args: Vec<String>) -> (r: Result<Prompt, PromptError>)
        ensures
            args@.len() == 0 <==> r == Err::<Prompt, PromptError>(PromptError::MissingProgramName),
            args@.len() > 0 ==> match r {
                Ok(p) => classifies(args.deep_view(), p) && p.content_piped is None && p.wf(),
                Err(_) => false,
            },
    {
        PromptExtractor::extract_from(args)
    }
}

} // verus!
