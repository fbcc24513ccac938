//! Extracting a prompt from an explicitly supplied token sequence.

use vstd::prelude::*;

use crate::builder::PromptBuilder;
use crate::classify::classifies;
use crate::prompt::Prompt;
use crate::prompt::PromptError;
use crate::stdin::StdinServiceMock;

verus! {

/// Turns a token sequence into a `Prompt`, treating standard input as an
/// interactive terminal so that no piped content is read.
pub struct PromptExtractor {}

impl PromptExtractor {
    /// Classify `args` with standard input treated as a terminal. Fails with
    /// `MissingProgramName` exactly when `args` is empty.
    pub fn extract_from(args: Vec<String>) -> (r: Result<Prompt, PromptError>)
        ensures
            args@.len() == 0 <==> r == Err::<Prompt, PromptError>(PromptError::MissingProgramName),
            args@.len() > 0 ==> match r {
                Ok(p) => classifies(args.deep_view(), p) && p.content_piped is None && p.wf(),
                Err(_) => false,
            },
    {
        PromptBuilder::new(StdinServiceMock { is_terminal: true }).build(args)
    }
}

} // verus!
