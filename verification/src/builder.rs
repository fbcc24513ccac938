//! Building a prompt from an invocation: probe standard input, drain it when
//! it is redirected, then classify the tokens.

use vstd::prelude::*;

use crate::classify::classifies;
use crate::classify::classify_tokens;
use crate::prompt::Prompt;
use crate::prompt::PromptError;
use crate::stdin::Terminal;

verus! {

/// Builds a `Prompt` from a token sequence, asking the given probe for the
/// terminal status and the piped content.
pub struct PromptBuilder<T: Terminal> {
    terminal_service: T,
}

impl<T: Terminal> PromptBuilder<T> {
    /// The probe the builder was given.
    pub closed spec fn terminal_service(self) -> T {
        self.terminal_service
    }

    pub fn new(terminal_service: T) -> (r: Self)
        ensures
            r.terminal_service() == terminal_service,
    {
        PromptBuilder { terminal_service }
    }

    /// Probe the terminal once, drain standard input when it is redirected,
    /// and classify `args` in one pass. Fails with `MissingProgramName`
    /// exactly when `args` is empty, and with `PipedReadFailure` exactly when
    /// the redirected stream could not be read.
    pub fn build(self, args: Vec<String>) -> (r: Result<Prompt, PromptError>)
        ensures
            args@.len() == 0 <==> r == Err::<Prompt, PromptError>(PromptError::MissingProgramName),
            args@.len() > 0 && self.terminal_service().spec_is_terminal() ==> match r {
                Ok(p) => classifies(args.deep_view(), p) && p.content_piped is None && p.wf(),
                Err(_) => false,
            },
            args@.len() > 0 && !self.terminal_service().spec_is_terminal() ==> match r {
                Ok(p) => classifies(args.deep_view(), p) && p.content_piped is Some && p.wf(),
                Err(e) => e == PromptError::PipedReadFailure,
            },
    {
        if args.len() == 0 {
            return Err(PromptError::MissingProgramName);
        }
        let from_pipe = !self.terminal_service.is_terminal();
        let content_piped = if from_pipe {
            match self.terminal_service.read_piped() {
                Some(content) => Some(content),
                None => {
                    return Err(PromptError::PipedReadFailure);
                },
            }
        } else {
            None
        };
        classify_tokens(args, content_piped)
    }
}

} // verus!
