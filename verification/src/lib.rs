//! Command-line invocation parsing: a single-pass token classifier that turns
//! a raw sequence of tokens into a structured prompt (program name, positional
//! arguments, named parameters with attached values, and optionally the text
//! piped in through standard input).

pub mod builder;
pub mod classify;
pub mod extractor;
pub mod prompt;
pub mod service;
pub mod stdin;

pub use builder::PromptBuilder;
pub use classify::classify_tokens;
pub use extractor::PromptExtractor;
pub use prompt::Parameters;
pub use prompt::Prompt;
pub use prompt::PromptError;
pub use service::PromptService;
pub use stdin::BrokenPipeMock;
pub use stdin::StdinServiceMock;
pub use stdin::Terminal;
