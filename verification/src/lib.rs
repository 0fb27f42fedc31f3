pub mod expand;
pub mod fs;
pub mod lexer;
pub mod parser;
pub mod semantics;
pub mod shell;
pub mod strmap;
pub mod text;

pub use fs::{normalize_absolute, parent_dir, BashError, InMemoryFs};
pub use parser::{
    parse_script, parse_script_with_limits, CommandInvocation, ForStatement, IfStatement,
    ParseLimits, PipelineConnector, Redirect, RedirectMode, Script, Statement, StatementKind,
    WhileStatement, Word, WordPart, WordPartKind,
};
pub use shell::{Bash, BashExecResult, BashExecutionLimits, BashOptions};
pub use strmap::StringMap;
