//! AdventureScript: an embeddable interpreter for a line-oriented scripting
//! language used to author branching text adventures.
//!
//! Each script line is either narrative text (shown verbatim, with inline
//! interpolation) or a `!command` invocation whose arguments are small
//! expressions. The crate provides the runtime value model, the lexical
//! simplifier, the expression evaluator, the command registry and argument
//! binder, and the interpreter control state. File access, serialization and
//! the host game loop are left to the embedding host.

pub mod commands;
pub mod error;
pub mod evaluate;
pub mod info;
pub mod methods;
pub mod parsing;
pub mod save;
pub mod simplify;
pub mod text;
pub mod variables;

pub use commands::main_commands;
pub use commands::Action;
pub use commands::CmdSet;
pub use commands::Command;
pub use commands::CommandArg;
pub use error::ASError;
pub use info::GameInfo;
pub use variables::ASType;
pub use variables::ASVariable;
pub use variables::KeyVar;
