//! The error taxonomy: syntax, command, variable, file, game-raised and
//! development errors, each with a mathematical model and a renderer that
//! builds the user-facing message.

use vstd::prelude::*;

use crate::variables::ASType;
use crate::variables::KeyVal;
use crate::variables::KeyVar;
use crate::variables::Ty;

verus! {

/// Model of a syntax or parsing error.
pub enum SynErr {
    Generic { details: Seq<char> },
    EndOfScript,
    NoCommand,
    NonExistentCommand { command: Seq<char> },
    ArgAfterKwarg,
    UnclosedString,
    UnclosedBracket { bracket: char },
    OperationNotDefined { op: Seq<char>, type1: Ty, type2: Ty },
    UnaryOperationNotDefined { op: Seq<char>, type1: Ty },
    InvalidEscapeCode { code: Seq<char> },
    EmptyControlCode { code: Seq<char> },
    MapError,
    InvalidMapKey { key_type: Ty },
    InvalidVariableName(Seq<char>),
    NonExistentLabel(Seq<char>),
    RepeatedLabel(Seq<char>, Seq<i64>),
    InvalidLabelName(Seq<char>),
    InvalidMethod(Seq<char>),
    UnknownMethod(Seq<char>, Ty),
    NestingTooDeep,
    IntegerOverflow { op: Seq<char> },
    DivisionByZero,
    NegativeExponent,
}

/// A syntax or parsing error.
///
/// `NestingTooDeep` reports an expression whose
/// bracket or interpolation nesting exceeds the evaluator's recursion budget,
/// and `IntegerOverflow` / `DivisionByZero` / `NegativeExponent` report an
/// arithmetic operation whose result has no 64-bit representation.
#[derive(Debug)]
pub enum ASSyntaxError {
    Generic { details: String },
    EndOfScript,
    NoCommand,
    NonExistentCommand { command: String },
    ArgAfterKwarg,
    UnclosedString,
    UnclosedBracket { bracket: char },
    OperationNotDefined { op: String, type1: ASType, type2: ASType },
    UnaryOperationNotDefined { op: String, type1: ASType },
    InvalidEscapeCode { code: String },
    EmptyControlCode { code: String },
    MapError,
    InvalidMapKey { key_type: ASType },
    InvalidVariableName(String),
    NonExistentLabel(String),
    RepeatedLabel(String, Vec<i64>),
    InvalidLabelName(String),
    InvalidMethod(String),
    UnknownMethod(String, ASType),
    NestingTooDeep,
    IntegerOverflow { op: String },
    DivisionByZero,
    NegativeExponent,
}

impl View for ASSyntaxError {
    type V = SynErr;

    open spec fn view(&self) -> SynErr {
        match self {
            ASSyntaxError::Generic { details } => SynErr::Generic { details: details@ },
            ASSyntaxError::EndOfScript => SynErr::EndOfScript,
            ASSyntaxError::NoCommand => SynErr::NoCommand,
            ASSyntaxError::NonExistentCommand { command } => SynErr::NonExistentCommand {
                command: command@,
            },
            ASSyntaxError::ArgAfterKwarg => SynErr::ArgAfterKwarg,
            ASSyntaxError::UnclosedString => SynErr::UnclosedString,
            ASSyntaxError::UnclosedBracket { bracket } => SynErr::UnclosedBracket {
                bracket: *bracket,
            },
            ASSyntaxError::OperationNotDefined { op, type1, type2 } => SynErr::OperationNotDefined {
                op: op@,
                type1: type1@,
                type2: type2@,
            },
            ASSyntaxError::UnaryOperationNotDefined { op, type1 } => SynErr::UnaryOperationNotDefined {
                op: op@,
                type1: type1@,
            },
            ASSyntaxError::InvalidEscapeCode { code } => SynErr::InvalidEscapeCode { code: code@ },
            ASSyntaxError::EmptyControlCode { code } => SynErr::EmptyControlCode { code: code@ },
            ASSyntaxError::MapError => SynErr::MapError,
            ASSyntaxError::InvalidMapKey { key_type } => SynErr::InvalidMapKey {
                key_type: key_type@,
            },
            ASSyntaxError::InvalidVariableName(t) => SynErr::InvalidVariableName(t@),
            ASSyntaxError::NonExistentLabel(l) => SynErr::NonExistentLabel(l@),
            ASSyntaxError::RepeatedLabel(l, lines) => SynErr::RepeatedLabel(l@, lines@),
            ASSyntaxError::InvalidLabelName(t) => SynErr::InvalidLabelName(t@),
            ASSyntaxError::InvalidMethod(t) => SynErr::InvalidMethod(t@),
            ASSyntaxError::UnknownMethod(t, ty) => SynErr::UnknownMethod(t@, ty@),
            ASSyntaxError::NestingTooDeep => SynErr::NestingTooDeep,
            ASSyntaxError::IntegerOverflow { op } => SynErr::IntegerOverflow { op: op@ },
            ASSyntaxError::DivisionByZero => SynErr::DivisionByZero,
            ASSyntaxError::NegativeExponent => SynErr::NegativeExponent,
        }
    }
}

/// Model of a variable error.
pub enum VarErr {
    FlagNotBool(Seq<char>),
    VarNotFound(Seq<char>),
    NegativeListIndex,
    WrongListIndex { num_items: usize, index: i64 },
    WrongMapKey { key: KeyVal },
}

/// A variable error.
#[derive(Debug)]
pub enum ASVarError {
    FlagNotBool(String),
    VarNotFound(String),
    NegativeListIndex,
    WrongListIndex { num_items: usize, index: i64 },
    WrongMapKey { key: KeyVar },
}

impl View for ASVarError {
    type V = VarErr;

    open spec fn view(&self) -> VarErr {
        match self {
            ASVarError::FlagNotBool(n) => VarErr::FlagNotBool(n@),
            ASVarError::VarNotFound(n) => VarErr::VarNotFound(n@),
            ASVarError::NegativeListIndex => VarErr::NegativeListIndex,
            ASVarError::WrongListIndex { num_items, index } => VarErr::WrongListIndex {
                num_items: *num_items,
                index: *index,
            },
            ASVarError::WrongMapKey { key } => VarErr::WrongMapKey { key: key@ },
        }
    }
}

/// Model of the detail part of a command error.
pub enum CmdErrKind {
    Generic { details: Seq<char> },
    TooManyArguments { max_args: usize, given_args: usize },
    UndefinedArgument { argument_name: Seq<char>, argument_type: Ty },
    MissingRequiredArgument { argument_name: Seq<char>, argument_type: Ty },
    MissingRequiredPosArg { argument_name: Seq<char>, argument_num: usize, argument_type: Ty },
    ArgumentTypeError { argument_name: Seq<char>, required_type: Ty, given_type: Ty },
    PosArgTypeError {
        argument_name: Seq<char>,
        argument_num: usize,
        required_type: Ty,
        given_type: Ty,
    },
    ChoiceMissingRequired { choice: usize, typ: Ty },
    ChoiceWrongType { choice: usize, number: usize, given: Ty, asked: Ty },
}

/// The detail part of a command error.
#[derive(Debug)]
pub enum CommandErrors {
    Generic { details: String },
    TooManyArguments { max_args: usize, given_args: usize },
    UndefinedArgument { argument_name: String, argument_type: ASType },
    MissingRequiredArgument { argument_name: String, argument_type: ASType },
    MissingRequiredPosArg { argument_name: String, argument_num: usize, argument_type: ASType },
    ArgumentTypeError { argument_name: String, required_type: ASType, given_type: ASType },
    PosArgTypeError {
        argument_name: String,
        argument_num: usize,
        required_type: ASType,
        given_type: ASType,
    },
    ChoiceMissingRequired { choice: usize, typ: ASType },
    ChoiceWrongType { choice: usize, number: usize, given: ASType, asked: ASType },
}

impl View for CommandErrors {
    type V = CmdErrKind;

    open spec fn view(&self) -> CmdErrKind {
        match self {
            CommandErrors::Generic { details } => CmdErrKind::Generic { details: details@ },
            CommandErrors::TooManyArguments { max_args, given_args } => CmdErrKind::TooManyArguments {
                max_args: *max_args,
                given_args: *given_args,
            },
            CommandErrors::UndefinedArgument { argument_name, argument_type } => CmdErrKind::UndefinedArgument {
                argument_name: argument_name@,
                argument_type: argument_type@,
            },
            CommandErrors::MissingRequiredArgument {
                argument_name,
                argument_type,
            } => CmdErrKind::MissingRequiredArgument {
                argument_name: argument_name@,
                argument_type: argument_type@,
            },
            CommandErrors::MissingRequiredPosArg {
                argument_name,
                argument_num,
                argument_type,
            } => CmdErrKind::MissingRequiredPosArg {
                argument_name: argument_name@,
                argument_num: *argument_num,
                argument_type: argument_type@,
            },
            CommandErrors::ArgumentTypeError {
                argument_name,
                required_type,
                given_type,
            } => CmdErrKind::ArgumentTypeError {
                argument_name: argument_name@,
                required_type: required_type@,
                given_type: given_type@,
            },
            CommandErrors::PosArgTypeError {
                argument_name,
                argument_num,
                required_type,
                given_type,
            } => CmdErrKind::PosArgTypeError {
                argument_name: argument_name@,
                argument_num: *argument_num,
                required_type: required_type@,
                given_type: given_type@,
            },
            CommandErrors::ChoiceMissingRequired { choice, typ } => CmdErrKind::ChoiceMissingRequired {
                choice: *choice,
                typ: typ@,
            },
            CommandErrors::ChoiceWrongType { choice, number, given, asked } => CmdErrKind::ChoiceWrongType {
                choice: *choice,
                number: *number,
                given: given@,
                asked: asked@,
            },
        }
    }
}

/// Model of a command error.
pub struct CmdErr {
    pub command: Seq<char>,
    pub details: CmdErrKind,
}

/// An error raised while binding or running a command.
#[derive(Debug)]
pub struct ASCmdError {
    pub command: String,
    pub details: CommandErrors,
}

impl View for ASCmdError {
    type V = CmdErr;

    open spec fn view(&self) -> CmdErr {
        CmdErr { command: self.command@, details: self.details@ }
    }
}

/// Model of the detail part of a file error.
pub enum FileErr {
    InvalidMode(Seq<char>),
    NotFound,
    MissingPermissions,
    ConfigLoadError(Seq<char>),
    SaveLoadError(Seq<char>),
    SaveNotCompatible(Seq<char>),
    SaveTooNew(Seq<char>),
}

/// The detail part of a file error.
#[derive(Debug)]
pub enum FileErrors {
    InvalidMode(String),
    NotFound,
    MissingPermissions,
    ConfigLoadError(String),
    SaveLoadError(String),
    SaveNotCompatible(String),
    SaveTooNew(String),
}

impl View for FileErrors {
    type V = FileErr;

    open spec fn view(&self) -> FileErr {
        match self {
            FileErrors::InvalidMode(m) => FileErr::InvalidMode(m@),
            FileErrors::NotFound => FileErr::NotFound,
            FileErrors::MissingPermissions => FileErr::MissingPermissions,
            FileErrors::ConfigLoadError(d) => FileErr::ConfigLoadError(d@),
            FileErrors::SaveLoadError(d) => FileErr::SaveLoadError(d@),
            FileErrors::SaveNotCompatible(v) => FileErr::SaveNotCompatible(v@),
            FileErrors::SaveTooNew(v) => FileErr::SaveTooNew(v@),
        }
    }
}

/// Model of a file error.
pub struct FileErrV {
    pub filename: Seq<char>,
    pub mode: Seq<char>,
    pub details: FileErr,
}

/// An error raised when a collaborator opens or parses a file.
#[derive(Debug)]
pub struct ASFileError {
    pub filename: String,
    pub mode: String,
    pub details: FileErrors,
}

impl ASFileError {
    /// Builds a file error, rendering the open mode as the user-facing
    /// word: `r` reads, `w` writes, anything else just opens.
    pub fn from(filename: &str, mode: &str, details: FileErrors) -> (r: Self)
        ensures
            r@.filename == filename@,
            r@.details == details@,
            r@.mode == (if mode@ == "r"@ {
                "reading"@
            } else if mode@ == "w"@ {
                "writing"@
            } else {
                "opening"@
            }),
    {
        let mode_word = if crate::text::str_eq(mode, "r") {
            String::from_str("reading")
        } else if crate::text::str_eq(mode, "w") {
            String::from_str("writing")
        } else {
            String::from_str("opening")
        };
        ASFileError {
            filename: crate::text::chars_to_string(&crate::text::string_to_chars(filename)),
            mode: mode_word,
            details,
        }
    }
}

impl View for ASFileError {
    type V = FileErrV;

    open spec fn view(&self) -> FileErrV {
        FileErrV { filename: self.filename@, mode: self.mode@, details: self.details@ }
    }
}

/// An error a script author raises deliberately; always surfaced to the
/// player.
#[derive(Debug)]
pub struct ASGameError(pub String);

impl View for ASGameError {
    type V = Seq<char>;

    open spec fn view(&self) -> Seq<char> {
        self.0@
    }
}

/// An error for features that are not implemented.
#[derive(Debug)]
pub struct ASNotImplemented(pub String);

impl View for ASNotImplemented {
    type V = Seq<char>;

    open spec fn view(&self) -> Seq<char> {
        self.0@
    }
}

/// Model of an unspecified error.
pub enum OtherErr {
    DevErr(Seq<char>),
    UnsupportedPlatform,
}

/// An unspecified error: a module author's bug, or an unsupported platform.
#[derive(Debug)]
pub enum ASOtherError {
    DevErr(String),
    UnsupportedPlatform,
}

impl View for ASOtherError {
    type V = OtherErr;

    open spec fn view(&self) -> OtherErr {
        match self {
            ASOtherError::DevErr(d) => OtherErr::DevErr(d@),
            ASOtherError::UnsupportedPlatform => OtherErr::UnsupportedPlatform,
        }
    }
}

/// Model of the sum of all error classes.
pub enum ErrV {
    Syntax(SynErr),
    Var(VarErr),
    Cmd(CmdErr),
    File(FileErrV),
    Game(Seq<char>),
    NotImplemented(Seq<char>),
    Other(OtherErr),
}

/// The sum of all error classes the interpreter can raise. Every fallible
/// operation of the library reports one of these.
#[derive(Debug)]
pub enum ASError {
    Syntax(ASSyntaxError),
    Var(ASVarError),
    Cmd(ASCmdError),
    File(ASFileError),
    Game(ASGameError),
    NotImplemented(ASNotImplemented),
    Other(ASOtherError),
}

impl View for ASError {
    type V = ErrV;

    open spec fn view(&self) -> ErrV {
        match self {
            ASError::Syntax(e) => ErrV::Syntax(e@),
            ASError::Var(e) => ErrV::Var(e@),
            ASError::Cmd(e) => ErrV::Cmd(e@),
            ASError::File(e) => ErrV::File(e@),
            ASError::Game(e) => ErrV::Game(e@),
            ASError::NotImplemented(e) => ErrV::NotImplemented(e@),
            ASError::Other(e) => ErrV::Other(e@),
        }
    }
}

} // verus!
