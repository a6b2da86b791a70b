//! The command registry and dispatcher: declared signatures, the
//! registration-time validity check, the positional/keyword argument binder
//! with defaulting and type coercion, and the built-in command set.

use vstd::prelude::*;

use crate::error::ASCmdError;
use crate::error::ASError;
use crate::error::ASOtherError;
use crate::error::CommandErrors;
use crate::error::ErrV;
use crate::info::GameInfo;
use crate::methods::eval_state_ok;
use crate::methods::lemma_eval_state_refl;
use crate::methods::lemma_eval_state_trans;
use crate::text::chars_to_string;
use crate::text::string_to_chars;
use crate::variables::type_eq;
use crate::variables::val_of;
use crate::variables::val_wf;
use crate::variables::vals_of;
use crate::variables::lemma_vals_of;
use crate::variables::ASType;
use crate::variables::ASVariable;
use crate::variables::Ty;
use crate::variables::Val;

verus! {

/// The model of one declared parameter.
pub struct ArgV {
    /// The parameter name.
    pub name: Seq<char>,
    /// The declared type.
    pub ty: Ty,
    /// Whether a call must fill the parameter.
    pub required: bool,
    /// The default model value, when one is registered.
    pub default: Option<Val>,
}

/// One declared parameter of a command signature: a name, a declared type,
/// whether it is required, and an optional default value.
pub struct CommandArg {
    /// The parameter name.
    pub name: String,
    /// The declared type.
    pub type_: ASType,
    /// Whether a call must fill the parameter.
    pub required: bool,
    /// The default value applied when the parameter is left unfilled.
    pub default: Option<ASVariable>,
}

impl View for CommandArg {
    type V = ArgV;

    open spec fn view(&self) -> ArgV {
        ArgV {
            name: self.name@,
            ty: self.type_@,
            required: self.required,
            default: match &self.default {
                Option::Some(v) => Option::Some(v@),
                Option::None => Option::None,
            },
        }
    }
}

/// The models of a parameter list.
pub open spec fn args_view(s: Seq<CommandArg>) -> Seq<ArgV>
    decreases s.len(),
{
    if s.len() == 0 {
        Seq::empty()
    } else {
        args_view(s.drop_last()).push(s.last()@)
    }
}

/// The model of a parameter list is the pointwise model of its entries.
pub proof fn lemma_args_view(s: Seq<CommandArg>)
    ensures
        args_view(s).len() == s.len(),
        forall|i: int| 0 <= i < s.len() ==> args_view(s)[i] == (#[trigger] s[i])@,
    decreases s.len(),
{
    if s.len() > 0 {
        lemma_args_view(s.drop_last());
        assert forall|i: int| 0 <= i < s.len() implies args_view(s)[i] == (#[trigger] s[i])@ by {
            if i < s.len() - 1 {
                assert(s.drop_last()[i] == s[i]);
            } else {
                assert(s[i] == s.last());
            }
        }
    }
}

/// A declared signature is valid when no parameter takes the uninhabited
/// absent type and no required parameter follows an optional one.
pub open spec fn sig_valid(a: Seq<ArgV>) -> bool {
    (forall|i: int| 0 <= i < a.len() ==> !((#[trigger] a[i]).ty is Null)) && (forall|i: int, j: int|
        0 <= i < j < a.len() ==> ((#[trigger] a[i]).required || !(#[trigger] a[j]).required))
}


/// The kwarg mapping's value for a name: the last binding wins.
pub open spec fn kwarg_lookup(kwargs: Seq<(String, ASVariable)>, name: Seq<char>) -> Option<
    ASVariable,
>
    decreases kwargs.len(),
{
    if kwargs.len() == 0 {
        Option::None
    } else if kwargs.last().0@ == name {
        Option::Some(kwargs.last().1)
    } else {
        kwarg_lookup(kwargs.drop_last(), name)
    }
}

/// The first declared parameter with a name, scanning from a position.
pub open spec fn param_index(params: Seq<ArgV>, name: Seq<char>, j: int) -> Option<int>
    decreases params.len() - j,
{
    if j < 0 || j >= params.len() {
        Option::None
    } else if params[j].name == name {
        Option::Some(j)
    } else {
        param_index(params, name, j + 1)
    }
}

/// The first supplied keyword that names no declared parameter, scanning
/// from a position.
pub open spec fn unknown_kwarg_at(
    params: Seq<ArgV>,
    kwargs: Seq<(String, ASVariable)>,
    k: int,
) -> Option<int>
    decreases kwargs.len() - k,
{
    if k < 0 || k >= kwargs.len() {
        Option::None
    } else if param_index(params, kwargs[k].0@, 0) is None {
        Option::Some(k)
    } else {
        unknown_kwarg_at(params, kwargs, k + 1)
    }
}

/// What fills one slot before defaulting: a keyword binding (for the first
/// parameter of its name), else a positional argument, else nothing.
pub struct SlotSrc {
    /// The slot's pre-coercion value.
    pub val: Val,
    /// Whether anything filled the slot.
    pub given: bool,
    /// Whether the slot was bound positionally.
    pub by_pos: bool,
}

/// The slot content from the positional list alone.
pub open spec fn slot_positional(args: Seq<ASVariable>, j: int) -> SlotSrc {
    if 0 <= j < args.len() {
        SlotSrc { val: args[j]@, given: true, by_pos: true }
    } else {
        SlotSrc { val: Val::Null, given: false, by_pos: false }
    }
}

/// The slot content before defaults.
pub open spec fn slot_pre(
    params: Seq<ArgV>,
    args: Seq<ASVariable>,
    kwargs: Seq<(String, ASVariable)>,
    j: int,
) -> SlotSrc {
    if param_index(params, params[j].name, 0) == Option::Some(j) {
        match kwarg_lookup(kwargs, params[j].name) {
            Option::Some(x) => SlotSrc { val: x@, given: true, by_pos: false },
            Option::None => slot_positional(args, j),
        }
    } else {
        slot_positional(args, j)
    }
}

/// The slot content after defaults.
pub open spec fn slot_source(
    params: Seq<ArgV>,
    args: Seq<ASVariable>,
    kwargs: Seq<(String, ASVariable)>,
    j: int,
) -> SlotSrc {
    let pre = slot_pre(params, args, kwargs, j);
    if !pre.given {
        match params[j].default {
            Option::Some(d) => SlotSrc { val: d, given: true, by_pos: false },
            Option::None => pre,
        }
    } else {
        pre
    }
}

/// Resolving a reference through the stores: a flag reads as `false` until
/// set; an unset variable is an error.
pub open spec fn resolve_ref(v: Val, vars: Map<Seq<char>, Val>, flags: Map<Seq<char>, bool>) -> Result<
    Val,
    ErrV,
> {
    match v {
        Val::VarRef { name, flag } => if flag {
            Ok(
                Val::Bool(
                    if flags.contains_key(name) {
                        flags[name]
                    } else {
                        false
                    },
                ),
            )
        } else if vars.contains_key(name) {
            Ok(vars[name])
        } else {
            Err(ErrV::Var(crate::error::VarErr::VarNotFound(name)))
        },
        _ => Err(ErrV::Var(crate::error::VarErr::VarNotFound(Seq::empty()))),
    }
}

/// The type-mismatch report for a slot, positional when the slot was bound
/// positionally.
pub open spec fn type_err_model(cname: Seq<char>, j: int, pos: bool, decl: ArgV, given: Val) -> ErrV {
    if pos {
        ErrV::Cmd(
            crate::error::CmdErr {
                command: cname,
                details: crate::error::CmdErrKind::PosArgTypeError {
                    argument_name: decl.name,
                    argument_num: j as usize,
                    required_type: decl.ty,
                    given_type: given.ty(),
                },
            },
        )
    } else {
        ErrV::Cmd(
            crate::error::CmdErr {
                command: cname,
                details: crate::error::CmdErrKind::ArgumentTypeError {
                    argument_name: decl.name,
                    required_type: decl.ty,
                    given_type: given.ty(),
                },
            },
        )
    }
}

/// The slot checks, from a position on: a required slot left absent is an
/// error; a filled slot must match its declared type exactly, or be
/// accepted by `Any` when it is not a reference, or be a reference that is
/// resolved and re-checked once, or be the absent value coerced to a null
/// label or left in an optional slot.
pub open spec fn check_from(
    cname: Seq<char>,
    params: Seq<ArgV>,
    bound: Seq<Val>,
    given: Seq<bool>,
    by_pos: Seq<bool>,
    j: int,
    vars: Map<Seq<char>, Val>,
    flags: Map<Seq<char>, bool>,
) -> Result<Seq<Val>, ErrV>
    decreases params.len() - j,
{
    if j < 0 || j >= params.len() || bound.len() != params.len() || given.len() != params.len()
        || by_pos.len() != params.len() {
        Ok(bound)
    } else {
        let decl = params[j];
        let v = bound[j];
        if v is Null && !given[j] && decl.required {
            Err(
                ErrV::Cmd(
                    crate::error::CmdErr {
                        command: cname,
                        details: crate::error::CmdErrKind::MissingRequiredArgument {
                            argument_name: decl.name,
                            argument_type: decl.ty,
                        },
                    },
                ),
            )
        } else {
            let is_any = decl.ty is Any;
            let is_ref = v is VarRef;
            let tag = v.ty() == decl.ty;
            if (is_any && !is_ref) || tag {
                check_from(cname, params, bound, given, by_pos, j + 1, vars, flags)
            } else if is_ref {
                match resolve_ref(v, vars, flags) {
                    Err(e) => Err(e),
                    Ok(rv) => {
                        let rmatch = rv.ty() == decl.ty;
                        let rref = rv is VarRef;
                        let rnull = rv is Null;
                        if rmatch || (is_any && !rref) {
                            check_from(
                                cname,
                                params,
                                bound.update(j, rv),
                                given,
                                by_pos,
                                j + 1,
                                vars,
                                flags,
                            )
                        } else if rnull && decl.ty is Label {
                            check_from(
                                cname,
                                params,
                                bound.update(j, Val::Label(Option::None)),
                                given,
                                by_pos,
                                j + 1,
                                vars,
                                flags,
                            )
                        } else if rnull && !decl.required {
                            check_from(
                                cname,
                                params,
                                bound.update(j, rv),
                                given,
                                by_pos,
                                j + 1,
                                vars,
                                flags,
                            )
                        } else {
                            Err(type_err_model(cname, j, by_pos[j], decl, rv))
                        }
                    },
                }
            } else {
                if v is Null && decl.ty is Label {
                    check_from(
                        cname,
                        params,
                        bound.update(j, Val::Label(Option::None)),
                        given,
                        by_pos,
                        j + 1,
                        vars,
                        flags,
                    )
                } else if v is Null && !decl.required {
                    check_from(cname, params, bound, given, by_pos, j + 1, vars, flags)
                } else {
                    Err(type_err_model(cname, j, by_pos[j], decl, v))
                }
            }
        }
    }
}

/// The pre-check slot values.
pub open spec fn src_vals_of(
    params: Seq<ArgV>,
    args: Seq<ASVariable>,
    kwargs: Seq<(String, ASVariable)>,
) -> Seq<Val> {
    Seq::new(params.len(), |j: int| slot_source(params, args, kwargs, j).val)
}

/// Which slots were filled.
pub open spec fn src_given_of(
    params: Seq<ArgV>,
    args: Seq<ASVariable>,
    kwargs: Seq<(String, ASVariable)>,
) -> Seq<bool> {
    Seq::new(params.len(), |j: int| slot_source(params, args, kwargs, j).given)
}

/// Which slots were bound positionally.
pub open spec fn src_by_pos_of(
    params: Seq<ArgV>,
    args: Seq<ASVariable>,
    kwargs: Seq<(String, ASVariable)>,
) -> Seq<bool> {
    Seq::new(params.len(), |j: int| slot_source(params, args, kwargs, j).by_pos)
}

/// The whole binding algorithm: the positional-count gate, the unknown
/// keyword gate, the slot sources with defaults, then the slot checks.
pub open spec fn bind_model(
    cname: Seq<char>,
    params: Seq<ArgV>,
    args: Seq<ASVariable>,
    kwargs: Seq<(String, ASVariable)>,
    vars: Map<Seq<char>, Val>,
    flags: Map<Seq<char>, bool>,
) -> Result<Seq<Val>, ErrV> {
    if args.len() > params.len() {
        Err(
            ErrV::Cmd(
                crate::error::CmdErr {
                    command: cname,
                    details: crate::error::CmdErrKind::TooManyArguments {
                        max_args: params.len() as usize,
                        given_args: args.len() as usize,
                    },
                },
            ),
        )
    } else {
        match unknown_kwarg_at(params, kwargs, 0) {
            Option::Some(k) => Err(
                ErrV::Cmd(
                    crate::error::CmdErr {
                        command: cname,
                        details: crate::error::CmdErrKind::UndefinedArgument {
                            argument_name: kwargs[k].0@,
                            argument_type: kwargs[k].1@.ty(),
                        },
                    },
                ),
            ),
            Option::None => check_from(
                cname,
                params,
                src_vals_of(params, args, kwargs),
                src_given_of(params, args, kwargs),
                src_by_pos_of(params, args, kwargs),
                0,
                vars,
                flags,
            ),
        }
    }
}


/// A value and its model agree on the variant tests the binder makes.
proof fn lemma_variant_bridge(x: ASVariable)
    ensures
        (x is Null) == (val_of(x) is Null),
        (x is VarRef) == (val_of(x) is VarRef),
        (x is Empty) == (val_of(x) is Empty),
{
}

/// Names one element of a model sequence.
proof fn val_at(s: Seq<Val>, i: int) -> (v: Val)
    requires
        0 <= i < s.len(),
    ensures
        v == s[i],
{
    s[i]
}

/// Names one declared parameter.
proof fn param_at(s: Seq<ArgV>, i: int) -> (p: ArgV)
    requires
        0 <= i < s.len(),
    ensures
        p == s[i],
{
    s[i]
}

/// One step of the first-parameter search.
proof fn lemma_param_index_step(params: Seq<ArgV>, name: Seq<char>, s: int, eq: bool)
    requires
        0 <= s < params.len(),
        eq == (params[s].name == name),
    ensures
        eq ==> param_index(params, name, s) == Option::Some(s),
        !eq ==> param_index(params, name, s) == param_index(params, name, s + 1),
{
}

/// One step of the unknown-keyword search.
proof fn lemma_unknown_step(
    params: Seq<ArgV>,
    kwargs: Seq<(String, ASVariable)>,
    k: int,
    known: bool,
    name: Seq<char>,
)
    requires
        0 <= k < kwargs.len(),
        name == kwargs[k].0@,
        known == (param_index(params, name, 0) is Some),
    ensures
        known ==> unknown_kwarg_at(params, kwargs, k) == unknown_kwarg_at(params, kwargs, k + 1),
        !known ==> unknown_kwarg_at(params, kwargs, k) == Option::Some(k),
{
}

/// Appending a keyword binding to the processed prefix.
proof fn lemma_kwarg_lookup_push(
    prefix: Seq<(String, ASVariable)>,
    pair: (String, ASVariable),
    name: Seq<char>,
)
    ensures
        kwarg_lookup(prefix.push(pair), name) == (if pair.0@ == name {
            Option::Some(pair.1)
        } else {
            kwarg_lookup(prefix, name)
        }),
{
    assert(prefix.push(pair).drop_last() =~= prefix);
    assert(prefix.push(pair).last() == pair);
}

/// The outcomes of one slot check, spelled out.
proof fn lemma_check_step(
    cname: Seq<char>,
    params: Seq<ArgV>,
    bound: Seq<Val>,
    given: Seq<bool>,
    by_pos: Seq<bool>,
    j: int,
    vars: Map<Seq<char>, Val>,
    flags: Map<Seq<char>, bool>,
    decl: ArgV,
    v: Val,
)
    requires
        0 <= j < params.len(),
        bound.len() == params.len(),
        given.len() == params.len(),
        by_pos.len() == params.len(),
        decl == params[j],
        v == bound[j],
    ensures
        v is Null && !given[j] && decl.required ==> check_from(
            cname,
            params,
            bound,
            given,
            by_pos,
            j,
            vars,
            flags,
        ) == Result::<Seq<Val>, ErrV>::Err(
            ErrV::Cmd(
                crate::error::CmdErr {
                    command: cname,
                    details: crate::error::CmdErrKind::MissingRequiredArgument {
                        argument_name: decl.name,
                        argument_type: decl.ty,
                    },
                },
            ),
        ),
        !(v is Null && !given[j] && decl.required) && ((decl.ty is Any && !(v is VarRef)) || v.ty()
            == decl.ty) ==> check_from(cname, params, bound, given, by_pos, j, vars, flags)
            == check_from(cname, params, bound, given, by_pos, j + 1, vars, flags),
        !(v is Null && !given[j] && decl.required) && !((decl.ty is Any && !(v is VarRef))
            || v.ty() == decl.ty) && v is VarRef ==> check_from(
            cname,
            params,
            bound,
            given,
            by_pos,
            j,
            vars,
            flags,
        ) == (match resolve_ref(v, vars, flags) {
            Err(e) => Result::<Seq<Val>, ErrV>::Err(e),
            Ok(rv) => {
                if rv.ty() == decl.ty || (decl.ty is Any && !(rv is VarRef)) {
                    check_from(cname, params, bound.update(j, rv), given, by_pos, j + 1, vars, flags)
                } else if rv is Null && decl.ty is Label {
                    check_from(
                        cname,
                        params,
                        bound.update(j, Val::Label(Option::None)),
                        given,
                        by_pos,
                        j + 1,
                        vars,
                        flags,
                    )
                } else if rv is Null && !decl.required {
                    check_from(cname, params, bound.update(j, rv), given, by_pos, j + 1, vars, flags)
                } else {
                    Result::<Seq<Val>, ErrV>::Err(type_err_model(cname, j, by_pos[j], decl, rv))
                }
            },
        }),
        !(v is Null && !given[j] && decl.required) && !((decl.ty is Any && !(v is VarRef))
            || v.ty() == decl.ty) && !(v is VarRef) ==> check_from(
            cname,
            params,
            bound,
            given,
            by_pos,
            j,
            vars,
            flags,
        ) == (if v is Null && decl.ty is Label {
            check_from(
                cname,
                params,
                bound.update(j, Val::Label(Option::None)),
                given,
                by_pos,
                j + 1,
                vars,
                flags,
            )
        } else if v is Null && !decl.required {
            check_from(cname, params, bound, given, by_pos, j + 1, vars, flags)
        } else {
            Result::<Seq<Val>, ErrV>::Err(type_err_model(cname, j, by_pos[j], decl, v))
        }),
{
}

/// A finished slot scan accepts the record.
proof fn lemma_check_done(
    cname: Seq<char>,
    params: Seq<ArgV>,
    bound: Seq<Val>,
    given: Seq<bool>,
    by_pos: Seq<bool>,
    j: int,
    vars: Map<Seq<char>, Val>,
    flags: Map<Seq<char>, bool>,
)
    requires
        j >= params.len(),
    ensures
        check_from(cname, params, bound, given, by_pos, j, vars, flags) == Result::<
            Seq<Val>,
            ErrV,
        >::Ok(bound),
{
}

/// The built-in behavior a command is bound to, or a host-defined command
/// whose bound arguments are handed back to the host.
pub enum Effect {
    /// Wait for the player before going on.
    Wait,
    /// Present a choice and jump to the picked label.
    Choice,
    /// Jump to a label.
    Goto,
    /// Ask the host to load another script.
    LoadScript,
    /// Show an ending notice and quit.
    Ending,
    /// Set a boolean flag.
    Flag,
    /// Set a variable.
    SetVar,
    /// Add a value onto a variable.
    AddVar,
    /// Jump to one of two labels on a condition.
    IfJump,
    /// A host-defined command, dispatched back to the host by name.
    Custom(String),
}

/// What the host must perform after a line or command ran: the interpreter
/// state is already updated; these are the outward effects.
pub enum Action {
    /// Nothing outward.
    Nothing,
    /// Show text on the sink.
    Show(String),
    /// Wait for the player.
    Wait,
    /// Ask the player to pick a choice, then resolve it with
    /// `resolve_choice`.
    Query { text: String, choices: Vec<String>, gotos: Vec<ASVariable> },
    /// Load the named script and hand its lines back.
    LoadScript(String),
    /// A deprecation or debugging advisory.
    Warn(String),
    /// A host-defined command with its bound arguments.
    Custom(String, Vec<ASVariable>),
}

/// Every registered default value of a command is a well-formed, storable
/// value.
pub open spec fn cmd_defaults_ok(c: Command) -> bool {
    forall|j: int|
        0 <= j < c.args@.len() ==> ((#[trigger] c.args@[j]).default matches Some(d) ==> val_wf(d@)
            && !(d is Empty))
}

/// Every command of a registry, and of its one level of modules, has
/// well-formed defaults.
pub open spec fn set_ok(s: CmdSet) -> bool {
    (forall|i: int| 0 <= i < s.commands@.len() ==> cmd_defaults_ok(#[trigger] s.commands@[i])) && (
    forall|m: int, i: int|
        0 <= m < s.modules@.len() && 0 <= i < s.modules@[m].1.commands@.len() ==> cmd_defaults_ok(
            #[trigger] s.modules@[m].1.commands@[i],
        ))
}

/// A registered command: a name, an ordered parameter signature, a
/// deprecation mark and its effect.
pub struct Command {
    /// The name scripts call the command by.
    pub name: String,
    /// The ordered parameter signature.
    pub args: Vec<CommandArg>,
    /// Whether calling the command should raise an advisory in debug mode.
    pub deprecated: bool,
    /// The command's effect.
    pub effect: Effect,
}

impl Command {
    /// Registers a command, failing right here when the signature is
    /// invalid: a parameter of the absent type, or a required parameter
    /// after an optional one, is rejected at construction time, never at
    /// call time.
    pub fn new(name: String, effect: Effect, args: Vec<CommandArg>, deprecated: bool) -> (r: Result<
        Command,
        ASError,
    >)
        ensures
            r is Ok <==> sig_valid(args_view(args@)),
            match r {
                Ok(c) => c.name == name && c.args == args && c.deprecated == deprecated,
                Err(e) => e@ is Other,
            },
    {
        proof {
            lemma_args_view(args@);
        }
        let mut optionals = false;
        let mut i: usize = 0;
        while i < args.len()
            invariant
                0 <= i <= args@.len(),
                args_view(args@).len() == args@.len(),
                forall|j: int| 0 <= j < args@.len() ==> args_view(args@)[j] == (#[trigger] args@[j])@,
                forall|j: int| 0 <= j < i ==> !((#[trigger] args@[j])@.ty is Null),
                optionals == (exists|j: int| 0 <= j < i && !(#[trigger] args@[j])@.required),
                forall|a: int, b: int|
                    0 <= a < b < i ==> ((#[trigger] args@[a])@.required || !(
                    #[trigger] args@[b])@.required),
            decreases args@.len() - i,
        {
            let is_null_ty = match &args[i].type_ {
                ASType::Null => true,
                _ => false,
            };
            if is_null_ty {
                proof {
                    assert(!sig_valid(args_view(args@))) by {
                        assert((args_view(args@)[i as int]).ty is Null);
                    }
                }
                return Err(
                    ASError::Other(
                        ASOtherError::DevErr(
                            String::from_str("Command takes a parameter of the absent type"),
                        ),
                    ),
                );
            }
            if optionals && args[i].required {
                proof {
                    assert(!sig_valid(args_view(args@))) by {
                        let j = choose|j: int| 0 <= j < i && !(#[trigger] args@[j])@.required;
                        assert(!(args_view(args@)[j]).required);
                        assert((args_view(args@)[i as int]).required);
                    }
                }
                return Err(
                    ASError::Other(
                        ASOtherError::DevErr(
                            String::from_str(
                                "Command has a required argument after an optional one",
                            ),
                        ),
                    ),
                );
            }
            if !args[i].required {
                optionals = true;
                proof {
                    assert(!(args@[i as int])@.required);
                }
            }
            i = i + 1;
        }
        proof {
            assert forall|j: int|
                0 <= j < args_view(args@).len() implies !((#[trigger] args_view(args@)[j]).ty
                is Null) by {
                assert(args_view(args@)[j] == args@[j]@);
            }
            assert forall|a: int, b: int|
                0 <= a < b < args_view(args@).len() implies ((#[trigger] args_view(
                    args@,
                )[a]).required || !(#[trigger] args_view(args@)[b]).required) by {
                assert(args_view(args@)[a] == args@[a]@);
                assert(args_view(args@)[b] == args@[b]@);
            }
            assert(sig_valid(args_view(args@)));
        }
        Ok(Command { name, args, deprecated, effect })
    }

    /// Binds a positional list and a keyword mapping against the declared
    /// signature: positionals fill slots in declaration order, keywords
    /// override by name, unfilled slots take their defaults, every filled
    /// slot is type-checked with reference resolution and the documented
    /// coercions, and a required slot left absent is an error.
    pub fn bind(
        &self,
        info: &mut GameInfo,
        args: Vec<ASVariable>,
        kwargs: Vec<(String, ASVariable)>,
    ) -> (r: Result<Vec<ASVariable>, ASError>)
        requires
            old(info).wf(),
            forall|j: int|
                0 <= j < args@.len() ==> val_wf((#[trigger] args@[j])@) && !(args@[j] is Empty),
            forall|j: int|
                0 <= j < kwargs@.len() ==> val_wf(((#[trigger] kwargs@[j]).1)@) && !(kwargs@[j].1
                    is Empty),
            forall|j: int|
                0 <= j < self.args@.len() ==> ((#[trigger] self.args@[j]).default matches Some(d)
                    ==> val_wf(d@) && !(d is Empty)),
        ensures
            eval_state_ok(*old(info), *final(info)),
            match r {
                Ok(bound) => args@.len() <= self.args@.len() && bound@.len() == self.args@.len()
                    && (forall|j: int|
                    0 <= j < bound@.len() ==> val_wf((#[trigger] bound@[j])@) && !(bound@[j]
                        is Empty)),
                Err(e) => e@ is Cmd || e@ is Var || e@ is Other,
            },
            match bind_model(
                self.name@,
                args_view(self.args@),
                args@,
                kwargs@,
                old(info).vars_view(),
                old(info).flags_view(),
            ) {
                Ok(b) => r matches Ok(bound) && vals_of(bound@) == b,
                Err(e) => r matches Err(o) && o@ == e,
            },
    {
        proof {
            lemma_eval_state_refl(*old(info));
            lemma_args_view(self.args@);
        }
        let ghost params = args_view(self.args@);
        let ghost args0 = args@;
        let ghost kw = kwargs@;
        let ghost cname = self.name@;
        let ghost vars0 = old(info).vars_view();
        let ghost flags0 = old(info).flags_view();
        if args.len() > self.args.len() {
            return Err(
                ASError::Cmd(
                    ASCmdError {
                        command: self.name.clone(),
                        details: CommandErrors::TooManyArguments {
                            max_args: self.args.len(),
                            given_args: args.len(),
                        },
                    },
                ),
            );
        }
        // positional arguments fill slots in declaration order; the rest
        // start absent
        let mut bound: Vec<ASVariable> = args;
        let filled_pos = bound.len();
        while bound.len() < self.args.len()
            invariant
                args0.len() <= self.args@.len(),
                args0.len() <= bound@.len() <= self.args@.len(),
                forall|j: int| 0 <= j < args0.len() ==> #[trigger] bound@[j] == args0[j],
                forall|j: int| args0.len() <= j < bound@.len() ==> #[trigger] bound@[j] is Null,
                forall|j: int|
                    0 <= j < bound@.len() ==> val_wf((#[trigger] bound@[j])@) && !(bound@[j]
                        is Empty),
            decreases self.args@.len() - bound@.len(),
        {
            bound.push(ASVariable::Null);
        }
        let mut given: Vec<bool> = Vec::new();
        let mut by_pos: Vec<bool> = Vec::new();
        let mut gi: usize = 0;
        while gi < self.args.len()
            invariant
                given@.len() == gi,
                by_pos@.len() == gi,
                0 <= gi <= self.args@.len(),
                filled_pos == args0.len(),
                forall|j: int| 0 <= j < gi ==> #[trigger] given@[j] == (j < args0.len()),
                forall|j: int| 0 <= j < gi ==> #[trigger] by_pos@[j] == (j < args0.len()),
            decreases self.args@.len() - gi,
        {
            given.push(gi < filled_pos);
            by_pos.push(gi < filled_pos);
            gi = gi + 1;
        }
        // keyword arguments override by declared name; the first unknown
        // keyword ends the binding
        proof {
            assert forall|j: int|
                0 <= j < params.len() implies {
                let src = slot_pre(params, args0, kw.subrange(0, 0), j);
                (#[trigger] bound@[j])@ == src.val && given@[j] == src.given && by_pos@[j]
                    == src.by_pos
            } by {
                assert(kw.subrange(0, 0) =~= Seq::<(String, ASVariable)>::empty());
                assert(params[j] == self.args@[j]@);
            }
        }
        let mut ki: usize = 0;
        while ki < kwargs.len()
            invariant
                old(info).wf(),
                params == args_view(self.args@),
                params.len() == self.args@.len(),
                forall|j: int| 0 <= j < params.len() ==> #[trigger] params[j] == self.args@[j]@,
                args0.len() <= self.args@.len(),
                args0 == args@,
                cname == self.name@,
                kw == kwargs@,
                bound@.len() == self.args@.len(),
                given@.len() == self.args@.len(),
                by_pos@.len() == self.args@.len(),
                0 <= ki <= kwargs@.len(),
                forall|j: int|
                    0 <= j < kwargs@.len() ==> val_wf(((#[trigger] kwargs@[j]).1)@) && !(
                    kwargs@[j].1 is Empty),
                forall|j: int|
                    0 <= j < bound@.len() ==> val_wf((#[trigger] bound@[j])@) && !(bound@[j]
                        is Empty),
                unknown_kwarg_at(params, kw, 0) == unknown_kwarg_at(params, kw, ki as int),
                forall|j: int|
                    0 <= j < params.len() ==> {
                        let src = slot_pre(params, args0, kw.subrange(0, ki as int), j);
                        (#[trigger] bound@[j])@ == src.val && given@[j] == src.given && by_pos@[j]
                            == src.by_pos
                    },
            decreases kwargs@.len() - ki,
        {
            let ghost kname = kwargs@[ki as int].0@;
            let mut slot: Option<usize> = None;
            let mut si: usize = 0;
            while si < self.args.len() && slot.is_none()
                invariant
                    0 <= si <= self.args@.len(),
                    ki < kwargs@.len(),
                    kname == kwargs@[ki as int].0@,
                    params == args_view(self.args@),
                    params.len() == self.args@.len(),
                    forall|j: int| 0 <= j < params.len() ==> #[trigger] params[j] == self.args@[j]@,
                    param_index(params, kname, 0) == param_index(params, kname, si as int),
                    slot matches Some(p) ==> p < self.args@.len() && param_index(params, kname, 0)
                        == Option::Some(p as int) && params[p as int].name == kname,
                decreases self.args@.len() - si, (if slot is Some { 0int } else { 1int }),
            {
                if crate::text::str_eq(self.args[si].name.as_str(), kwargs[ki].0.as_str()) {
                    proof {
                        assert(params[si as int].name == kname);
                        lemma_param_index_step(params, kname, si as int, true);
                    }
                    slot = Some(si);
                } else {
                    proof {
                        lemma_param_index_step(params, kname, si as int, false);
                    }
                    si = si + 1;
                }
            }
            match slot {
                Some(p) => {
                    let v = kwargs[ki].1.duplicate();
                    proof {
                        assert(val_wf(v@) && !(v is Empty));
                        lemma_unknown_step(params, kw, ki as int, true, kname);
                    }
                    let ghost old_bound = bound@;
                    bound.set(p, v);
                    given.set(p, true);
                    by_pos.set(p, false);
                    proof {
                        assert(kw.subrange(0, ki + 1).drop_last() =~= kw.subrange(0, ki as int));
                        assert(kw.subrange(0, ki + 1).last() == kw[ki as int]);
                        assert forall|j: int|
                            0 <= j < params.len() implies {
                            let src = slot_pre(params, args0, kw.subrange(0, ki + 1), j);
                            (#[trigger] bound@[j])@ == src.val && given@[j] == src.given
                                && by_pos@[j] == src.by_pos
                        } by {
                            lemma_kwarg_lookup_push(
                                kw.subrange(0, ki as int),
                                kw[ki as int],
                                params[j].name,
                            );
                            assert(kw.subrange(0, ki as int).push(kw[ki as int]) =~= kw.subrange(
                                0,
                                ki + 1,
                            ));
                            if j != p {
                                assert(bound@[j] == old_bound[j]);
                                if params[j].name == kname {
                                    assert(param_index(params, kname, 0) == Option::Some(
                                        p as int,
                                    ));
                                    assert(param_index(params, params[j].name, 0)
                                        == Option::Some(p as int));
                                }
                            } else {
                                assert(params[p as int].name == kname);
                            }
                        }
                    }
                },
                None => {
                    let v = &kwargs[ki].1;
                    proof {
                        assert(si as int == params.len());
                        assert(param_index(params, kname, si as int) is None);
                        assert(param_index(params, kname, 0) is None);
                        lemma_unknown_step(params, kw, ki as int, false, kname);
                        assert(unknown_kwarg_at(params, kw, 0) == Option::Some(ki as int));
                    }
                    return Err(
                        ASError::Cmd(
                            ASCmdError {
                                command: self.name.clone(),
                                details: CommandErrors::UndefinedArgument {
                                    argument_name: kwargs[ki].0.clone(),
                                    argument_type: v.get_type(),
                                },
                            },
                        ),
                    );
                },
            }
            ki = ki + 1;
        }
        proof {
            assert(kw.subrange(0, kw.len() as int) =~= kw);
            assert(unknown_kwarg_at(params, kw, kw.len() as int) is None);
        }
        // defaults for slots still unfilled
        let mut di: usize = 0;
        while di < self.args.len()
            invariant
                params == args_view(self.args@),
                params.len() == self.args@.len(),
                forall|j: int| 0 <= j < params.len() ==> #[trigger] params[j] == self.args@[j]@,
                args0.len() <= self.args@.len(),
                args0 == args@,
                cname == self.name@,
                kw == kwargs@,
                bound@.len() == self.args@.len(),
                given@.len() == self.args@.len(),
                by_pos@.len() == self.args@.len(),
                0 <= di <= self.args@.len(),
                unknown_kwarg_at(params, kw, 0) is None,
                forall|j: int|
                    0 <= j < self.args@.len() ==> ((#[trigger] self.args@[j]).default matches Some(
                        d,
                    ) ==> val_wf(d@) && !(d is Empty)),
                forall|j: int|
                    0 <= j < bound@.len() ==> val_wf((#[trigger] bound@[j])@) && !(bound@[j]
                        is Empty),
                forall|j: int|
                    0 <= j < di ==> {
                        let src = slot_source(params, args0, kw, j);
                        (#[trigger] bound@[j])@ == src.val && given@[j] == src.given && by_pos@[j]
                            == src.by_pos
                    },
                forall|j: int|
                    di <= j < params.len() ==> {
                        let src = slot_pre(params, args0, kw, j);
                        (#[trigger] bound@[j])@ == src.val && given@[j] == src.given && by_pos@[j]
                            == src.by_pos
                    },
            decreases self.args@.len() - di,
        {
            let ghost prev_bound = bound@;
            let ghost prev_given = given@;
            proof {
                assert(params[di as int] == self.args@[di as int]@);
            }
            if !given[di] {
                match &self.args[di].default {
                    Some(d) => {
                        let v = d.duplicate();
                        proof {
                            assert(bound@[di as int] == prev_bound[di as int]);
                            assert(!prev_given[di as int]);
                            assert(!slot_pre(params, args0, kw, di as int).given);
                            assert(params[di as int].default == Option::Some(d@));
                            assert(slot_source(params, args0, kw, di as int).val == d@);
                        }
                        bound.set(di, v);
                        given.set(di, true);
                        proof {
                            assert((bound@[di as int])@ == slot_source(
                                params,
                                args0,
                                kw,
                                di as int,
                            ).val);
                        }
                    },
                    None => {},
                }
            }
            proof {
                assert forall|j: int|
                    0 <= j < di + 1 implies {
                    let src = slot_source(params, args0, kw, j);
                    (#[trigger] bound@[j])@ == src.val && given@[j] == src.given && by_pos@[j]
                        == src.by_pos
                } by {
                    if j < di {
                        assert(bound@[j] == prev_bound[j]);
                        assert(given@[j] == prev_given[j]);
                    }
                }
            }
            di = di + 1;
        }
        // type checks with reference resolution and the documented coercions
        let ghost src_vals = src_vals_of(params, args0, kw);
        let ghost src_given = src_given_of(params, args0, kw);
        let ghost src_by_pos = src_by_pos_of(params, args0, kw);
        proof {
            lemma_vals_of(bound@);
            assert forall|j: int| 0 <= j < params.len() implies vals_of(bound@)[j] == src_vals[j]
                && given@[j] == src_given[j] && by_pos@[j] == src_by_pos[j] by {
                assert(vals_of(bound@)[j] == val_of(bound@[j]));
                assert((bound@[j])@ == slot_source(params, args0, kw, j).val);
            }
            assert(vals_of(bound@) =~= src_vals);
            assert(given@ =~= src_given);
            assert(by_pos@ =~= src_by_pos);
        }
        let mut ci: usize = 0;
        while ci < self.args.len()
            invariant
                old(info).wf(),
                info.wf(),
                eval_state_ok(*old(info), *info),
                params == args_view(self.args@),
                params.len() == self.args@.len(),
                forall|j: int| 0 <= j < params.len() ==> #[trigger] params[j] == self.args@[j]@,
                args0.len() <= self.args@.len(),
                args0 == args@,
                kw == kwargs@,
                cname == self.name@,
                vars0 == old(info).vars_view(),
                flags0 == old(info).flags_view(),
                unknown_kwarg_at(params, kw, 0) is None,
                check_from(cname, params, src_vals, src_given, src_by_pos, 0, vars0, flags0)
                    == (match bind_model(cname, params, args0, kw, vars0, flags0) {
                    Ok(b) => Result::<Seq<Val>, ErrV>::Ok(b),
                    Err(e) => Result::<Seq<Val>, ErrV>::Err(e),
                }),
                bound@.len() == self.args@.len(),
                given@.len() == self.args@.len(),
                by_pos@.len() == self.args@.len(),
                0 <= ci <= self.args@.len(),
                forall|j: int|
                    0 <= j < bound@.len() ==> val_wf((#[trigger] bound@[j])@) && !(bound@[j]
                        is Empty),
                check_from(cname, params, src_vals, src_given, src_by_pos, 0, vars0, flags0)
                    == check_from(
                    cname,
                    params,
                    vals_of(bound@),
                    given@,
                    by_pos@,
                    ci as int,
                    vars0,
                    flags0,
                ),
            decreases self.args@.len() - ci,
        {
            proof {
                lemma_vals_of(bound@);
            }
            let ghost decl_g = param_at(params, ci as int);
            let ghost vb = vals_of(bound@);
            let ghost v_g = val_at(vb, ci as int);
            proof {
                lemma_vals_of(bound@);
                assert(v_g == val_of(bound@[ci as int]));
                lemma_variant_bridge(bound@[ci as int]);
                lemma_check_step(
                    cname,
                    params,
                    vb,
                    given@,
                    by_pos@,
                    ci as int,
                    vars0,
                    flags0,
                    decl_g,
                    v_g,
                );
            }
            let decl = &self.args[ci];
            let was_given = given[ci];
            let was_positional = by_pos[ci];
            let arg_is_null = match &bound[ci] {
                ASVariable::Null => true,
                _ => false,
            };
            proof {
                assert(decl_g == decl@);
                assert((decl_g.ty is Any) == (decl.type_ is Any));
                assert((decl_g.ty is Label) == (decl.type_ is Label));
                assert(decl_g.required == decl.required);
            }
            if arg_is_null && !was_given {
                if decl.required {
                    return Err(
                        ASError::Cmd(
                            ASCmdError {
                                command: self.name.clone(),
                                details: CommandErrors::MissingRequiredArgument {
                                    argument_name: decl.name.clone(),
                                    argument_type: clone_type(&decl.type_),
                                },
                            },
                        ),
                    );
                }
            }
            let is_any = match &decl.type_ {
                ASType::Any => true,
                _ => false,
            };
            let arg_is_ref = match &bound[ci] {
                ASVariable::VarRef { .. } => true,
                _ => false,
            };
            let tag_matches = {
                let t = bound[ci].get_type();
                type_eq(&t, &decl.type_)
            };
            if (is_any && !arg_is_ref) || tag_matches {
                // accepted as-is
            } else if arg_is_ref {
                let ghost pre = *info;
                let resolved_r = info.get_var(&bound[ci]);
                proof {
                    assert(eval_state_ok(pre, *info)) by {
                        match &bound@[ci as int] {
                            ASVariable::VarRef { name, flag } => {
                                if *flag {
                                    let b = if pre.flags_view().contains_key(name@) {
                                        pre.flags_view()[name@]
                                    } else {
                                        false
                                    };
                                    crate::methods::lemma_flag_read_ok(pre, *info, name@, b);
                                } else {
                                    assert(info.flags_view() =~= pre.flags_view());
                                }
                            },
                            _ => {
                                assert(info.flags_view() =~= pre.flags_view());
                            },
                        }
                    }
                    lemma_eval_state_trans(*old(info), pre, *info);
                    // the model resolves over the entry stores; flags read
                    // since then only gained `false` entries
                    match &bound@[ci as int] {
                        ASVariable::VarRef { name, flag } => {
                            if *flag {
                                assert(resolve_ref(v_g, vars0, flags0) == Result::<Val, ErrV>::Ok(
                                    Val::Bool(
                                        if pre.flags_view().contains_key(name@) {
                                            pre.flags_view()[name@]
                                        } else {
                                            false
                                        },
                                    ),
                                )) by {
                                    if flags0.contains_key(name@) {
                                        assert(pre.flags_view().contains_key(name@));
                                        assert(pre.flags_view()[name@] == flags0[name@]);
                                    } else {
                                        if pre.flags_view().contains_key(name@) {
                                            assert(pre.flags_view()[name@] == false);
                                        }
                                    }
                                }
                            } else {
                                assert(pre.vars_view() == vars0);
                            }
                        },
                        _ => {},
                    }
                }
                let resolved = resolved_r?;
                // re-check the resolved value once
                let resolved_matches = {
                    let t = resolved.get_type();
                    type_eq(&t, &decl.type_)
                };
                let resolved_is_ref = match &resolved {
                    ASVariable::VarRef { .. } => true,
                    _ => false,
                };
                let resolved_is_null = match &resolved {
                    ASVariable::Null => true,
                    _ => false,
                };
                proof {
                    lemma_variant_bridge(resolved);
                    assert(resolve_ref(v_g, vars0, flags0) == Result::<Val, ErrV>::Ok(
                        resolved@,
                    ));
                }
                if resolved_matches || (is_any && !resolved_is_ref) {
                    let ghost before = bound@;
                    bound.set(ci, resolved);
                    proof {
                        crate::evaluate::lemma_vals_of_update(before, ci as int, resolved);
                    }
                } else {
                    let decl_is_label = match &decl.type_ {
                        ASType::Label => true,
                        _ => false,
                    };
                    if resolved_is_null && decl_is_label {
                        let ghost before = bound@;
                        bound.set(ci, ASVariable::Label(None));
                        proof {
                            crate::evaluate::lemma_vals_of_update(
                                before,
                                ci as int,
                                ASVariable::Label(None),
                            );
                        }
                    } else if resolved_is_null && !decl.required {
                        let ghost before = bound@;
                        bound.set(ci, resolved);
                        proof {
                            crate::evaluate::lemma_vals_of_update(before, ci as int, resolved);
                        }
                    } else {
                        return Err(
                            self.type_error(
                                ci,
                                was_positional,
                                &decl.name,
                                &decl.type_,
                                &resolved,
                            ),
                        );
                    }
                }
            } else {
                let decl_is_label = match &decl.type_ {
                    ASType::Label => true,
                    _ => false,
                };
                if arg_is_null && decl_is_label {
                    let ghost before = bound@;
                    bound.set(ci, ASVariable::Label(None));
                    proof {
                        crate::evaluate::lemma_vals_of_update(
                            before,
                            ci as int,
                            ASVariable::Label(None),
                        );
                    }
                } else if arg_is_null && !decl.required {
                    // an optional slot may stay absent
                } else {
                    return Err(self.type_error(ci, was_positional, &decl.name, &decl.type_, &bound[ci]));
                }
            }
            ci = ci + 1;
        }
        proof {
            lemma_check_done(
                cname,
                params,
                vals_of(bound@),
                given@,
                by_pos@,
                ci as int,
                vars0,
                flags0,
            );
        }
        Ok(bound)
    }

    /// Builds the type-mismatch report, positional when the slot was bound
    /// positionally.
    fn type_error(
        &self,
        slot: usize,
        positional: bool,
        name: &String,
        decl: &ASType,
        given: &ASVariable,
    ) -> (r: ASError)
        requires
            !(given is Empty),
        ensures
            r@ is Cmd,
            r@ == ErrV::Cmd(
                crate::error::CmdErr {
                    command: self.name@,
                    details: if positional {
                        crate::error::CmdErrKind::PosArgTypeError {
                            argument_name: name@,
                            argument_num: slot,
                            required_type: decl@,
                            given_type: given@.ty(),
                        }
                    } else {
                        crate::error::CmdErrKind::ArgumentTypeError {
                            argument_name: name@,
                            required_type: decl@,
                            given_type: given@.ty(),
                        }
                    },
                },
            ),
    {
        if positional {
            ASError::Cmd(
                ASCmdError {
                    command: self.name.clone(),
                    details: CommandErrors::PosArgTypeError {
                        argument_name: name.clone(),
                        argument_num: slot,
                        required_type: clone_type(decl),
                        given_type: given.get_type(),
                    },
                },
            )
        } else {
            ASError::Cmd(
                ASCmdError {
                    command: self.name.clone(),
                    details: CommandErrors::ArgumentTypeError {
                        argument_name: name.clone(),
                        required_type: clone_type(decl),
                        given_type: given.get_type(),
                    },
                },
            )
        }
    }

    /// Runs the command: binds the arguments, then performs the effect on
    /// the interpreter state, returning the outward action for the host.
    pub fn run(
        &self,
        info: &mut GameInfo,
        args: Vec<ASVariable>,
        kwargs: Vec<(String, ASVariable)>,
    ) -> (r: Result<Action, ASError>)
        requires
            old(info).wf(),
            forall|j: int|
                0 <= j < args@.len() ==> val_wf((#[trigger] args@[j])@) && !(args@[j] is Empty),
            forall|j: int|
                0 <= j < kwargs@.len() ==> val_wf(((#[trigger] kwargs@[j]).1)@) && !(kwargs@[j].1
                    is Empty),
            forall|j: int|
                0 <= j < self.args@.len() ==> ((#[trigger] self.args@[j]).default matches Some(d)
                    ==> val_wf(d@) && !(d is Empty)),
        ensures
            final(info).wf(),
            r is Ok && self.effect is Ending ==> final(info).quitting,
            self.effect is Wait ==> match bind_model(
                self.name@,
                args_view(self.args@),
                args@,
                kwargs@,
                old(info).vars_view(),
                old(info).flags_view(),
            ) {
                Ok(_) => r matches Ok(a) && a is Wait,
                Err(e) => r matches Err(o) && o@ == e,
            },
            (match &self.effect {
                Effect::Custom(tag) => match bind_model(
                    self.name@,
                    args_view(self.args@),
                    args@,
                    kwargs@,
                    old(info).vars_view(),
                    old(info).flags_view(),
                ) {
                    Ok(b) => r matches Ok(a) && (a matches Action::Custom(t, bound) && t@ == tag@
                        && vals_of(bound@) == b),
                    Err(e) => r matches Err(o) && o@ == e,
                },
                _ => true,
            }),
            match bind_model(
                self.name@,
                args_view(self.args@),
                args@,
                kwargs@,
                old(info).vars_view(),
                old(info).flags_view(),
            ) {
                Ok(_) => true,
                Err(e) => r matches Err(o) && o@ == e,
            },
            args@.len() > self.args@.len() ==> r is Err,
    {
        let bound = self.bind(info, args, kwargs)?;
        match &self.effect {
            Effect::Wait => Ok(Action::Wait),
            Effect::Goto => {
                if bound.len() < 1 {
                    return Err(dev_err("goto command bound without its label"));
                }
                info.goto_label(&bound[0])?;
                Ok(Action::Nothing)
            },
            Effect::LoadScript => {
                if bound.len() < 1 {
                    return Err(dev_err("loadscript command bound without its name"));
                }
                match &bound[0] {
                    ASVariable::String(s) => Ok(Action::LoadScript(s.clone())),
                    _ => Err(dev_err("loadscript command bound a non-string name")),
                }
            },
            Effect::Ending => {
                if bound.len() < 1 {
                    return Err(dev_err("ending command bound without its name"));
                }
                let name_text = match &bound[0] {
                    ASVariable::String(s) => s.clone(),
                    _ => String::new(),
                };
                let mut msg = String::from_str("Ending: ");
                msg.append(name_text.as_str());
                info.show(msg.as_str());
                info.quit();
                Ok(Action::Show(msg))
            },
            Effect::Flag => {
                if bound.len() < 2 {
                    return Err(dev_err("flag command bound without its arguments"));
                }
                let flag_ref = match &bound[0] {
                    ASVariable::VarRef { name, .. } => ASVariable::VarRef {
                        name: name.clone(),
                        flag: true,
                    },
                    _ => {
                        return Err(dev_err("flag command bound a non-reference"));
                    },
                };
                let value = bound[1].duplicate();
                let value_ok = match &value {
                    ASVariable::Null => false,
                    _ => true,
                };
                let to_store = if value_ok {
                    value
                } else {
                    ASVariable::Bool(true)
                };
                info.set_var(&flag_ref, to_store)?;
                Ok(Action::Nothing)
            },
            Effect::SetVar => {
                if bound.len() < 2 {
                    return Err(dev_err("set command bound without its arguments"));
                }
                let var = bound[0].duplicate();
                let value = bound[1].duplicate();
                info.set_var(&var, value)?;
                Ok(Action::Nothing)
            },
            Effect::AddVar => {
                if bound.len() < 2 {
                    return Err(dev_err("add command bound without its arguments"));
                }
                let var = bound[0].duplicate();
                let current = info.get_var(&var)?;
                let addend = bound[1].duplicate();
                let sum = match current.add(addend) {
                    Ok(v) => v,
                    Err(e) => {
                        return Err(ASError::Syntax(e));
                    },
                };
                proof {
                    crate::variables::operations::lemma_add_wf(current@, bound@[1]@);
                }
                info.set_var(&var, sum)?;
                Ok(Action::Nothing)
            },
            Effect::IfJump => {
                if bound.len() < 3 {
                    return Err(dev_err("if command bound without its arguments"));
                }
                let cond = match &bound[0] {
                    ASVariable::Bool(b) => *b,
                    _ => {
                        return Err(dev_err("if command bound a non-boolean condition"));
                    },
                };
                if cond {
                    info.goto_label(&bound[1])?;
                } else {
                    info.goto_label(&bound[2])?;
                }
                Ok(Action::Nothing)
            },
            Effect::Choice => {
                // slot 0 is the prompt; slots 1..=9 are the choice texts and
                // slots 10..=18 their jump labels
                if bound.len() < 19 {
                    return Err(
                        ASError::Cmd(
                            ASCmdError {
                                command: self.name.clone(),
                                details: CommandErrors::ChoiceMissingRequired {
                                    choice: bound.len(),
                                    typ: ASType::Label,
                                },
                            },
                        ),
                    );
                }
                let text = match &bound[0] {
                    ASVariable::String(s) => s.clone(),
                    _ => String::new(),
                };
                let mut choices: Vec<String> = Vec::new();
                let mut gotos: Vec<ASVariable> = Vec::new();
                let mut c: usize = 0;
                while c < 9
                    invariant
                        bound@.len() >= 19,
                        info.wf(),
                        self.effect is Choice,
                        forall|j: int|
                            0 <= j < bound@.len() ==> val_wf((#[trigger] bound@[j])@) && !(
                            bound@[j] is Empty),
                        bind_model(
                            self.name@,
                            args_view(self.args@),
                            args@,
                            kwargs@,
                            old(info).vars_view(),
                            old(info).flags_view(),
                        ) is Ok,
                        forall|j: int|
                            0 <= j < gotos@.len() ==> val_wf((#[trigger] gotos@[j])@) && !(gotos@[j]
                                is Empty),
                    decreases 9 - c,
                {
                    let go = &bound[10 + c];
                    let live = match go {
                        ASVariable::Label(n) => match n {
                            Option::Some(_) => true,
                            Option::None => false,
                        },
                        _ => false,
                    };
                    if live {
                        let ch = match &bound[1 + c] {
                            ASVariable::String(s) => s.clone(),
                            other => {
                                return Err(
                                    ASError::Cmd(
                                        ASCmdError {
                                            command: self.name.clone(),
                                            details: CommandErrors::ChoiceWrongType {
                                                choice: c,
                                                number: 0,
                                                given: other.get_type(),
                                                asked: ASType::String,
                                            },
                                        },
                                    ),
                                );
                            },
                        };
                        proof {
                            assert(val_wf((bound@[10 + c as int])@));
                        }
                        choices.push(ch);
                        gotos.push(go.duplicate());
                    }
                    c = c + 1;
                }
                Ok(Action::Query { text, choices, gotos })
            },
            Effect::Custom(tag) => Ok(Action::Custom(tag.clone(), bound)),
        }
    }
}

/// Resolves a choice the player picked: pick `0` steps the pointer back so
/// the choice line runs again after a save or restore; pick `n` jumps to
/// the `n`-th offered label.
pub fn resolve_choice(info: &mut GameInfo, gotos: &Vec<ASVariable>, pick: usize) -> (r: Result<
    (),
    ASError,
>)
    requires
        old(info).wf(),
    ensures
        final(info).wf(),
        pick == 0 ==> r is Ok && *final(info) == (GameInfo {
            pointer: (if old(info).pointer > -0x8000_0000_0000_0000i64 {
                (old(info).pointer - 1) as i64
            } else {
                old(info).pointer
            }),
            ..*old(info)
        }),
        pick >= 1 && pick - 1 >= gotos@.len() ==> (r matches Err(e) && e@ is Other && *final(info)
            == *old(info)),
        pick >= 1 && pick - 1 < gotos@.len() ==> match gotos@[pick - 1] {
            ASVariable::Label(n) => match n {
                Option::None => r is Ok && *final(info) == *old(info),
                Option::Some(name) => {
                    let pos = crate::info::label_positions(old(info).script_view(), name@);
                    if pos.len() == 0 {
                        r matches Err(e) && e@ == ErrV::Syntax(
                            crate::error::SynErr::NonExistentLabel(name@),
                        ) && *final(info) == *old(info)
                    } else if pos.len() == 1 {
                        r is Ok && *final(info) == (GameInfo {
                            pointer: pos[0] as i64,
                            ..*old(info)
                        })
                    } else {
                        r is Err && *final(info) == *old(info)
                    }
                },
            },
            _ => r matches Err(e) && e@ is Other && *final(info) == *old(info),
        },
{
    if pick == 0 {
        if info.pointer > -0x8000_0000_0000_0000i64 {
            info.pointer = info.pointer - 1;
        }
        return Ok(());
    }
    if pick - 1 >= gotos.len() {
        return Err(dev_err("choice pick out of range"));
    }
    info.goto_label(&gotos[pick - 1])?;
    Ok(())
}

/// Builds a development-error report.
fn dev_err(msg: &str) -> (r: ASError)
    ensures
        r@ is Other,
{
    ASError::Other(ASOtherError::DevErr(String::from_str(msg)))
}

/// Clones a type tag.
fn clone_type(t: &ASType) -> (r: ASType)
    ensures
        r@ == t@,
{
    match t {
        ASType::Any => ASType::Any,
        ASType::Bool => ASType::Bool,
        ASType::Int => ASType::Int,
        ASType::String => ASType::String,
        ASType::List => ASType::List,
        ASType::Mapping => ASType::Mapping,
        ASType::Label => ASType::Label,
        ASType::VarRef => ASType::VarRef,
        ASType::Null => ASType::Null,
        ASType::Object(s) => ASType::Object(chars_to_string(&string_to_chars(s.as_str()))),
    }
}

/// A flat command registry: a command list, a transitive alias table, and
/// one level of named modules.
pub struct CmdSet {
    /// The commands, searched in order.
    pub commands: Vec<Command>,
    /// Aliases, each resolving to another name.
    pub aliases: Vec<(String, String)>,
    /// Nested sets, looked up through `module.command` names.
    pub modules: Vec<(String, CmdSet)>,
}

impl CmdSet {
    /// An empty registry.
    pub fn new() -> (r: Self)
        ensures
            r.commands@.len() == 0,
            r.aliases@.len() == 0,
            r.modules@.len() == 0,
    {
        CmdSet { commands: Vec::new(), aliases: Vec::new(), modules: Vec::new() }
    }

    /// A registry from a command list and an alias table.
    pub fn from(commands: Vec<Command>, aliases: Vec<(String, String)>) -> (r: Self)
        ensures
            r.commands@ == commands@,
            r.aliases@ == aliases@,
            r.modules@.len() == 0,
    {
        CmdSet { commands, aliases, modules: Vec::new() }
    }

    /// Adds another registry's commands and aliases after this registry's
    /// own: the result is the concatenation; modules are untouched.
    pub fn extend(&mut self, other: Self)
        ensures
            final(self).commands@ == old(self).commands@ + other.commands@,
            final(self).aliases@ == old(self).aliases@ + other.aliases@,
            final(self).modules@ == old(self).modules@,
    {
        let mut oc = other.commands;
        let ghost oc0 = oc@;
        proof {
            assert(self.commands@ + oc0.take(0) =~= self.commands@);
        }
        let total_c = oc.len();
        let mut taken: usize = 0;
        while oc.len() > 0
            invariant
                oc0.len() == total_c,
                taken <= oc0.len(),
                taken + oc@.len() == oc0.len(),
                oc@ == oc0.skip(taken as int),
                self.commands@ == old(self).commands@ + oc0.take(taken as int),
                self.aliases@ == old(self).aliases@,
                self.modules@ == old(self).modules@,
            decreases oc@.len(),
        {
            let ghost pre = oc@;
            let c = oc.remove(0);
            proof {
                assert(c == oc0[taken as int]);
                assert(pre.remove(0) =~= oc0.skip(taken + 1));
                assert((old(self).commands@ + oc0.take(taken as int)).push(c) =~= old(
                    self,
                ).commands@ + oc0.take(taken + 1));
            }
            self.commands.push(c);
            taken = taken + 1;
        }
        proof {
            assert(oc0.take(taken as int) =~= oc0);
        }
        let mut oa = other.aliases;
        let ghost oa0 = oa@;
        proof {
            assert(self.aliases@ + oa0.take(0) =~= self.aliases@);
        }
        let total_a = oa.len();
        let mut ataken: usize = 0;
        while oa.len() > 0
            invariant
                oa0.len() == total_a,
                ataken <= oa0.len(),
                ataken + oa@.len() == oa0.len(),
                oa@ == oa0.skip(ataken as int),
                self.commands@ == old(self).commands@ + oc0,
                oc0 == other.commands@,
                self.aliases@ == old(self).aliases@ + oa0.take(ataken as int),
                self.modules@ == old(self).modules@,
            decreases oa@.len(),
        {
            let ghost pre = oa@;
            let a = oa.remove(0);
            proof {
                assert(a == oa0[ataken as int]);
                assert(pre.remove(0) =~= oa0.skip(ataken + 1));
                assert((old(self).aliases@ + oa0.take(ataken as int)).push(a) =~= old(
                    self,
                ).aliases@ + oa0.take(ataken + 1));
            }
            self.aliases.push(a);
            ataken = ataken + 1;
        }
        proof {
            assert(oa0.take(ataken as int) =~= oa0);
        }
    }

    /// Registers a nested module under a name.
    pub fn add_module(&mut self, commands: CmdSet, name: String) {
        self.modules.push((name, commands));
    }

    /// Looks a command up: a `module.command` name selects the nested set;
    /// then the set's command list is searched, then its alias table,
    /// following alias chains.
    pub fn get(&self, name: &str) -> (r: Option<&Command>)
        requires
            set_ok(*self),
        ensures
            r matches Some(c) ==> cmd_defaults_ok(*c),
            match r {
                Some(c) => lookup_model(*self, name@) == Option::Some(*c),
                None => lookup_model(*self, name@) is None,
            },
    {
        let chars = string_to_chars(name);
        let total = chars.len();
        match crate::evaluate::find_char(&chars, '.') {
            Some(p) => {
                proof {
                    lemma_first_dot_some(name@, p as int, 0);
                }
                let module_name = chars_to_string(&slice_prefix(&chars, p));
                let rest = chars_to_string(&slice_suffix(&chars, p + 1));
                let mut mi: usize = 0;
                while mi < self.modules.len()
                    invariant
                        set_ok(*self),
                        0 <= mi <= self.modules@.len(),
                        module_name@ == name@.subrange(0, p as int),
                        rest@ == name@.subrange(p + 1, name@.len() as int),
                        p < name@.len(),
                        name@[p as int] == '.',
                        forall|j: int| 0 <= j < p ==> (#[trigger] name@[j]) != '.',
                        first_dot(name@, 0) == Option::Some(p as int),
                        find_module(self.modules@, module_name@, 0) == find_module(
                            self.modules@,
                            module_name@,
                            mi as int,
                        ),
                    decreases self.modules@.len() - mi,
                {
                    if crate::text::str_eq(self.modules[mi].0.as_str(), module_name.as_str()) {
                        proof {
                            assert(find_module(self.modules@, module_name@, mi as int)
                                == Option::Some(mi as int));
                            assert(forall|i: int|
                                0 <= i < self.modules@[mi as int].1.commands@.len()
                                    ==> cmd_defaults_ok(
                                    #[trigger] self.modules@[mi as int].1.commands@[i],
                                ));
                        }
                        return self.modules[mi].1.get_local(rest.as_str(), self.aliases.len());
                    }
                    proof {
                        assert(find_module(self.modules@, module_name@, mi as int) == find_module(
                            self.modules@,
                            module_name@,
                            mi + 1,
                        ));
                    }
                    mi = mi + 1;
                }
                proof {
                    assert(find_module(self.modules@, module_name@, mi as int) is None);
                }
                None
            },
            None => {
                proof {
                    lemma_first_dot_none(name@, 0);
                }
                self.get_local(name, self.aliases.len())
            },
        }
    }

    /// Looks a plain name up in this set, following at most `fuel` alias
    /// links.
    fn get_local(&self, name: &str, fuel: usize) -> (r: Option<&Command>)
        requires
            forall|i: int|
                0 <= i < self.commands@.len() ==> cmd_defaults_ok(#[trigger] self.commands@[i]),
        ensures
            r matches Some(c) ==> cmd_defaults_ok(*c),
            match r {
                Some(c) => lookup_local(self.commands@, self.aliases@, name@, fuel as nat)
                    == Option::Some(*c),
                None => lookup_local(self.commands@, self.aliases@, name@, fuel as nat) is None,
            },
        decreases fuel,
    {
        let mut i: usize = 0;
        while i < self.commands.len()
            invariant
                0 <= i <= self.commands@.len(),
                forall|j: int|
                    0 <= j < self.commands@.len() ==> cmd_defaults_ok(#[trigger] self.commands@[j]),
                find_command(self.commands@, name@, 0) == find_command(
                    self.commands@,
                    name@,
                    i as int,
                ),
            decreases self.commands@.len() - i,
        {
            if crate::text::str_eq(self.commands[i].name.as_str(), name) {
                proof {
                    assert(find_command(self.commands@, name@, i as int) == Option::Some(i as int));
                }
                return Some(&self.commands[i]);
            }
            proof {
                assert(find_command(self.commands@, name@, i as int) == find_command(
                    self.commands@,
                    name@,
                    i + 1,
                ));
            }
            i = i + 1;
        }
        proof {
            assert(find_command(self.commands@, name@, i as int) is None);
        }
        if fuel == 0 {
            return None;
        }
        let mut j: usize = 0;
        while j < self.aliases.len()
            invariant
                fuel >= 1,
                0 <= j <= self.aliases@.len(),
                forall|i: int|
                    0 <= i < self.commands@.len() ==> cmd_defaults_ok(#[trigger] self.commands@[i]),
                find_command(self.commands@, name@, 0) is None,
                find_alias(self.aliases@, name@, 0) == find_alias(
                    self.aliases@,
                    name@,
                    j as int,
                ),
            decreases self.aliases@.len() - j,
        {
            if crate::text::str_eq(self.aliases[j].0.as_str(), name) {
                proof {
                    assert(find_alias(self.aliases@, name@, j as int) == Option::Some(j as int));
                }
                return self.get_local(self.aliases[j].1.as_str(), fuel - 1);
            }
            proof {
                assert(find_alias(self.aliases@, name@, j as int) == find_alias(
                    self.aliases@,
                    name@,
                    j + 1,
                ));
            }
            j = j + 1;
        }
        proof {
            assert(find_alias(self.aliases@, name@, j as int) is None);
        }
        None
    }
}


/// The first command of a name, scanning from a position.
pub open spec fn find_command(cmds: Seq<Command>, name: Seq<char>, i: int) -> Option<int>
    decreases cmds.len() - i,
{
    if i < 0 || i >= cmds.len() {
        Option::None
    } else if cmds[i].name@ == name {
        Option::Some(i)
    } else {
        find_command(cmds, name, i + 1)
    }
}

/// The first alias of a name, scanning from a position.
pub open spec fn find_alias(aliases: Seq<(String, String)>, name: Seq<char>, i: int) -> Option<int>
    decreases aliases.len() - i,
{
    if i < 0 || i >= aliases.len() {
        Option::None
    } else if aliases[i].0@ == name {
        Option::Some(i)
    } else {
        find_alias(aliases, name, i + 1)
    }
}

/// A plain-name lookup: the command list first, then the alias table,
/// following at most `fuel` alias links.
pub open spec fn lookup_local(
    cmds: Seq<Command>,
    aliases: Seq<(String, String)>,
    name: Seq<char>,
    fuel: nat,
) -> Option<Command>
    decreases fuel,
{
    match find_command(cmds, name, 0) {
        Option::Some(i) => Option::Some(cmds[i]),
        Option::None => {
            if fuel == 0 {
                Option::None
            } else {
                match find_alias(aliases, name, 0) {
                    Option::Some(a) => lookup_local(cmds, aliases, aliases[a].1@, (fuel - 1) as nat),
                    Option::None => Option::None,
                }
            }
        },
    }
}

/// The first module of a name, scanning from a position.
pub open spec fn find_module(mods: Seq<(String, CmdSet)>, name: Seq<char>, i: int) -> Option<int>
    decreases mods.len() - i,
{
    if i < 0 || i >= mods.len() {
        Option::None
    } else if mods[i].0@ == name {
        Option::Some(i)
    } else {
        find_module(mods, name, i + 1)
    }
}

/// The position of the first dot in a name, scanning from a position.
pub open spec fn first_dot(s: Seq<char>, i: int) -> Option<int>
    decreases s.len() - i,
{
    if i < 0 || i >= s.len() {
        Option::None
    } else if s[i] == '.' {
        Option::Some(i)
    } else {
        first_dot(s, i + 1)
    }
}

/// The registry lookup: a `module.command` name selects the nested set and
/// looks the rest up there; a plain name is looked up in this set.
pub open spec fn lookup_model(cs: CmdSet, name: Seq<char>) -> Option<Command> {
    match first_dot(name, 0) {
        Option::Some(p) => {
            match find_module(cs.modules@, name.subrange(0, p), 0) {
                Option::Some(m) => lookup_local(
                    cs.modules@[m].1.commands@,
                    cs.modules@[m].1.aliases@,
                    name.subrange(p + 1, name.len() as int),
                    cs.aliases@.len() as nat,
                ),
                Option::None => Option::None,
            }
        },
        Option::None => lookup_local(cs.commands@, cs.aliases@, name, cs.aliases@.len() as nat),
    }
}

/// A name with no dot up to the end has no first dot.
proof fn lemma_first_dot_none(s: Seq<char>, i: int)
    requires
        0 <= i <= s.len(),
        forall|j: int| i <= j < s.len() ==> (#[trigger] s[j]) != '.',
    ensures
        first_dot(s, i) is None,
    decreases s.len() - i,
{
    if i < s.len() {
        let c = char_at_cmd(s, i);
        assert(c != '.');
        lemma_first_dot_none(s, i + 1);
    }
}

/// A dot with none before it is the first dot.
proof fn lemma_first_dot_some(s: Seq<char>, p: int, i: int)
    requires
        0 <= i <= p < s.len(),
        s[p] == '.',
        forall|j: int| 0 <= j < p ==> (#[trigger] s[j]) != '.',
    ensures
        first_dot(s, i) == Option::Some(p),
    decreases s.len() - i,
{
    if i < p {
        let c = char_at_cmd(s, i);
        assert(c != '.');
        lemma_first_dot_some(s, p, i + 1);
    }
}

/// Names one character of a sequence.
proof fn char_at_cmd(s: Seq<char>, i: int) -> (c: char)
    requires
        0 <= i < s.len(),
    ensures
        c == s[i],
{
    s[i]
}

/// Copies a prefix of a character vector.
fn slice_prefix(v: &Vec<char>, hi: usize) -> (r: Vec<char>)
    requires
        hi <= v@.len(),
    ensures
        r@ == v@.subrange(0, hi as int),
{
    crate::evaluate::slice_head(v, hi)
}

/// Copies a suffix of a character vector.
fn slice_suffix(v: &Vec<char>, lo: usize) -> (r: Vec<char>)
    requires
        lo <= v@.len(),
    ensures
        r@ == v@.subrange(lo as int, v@.len() as int),
{
    crate::evaluate::slice_tail(v, lo)
}

/// A required string-typed parameter.
fn req_arg(name: &str, type_: ASType) -> (r: CommandArg)
    ensures
        r@.name == name@,
        r@.ty == type_@,
        r@.required,
        r@.default is None,
{
    CommandArg { name: String::from_str(name), type_, required: true, default: None }
}

/// An optional parameter with a default value.
fn opt_arg(name: &str, type_: ASType, default: ASVariable) -> (r: CommandArg)
    ensures
        r@.name == name@,
        r@.ty == type_@,
        !r@.required,
        r@.default == Option::Some(default@),
{
    CommandArg { name: String::from_str(name), type_, required: false, default: Some(default) }
}

/// An optional parameter without a default.
fn opt_arg_plain(name: &str, type_: ASType) -> (r: CommandArg)
    ensures
        r@.name == name@,
        r@.ty == type_@,
        !r@.required,
        r@.default is None,
{
    CommandArg { name: String::from_str(name), type_, required: false, default: None }
}

/// The built-in command set: `wait`, `choice`, `goto`, `loadscript`,
/// `ending`, `flag`, `set`, `add` and `if`, with their classic aliases.
pub fn main_commands() -> (r: Result<CmdSet, ASError>)
    ensures
        r matches Ok(s) ==> set_ok(s),
{
    let mut commands: Vec<Command> = Vec::new();

    let wait_cmd = Command::new(String::from_str("wait"), Effect::Wait, Vec::new(), false)?;
    commands.push(wait_cmd);

    let mut choice_args: Vec<CommandArg> = Vec::new();
    choice_args.push(opt_arg("text", ASType::String, ASVariable::String(String::new())));
    choice_args.push(opt_arg("ch1", ASType::String, ASVariable::String(String::from_str("Choice 1"))));
    choice_args.push(opt_arg("ch2", ASType::String, ASVariable::String(String::from_str("Choice 2"))));
    choice_args.push(opt_arg("ch3", ASType::String, ASVariable::String(String::from_str("Choice 3"))));
    choice_args.push(opt_arg("ch4", ASType::String, ASVariable::String(String::from_str("Choice 4"))));
    choice_args.push(opt_arg("ch5", ASType::String, ASVariable::String(String::from_str("Choice 5"))));
    choice_args.push(opt_arg("ch6", ASType::String, ASVariable::String(String::from_str("Choice 6"))));
    choice_args.push(opt_arg("ch7", ASType::String, ASVariable::String(String::from_str("Choice 7"))));
    choice_args.push(opt_arg("ch8", ASType::String, ASVariable::String(String::from_str("Choice 8"))));
    choice_args.push(opt_arg("ch9", ASType::String, ASVariable::String(String::from_str("Choice 9"))));
    choice_args.push(opt_arg_plain("go1", ASType::Label));
    choice_args.push(opt_arg("go2", ASType::Label, ASVariable::Label(None)));
    choice_args.push(opt_arg("go3", ASType::Label, ASVariable::Label(None)));
    choice_args.push(opt_arg("go4", ASType::Label, ASVariable::Label(None)));
    choice_args.push(opt_arg("go5", ASType::Label, ASVariable::Label(None)));
    choice_args.push(opt_arg("go6", ASType::Label, ASVariable::Label(None)));
    choice_args.push(opt_arg("go7", ASType::Label, ASVariable::Label(None)));
    choice_args.push(opt_arg("go8", ASType::Label, ASVariable::Label(None)));
    choice_args.push(opt_arg("go9", ASType::Label, ASVariable::Label(None)));
    let choice_cmd = Command::new(String::from_str("choice"), Effect::Choice, choice_args, false)?;
    commands.push(choice_cmd);

    let mut goto_args: Vec<CommandArg> = Vec::new();
    goto_args.push(req_arg("pos", ASType::Label));
    let goto_cmd = Command::new(String::from_str("goto"), Effect::Goto, goto_args, false)?;
    commands.push(goto_cmd);

    let mut load_args: Vec<CommandArg> = Vec::new();
    load_args.push(req_arg("name", ASType::String));
    let load_cmd = Command::new(
        String::from_str("loadscript"),
        Effect::LoadScript,
        load_args,
        false,
    )?;
    commands.push(load_cmd);

    let mut ending_args: Vec<CommandArg> = Vec::new();
    ending_args.push(opt_arg("name", ASType::String, ASVariable::String(String::new())));
    let ending_cmd = Command::new(String::from_str("ending"), Effect::Ending, ending_args, false)?;
    commands.push(ending_cmd);

    let mut flag_args: Vec<CommandArg> = Vec::new();
    flag_args.push(req_arg("flag", ASType::VarRef));
    flag_args.push(opt_arg("value", ASType::Bool, ASVariable::Bool(true)));
    let flag_cmd = Command::new(String::from_str("flag"), Effect::Flag, flag_args, false)?;
    commands.push(flag_cmd);

    let mut set_args: Vec<CommandArg> = Vec::new();
    set_args.push(req_arg("var", ASType::VarRef));
    set_args.push(req_arg("value", ASType::Any));
    let set_cmd = Command::new(String::from_str("set"), Effect::SetVar, set_args, false)?;
    commands.push(set_cmd);

    let mut add_args: Vec<CommandArg> = Vec::new();
    add_args.push(req_arg("var", ASType::VarRef));
    add_args.push(req_arg("value", ASType::Any));
    let add_cmd = Command::new(String::from_str("add"), Effect::AddVar, add_args, false)?;
    commands.push(add_cmd);

    let mut if_args: Vec<CommandArg> = Vec::new();
    if_args.push(req_arg("condition", ASType::Bool));
    if_args.push(req_arg("gotrue", ASType::Label));
    if_args.push(req_arg("gofalse", ASType::Label));
    let if_cmd = Command::new(String::from_str("if"), Effect::IfJump, if_args, false)?;
    commands.push(if_cmd);

    let mut aliases: Vec<(String, String)> = Vec::new();
    aliases.push((String::from_str("load"), String::from_str("loadscript")));
    aliases.push((String::from_str("ld"), String::from_str("loadscript")));
    aliases.push((String::from_str("w"), String::from_str("wait")));
    aliases.push((String::from_str("go"), String::from_str("goto")));
    aliases.push((String::from_str("ch"), String::from_str("choice")));
    aliases.push((String::from_str("end"), String::from_str("ending")));

    Ok(CmdSet::from(commands, aliases))
}

} // verus!
