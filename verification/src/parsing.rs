//! The line driver: decides whether the current line is narrative text or a
//! command, runs the simplifier, evaluates each argument, and dispatches to
//! the registry. The outward effects are returned as actions for the host
//! to perform.

use vstd::prelude::*;

use crate::commands::Action;
use crate::commands::CmdSet;
use crate::error::ASError;
use crate::error::ASSyntaxError;
use crate::evaluate::expr;
use crate::evaluate::parse_text;
use crate::evaluate::split_char;
use crate::info::GameInfo;
use crate::simplify::simplify_brackets;
use crate::simplify::simplify_strings;
use crate::text::chars_to_string;
use crate::text::check_ident_char;
use crate::text::string_to_chars;
use crate::text::trim_chars;
use crate::text::trim_end_chars;
use crate::variables::val_wf;
use crate::variables::ASVariable;

verus! {

/// Runs the line at the pointer to completion: a comment or label line does
/// nothing, a `!command` line is parsed and dispatched, and any other line
/// is narrative text that is interpolated and shown. The returned actions
/// are what the host must perform outwardly, in order.
pub fn parse_line(info: &mut GameInfo, commands: &CmdSet) -> (r: Result<Vec<Action>, ASError>)
    requires
        old(info).wf(),
        crate::commands::set_ok(*commands),
    ensures
        final(info).wf(),
        !(0 <= old(info).pointer < old(info).script_view().len()) ==> (r matches Err(e) && e@
            == crate::error::ErrV::Syntax(crate::error::SynErr::EndOfScript) && *final(info)
            == *old(info)),
        ({
            let lv = old(info).script_view();
            let p = old(info).pointer;
            let line = crate::text::trim_end(lv[p as int]);
            0 <= p < lv.len() && line.len() >= 1 && line[0] == '#' ==> (r matches Ok(acts)
                && acts@.len() == 0 && *final(info) == *old(info))
        }),
        ({
            let lv = old(info).script_view();
            let p = old(info).pointer;
            let line = crate::text::trim_end(lv[p as int]);
            0 <= p < lv.len() && line.len() >= 1 && line[0] != '#' && line[0] != '!' && line[0]
                != '{' && line != seq!['\\', 'n'] ==> match crate::evaluate::interp_model(line) {
                crate::evaluate::InterpSpec::Done(t) => r matches Ok(acts) && acts@.len() == 1 && (
                acts@[0] matches Action::Show(sh) && sh@ == t) && final(info).screentext@ == old(
                    info,
                ).screentext@ + t + seq!['\n'] && final(info).pointer == old(info).pointer
                    && final(info).vars_view() == old(info).vars_view() && final(info).script_view()
                    == old(info).script_view(),
                crate::evaluate::InterpSpec::Fail(e) => r matches Err(o) && o@
                    == crate::error::ErrV::Syntax(e),
                crate::evaluate::InterpSpec::Open => true,
            }
        }),
{
    let ghost p0 = old(info).pointer;
    let ghost lv0 = old(info).script_view();
    let ghost line0 = crate::text::trim_end(lv0[p0 as int]);
    let ghost plain0 = 0 <= p0 < lv0.len() && !(line0.len() >= 2 && line0[0] == '!' && line0[1]
        == '!');
    let mut ln = match info.get_line() {
        Ok(l) => l,
        Err(e) => {
            return Err(ASError::Syntax(e));
        },
    };
    // A continuation line is not run by itself: step back to its opening
    // line.
    loop
        invariant
            info.wf(),
            0 <= p0 < lv0.len(),
            p0 == old(info).pointer,
            lv0 == old(info).script_view(),
            line0 == crate::text::trim_end(lv0[p0 as int]),
            plain0 == !(line0.len() >= 2 && line0[0] == '!' && line0[1] == '!'),
            plain0 ==> *info == *old(info) && ln@ == line0,
        decreases info.pointer + 1,
    {
        let chars = string_to_chars(ln.as_str());
        if chars.len() >= 2 && chars[0] == '!' && chars[1] == '!' {
            if info.pointer <= -0x7fff_ffff_ffff_ffffi64 {
                return Err(ASError::Syntax(ASSyntaxError::EndOfScript));
            }
            info.pointer = info.pointer - 1;
            ln = match info.get_line() {
                Ok(l) => l,
                Err(e) => {
                    return Err(ASError::Syntax(e));
                },
            };
        } else {
            break ;
        }
    }
    let chars = string_to_chars(ln.as_str());
    let n = chars.len();
    if n >= 1 && chars[0] == '#' {
        return Ok(Vec::new());
    }
    if n >= 1 && chars[0] == '{' {
        let trimmed = trim_chars(&chars);
        if trimmed.len() >= 1 && trimmed[trimmed.len() - 1] == '}' {
            return Ok(Vec::new());
        }
    }
    if n >= 1 && chars[0] == '!' {
        // gather `!!>` continuation lines into bracketed extra arguments
        let mut body = crate::evaluate::slice_tail(&chars, 1);
        body = trim_chars(&body);
        let mut c: i64 = 1;
        loop
            invariant
                info.wf(),
                1 <= c,
            decreases 0x7fff_ffff_ffff_ffff - c,
        {
            if c >= 0x7fff_ffff_ffff_fffei64 || info.pointer >= 0x7fff_ffff_ffff_fffei64 - c {
                break ;
            }
            let next = info.line_at(info.pointer + c);
            match next {
                Some(next_ln) => {
                    let next_chars = string_to_chars(next_ln.as_str());
                    if next_chars.len() >= 3 && next_chars[0] == '!' && next_chars[1] == '!'
                        && next_chars[2] == '>' {
                        let rest = trim_chars(&crate::evaluate::slice_tail(&next_chars, 3));
                        body.push('[');
                        let mut ri: usize = 0;
                        while ri < rest.len()
                            decreases rest@.len() - ri,
                        {
                            body.push(rest[ri]);
                            ri = ri + 1;
                        }
                        body.push(']');
                        body.push(';');
                        c = c + 1;
                    } else {
                        break ;
                    }
                },
                None => {
                    break ;
                },
            }
        }
        // drop trailing whitespace and `;`
        body = trim_end_chars(&body);
        loop
            invariant
                true,
            decreases body@.len(),
        {
            if body.len() >= 1 && body[body.len() - 1] == ';' {
                body.pop();
            } else {
                break ;
            }
        }
        body = trim_end_chars(&body);
        if c >= 1 && info.pointer <= 0x7fff_ffff_ffff_fffei64 - c && c <= 0x7fff_ffff_ffff_fffei64
            && info.pointer >= -0x7fff_ffff_ffff_ffffi64 {
            info.pointer = info.pointer + (c - 1);
        }
        return parse_command(info, commands, &body);
    }
    // narrative text
    if n == 0 {
        return Ok(Vec::new());
    }
    if n == 2 && chars[0] == '\\' && chars[1] == 'n' {
        proof {
            assert(chars@ =~= seq!['\\', 'n']);
        }
        info.show("");
        let mut acts: Vec<Action> = Vec::new();
        acts.push(Action::Show(String::new()));
        return Ok(acts);
    }
    let shown = parse_text(info, ln.as_str())?;
    info.show(shown.as_str());
    let mut acts: Vec<Action> = Vec::new();
    acts.push(Action::Show(shown));
    Ok(acts)
}

/// Parses a command invocation: the first word names the command, the rest
/// is simplified and split on `;` into positional arguments and `key=value`
/// keyword arguments, each argument evaluated as an expression; then the
/// command is dispatched.
pub fn parse_command(info: &mut GameInfo, commands: &CmdSet, text: &Vec<char>) -> (r: Result<
    Vec<Action>,
    ASError,
>)
    requires
        old(info).wf(),
        crate::commands::set_ok(*commands),
    ensures
        final(info).wf(),
        ({
            let name = crate::evaluate::split_spec(text@, ' ')[0];
            crate::commands::lookup_model(*commands, name) is None ==> (r matches Err(e) && (if name.len() == 0 {
                e@ == crate::error::ErrV::Syntax(crate::error::SynErr::NoCommand)
            } else {
                e@ == crate::error::ErrV::Syntax(
                    crate::error::SynErr::NonExistentCommand { command: name },
                )
            }) && *final(info) == *old(info))
        }),
{
    let words = split_char(text, ' ');
    let ghost nm = crate::evaluate::split_spec(text@, ' ')[0];
    proof {
        crate::evaluate::lemma_charses_view(words@);
        assert(words@[0]@ == nm);
    }
    let name = chars_to_string(&words[0]);
    let command = match commands.get(name.as_str()) {
        Some(c) => c,
        None => {
            if name.as_str().is_empty() {
                return Err(ASError::Syntax(ASSyntaxError::NoCommand));
            }
            return Err(ASError::Syntax(ASSyntaxError::NonExistentCommand { command: name }));
        },
    };
    let mut args: Vec<ASVariable> = Vec::new();
    let mut kwargs: Vec<(String, ASVariable)> = Vec::new();
    if words.len() > 1 {
        // the rest of the line, with the spaces between words restored
        let mut rest: Vec<char> = Vec::new();
        let mut wi: usize = 1;
        while wi < words.len()
            decreases words@.len() - wi,
        {
            if wi > 1 {
                rest.push(' ');
            }
            let w = &words[wi];
            let mut ci: usize = 0;
            while ci < w.len()
                decreases w@.len() - ci,
            {
                rest.push(w[ci]);
                ci = ci + 1;
            }
            wi = wi + 1;
        }
        let (stext, strings) = match simplify_strings(chars_to_string(&rest).as_str()) {
            Ok(p) => p,
            Err(e) => {
                return Err(ASError::Syntax(e));
            },
        };
        let (btext, brackets) = match simplify_brackets(stext.as_str()) {
            Ok(p) => p,
            Err(e) => {
                return Err(ASError::Syntax(e));
            },
        };
        let pieces = split_char(&string_to_chars(btext.as_str()), ';');
        let mut must_be_kwarg = false;
        let mut pi: usize = 0;
        while pi < pieces.len()
            invariant
                old(info).wf(),
                info.wf(),
                nm == crate::evaluate::split_spec(text@, ' ')[0],
                crate::commands::lookup_model(*commands, nm) is Some,
                forall|j: int|
                    0 <= j < args@.len() ==> val_wf((#[trigger] args@[j])@) && !(args@[j]
                        is Empty),
                forall|j: int|
                    0 <= j < kwargs@.len() ==> val_wf(((#[trigger] kwargs@[j]).1)@) && !(
                    kwargs@[j].1 is Empty),
            decreases pieces@.len() - pi,
        {
            let arg = trim_chars(&pieces[pi]);
            match kwarg_split(&arg) {
                Some(eq_pos) => {
                    must_be_kwarg = true;
                    let alen = arg.len();
                    proof {
                        assert(eq_pos < alen);
                    }
                    let key = trim_chars(&crate::evaluate::slice_head(&arg, eq_pos));
                    let body = crate::evaluate::slice_tail(&arg, eq_pos + 1);
                    let value = expr(
                        info,
                        chars_to_string(&body).as_str(),
                        &strings,
                        &brackets,
                    )?;
                    kwargs.push((chars_to_string(&key), value));
                },
                None => {
                    if must_be_kwarg {
                        return Err(ASError::Syntax(ASSyntaxError::ArgAfterKwarg));
                    }
                    let value = expr(
                        info,
                        chars_to_string(&arg).as_str(),
                        &strings,
                        &brackets,
                    )?;
                    args.push(value);
                },
            }
            pi = pi + 1;
        }
    }
    let mut acts: Vec<Action> = Vec::new();
    if command.deprecated && info.debug {
        let mut warn = String::from_str("Command '");
        warn.append(command.name.as_str());
        warn.append("' is deprecated");
        acts.push(Action::Warn(warn));
    }
    let act = command.run(info, args, kwargs)?;
    acts.push(act);
    Ok(acts)
}

/// Detects a `key=value` keyword argument: identifier characters and spaces,
/// then `=`, then spaces and a character that can begin a value. Returns
/// the position of the `=`.
fn kwarg_split(arg: &Vec<char>) -> (r: Option<usize>)
    ensures
        r matches Some(p) ==> p < arg@.len(),
{
    let mut i: usize = 0;
    // identifier part
    while i < arg.len()
        invariant
            0 <= i <= arg@.len(),
        decreases arg@.len() - i,
    {
        if check_ident_char(arg[i]) {
            i = i + 1;
        } else {
            break ;
        }
    }
    // spaces before the equals sign
    while i < arg.len()
        invariant
            0 <= i <= arg@.len(),
        decreases arg@.len() - i,
    {
        if arg[i] == ' ' {
            i = i + 1;
        } else {
            break ;
        }
    }
    if i >= arg.len() || arg[i] != '=' {
        return None;
    }
    let eq_pos = i;
    let mut j = eq_pos + 1;
    while j < arg.len()
        invariant
            eq_pos < j <= arg@.len(),
        decreases arg@.len() - j,
    {
        if arg[j] == ' ' {
            j = j + 1;
        } else {
            break ;
        }
    }
    if j >= arg.len() {
        return None;
    }
    let c = arg[j];
    let starts_value = check_ident_char(c) || c == ' ' || c == '{' || c == '"' || c == '\'' || c
        == '[' || c == '(' || c == '?';
    if starts_value {
        Some(eq_pos)
    } else {
        None
    }
}

} // verus!
