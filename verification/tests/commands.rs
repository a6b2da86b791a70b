//! Tests for the command registry and dispatcher, label resolution and the
//! line driver.

use adventure_script::commands::main_commands;
use adventure_script::commands::Action;
use adventure_script::commands::Command;
use adventure_script::commands::CommandArg;
use adventure_script::commands::Effect;
use adventure_script::error::ASCmdError;
use adventure_script::error::ASError;
use adventure_script::error::ASSyntaxError;
use adventure_script::error::CommandErrors;
use adventure_script::info::GameInfo;
use adventure_script::info::query_decision;
use adventure_script::info::QueryDecision;
use adventure_script::parsing::parse_line;
use adventure_script::variables::ASType;
use adventure_script::variables::ASVariable;

fn req(name: &str, type_: ASType) -> CommandArg {
    CommandArg { name: name.to_string(), type_, required: true, default: None }
}

fn opt(name: &str, type_: ASType, default: ASVariable) -> CommandArg {
    CommandArg { name: name.to_string(), type_, required: false, default: Some(default) }
}

fn script(lines: Vec<&str>) -> GameInfo {
    let mut info = GameInfo::create(false);
    info.set_script(
        "start".to_string(),
        lines.into_iter().map(|l| l.to_string()).collect(),
    );
    info
}

#[test]
fn registration_rejects_required_after_optional() {
    let args = vec![
        opt("value", ASType::Bool, ASVariable::Bool(true)),
        req("name", ASType::String),
    ];
    let r = Command::new("bad".to_string(), Effect::Custom("bad".to_string()), args, false);
    assert!(r.is_err());
}

#[test]
fn registration_rejects_the_absent_type() {
    let args = vec![req("x", ASType::Null)];
    let r = Command::new("bad".to_string(), Effect::Custom("bad".to_string()), args, false);
    assert!(r.is_err());
}

#[test]
fn registration_accepts_a_valid_signature() {
    let args = vec![
        req("name", ASType::String),
        opt("value", ASType::Bool, ASVariable::Bool(true)),
    ];
    let r = Command::new("good".to_string(), Effect::Custom("good".to_string()), args, false);
    assert!(r.is_ok());
}

#[test]
fn binding_fills_positionals_and_defaults() {
    let args = vec![
        req("name", ASType::String),
        opt("value", ASType::Bool, ASVariable::Bool(true)),
    ];
    let cmd = Command::new("t".to_string(), Effect::Custom("t".to_string()), args, false).unwrap();
    let mut info = GameInfo::create(false);
    let r = cmd.run(
        &mut info,
        vec![ASVariable::String("hello".to_string())],
        vec![],
    );
    match r {
        Ok(Action::Custom(tag, bound)) => {
            assert_eq!(tag, "t");
            assert_eq!(bound.len(), 2);
            assert!(matches!(&bound[0], ASVariable::String(s) if s == "hello"));
            assert!(matches!(&bound[1], ASVariable::Bool(true)));
        }
        _ => panic!("expected the custom action"),
    }
}

#[test]
fn binding_rejects_a_mistyped_keyword() {
    let args = vec![
        req("name", ASType::String),
        opt("value", ASType::Bool, ASVariable::Bool(true)),
    ];
    let cmd = Command::new("t".to_string(), Effect::Custom("t".to_string()), args, false).unwrap();
    let mut info = GameInfo::create(false);
    let r = cmd.run(
        &mut info,
        vec![ASVariable::String("hello".to_string())],
        vec![("value".to_string(), ASVariable::String("x".to_string()))],
    );
    match r {
        Err(ASError::Cmd(ASCmdError { details, .. })) => {
            assert!(matches!(details, CommandErrors::ArgumentTypeError { .. }));
        }
        _ => panic!("expected an argument type error"),
    }
}

#[test]
fn binding_rejects_too_many_positionals() {
    let cmd = Command::new(
        "t".to_string(),
        Effect::Custom("t".to_string()),
        vec![req("one", ASType::Int)],
        false,
    )
    .unwrap();
    let mut info = GameInfo::create(false);
    let r = cmd.run(
        &mut info,
        vec![ASVariable::Int(1), ASVariable::Int(2)],
        vec![],
    );
    match r {
        Err(ASError::Cmd(ASCmdError { details, .. })) => {
            assert!(matches!(
                details,
                CommandErrors::TooManyArguments { max_args: 1, given_args: 2 }
            ));
        }
        _ => panic!("expected a too-many-arguments error"),
    }
}

#[test]
fn binding_reports_a_missing_required_argument() {
    let cmd = Command::new(
        "t".to_string(),
        Effect::Custom("t".to_string()),
        vec![req("one", ASType::Int)],
        false,
    )
    .unwrap();
    let mut info = GameInfo::create(false);
    let r = cmd.run(&mut info, vec![], vec![]);
    match r {
        Err(ASError::Cmd(ASCmdError { details, .. })) => {
            assert!(matches!(details, CommandErrors::MissingRequiredArgument { .. }));
        }
        _ => panic!("expected a missing-argument error"),
    }
}

#[test]
fn binding_resolves_references() {
    let cmd = Command::new(
        "t".to_string(),
        Effect::Custom("t".to_string()),
        vec![req("one", ASType::Int)],
        false,
    )
    .unwrap();
    let mut info = GameInfo::create(false);
    let var = ASVariable::VarRef { name: "n".to_string(), flag: false };
    info.set_var(&var, ASVariable::Int(9)).unwrap();
    let r = cmd.run(&mut info, vec![var], vec![]);
    match r {
        Ok(Action::Custom(_, bound)) => {
            assert!(matches!(&bound[0], ASVariable::Int(9)));
        }
        _ => panic!("expected the resolved value"),
    }
}

#[test]
fn goto_moves_to_a_unique_label() {
    let mut info = script(vec!["a", "  {place}  ", "b"]);
    info.goto_label(&ASVariable::Label(Some("place".to_string()))).unwrap();
    assert_eq!(info.pointer, 1);
}

#[test]
fn goto_fails_on_a_missing_label() {
    let mut info = script(vec!["a", "b"]);
    let r = info.goto_label(&ASVariable::Label(Some("nowhere".to_string())));
    match r {
        Err(ASError::Syntax(ASSyntaxError::NonExistentLabel(name))) => {
            assert_eq!(name, "nowhere")
        }
        _ => panic!("expected a non-existent label error"),
    }
}

#[test]
fn goto_fails_on_a_repeated_label_naming_both_lines() {
    let mut info = script(vec!["{twice}", "x", "{twice}"]);
    let r = info.goto_label(&ASVariable::Label(Some("twice".to_string())));
    match r {
        Err(ASError::Syntax(ASSyntaxError::RepeatedLabel(name, lines))) => {
            assert_eq!(name, "twice");
            assert_eq!(lines, vec![0i64, 2i64]);
        }
        _ => panic!("expected a repeated label error"),
    }
}

#[test]
fn goto_with_a_null_label_is_a_no_op() {
    let mut info = script(vec!["a", "b"]);
    info.pointer = 1;
    info.goto_label(&ASVariable::Label(None)).unwrap();
    assert_eq!(info.pointer, 1);
}

#[test]
fn tests_goto() {
    let commands = main_commands().unwrap();
    let mut info = script(vec!["a", "b", "c", "d", "e", "{stop}", "f", "{go}"]);
    let goto = commands.get("goto").expect("No command goto");
    goto.run(
        &mut info,
        Vec::from([ASVariable::Label(Some("stop".to_string()))]),
        vec![],
    )
    .expect("Error on running command");
    assert_eq!(6, info.line_number());
}

#[test]
fn simplify_goto() {
    let commands = main_commands().unwrap();
    let mut info = script(vec!["a", "b", "c", "d", "e", "{stop}", "f", "{go}"]);
    let goto = commands.get("go").expect("No command goto");
    goto.run(
        &mut info,
        Vec::from([ASVariable::Label(Some("stop".to_string()))]),
        vec![],
    )
    .expect("Error on running command");
    assert_eq!(6, info.line_number());
}

#[test]
fn aliases_resolve_to_their_commands() {
    let commands = main_commands().unwrap();
    assert_eq!(commands.get("end").unwrap().name, "ending");
    assert_eq!(commands.get("ld").unwrap().name, "loadscript");
    assert!(commands.get("nothing").is_none());
}

#[test]
fn set_and_add_commands_update_variables() {
    let commands = main_commands().unwrap();
    let mut info = GameInfo::create(false);
    let var = ASVariable::VarRef { name: "gold".to_string(), flag: false };
    let set = commands.get("set").unwrap();
    set.run(&mut info, vec![var.duplicate(), ASVariable::Int(3)], vec![])
        .unwrap();
    let add = commands.get("add").unwrap();
    add.run(&mut info, vec![var.duplicate(), ASVariable::Int(4)], vec![])
        .unwrap();
    match info.get_var(&var) {
        Ok(ASVariable::Int(v)) => assert_eq!(v, 7),
        _ => panic!("expected the summed variable"),
    }
}

#[test]
fn ending_quits_the_session() {
    let commands = main_commands().unwrap();
    let mut info = GameInfo::create(false);
    let ending = commands.get("ending").unwrap();
    let r = ending
        .run(&mut info, vec![ASVariable::String("fin".to_string())], vec![])
        .unwrap();
    assert!(info.quitting);
    match r {
        Action::Show(msg) => assert_eq!(msg, "Ending: fin"),
        _ => panic!("expected the ending notice"),
    }
}

#[test]
fn flag_command_forces_the_flag_store() {
    let commands = main_commands().unwrap();
    let mut info = GameInfo::create(false);
    let flag_cmd = commands.get("flag").unwrap();
    // the reference arrives without the flag mark; the command redirects it
    let plain = ASVariable::VarRef { name: "won".to_string(), flag: false };
    flag_cmd.run(&mut info, vec![plain], vec![]).unwrap();
    let as_flag = ASVariable::VarRef { name: "won".to_string(), flag: true };
    match info.get_var(&as_flag) {
        Ok(ASVariable::Bool(b)) => assert!(b),
        _ => panic!("expected the flag to be set"),
    }
}

#[test]
fn parse_line_shows_narrative_text() {
    let commands = main_commands().unwrap();
    let mut info = script(vec!["hello there"]);
    let acts = parse_line(&mut info, &commands).unwrap();
    assert_eq!(acts.len(), 1);
    match &acts[0] {
        Action::Show(text) => assert_eq!(text, "hello there"),
        _ => panic!("expected a show action"),
    }
    assert_eq!(info.screentext, "hello there\n");
}

#[test]
fn parse_line_skips_comments_and_labels() {
    let commands = main_commands().unwrap();
    let mut info = script(vec!["# note", "{label}"]);
    assert!(parse_line(&mut info, &commands).unwrap().is_empty());
    info.pointer = 1;
    assert!(parse_line(&mut info, &commands).unwrap().is_empty());
}

#[test]
fn parse_line_runs_a_command() {
    let commands = main_commands().unwrap();
    let mut info = script(vec!["!set gold; 5"]);
    parse_line(&mut info, &commands).unwrap();
    let var = ASVariable::VarRef { name: "gold".to_string(), flag: false };
    match info.get_var(&var) {
        Ok(ASVariable::Int(v)) => assert_eq!(v, 5),
        _ => panic!("expected the assigned variable"),
    }
}

#[test]
fn parse_line_accepts_keyword_arguments() {
    let commands = main_commands().unwrap();
    let mut info = script(vec!["!set var=gold; value=12"]);
    parse_line(&mut info, &commands).unwrap();
    let var = ASVariable::VarRef { name: "gold".to_string(), flag: false };
    match info.get_var(&var) {
        Ok(ASVariable::Int(v)) => assert_eq!(v, 12),
        _ => panic!("expected the assigned variable"),
    }
}

#[test]
fn parse_line_reports_an_unknown_command() {
    let commands = main_commands().unwrap();
    let mut info = script(vec!["!conjure x"]);
    match parse_line(&mut info, &commands) {
        Err(ASError::Syntax(ASSyntaxError::NonExistentCommand { command })) => {
            assert_eq!(command, "conjure")
        }
        _ => panic!("expected a non-existent command error"),
    }
}

#[test]
fn end_of_script_is_reported() {
    let commands = main_commands().unwrap();
    let mut info = script(vec!["a"]);
    info.pointer = 5;
    match parse_line(&mut info, &commands) {
        Err(ASError::Syntax(ASSyntaxError::EndOfScript)) => {}
        _ => panic!("expected the end-of-script error"),
    }
}

#[test]
fn choice_command_offers_live_choices_and_resolves() {
    let commands = main_commands().unwrap();
    let mut info = script(vec!["!choice", "x", "{end}"]);
    let choice = commands.get("choice").unwrap();
    let r = choice
        .run(
            &mut info,
            vec![ASVariable::String("Pick one".to_string())],
            vec![(
                "go1".to_string(),
                ASVariable::Label(Some("end".to_string())),
            )],
        )
        .unwrap();
    match r {
        Action::Query { text, choices, gotos } => {
            assert_eq!(text, "Pick one");
            assert_eq!(choices, vec!["Choice 1".to_string()]);
            assert_eq!(gotos.len(), 1);
            adventure_script::commands::resolve_choice(&mut info, &gotos, 1).unwrap();
            assert_eq!(info.pointer, 2);
        }
        _ => panic!("expected a query action"),
    }
}

#[test]
fn resolve_choice_zero_steps_back() {
    let mut info = script(vec!["a", "b"]);
    info.pointer = 1;
    adventure_script::commands::resolve_choice(&mut info, &vec![], 0).unwrap();
    assert_eq!(info.pointer, 0);
}

#[test]
fn continuation_lines_run_their_opening_line() {
    let commands = main_commands().unwrap();
    let mut info = script(vec!["hello", "!!> extra"]);
    info.pointer = 1;
    let acts = parse_line(&mut info, &commands).unwrap();
    match &acts[0] {
        Action::Show(text) => assert_eq!(text, "hello"),
        _ => panic!("expected the opening line to run"),
    }
}

#[test]
fn query_decisions_follow_the_input() {
    assert!(matches!(query_decision("s", 3), QueryDecision::SaveStop));
    assert!(matches!(query_decision(" r ", 3), QueryDecision::RestoreStop));
    assert!(matches!(query_decision("q\n", 3), QueryDecision::QuitStop));
    assert!(matches!(query_decision(" 2 ", 3), QueryDecision::Pick(2)));
    assert!(matches!(query_decision("0", 3), QueryDecision::Pick(0)));
    assert!(matches!(query_decision("99", 3), QueryDecision::Again));
    assert!(matches!(query_decision("hm", 3), QueryDecision::Again));
}
