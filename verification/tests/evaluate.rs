//! Tests for the expression evaluator: literals, precedence, unary
//! operators, side-table placeholders, interpolation and methods.

use adventure_script::error::ASError;
use adventure_script::error::ASSyntaxError;
use adventure_script::evaluate::expr;
use adventure_script::evaluate::parse_text;
use adventure_script::info::GameInfo;
use adventure_script::variables::ASVariable;
use adventure_script::variables::KeyVar;

fn eval(text: &str, strings: Vec<&str>, brackets: Vec<&str>) -> Result<ASVariable, ASError> {
    let mut info = GameInfo::create(false);
    let strings: Vec<String> = strings.into_iter().map(|s| s.to_string()).collect();
    let brackets: Vec<String> = brackets.into_iter().map(|s| s.to_string()).collect();
    expr(&mut info, text, &strings, &brackets)
}

#[test]
fn precedence_mul_before_add() {
    match eval("2 + 3 * 4", vec![], vec![]) {
        Ok(ASVariable::Int(v)) => assert_eq!(v, 14),
        other => panic!("unexpected result: {:?}", result_tag(&other)),
    }
}

#[test]
fn unary_before_binary() {
    match eval("-5 + 2", vec![], vec![]) {
        Ok(ASVariable::Int(v)) => assert_eq!(v, -3),
        other => panic!("unexpected result: {:?}", result_tag(&other)),
    }
}

#[test]
fn string_repetition() {
    match eval("\"0\" * 3", vec!["a"], vec![]) {
        Ok(ASVariable::String(s)) => assert_eq!(s, "aaa"),
        other => panic!("unexpected result: {:?}", result_tag(&other)),
    }
}

#[test]
fn division_tier_folds_left_to_right() {
    match eval("8 / 2 * 2", vec![], vec![]) {
        Ok(ASVariable::Int(v)) => assert_eq!(v, 8),
        other => panic!("unexpected result: {:?}", result_tag(&other)),
    }
}

#[test]
fn power_binds_tightest() {
    match eval("2 * 2 ^ 3", vec![], vec![]) {
        Ok(ASVariable::Int(v)) => assert_eq!(v, 16),
        other => panic!("unexpected result: {:?}", result_tag(&other)),
    }
}

#[test]
fn unary_not_on_bool() {
    match eval("!true", vec![], vec![]) {
        Ok(ASVariable::Bool(b)) => assert!(!b),
        other => panic!("unexpected result: {:?}", result_tag(&other)),
    }
}

#[test]
fn comparison_of_mixed_types_is_an_error() {
    match eval("1 < \"0\"", vec!["x"], vec![]) {
        Err(ASError::Syntax(ASSyntaxError::OperationNotDefined { .. })) => {}
        other => panic!("unexpected result: {:?}", result_tag(&other)),
    }
}

#[test]
fn equality_is_structural() {
    match eval("[0] == [1]", vec![], vec!["1, 2", "1, 2"]) {
        Ok(ASVariable::Bool(b)) => assert!(b),
        other => panic!("unexpected result: {:?}", result_tag(&other)),
    }
    match eval("1 != 2", vec![], vec![]) {
        Ok(ASVariable::Bool(b)) => assert!(b),
        other => panic!("unexpected result: {:?}", result_tag(&other)),
    }
}

#[test]
fn list_literal_and_get_method() {
    match eval("[0].get(1)", vec![], vec!["10, 20, 30", "1"]) {
        Ok(ASVariable::Int(v)) => assert_eq!(v, 20),
        other => panic!("unexpected result: {:?}", result_tag(&other)),
    }
}

#[test]
fn map_literal_with_int_key() {
    match eval("{0}", vec![], vec!["7: 70"]) {
        Ok(ASVariable::Mapping(pairs)) => {
            assert_eq!(pairs.len(), 1);
            match &pairs[0] {
                (KeyVar::Int(k), ASVariable::Int(v)) => {
                    assert_eq!(*k, 7);
                    assert_eq!(*v, 70);
                }
                _ => panic!("unexpected entry shape"),
            }
        }
        other => panic!("unexpected result: {:?}", result_tag(&other)),
    }
}

#[test]
fn map_with_list_key_is_invalid() {
    match eval("{0}", vec![], vec!["[1]: 2", "1"]) {
        Err(ASError::Syntax(ASSyntaxError::InvalidMapKey { .. })) => {}
        other => panic!("unexpected result: {:?}", result_tag(&other)),
    }
}

#[test]
fn label_literal() {
    match eval("{0}", vec![], vec!["mylabel"]) {
        Ok(ASVariable::Label(Some(name))) => assert_eq!(name, "mylabel"),
        other => panic!("unexpected result: {:?}", result_tag(&other)),
    }
}

#[test]
fn invalid_label_name_is_rejected() {
    match eval("{0}", vec![], vec!["not a label!"]) {
        Err(ASError::Syntax(ASSyntaxError::InvalidLabelName(_))) => {}
        other => panic!("unexpected result: {:?}", result_tag(&other)),
    }
}

#[test]
fn parenthesized_subexpression() {
    match eval("(0) * 2", vec![], vec!["1 + 2"]) {
        Ok(ASVariable::Int(v)) => assert_eq!(v, 6),
        other => panic!("unexpected result: {:?}", result_tag(&other)),
    }
}

#[test]
fn bare_identifier_is_a_variable_reference() {
    match eval("hero", vec![], vec![]) {
        Ok(ASVariable::VarRef { name, flag }) => {
            assert_eq!(name, "hero");
            assert!(!flag);
        }
        other => panic!("unexpected result: {:?}", result_tag(&other)),
    }
    match eval("?seen", vec![], vec![]) {
        Ok(ASVariable::VarRef { name, flag }) => {
            assert_eq!(name, "seen");
            assert!(flag);
        }
        other => panic!("unexpected result: {:?}", result_tag(&other)),
    }
}

#[test]
fn null_literal_and_empty_expression() {
    match eval("None", vec![], vec![]) {
        Ok(ASVariable::Null) => {}
        other => panic!("unexpected result: {:?}", result_tag(&other)),
    }
    match eval("", vec![], vec![]) {
        Err(ASError::Syntax(ASSyntaxError::InvalidVariableName(_))) => {}
        other => panic!("unexpected result: {:?}", result_tag(&other)),
    }
}

#[test]
fn division_by_zero_is_reported() {
    match eval("1 / 0", vec![], vec![]) {
        Err(ASError::Syntax(ASSyntaxError::DivisionByZero)) => {}
        other => panic!("unexpected result: {:?}", result_tag(&other)),
    }
}

#[test]
fn addition_overflow_is_reported() {
    match eval("9223372036854775807 + 1", vec![], vec![]) {
        Err(ASError::Syntax(ASSyntaxError::IntegerOverflow { .. })) => {}
        other => panic!("unexpected result: {:?}", result_tag(&other)),
    }
}

#[test]
fn interpolation_reads_variables() {
    let mut info = GameInfo::create(false);
    let var = ASVariable::VarRef { name: "x".to_string(), flag: false };
    info.set_var(&var, ASVariable::Int(5)).unwrap();
    let shown = parse_text(&mut info, "x is \\v[x].").unwrap();
    assert_eq!(shown, "x is 5.");
}

#[test]
fn interpolation_rejects_unknown_codes() {
    let mut info = GameInfo::create(false);
    match parse_text(&mut info, "oops \\q") {
        Err(ASError::Syntax(ASSyntaxError::InvalidEscapeCode { code })) => {
            assert_eq!(code, "\\q")
        }
        _ => panic!("expected an invalid escape code"),
    }
}

#[test]
fn flags_read_as_false_until_set() {
    let mut info = GameInfo::create(false);
    let flag = ASVariable::VarRef { name: "seen".to_string(), flag: true };
    match info.get_var(&flag) {
        Ok(ASVariable::Bool(b)) => assert!(!b),
        _ => panic!("expected the lazily initialized flag"),
    }
    info.set_var(&flag, ASVariable::Bool(true)).unwrap();
    match info.get_var(&flag) {
        Ok(ASVariable::Bool(b)) => assert!(b),
        _ => panic!("expected the stored flag"),
    }
}

fn result_tag(r: &Result<ASVariable, ASError>) -> &'static str {
    match r {
        Ok(ASVariable::Empty) => "Ok(Empty)",
        Ok(ASVariable::Bool(_)) => "Ok(Bool)",
        Ok(ASVariable::Int(_)) => "Ok(Int)",
        Ok(ASVariable::String(_)) => "Ok(String)",
        Ok(ASVariable::List(_)) => "Ok(List)",
        Ok(ASVariable::Mapping(_)) => "Ok(Mapping)",
        Ok(ASVariable::Label(_)) => "Ok(Label)",
        Ok(ASVariable::VarRef { .. }) => "Ok(VarRef)",
        Ok(ASVariable::Null) => "Ok(Null)",
        Ok(ASVariable::Object { .. }) => "Ok(Object)",
        Err(_) => "Err",
    }
}
