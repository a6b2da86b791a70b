//! Tests for the value model: operators, keys, rendering and the version
//! gate for saves.

use adventure_script::error::ASSyntaxError;
use adventure_script::info::GameInfo;
use adventure_script::save::check_save_version;
use adventure_script::save::restore_snapshot;
use adventure_script::save::Save;
use adventure_script::save::Version;
use adventure_script::variables::ASType;
use adventure_script::variables::ASVariable;
use adventure_script::variables::KeyVar;

#[test]
fn map_keys_accept_only_the_key_subset() {
    assert!(matches!(
        KeyVar::new(ASVariable::Int(3)),
        Ok(KeyVar::Int(3))
    ));
    assert!(matches!(
        KeyVar::new(ASVariable::String("k".to_string())),
        Ok(KeyVar::String(_))
    ));
    assert!(matches!(
        KeyVar::new(ASVariable::Bool(true)),
        Ok(KeyVar::Bool(true))
    ));
    assert!(matches!(
        KeyVar::new(ASVariable::List(vec![])),
        Err(ASSyntaxError::InvalidMapKey { .. })
    ));
    assert!(matches!(
        KeyVar::new(ASVariable::Null),
        Err(ASSyntaxError::InvalidMapKey { .. })
    ));
}

#[test]
fn string_concatenation_and_subtraction_rules() {
    let a = ASVariable::String("ab".to_string());
    let b = ASVariable::String("cd".to_string());
    match a.add(b) {
        Ok(ASVariable::String(s)) => assert_eq!(s, "abcd"),
        _ => panic!("expected the concatenation"),
    }
    let r = ASVariable::String("x".to_string()).sub(ASVariable::Int(1));
    assert!(matches!(
        r,
        Err(ASSyntaxError::OperationNotDefined { .. })
    ));
}

#[test]
fn list_repetition() {
    let l = ASVariable::List(vec![ASVariable::Int(1), ASVariable::Int(2)]);
    match l.mul(ASVariable::Int(3)) {
        Ok(ASVariable::List(out)) => assert_eq!(out.len(), 6),
        _ => panic!("expected the repeated list"),
    }
}

#[test]
fn power_uses_a_non_negative_exponent() {
    match ASVariable::Int(2).pow(ASVariable::Int(10)) {
        Ok(ASVariable::Int(v)) => assert_eq!(v, 1024),
        _ => panic!("expected the power"),
    }
    assert!(matches!(
        ASVariable::Int(2).pow(ASVariable::Int(-1)),
        Err(ASSyntaxError::NegativeExponent)
    ));
}

#[test]
fn unary_operators_check_their_variant() {
    assert!(matches!(
        ASVariable::Int(5).neg(),
        Ok(ASVariable::Int(-5))
    ));
    assert!(matches!(
        ASVariable::Bool(false).not(),
        Ok(ASVariable::Bool(true))
    ));
    assert!(matches!(
        ASVariable::Bool(true).neg(),
        Err(ASSyntaxError::UnaryOperationNotDefined { .. })
    ));
}

#[test]
fn rendering_matches_the_documented_forms() {
    assert_eq!(ASVariable::Null.to_text(), "None");
    assert_eq!(ASVariable::Bool(true).to_text(), "true");
    assert_eq!(ASVariable::Int(-42).to_text(), "-42");
    let list = ASVariable::List(vec![ASVariable::Int(1), ASVariable::Int(2)]);
    assert_eq!(list.to_text(), "[1, 2]");
    let map = ASVariable::Mapping(vec![(KeyVar::Int(1), ASVariable::Bool(false))]);
    assert_eq!(map.to_text(), "{1: false}");
    assert_eq!(
        ASVariable::Label(Some("x".to_string())).to_text(),
        "Label {x}"
    );
    assert_eq!(ASVariable::Label(None).to_text(), "Null label");
    assert_eq!(
        ASVariable::VarRef { name: "n".to_string(), flag: true }.to_text(),
        "Flag n"
    );
    assert_eq!(
        ASVariable::VarRef { name: "n".to_string(), flag: false }.to_text(),
        "Variable n"
    );
}

#[test]
fn structural_equality_ignores_map_order() {
    let a = ASVariable::Mapping(vec![
        (KeyVar::Int(1), ASVariable::Int(10)),
        (KeyVar::Int(2), ASVariable::Int(20)),
    ]);
    let b = ASVariable::Mapping(vec![
        (KeyVar::Int(2), ASVariable::Int(20)),
        (KeyVar::Int(1), ASVariable::Int(10)),
    ]);
    assert!(a.equals(&b));
    let c = ASVariable::Mapping(vec![(KeyVar::Int(1), ASVariable::Int(11))]);
    assert!(!a.equals(&c));
}

#[test]
fn default_values_per_type() {
    assert!(matches!(ASType::Bool.default_for_type(), ASVariable::Bool(false)));
    assert!(matches!(ASType::Int.default_for_type(), ASVariable::Int(0)));
    assert!(matches!(ASType::Label.default_for_type(), ASVariable::Null));
    match ASType::List.default_for_type() {
        ASVariable::List(l) => assert!(l.is_empty()),
        _ => panic!("expected an empty list"),
    }
}

fn ver(major: u64, minor: u64, patch: u64, pre: &str) -> Version {
    Version { major, minor, patch, pre: pre.to_string() }
}

#[test]
fn save_version_gate() {
    let oldest = ver(2, 0, 0, "alpha.1");
    let current = ver(2, 1, 0, "");
    assert!(check_save_version(&ver(2, 0, 5, ""), &oldest, &current).is_ok());
    assert!(check_save_version(&ver(2, 0, 0, "alpha.1"), &oldest, &current).is_ok());
    let too_old = check_save_version(&ver(1, 9, 9, ""), &oldest, &current);
    assert!(too_old.is_err());
    let too_new = check_save_version(&ver(2, 2, 0, ""), &oldest, &current);
    assert!(too_new.is_err());
    // a release outranks its own pre-releases
    assert!(check_save_version(&ver(2, 1, 0, "beta"), &oldest, &current).is_ok());
}

#[test]
fn prerelease_identifiers_compare_numerically() {
    let oldest = ver(2, 0, 0, "alpha.9");
    let current = ver(3, 0, 0, "");
    // alpha.10 comes after alpha.9: numeric identifiers compare by value
    assert!(check_save_version(&ver(2, 0, 0, "alpha.10"), &oldest, &current).is_ok());
    let too_old = check_save_version(&ver(2, 0, 0, "alpha.9"), &ver(2, 0, 0, "alpha.10"), &current);
    assert!(too_old.is_err());
    // numeric identifiers precede alphanumeric ones
    assert!(check_save_version(&ver(2, 0, 0, "beta"), &ver(2, 0, 0, "11"), &current).is_ok());
}

#[test]
fn restore_replaces_both_stores() {
    let mut info = GameInfo::create(false);
    let var = ASVariable::VarRef { name: "stale".to_string(), flag: false };
    info.set_var(&var, ASVariable::Int(1)).unwrap();
    let snap = Save {
        as_ver: "0.1.0".to_string(),
        game_ver: "1.0.0".to_string(),
        script: "start".to_string(),
        pointer: 3,
        flags: vec![("seen".to_string(), true)],
        variables: vec![("gold".to_string(), ASVariable::Int(7))],
        screentext: "so far\n".to_string(),
    };
    restore_snapshot(&mut info, snap).unwrap();
    assert_eq!(info.pointer, 3);
    assert!(info.get_var(&var).is_err());
    let gold = ASVariable::VarRef { name: "gold".to_string(), flag: false };
    assert!(matches!(info.get_var(&gold), Ok(ASVariable::Int(7))));
    let seen = ASVariable::VarRef { name: "seen".to_string(), flag: true };
    assert!(matches!(info.get_var(&seen), Ok(ASVariable::Bool(true))));
}
