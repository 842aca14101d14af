use helios_build::expand::{ExpandError, Expansion};
use helios_build::Bindings;

fn vars(v: &[(&str, &str)]) -> Bindings {
    let mut b = Bindings::new();
    for (k, val) in v {
        b.insert(k, val);
    }
    b
}

#[test]
fn simple_expansion() {
    let x = Expansion::parse("hello ${name}!").unwrap();
    let out = x.evaluate(&vars(&[("name", "world")])).unwrap();
    assert_eq!(out, "hello world!");
}

#[test]
fn undefined_variable_is_error() {
    let x = Expansion::parse("hello ${name}!").unwrap();
    assert_eq!(x.evaluate(&vars(&[])).unwrap_err(), ExpandError::UndefinedVariable);
}

#[test]
fn conditional_literal() {
    let x = Expansion::parse("flags${debug?-g} done").unwrap();
    assert_eq!(x.evaluate(&vars(&[("debug", "1")])).unwrap(), "flags-g done");
    assert_eq!(x.evaluate(&vars(&[])).unwrap(), "flags done");
}

#[test]
fn dollar_escapes() {
    let x = Expansion::parse("cost: $$5").unwrap();
    assert_eq!(x.evaluate(&vars(&[])).unwrap(), "cost: $5");
}

#[test]
fn empty_template() {
    let x = Expansion::parse("").unwrap();
    assert_eq!(x.evaluate(&vars(&[])).unwrap(), "");
}

#[test]
fn parse_errors() {
    assert_eq!(Expansion::parse("${}").unwrap_err(), ExpandError::EmptyVariable);
    assert_eq!(Expansion::parse("${?x}").unwrap_err(), ExpandError::EmptyVariable);
    assert_eq!(Expansion::parse("a$x").unwrap_err(), ExpandError::InvalidAfterDollar);
    assert_eq!(Expansion::parse("abc$").unwrap_err(), ExpandError::EndAfterDollar);
    assert_eq!(Expansion::parse("${a").unwrap_err(), ExpandError::UnterminatedExpansion);
    assert_eq!(Expansion::parse("${a$b}").unwrap_err(), ExpandError::NestedExpansion);
    assert_eq!(Expansion::parse("${a b}").unwrap_err(), ExpandError::InvalidVariableChar);
}

#[test]
fn literal_may_hold_anything() {
    let x = Expansion::parse("${v?a b?c}").unwrap();
    assert_eq!(x.evaluate(&vars(&[("v", "set")])).unwrap(), "a b?c");
}
