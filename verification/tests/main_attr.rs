use yot_run::main_attr::{check_main_fn, Args, ArgsError, AttrToken, MainFnError};

fn ident(s: &str) -> AttrToken {
    AttrToken::Ident(s.to_string())
}

fn parse(tokens: Vec<AttrToken>) -> Result<bool, ArgsError> {
    Args::parse(&tokens).map(|a| a.show_ui)
}

#[test]
fn no_arguments_show_ui() {
    assert_eq!(parse(vec![]), Ok(true));
}

#[test]
fn show_ui_false_and_true() {
    assert_eq!(parse(vec![ident("show_ui"), AttrToken::Punct('='), ident("false")]), Ok(false));
    assert_eq!(parse(vec![ident("show_ui"), AttrToken::Punct('='), ident("true")]), Ok(true));
}

#[test]
fn other_identifier_is_refused() {
    assert_eq!(parse(vec![ident("verbose")]), Err(ArgsError::UnknownArgument));
    assert_eq!(parse(vec![ident("r#show_ui")]), Err(ArgsError::UnknownArgument));
    assert_eq!(
        parse(vec![ident("verbose"), AttrToken::Punct('='), ident("true")]),
        Err(ArgsError::UnknownArgument)
    );
}

#[test]
fn from_tokens_takes_the_identifier_answer() {
    let tokens = vec![ident("show_ui"), AttrToken::Punct('='), ident("false")];
    assert_eq!(Args::from_tokens(&tokens, true).map(|a| a.show_ui), Ok(false));
    assert_eq!(Args::from_tokens(&tokens, false).map(|a| a.show_ui), Err(ArgsError::ExpectedIdent));
    assert_eq!(Args::from_tokens(&vec![], false).map(|a| a.show_ui), Ok(true));
}

#[test]
fn argument_errors() {
    assert_eq!(parse(vec![ident("verbose"), AttrToken::Punct(',')]), Err(ArgsError::UnknownArgument));
    assert_eq!(parse(vec![AttrToken::Literal]), Err(ArgsError::ExpectedIdent));
    assert_eq!(parse(vec![AttrToken::Group]), Err(ArgsError::ExpectedIdent));
    assert_eq!(parse(vec![ident("true")]), Err(ArgsError::ExpectedIdent));
    assert_eq!(parse(vec![ident("async")]), Err(ArgsError::ExpectedIdent));
    assert_eq!(parse(vec![ident("show_ui")]), Err(ArgsError::ExpectedEq));
    assert_eq!(parse(vec![ident("show_ui"), AttrToken::Punct(':'), ident("true")]), Err(ArgsError::ExpectedEq));
    assert_eq!(parse(vec![ident("show_ui"), AttrToken::Punct('=')]), Err(ArgsError::ExpectedBool));
    assert_eq!(parse(vec![ident("show_ui"), AttrToken::Punct('='), AttrToken::Literal]), Err(ArgsError::ExpectedBool));
    assert_eq!(parse(vec![ident("show_ui"), AttrToken::Punct('='), ident("yes")]), Err(ArgsError::ExpectedBool));
    assert_eq!(
        parse(vec![ident("show_ui"), AttrToken::Punct('='), ident("true"), AttrToken::Punct(',')]),
        Err(ArgsError::UnexpectedToken)
    );
}

#[test]
fn main_fn_checks() {
    assert_eq!(check_main_fn(true, "main"), Ok(()));
    assert_eq!(check_main_fn(false, "main"), Err(MainFnError::NotAsync));
    assert_eq!(check_main_fn(false, "start"), Err(MainFnError::NotAsync));
    assert_eq!(check_main_fn(true, "start"), Err(MainFnError::NotMain));
}

#[test]
fn keywords_and_underscore_are_not_identifiers() {
    assert_eq!(parse(vec![ident("_")]), Err(ArgsError::ExpectedIdent));
    assert_eq!(parse(vec![ident("fn"), AttrToken::Punct('='), ident("true")]), Err(ArgsError::ExpectedIdent));
    assert_eq!(parse(vec![ident("Self")]), Err(ArgsError::ExpectedIdent));
}
