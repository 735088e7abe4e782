//! The grammar of the `main` attribute: its arguments (`show_ui = <bool>`, or
//! nothing) and the function it may be applied to.
use vstd::prelude::*;

verus! {

/// One token of the attribute's arguments, as the compiler hands it over.
pub enum AttrToken {
    /// An identifier or keyword, spelled as in the source (`r#` included).
    Ident(String),
    /// A single punctuation character.
    Punct(char),
    /// A literal: number, string, character or byte literal.
    Literal,
    /// A delimited group of tokens.
    Group,
}

/// Why the attribute's arguments were refused.
#[derive(PartialEq, Eq, Structural, Clone, Copy, Debug)]
pub enum ArgsError {
    /// The first token is not an identifier, or is a keyword.
    ExpectedIdent,
    /// The argument is an identifier other than `show_ui`.
    UnknownArgument,
    /// `show_ui` is not followed by `=`.
    ExpectedEq,
    /// `show_ui =` is not followed by `true` or `false`.
    ExpectedBool,
    /// Tokens are left over after the arguments.
    UnexpectedToken,
}

/// Why the attribute cannot be applied to a function.
#[derive(PartialEq, Eq, Structural, Clone, Copy, Debug)]
pub enum MainFnError {
    /// The function is not `async`.
    NotAsync,
    /// The function is not named `main`.
    NotMain,
}

/// Whether `syn` parses `word` as an identifier (it refuses keywords).
pub uninterp spec fn syn_accepts_ident(word: Seq<char>) -> bool;

/// The words that `syn` never takes for an identifier: `_` and the keywords of its
/// own table.
pub open spec fn is_syn_keyword(word: Seq<char>) -> bool {
    ||| word == "_"@
    ||| word == "abstract"@
    ||| word == "as"@
    ||| word == "async"@
    ||| word == "await"@
    ||| word == "become"@
    ||| word == "box"@
    ||| word == "break"@
    ||| word == "const"@
    ||| word == "continue"@
    ||| word == "crate"@
    ||| word == "do"@
    ||| word == "dyn"@
    ||| word == "else"@
    ||| word == "enum"@
    ||| word == "extern"@
    ||| word == "false"@
    ||| word == "final"@
    ||| word == "fn"@
    ||| word == "for"@
    ||| word == "if"@
    ||| word == "impl"@
    ||| word == "in"@
    ||| word == "let"@
    ||| word == "loop"@
    ||| word == "macro"@
    ||| word == "match"@
    ||| word == "mod"@
    ||| word == "move"@
    ||| word == "mut"@
    ||| word == "override"@
    ||| word == "priv"@
    ||| word == "pub"@
    ||| word == "ref"@
    ||| word == "return"@
    ||| word == "Self"@
    ||| word == "self"@
    ||| word == "static"@
    ||| word == "struct"@
    ||| word == "super"@
    ||| word == "trait"@
    ||| word == "true"@
    ||| word == "try"@
    ||| word == "type"@
    ||| word == "typeof"@
    ||| word == "unsafe"@
    ||| word == "unsized"@
    ||| word == "use"@
    ||| word == "virtual"@
    ||| word == "where"@
    ||| word == "while"@
    ||| word == "yield"@
}

/// `syn::parse_str::<syn::Ident>`: whether `word` parses as an identifier.
/// The result is named; of it, the contract states only that `_` and the keywords
/// in `syn`'s table are refused. Which other strings lex as one identifier token is
/// left unsaid.
#[verifier::external_body]
fn accepts_ident(word: &String) -> (r: bool)
    ensures
        r == syn_accepts_ident(word@),
        is_syn_keyword(word@) ==> !r,
{
    syn::parse_str::<syn::Ident>(word).is_ok()
}

/// The spelling of an identifier token.
pub open spec fn word_of(t: AttrToken) -> Option<Seq<char>> {
    match t {
        AttrToken::Ident(w) => Some(w@),
        _ => None,
    }
}

/// Whether `t` is the boolean literal `true` or `false`.
pub open spec fn is_bool_literal(t: AttrToken) -> bool {
    word_of(t) == Some("true"@) || word_of(t) == Some("false"@)
}

/// What the arguments `tokens` configure: `Ok(show_ui)`, or why they are refused.
/// The accepted forms are nothing, which leaves `show_ui` on, and
/// `show_ui = true` / `show_ui = false`. `first_is_ident` says whether the first
/// token parses as an identifier (keywords do not).
pub open spec fn args_result(tokens: Seq<AttrToken>, first_is_ident: bool) -> Result<bool, ArgsError> {
    if tokens.len() == 0 {
        Ok(true)
    } else if word_of(tokens[0]) is None || !first_is_ident {
        Err(ArgsError::ExpectedIdent)
    } else if word_of(tokens[0]) != Some("show_ui"@) {
        Err(ArgsError::UnknownArgument)
    } else if tokens.len() < 2 || !(tokens[1] matches AttrToken::Punct(c) && c == '=') {
        Err(ArgsError::ExpectedEq)
    } else if tokens.len() < 3 || !is_bool_literal(tokens[2]) {
        Err(ArgsError::ExpectedBool)
    } else if tokens.len() > 3 {
        Err(ArgsError::UnexpectedToken)
    } else {
        Ok(word_of(tokens[2]) == Some("true"@))
    }
}

/// Whether `syn` parses the first of `tokens` as an identifier.
pub open spec fn first_is_syn_ident(tokens: Seq<AttrToken>) -> bool {
    tokens.len() > 0 && word_of(tokens[0]) is Some && syn_accepts_ident(word_of(tokens[0])->0)
}

/// The attribute's configuration.
#[derive(Debug)]
pub struct Args {
    /// Whether the runtime exports its metrics.
    pub show_ui: bool,
}

/// Whether `t` is an identifier spelled like `word`.
fn is_word(t: &AttrToken, word: &str) -> (r: bool)
    ensures
        r == (word_of(*t) == Some(word@)),
{
    match t {
        AttrToken::Ident(w) => {
            let expected = word.to_owned();
            *w == expected
        },
        _ => false,
    }
}

impl Args {
    /// Parses the attribute's arguments, given whether their first token parses as an
    /// identifier: nothing, or `show_ui = true` / `show_ui = false`.
    pub fn from_tokens(tokens: &Vec<AttrToken>, first_is_ident: bool) -> (r: Result<Args, ArgsError>)
        ensures
            match r {
                Ok(args) => args_result(tokens@, first_is_ident) == Ok::<bool, ArgsError>(args.show_ui),
                Err(e) => args_result(tokens@, first_is_ident) == Err::<bool, ArgsError>(e),
            },
    {
        let n = tokens.len();
        if n == 0 {
            return Ok(Args { show_ui: true });
        }
        match &tokens[0] {
            AttrToken::Ident(_) => {
                if !first_is_ident {
                    return Err(ArgsError::ExpectedIdent);
                }
            },
            _ => {
                return Err(ArgsError::ExpectedIdent);
            },
        }
        if !is_word(&tokens[0], "show_ui") {
            return Err(ArgsError::UnknownArgument);
        }
        if n < 2 {
            return Err(ArgsError::ExpectedEq);
        }
        match &tokens[1] {
            AttrToken::Punct(c) => {
                if *c != '=' {
                    return Err(ArgsError::ExpectedEq);
                }
            },
            _ => {
                return Err(ArgsError::ExpectedEq);
            },
        }
        if n < 3 {
            return Err(ArgsError::ExpectedBool);
        }
        let is_true = is_word(&tokens[2], "true");
        let is_false = is_word(&tokens[2], "false");
        if !is_true && !is_false {
            return Err(ArgsError::ExpectedBool);
        }
        if n > 3 {
            return Err(ArgsError::UnexpectedToken);
        }
        Ok(Args { show_ui: is_true })
    }

    /// Parses the attribute's arguments: nothing, or `show_ui = true` / `show_ui = false`.
    /// Whether the first token is an identifier is asked of `syn`.
    pub fn parse(tokens: &Vec<AttrToken>) -> (r: Result<Args, ArgsError>)
        ensures
            match r {
                Ok(args) => args_result(tokens@, first_is_syn_ident(tokens@)) == Ok::<bool, ArgsError>(
                    args.show_ui,
                ),
                Err(e) => args_result(tokens@, first_is_syn_ident(tokens@)) == Err::<bool, ArgsError>(e),
            },
            tokens@.len() > 0 && is_syn_keyword(word_of(tokens@[0]).unwrap_or(Seq::empty())) ==> r
                == Err::<Args, ArgsError>(ArgsError::ExpectedIdent),
    {
        let first_is_ident = if tokens.len() == 0 {
            false
        } else {
            match &tokens[0] {
                AttrToken::Ident(w) => accepts_ident(w),
                _ => false,
            }
        };
        Self::from_tokens(tokens, first_is_ident)
    }
}

/// Whether the attribute may be applied to a function: it must be `async` and named
/// `main`; the first requirement is checked first.
pub fn check_main_fn(is_async: bool, name: &str) -> (r: Result<(), MainFnError>)
    ensures
        !is_async ==> r == Err::<(), MainFnError>(MainFnError::NotAsync),
        is_async && name@ != "main"@ ==> r == Err::<(), MainFnError>(MainFnError::NotMain),
        is_async && name@ == "main"@ ==> r is Ok,
{
    if !is_async {
        return Err(MainFnError::NotAsync);
    }
    let main = "main".to_owned();
    let given = name.to_owned();
    if given != main {
        return Err(MainFnError::NotMain);
    }
    Ok(())
}

} // verus!
