use vstd::prelude::*;
use vstd::string::*;

verus! {

/// A token of the EBNF surface syntax. Terminals keep their double quotes
/// and regular expressions their slashes.
#[derive(Debug)]
pub enum Token {
    Dot,
    Assign,
    BracketRoundOpen,
    BracketRoundClose,
    BracketSquareOpen,
    BracketSquareClose,
    BracketCurlyOpen,
    BracketCurlyClose,
    Separator,
    NewLine,
    NonTerminal(String),
    Terminal(String),
    Regex(String),
}

/// The mathematical value of a token: its kind and its text.
pub open spec fn token_view(t: Token) -> (u8, Seq<char>) {
    match t {
        Token::Dot => (0, Seq::empty()),
        Token::Assign => (1, Seq::empty()),
        Token::BracketRoundOpen => (2, Seq::empty()),
        Token::BracketRoundClose => (3, Seq::empty()),
        Token::BracketSquareOpen => (4, Seq::empty()),
        Token::BracketSquareClose => (5, Seq::empty()),
        Token::BracketCurlyOpen => (6, Seq::empty()),
        Token::BracketCurlyClose => (7, Seq::empty()),
        Token::Separator => (8, Seq::empty()),
        Token::NewLine => (9, Seq::empty()),
        Token::NonTerminal(s) => (10, s@),
        Token::Terminal(s) => (11, s@),
        Token::Regex(s) => (12, s@),
    }
}

/// The three texts one after the other.
pub(crate) fn concat3(a: &str, b: &str, c: &str) -> (r: String)
    ensures
        r@ == a@ + b@ + c@,
{
    let mut r = String::from_str(a);
    r.append(b);
    r.append(c);
    r
}

impl Token {
    /// A copy of this token.
    pub fn copy(&self) -> (r: Token)
        ensures
            token_view(r) == token_view(*self),
    {
        match self {
            Token::Dot => Token::Dot,
            Token::Assign => Token::Assign,
            Token::BracketRoundOpen => Token::BracketRoundOpen,
            Token::BracketRoundClose => Token::BracketRoundClose,
            Token::BracketSquareOpen => Token::BracketSquareOpen,
            Token::BracketSquareClose => Token::BracketSquareClose,
            Token::BracketCurlyOpen => Token::BracketCurlyOpen,
            Token::BracketCurlyClose => Token::BracketCurlyClose,
            Token::Separator => Token::Separator,
            Token::NewLine => Token::NewLine,
            Token::NonTerminal(s) => Token::NonTerminal(s.clone()),
            Token::Terminal(s) => Token::Terminal(s.clone()),
            Token::Regex(s) => Token::Regex(s.clone()),
        }
    }

    /// Whether two tokens are equal.
    pub fn same(&self, o: &Token) -> (r: bool)
        ensures
            r == (token_view(*self) == token_view(*o)),
    {
        match (self, o) {
            (Token::Dot, Token::Dot) => true,
            (Token::Assign, Token::Assign) => true,
            (Token::BracketRoundOpen, Token::BracketRoundOpen) => true,
            (Token::BracketRoundClose, Token::BracketRoundClose) => true,
            (Token::BracketSquareOpen, Token::BracketSquareOpen) => true,
            (Token::BracketSquareClose, Token::BracketSquareClose) => true,
            (Token::BracketCurlyOpen, Token::BracketCurlyOpen) => true,
            (Token::BracketCurlyClose, Token::BracketCurlyClose) => true,
            (Token::Separator, Token::Separator) => true,
            (Token::NewLine, Token::NewLine) => true,
            (Token::NonTerminal(a), Token::NonTerminal(b)) => *a == *b,
            (Token::Terminal(a), Token::Terminal(b)) => *a == *b,
            (Token::Regex(a), Token::Regex(b)) => *a == *b,
            _ => false,
        }
    }

    /// How the token is named in messages.
    pub fn describe(&self) -> (r: String)
        ensures
            r@ == token_text(token_view(*self)),
    {
        proof {
            reveal_strlit("'.'");
            reveal_strlit("':='");
            reveal_strlit("'('");
            reveal_strlit("')'");
            reveal_strlit("'['");
            reveal_strlit("']'");
            reveal_strlit("'{'");
            reveal_strlit("'}'");
            reveal_strlit("'|'");
            reveal_strlit("newline");
            reveal_strlit("non-terminal '");
            reveal_strlit("'");
            reveal_strlit("terminal \"");
            reveal_strlit("\"");
            reveal_strlit("regex /");
            reveal_strlit("/");
        }
        match self {
            Token::Dot => "'.'".to_owned(),
            Token::Assign => "':='".to_owned(),
            Token::BracketRoundOpen => "'('".to_owned(),
            Token::BracketRoundClose => "')'".to_owned(),
            Token::BracketSquareOpen => "'['".to_owned(),
            Token::BracketSquareClose => "']'".to_owned(),
            Token::BracketCurlyOpen => "'{'".to_owned(),
            Token::BracketCurlyClose => "'}'".to_owned(),
            Token::Separator => "'|'".to_owned(),
            Token::NewLine => "newline".to_owned(),
            Token::NonTerminal(s) => concat3("non-terminal '", s.as_str(), "'"),
            Token::Terminal(s) => concat3("terminal \"", s.as_str(), "\""),
            Token::Regex(s) => concat3("regex /", s.as_str(), "/"),
        }
    }
}

/// How a token is named in messages.
pub open spec fn token_text(t: (u8, Seq<char>)) -> Seq<char> {
    if t.0 == 0 {
        "'.'"@
    } else if t.0 == 1 {
        "':='"@
    } else if t.0 == 2 {
        "'('"@
    } else if t.0 == 3 {
        "')'"@
    } else if t.0 == 4 {
        "'['"@
    } else if t.0 == 5 {
        "']'"@
    } else if t.0 == 6 {
        "'{'"@
    } else if t.0 == 7 {
        "'}'"@
    } else if t.0 == 8 {
        "'|'"@
    } else if t.0 == 9 {
        "newline"@
    } else if t.0 == 10 {
        "non-terminal '"@ + t.1 + "'"@
    } else if t.0 == 11 {
        "terminal \""@ + t.1 + "\""@
    } else {
        "regex /"@ + t.1 + "/"@
    }
}

} // verus!
