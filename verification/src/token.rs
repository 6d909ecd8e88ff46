//! Tokens of the notation.

use crate::numeric::NumericValue;
use vstd::prelude::*;

verus! {

/// The kind of a token.
#[derive(Debug, Clone, Copy, PartialEq, Eq, Structural)]
pub enum TokenType {
    /// `+`
    Plus,
    /// `-`
    Minus,
    /// `*`
    Star,
    /// `/`
    Over,
    /// `:`
    Colon,
    /// `;`
    Semi,
    /// `^`
    Up,
    /// `!`
    Not,
    /// `=`
    Eq,
    /// `!=`
    NotEq,
    /// `>`
    Greater,
    /// `<`
    Less,
    /// `>=`
    GreaterEq,
    /// `<=`
    LessEq,
    /// `(`
    LParen,
    /// `)`
    RParen,
    /// `{`
    LBrace,
    /// `}`
    RBrace,
    /// The keyword `and`.
    And,
    /// The keyword `or`.
    Or,
    /// The keyword `state`.
    State,
    /// A numeric value.
    Number,
    /// An identifier.
    Ident,
    /// The end of the input.
    EoF,
    /// A character that starts no token.
    Unknown,
}

impl TokenType {
    /// One of `=`, `!=`, `>`, `<`, `>=`, `<=`.
    pub open spec fn is_relation(self) -> bool {
        self == TokenType::Eq || self == TokenType::NotEq || self.is_order()
    }

    /// One of `>`, `<`, `>=`, `<=`.
    pub open spec fn is_order(self) -> bool {
        self == TokenType::Greater || self == TokenType::Less || self == TokenType::GreaterEq
            || self == TokenType::LessEq
    }

    /// The relation that holds of `b` and `a` exactly when this one holds of
    /// `a` and `b`.
    pub open spec fn mirrored(self) -> TokenType {
        match self {
            TokenType::Greater => TokenType::Less,
            TokenType::Less => TokenType::Greater,
            TokenType::GreaterEq => TokenType::LessEq,
            TokenType::LessEq => TokenType::GreaterEq,
            other => other,
        }
    }

    /// Whether the relation holds of the reals `a` and `b`; false for a token
    /// that is no relation.
    pub open spec fn holds(self, a: real, b: real) -> bool {
        match self {
            TokenType::Eq => a == b,
            TokenType::NotEq => a != b,
            TokenType::Greater => a > b,
            TokenType::Less => a < b,
            TokenType::GreaterEq => a >= b,
            TokenType::LessEq => a <= b,
            _ => false,
        }
    }

    /// The characters by which the token is written; empty for the kinds that
    /// have no fixed spelling.
    pub open spec fn spelling(self) -> Seq<char> {
        match self {
            TokenType::Plus => seq!['+'],
            TokenType::Minus => seq!['-'],
            TokenType::Star => seq!['*'],
            TokenType::Over => seq!['/'],
            TokenType::Colon => seq![':'],
            TokenType::Semi => seq![';'],
            TokenType::Up => seq!['^'],
            TokenType::Not => seq!['!'],
            TokenType::Eq => seq!['='],
            TokenType::NotEq => seq!['!', '='],
            TokenType::Greater => seq!['>'],
            TokenType::Less => seq!['<'],
            TokenType::GreaterEq => seq!['>', '='],
            TokenType::LessEq => seq!['<', '='],
            TokenType::LParen => seq!['('],
            TokenType::RParen => seq![')'],
            TokenType::LBrace => seq!['{'],
            TokenType::RBrace => seq!['}'],
            TokenType::And => seq!['a', 'n', 'd'],
            TokenType::Or => seq!['o', 'r'],
            TokenType::State => seq!['s', 't', 'a', 't', 'e'],
            _ => Seq::empty(),
        }
    }
}

/// A token: its kind, the text it was read from, and the value of a number.
#[derive(Debug)]
pub struct Token {
    pub token: TokenType,
    pub lexeme: String,
    pub lt: Option<NumericValue>,
}

impl Token {
    /// A token of the given kind and text, without a value.
    pub fn new(token: TokenType, lexeme: String) -> (t: Token)
        ensures
            t.token == token,
            t.lexeme@ == lexeme@,
            t.lt is None,
    {
        Token { token, lexeme, lt: None }
    }

    /// An identifier token that spells `name`.
    pub fn ident(name: &str) -> (t: Token)
        ensures
            t.token == TokenType::Ident,
            t.lexeme@ == name@,
            t.lt is None,
    {
        Token { token: TokenType::Ident, lexeme: name.to_owned(), lt: None }
    }

    /// The token of a kind with a fixed spelling, spelled so.
    pub fn operator(kind: TokenType) -> (t: Token)
        ensures
            t.token == kind,
            t.lexeme@ == kind.spelling(),
            t.lt is None,
    {
        proof {
            reveal_strlit("+");
            reveal_strlit("-");
            reveal_strlit("*");
            reveal_strlit("/");
            reveal_strlit(":");
            reveal_strlit(";");
            reveal_strlit("^");
            reveal_strlit("!");
            reveal_strlit("=");
            reveal_strlit("!=");
            reveal_strlit(">");
            reveal_strlit("<");
            reveal_strlit(">=");
            reveal_strlit("<=");
            reveal_strlit("(");
            reveal_strlit(")");
            reveal_strlit("{");
            reveal_strlit("}");
            reveal_strlit("and");
            reveal_strlit("or");
            reveal_strlit("state");
            reveal_strlit("");
        }
        let text: &str = match kind {
            TokenType::Plus => "+",
            TokenType::Minus => "-",
            TokenType::Star => "*",
            TokenType::Over => "/",
            TokenType::Colon => ":",
            TokenType::Semi => ";",
            TokenType::Up => "^",
            TokenType::Not => "!",
            TokenType::Eq => "=",
            TokenType::NotEq => "!=",
            TokenType::Greater => ">",
            TokenType::Less => "<",
            TokenType::GreaterEq => ">=",
            TokenType::LessEq => "<=",
            TokenType::LParen => "(",
            TokenType::RParen => ")",
            TokenType::LBrace => "{",
            TokenType::RBrace => "}",
            TokenType::And => "and",
            TokenType::Or => "or",
            TokenType::State => "state",
            _ => "",
        };
        assert(text@ =~= kind.spelling());
        Token { token: kind, lexeme: text.to_owned(), lt: None }
    }

    /// An identifier token that spells the name `name`.
    pub fn variable(name: &String) -> (t: Token)
        ensures
            t.token == TokenType::Ident,
            t.lexeme@ == name@,
            t.lt is None,
    {
        Token { token: TokenType::Ident, lexeme: name.clone(), lt: None }
    }

    /// A copy of the token.
    pub fn duplicate(&self) -> (t: Token)
        ensures
            t.token == self.token,
            t.lexeme@ == self.lexeme@,
            t.lt is Some == self.lt is Some,
            t.lt matches Some(v) ==> v@ == self.lt->Some_0@,
    {
        let lt = match &self.lt {
            Some(v) => Some(v.duplicate()),
            None => None,
        };
        Token { token: self.token, lexeme: self.lexeme.clone(), lt }
    }
}

} // verus!
