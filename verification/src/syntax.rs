//! Scanning source text into tokens.

use crate::ast::{Statement, StatementForm};
use crate::parse::{parse_statements, parsed, statement_forms};
use crate::natural::{digits_below, radix_value, Natural};
use crate::numeric::{NumericForm, NumericValue};
use crate::token::{Token, TokenType};
use vstd::prelude::*;

verus! {

/// The mathematical content of a token: its kind, its text, and the value
/// that it carries.
pub struct TokenForm {
    pub token: TokenType,
    pub lexeme: Seq<char>,
    pub lt: Option<NumericForm>,
}

/// The contents of the tokens of `s`.
pub open spec fn token_forms(s: Seq<Token>) -> Seq<TokenForm> {
    Seq::new(
        s.len(),
        |i: int| TokenForm { token: s[i].token, lexeme: s[i].lexeme@, lt: value_form(s[i].lt) },
    )
}

/// The content of the value that a token carries.
pub open spec fn value_form(lt: Option<NumericValue>) -> Option<NumericForm> {
    match lt {
        Some(v) => Some(v@),
        None => None,
    }
}

/// Whether the character has the Unicode property `Alphabetic`, as the
/// standard library decides it.
pub uninterp spec fn alphabetic(c: char) -> bool;

/// An ASCII letter.
pub open spec fn is_ascii_letter(c: char) -> bool {
    ('a' <= c && c <= 'z') || ('A' <= c && c <= 'Z')
}

/// An ASCII digit.
pub open spec fn is_ascii_digit(c: char) -> bool {
    '0' <= c && c <= '9'
}

/// The kind of a word: a keyword, or an identifier.
pub open spec fn word_kind(text: Seq<char>) -> TokenType {
    if text == TokenType::State.spelling() {
        TokenType::State
    } else if text == TokenType::And.spelling() {
        TokenType::And
    } else if text == TokenType::Or.spelling() {
        TokenType::Or
    } else {
        TokenType::Ident
    }
}

/// A character that goes on a word: an ASCII letter, or a character
/// beyond ASCII that is alphabetic.
pub open spec fn word_char(c: char) -> bool {
    if c <= '\u{7f}' {
        is_ascii_letter(c)
    } else {
        alphabetic(c)
    }
}

/// The first position from `pos` on that holds no character of a word.
pub open spec fn word_end(src: Seq<char>, pos: int) -> int
    decreases src.len() - pos,
{
    if 0 <= pos < src.len() && word_char(src[pos]) {
        word_end(src, pos + 1)
    } else {
        pos
    }
}

/// The kind of the token that the character `c` makes, given whether `=`
/// follows it.
pub open spec fn symbol_kind(c: char, before_eq: bool) -> TokenType {
    if c == '+' {
        TokenType::Plus
    } else if c == '-' {
        TokenType::Minus
    } else if c == '*' {
        TokenType::Star
    } else if c == '/' {
        TokenType::Over
    } else if c == ':' {
        TokenType::Colon
    } else if c == ';' {
        TokenType::Semi
    } else if c == '^' {
        TokenType::Up
    } else if c == '!' {
        if before_eq {
            TokenType::NotEq
        } else {
            TokenType::Not
        }
    } else if c == '=' {
        TokenType::Eq
    } else if c == '>' {
        if before_eq {
            TokenType::GreaterEq
        } else {
            TokenType::Greater
        }
    } else if c == '<' {
        if before_eq {
            TokenType::LessEq
        } else {
            TokenType::Less
        }
    } else if c == '(' {
        TokenType::LParen
    } else if c == ')' {
        TokenType::RParen
    } else if c == '{' {
        TokenType::LBrace
    } else if c == '}' {
        TokenType::RBrace
    } else {
        TokenType::Unknown
    }
}

/// Whether the character takes a following `=` with it into one token.
pub open spec fn takes_eq(c: char) -> bool {
    c == '!' || c == '>' || c == '<'
}

/// The number that an ASCII digit stands for.
pub open spec fn digit_of(c: char) -> u32 {
    (c as u32 - 48) as u32
}

/// The first position from `pos` on that holds no ASCII digit.
pub open spec fn digits_end(src: Seq<char>, pos: int) -> int
    decreases src.len() - pos,
{
    if 0 <= pos < src.len() && is_ascii_digit(src[pos]) {
        digits_end(src, pos + 1)
    } else {
        pos
    }
}

/// The numbers that the digits from `from` up to `to` stand for.
pub open spec fn digit_values(src: Seq<char>, from: int, to: int) -> Seq<u32> {
    Seq::new((to - from) as nat, |i: int| digit_of(src[from + i]))
}

/// The most digits that one part of a literal may have.
pub open spec fn part_limit() -> int {
    0xffff_ffff
}

/// The character at `pos` is `c`.
pub open spec fn holds(src: Seq<char>, pos: int, c: char) -> bool {
    0 <= pos < src.len() && src[pos] == c
}

/// The parts of the number literal that starts with the digit at `start`.
///
/// A literal is a run of digits; then, if a `.` follows, the digits behind
/// it, and behind those a run of digits in brackets, which repeats without
/// end; then, if `_` and digits follow that write a base of which every
/// digit so far is a digit, that base; then, if `e` and digits follow, that
/// power of the base. A part that is too long to count, or a number too
/// large to hold, is no part of the literal.
pub struct NumberParts {
    /// Behind the digits before the point.
    pub whole_end: int,
    /// Whether a point follows.
    pub point: bool,
    /// Behind the digits after the point.
    pub fraction_end: int,
    /// Whether repeating digits in brackets follow.
    pub repeats: bool,
    /// Behind the repeating digits.
    pub repeat_end: int,
    /// Behind the digits, the point and the brackets.
    pub mantissa_end: int,
    /// Every digit so far, in order.
    pub digits: Seq<u32>,
    /// Whether a base follows.
    pub based: bool,
    /// The base.
    pub base: nat,
    /// Behind the base.
    pub base_end: int,
    /// Whether an exponent follows.
    pub raised: bool,
    /// The exponent as written.
    pub power: nat,
    /// Behind the literal.
    pub end: int,
}

/// The parts of the number literal that starts with the digit at `start`.
pub open spec fn number_parts(src: Seq<char>, start: int) -> NumberParts {
    let whole_end = digits_end(src, start);
    let after_point = digits_end(src, whole_end + 1);
    let point = holds(src, whole_end, '.') && after_point - whole_end - 1 <= part_limit();
    let fraction_end = if point {
        after_point
    } else {
        whole_end
    };
    let after_repeat = digits_end(src, fraction_end + 1);
    let repeats = point && holds(src, fraction_end, '(') && after_repeat > fraction_end + 1
        && after_repeat - fraction_end - 1 <= part_limit() && holds(src, after_repeat, ')');
    let repeat_end = if repeats {
        after_repeat
    } else {
        fraction_end
    };
    let mantissa_end = if repeats {
        after_repeat + 1
    } else {
        fraction_end
    };
    let digits = digit_values(src, start, whole_end) + (if point {
        digit_values(src, whole_end + 1, fraction_end)
    } else {
        Seq::empty()
    }) + (if repeats {
        digit_values(src, fraction_end + 1, repeat_end)
    } else {
        Seq::empty()
    });
    let after_base = digits_end(src, mantissa_end + 1);
    let written_base = radix_value(digit_values(src, mantissa_end + 1, after_base), 10);
    let based = holds(src, mantissa_end, '_') && after_base > mantissa_end + 1 && 2
        <= written_base <= 0xffff_ffff && digits_below(digits, written_base);
    let base_end = if based {
        after_base
    } else {
        mantissa_end
    };
    let after_power = digits_end(src, base_end + 1);
    let written_power = radix_value(digit_values(src, base_end + 1, after_power), 10);
    let raised = holds(src, base_end, 'e') && after_power > base_end + 1 && written_power
        <= 0x7fff_ffff_ffff_ffff;
    NumberParts {
        whole_end,
        point,
        fraction_end,
        repeats,
        repeat_end,
        mantissa_end,
        digits,
        based,
        base: if based {
            written_base
        } else {
            10
        },
        base_end,
        raised,
        power: if raised {
            written_power
        } else {
            0
        },
        end: if raised {
            after_power
        } else {
            base_end
        },
    }
}

/// The position behind the number literal that starts with the digit at
/// `start`.
pub open spec fn number_end(src: Seq<char>, start: int) -> int {
    number_parts(src, start).end
}

/// The value of the number literal that starts with the digit at `start`:
/// its digits read in its base, the digits behind the point counted off the
/// exponent, the digits in brackets repeating.
pub open spec fn number_form(src: Seq<char>, start: int) -> NumericForm {
    let parts = number_parts(src, start);
    let behind_point = if parts.point {
        parts.repeat_end - parts.whole_end - 1 - (if parts.repeats {
            1int
        } else {
            0int
        })
    } else {
        0
    };
    NumericForm {
        sign: true,
        magnitude: radix_value(parts.digits, parts.base),
        base: parts.base,
        period: if parts.repeats {
            Some((parts.repeat_end - parts.fraction_end - 1) as nat)
        } else {
            None
        },
        exponent: if parts.point || parts.raised {
            Some(parts.power - behind_point)
        } else {
            None
        },
        fraction: None,
    }
}

/// The text of the token that ends the input.
pub open spec fn end_text() -> Seq<char> {
    seq!['\0']
}

/// The tokens of `src` from position `pos` on.
///
/// A digit starts a number literal, which makes one token with its value.
/// An ASCII letter and the characters of a word behind it make one token, a
/// keyword or an identifier. Any other character makes a token of its own;
/// `!`, `>` and `<` take a following `=` with them. The end of the input makes
/// the last token. Only a number carries a value.
pub open spec fn scan(src: Seq<char>, pos: int) -> Seq<TokenForm>
    decreases src.len() - pos,
    via scan_decreases
{
    if pos < 0 || pos >= src.len() {
        seq![TokenForm { token: TokenType::EoF, lexeme: end_text(), lt: None }]
    } else if is_ascii_digit(src[pos]) {
        let end = number_end(src, pos);
        seq![
            TokenForm {
                token: TokenType::Number,
                lexeme: src.subrange(pos, end),
                lt: Some(number_form(src, pos)),
            },
        ] + scan(src, end)
    } else if is_ascii_letter(src[pos]) {
        let end = word_end(src, pos + 1);
        seq![
            TokenForm {
                token: word_kind(src.subrange(pos, end)),
                lexeme: src.subrange(pos, end),
                lt: None,
            },
        ] + scan(src, end)
    } else {
        let end = symbol_end(src, pos);
        seq![
            TokenForm {
                token: symbol_kind(src[pos], holds(src, pos + 1, '=')),
                lexeme: src.subrange(pos, end),
                lt: None,
            },
        ] + scan(src, end)
    }
}

/// The position behind the token that the character at `pos` makes with a
/// `=` that it takes with it.
pub open spec fn symbol_end(src: Seq<char>, pos: int) -> int {
    if takes_eq(src[pos]) && holds(src, pos + 1, '=') {
        pos + 2
    } else {
        pos + 1
    }
}

/// The position behind the token that starts at `pos`.
pub open spec fn token_end(src: Seq<char>, pos: int) -> int {
    if is_ascii_digit(src[pos]) {
        number_end(src, pos)
    } else if is_ascii_letter(src[pos]) {
        word_end(src, pos + 1)
    } else {
        symbol_end(src, pos)
    }
}

#[via_fn]
proof fn scan_decreases(src: Seq<char>, pos: int) {
    if 0 <= pos < src.len() {
        lemma_token_end(src, pos);
    }
}

/// A word ends at or behind its start, and within the text.
pub proof fn lemma_word_end(src: Seq<char>, pos: int)
    requires
        0 <= pos <= src.len(),
    ensures
        pos <= word_end(src, pos) <= src.len(),
    decreases src.len() - pos,
{
    if pos < src.len() && word_char(src[pos]) {
        lemma_word_end(src, pos + 1);
    }
}

/// A run of digits ends at or behind its start, and within the text or at
/// its start; every position before its end holds a digit.
pub proof fn lemma_digits_end(src: Seq<char>, pos: int)
    ensures
        pos <= digits_end(src, pos),
        0 <= pos <= src.len() ==> digits_end(src, pos) <= src.len(),
        forall|i: int| pos <= i < digits_end(src, pos) ==> 0 <= i < src.len() && is_ascii_digit(
            #[trigger] src[i],
        ),
        !(0 <= digits_end(src, pos) < src.len() && is_ascii_digit(src[digits_end(src, pos)])),
    decreases src.len() - pos,
{
    if 0 <= pos < src.len() && is_ascii_digit(src[pos]) {
        lemma_digits_end(src, pos + 1);
    }
}

/// The parts of a number literal follow one another within the text.
pub proof fn lemma_number_end(src: Seq<char>, pos: int)
    requires
        0 <= pos < src.len(),
        is_ascii_digit(src[pos]),
    ensures
        ({
            let parts = number_parts(src, pos);
            &&& pos < parts.whole_end <= parts.fraction_end <= parts.repeat_end
                <= parts.mantissa_end <= parts.base_end <= parts.end <= src.len()
            &&& pos < number_end(src, pos) <= src.len()
        }),
{
    let parts = number_parts(src, pos);
    lemma_digits_end(src, pos + 1);
    lemma_digits_end(src, parts.whole_end + 1);
    lemma_digits_end(src, parts.fraction_end + 1);
    lemma_digits_end(src, parts.mantissa_end + 1);
    lemma_digits_end(src, parts.base_end + 1);
}

/// A token ends behind its start, and within the text.
pub proof fn lemma_token_end(src: Seq<char>, pos: int)
    requires
        0 <= pos < src.len(),
    ensures
        pos < token_end(src, pos) <= src.len(),
{
    lemma_word_end(src, pos + 1);
    if is_ascii_digit(src[pos]) {
        lemma_number_end(src, pos);
    }
}

/// A scan is not empty, and its last token is the one that ends the input.
pub proof fn lemma_scan_ends(src: Seq<char>, pos: int)
    ensures
        scan(src, pos).len() > 0,
        scan(src, pos).last() == (TokenForm {
            token: TokenType::EoF,
            lexeme: end_text(),
            lt: None,
        }),
    decreases src.len() - pos,
{
    if 0 <= pos < src.len() {
        lemma_token_end(src, pos);
        lemma_scan_ends(src, token_end(src, pos));
    }
}

/// `char::is_alphabetic` of the standard library: whether the character has
/// the Unicode property `Alphabetic`. The result is named, not spelled out.
#[verifier::external_body]
fn is_alphabetic(c: char) -> (b: bool)
    ensures
        b == alphabetic(c),
{
    c.is_alphabetic()
}

fn is_letter(c: char) -> (b: bool)
    ensures
        b == is_ascii_letter(c),
{
    ('a' <= c && c <= 'z') || ('A' <= c && c <= 'Z')
}

fn is_digit(c: char) -> (b: bool)
    ensures
        b == is_ascii_digit(c),
{
    '0' <= c && c <= '9'
}

fn is_word_char(c: char) -> (b: bool)
    ensures
        b == word_char(c),
{
    if c <= '\u{7f}' {
        is_letter(c)
    } else {
        is_alphabetic(c)
    }
}

fn digit_value(c: char) -> (d: u32)
    requires
        is_ascii_digit(c),
    ensures
        d == digit_of(c),
        d < 10,
{
    c as u32 - 48
}

/// The digits of a run stand for numbers below ten.
proof fn lemma_digit_values(src: Seq<char>, from: int, to: int)
    requires
        from <= to <= digits_end(src, from),
    ensures
        digits_below(digit_values(src, from, to), 10),
        digit_values(src, from, to).len() == to - from,
{
    lemma_digits_end(src, from);
    let values = digit_values(src, from, to);
    assert forall|i: int| 0 <= i < values.len() implies (#[trigger] values[i]) < 10 by {
        assert(is_ascii_digit(src[from + i]));
    }
}

fn symbol_of(c: char, before_eq: bool) -> (kind: TokenType)
    ensures
        kind == symbol_kind(c, before_eq),
{
    if c == '+' {
        TokenType::Plus
    } else if c == '-' {
        TokenType::Minus
    } else if c == '*' {
        TokenType::Star
    } else if c == '/' {
        TokenType::Over
    } else if c == ':' {
        TokenType::Colon
    } else if c == ';' {
        TokenType::Semi
    } else if c == '^' {
        TokenType::Up
    } else if c == '!' {
        if before_eq {
            TokenType::NotEq
        } else {
            TokenType::Not
        }
    } else if c == '=' {
        TokenType::Eq
    } else if c == '>' {
        if before_eq {
            TokenType::GreaterEq
        } else {
            TokenType::Greater
        }
    } else if c == '<' {
        if before_eq {
            TokenType::LessEq
        } else {
            TokenType::Less
        }
    } else if c == '(' {
        TokenType::LParen
    } else if c == ')' {
        TokenType::RParen
    } else if c == '{' {
        TokenType::LBrace
    } else if c == '}' {
        TokenType::RBrace
    } else {
        TokenType::Unknown
    }
}

/// The kind of a word: a keyword, or an identifier.
pub fn kind_of_word(text: &String) -> (kind: TokenType)
    ensures
        kind == word_kind(text@),
{
    let state = Token::operator(TokenType::State);
    let and = Token::operator(TokenType::And);
    let or = Token::operator(TokenType::Or);
    if *text == state.lexeme {
        TokenType::State
    } else if *text == and.lexeme {
        TokenType::And
    } else if *text == or.lexeme {
        TokenType::Or
    } else {
        TokenType::Ident
    }
}

/// A scanner over one source text, with the tokens and statements read so
/// far.
#[derive(Debug)]
pub struct Syntax {
    src: &'static str,
    length: usize,
    tokens: Vec<Token>,
    stmts: Vec<Statement>,
    start: usize,
    current: usize,
    parser_current: usize,
}

impl Syntax {
    /// The source text.
    pub closed spec fn source(&self) -> Seq<char> {
        self.src@
    }

    /// The position of the next character to read.
    pub closed spec fn position(&self) -> int {
        self.current as int
    }

    /// The tokens read so far.
    pub closed spec fn read(&self) -> Seq<TokenForm> {
        token_forms(self.tokens@)
    }

    /// The statements read so far.
    pub closed spec fn statements(&self) -> Seq<StatementForm> {
        statement_forms(self.stmts@)
    }

    /// The number of tokens that have been read into statements.
    pub closed spec fn parsed_tokens(&self) -> int {
        self.parser_current as int
    }

    /// A scanner at the start of `src`, with nothing read.
    pub fn new(src: &'static str) -> (s: Syntax)
        ensures
            s.source() == src@,
            s.position() == 0,
            s.read() == Seq::<TokenForm>::empty(),
            s.statements() == Seq::<StatementForm>::empty(),
            s.parsed_tokens() == 0,
    {
        let s = Syntax {
            src,
            length: src.unicode_len(),
            tokens: Vec::new(),
            stmts: Vec::new(),
            start: 0,
            current: 0,
            parser_current: 0,
        };
        assert(s.read() =~= Seq::<TokenForm>::empty());
        assert(s.statements() =~= Seq::<StatementForm>::empty());
        s
    }

    /// Reads the rest of the source into tokens, the end of the input last;
    /// reads the tokens that no statement was read from yet into statements;
    /// and returns the statements read so far.
    pub fn analysis(&mut self) -> (stmts: &Vec<Statement>)
        ensures
            final(self).source() == old(self).source(),
            final(self).position() == (if old(self).position() < old(self).source().len() {
                old(self).source().len() as int
            } else {
                old(self).position()
            }),
            final(self).read() == old(self).read() + scan(
                old(self).source(),
                old(self).position(),
            ),
            final(self).statements() == old(self).statements() + parsed(
                final(self).read(),
                old(self).parsed_tokens(),
            ),
            final(self).parsed_tokens() == final(self).read().len(),
            statement_forms(stmts@) == final(self).statements(),
    {
        self.length = self.src.unicode_len();
        let ghost text = self.src@;
        let ghost all = token_forms(self.tokens@) + scan(text, self.current as int);
        while !self.is_eof()
            invariant
                text == self.src@,
                self.src == old(self).src,
                self.stmts == old(self).stmts,
                self.parser_current == old(self).parser_current,
                self.length == text.len(),
                old(self).current < text.len() ==> self.current <= self.length,
                old(self).current >= text.len() ==> self.current == old(self).current,
                token_forms(self.tokens@) + scan(text, self.current as int) == all,
            decreases self.length - self.current,
        {
            self.start = self.current;
            let ghost before = token_forms(self.tokens@);
            let ghost from = self.current as int;
            proof {
                lemma_token_end(text, from);
            }
            let c = self.advance_token();
            if is_digit(c) {
                self.lex_number(c);
            } else if is_letter(c) {
                self.lex_ident();
            } else {
                let before_eq = self.peek() == '=';
                if before_eq && (c == '!' || c == '>' || c == '<') {
                    self.advance_token();
                }
                self.push_token(symbol_of(c, before_eq), None);
            }
            proof {
                let rest = scan(text, self.current as int);
                let made = token_forms(self.tokens@).last();
                assert(self.current == token_end(text, from));
                assert(scan(text, from) == seq![made] + rest);
                assert(token_forms(self.tokens@) + rest =~= before + (seq![made] + rest));
            }
        }
        let ghost before = token_forms(self.tokens@);
        proof {
            reveal_strlit("\0");
            assert("\0"@ =~= end_text());
        }
        self.tokens.push(Token { token: TokenType::EoF, lexeme: "\0".to_owned(), lt: None });
        assert(token_forms(self.tokens@) =~= before + scan(text, self.current as int));
        self.semantics()
    }

    fn char_is(&self, pos: usize, c: char) -> (b: bool)
        requires
            self.length == self.src@.len(),
        ensures
            b == holds(self.src@, pos as int, c),
    {
        pos < self.length && self.src.get_char(pos) == c
    }

    fn digits_from(&self, from: usize) -> (r: (usize, Vec<u32>))
        requires
            self.length == self.src@.len(),
            from <= self.length,
        ensures
            r.0 == digits_end(self.src@, from as int),
            from <= r.0 <= self.length,
            r.1@ == digit_values(self.src@, from as int, r.0 as int),
            digits_below(r.1@, 10),
    {
        let ghost text = self.src@;
        let mut values: Vec<u32> = Vec::new();
        let mut i = from;
        assert(values@ =~= digit_values(text, from as int, from as int));
        while i < self.length && is_digit(self.src.get_char(i))
            invariant
                text == self.src@,
                self.length == text.len(),
                from <= i <= self.length,
                digits_end(text, i as int) == digits_end(text, from as int),
                values@ == digit_values(text, from as int, i as int),
            decreases self.length - i,
        {
            let d = digit_value(self.src.get_char(i));
            values.push(d);
            i = i + 1;
            assert(values@ =~= digit_values(text, from as int, i as int));
        }
        proof {
            lemma_digit_values(text, from as int, i as int);
        }
        (i, values)
    }

    fn lex_number(&mut self, c: char)
        requires
            old(self).length == old(self).src@.len(),
            old(self).start < old(self).length,
            old(self).current == old(self).start + 1,
            is_ascii_digit(c),
            c == old(self).src@[old(self).start as int],
        ensures
            final(self).src == old(self).src,
            final(self).length == old(self).length,
            final(self).stmts == old(self).stmts,
            final(self).parser_current == old(self).parser_current,
            final(self).start == old(self).start,
            final(self).current == number_end(old(self).src@, old(self).start as int),
            token_forms(final(self).tokens@) == token_forms(old(self).tokens@).push(
                TokenForm {
                    token: TokenType::Number,
                    lexeme: old(self).src@.subrange(
                        old(self).start as int,
                        final(self).current as int,
                    ),
                    lt: Some(number_form(old(self).src@, old(self).start as int)),
                },
            ),
    {
        let ghost text = self.src@;
        let ghost parts = number_parts(text, self.start as int);
        proof {
            lemma_number_end(text, self.start as int);
        }
        let limit: usize = 0xffff_ffff;
        let start = self.start;
        let (whole_end, mut digits) = self.digits_from(start);
        let ghost whole = digits@;
        let mut point = false;
        let mut fraction_end = whole_end;
        if self.char_is(whole_end, '.') {
            let (after, mut more) = self.digits_from(whole_end + 1);
            if after - whole_end - 1 <= limit {
                point = true;
                fraction_end = after;
                digits.append(&mut more);
            }
        }
        let ghost with_fraction = digits@;
        let mut repeats = false;
        let mut repeat_end = fraction_end;
        let mut mantissa_end = fraction_end;
        if point && self.char_is(fraction_end, '(') {
            let (after, mut more) = self.digits_from(fraction_end + 1);
            if after > fraction_end + 1 && after - fraction_end - 1 <= limit && self.char_is(
                after,
                ')',
            ) {
                repeats = true;
                repeat_end = after;
                mantissa_end = after + 1;
                digits.append(&mut more);
            }
        }
        assert(point == parts.point && fraction_end == parts.fraction_end && repeats
            == parts.repeats && repeat_end == parts.repeat_end && mantissa_end
            == parts.mantissa_end);
        assert(digits@ =~= parts.digits);
        assert(digits_below(digits@, 10)) by {
            assert forall|i: int| 0 <= i < digits@.len() implies (#[trigger] digits@[i]) < 10 by {
                if i < whole.len() {
                    assert(digits@[i] == whole[i]);
                } else if i < with_fraction.len() {
                    assert(digits@[i] == with_fraction[i]);
                }
            }
        }
        let mut base: u32 = 10;
        let mut base_end = mantissa_end;
        let mut magnitude: Option<Natural> = None;
        if self.char_is(mantissa_end, '_') {
            let (after, written) = self.digits_from(mantissa_end + 1);
            if after > mantissa_end + 1 {
                match Natural::from_digits(&written, 10).unwrap().to_u64() {
                    Some(b) => {
                        if 2 <= b && b <= 0xffff_ffff {
                            match Natural::from_digits(&digits, b as u32) {
                                Some(m) => {
                                    base = b as u32;
                                    base_end = after;
                                    magnitude = Some(m);
                                },
                                None => {},
                            }
                        }
                    },
                    None => {},
                }
            }
        }
        assert(base_end == parts.base_end && base == parts.base);
        let magnitude = match magnitude {
            Some(m) => m,
            None => Natural::from_digits(&digits, 10).unwrap(),
        };
        let mut power: u64 = 0;
        let mut raised = false;
        let mut end = base_end;
        if self.char_is(base_end, 'e') {
            let (after, written) = self.digits_from(base_end + 1);
            if after > base_end + 1 {
                match Natural::from_digits(&written, 10).unwrap().to_u64() {
                    Some(p) => {
                        if p <= 0x7fff_ffff_ffff_ffff {
                            raised = true;
                            power = p;
                            end = after;
                        }
                    },
                    None => {},
                }
            }
        }
        assert(raised == parts.raised && power == parts.power && end == parts.end);
        let behind: usize = if point {
            repeat_end - whole_end - 1 - (if repeats {
                1usize
            } else {
                0usize
            })
        } else {
            0
        };
        let exponent: Option<i64> = if point || raised {
            Some(power as i64 - behind as i64)
        } else {
            None
        };
        let period: Option<u32> = if repeats {
            Some((repeat_end - fraction_end - 1) as u32)
        } else {
            None
        };
        let value = NumericValue::literal(true, magnitude, base, period, exponent).unwrap();
        assert(value@ == number_form(text, self.start as int));
        self.current = end;
        self.push_token(TokenType::Number, Some(value));
    }

    fn lex_ident(&mut self)
        requires
            old(self).length == old(self).src@.len(),
            old(self).start < old(self).current <= old(self).length,
        ensures
            final(self).src == old(self).src,
            final(self).length == old(self).length,
            final(self).stmts == old(self).stmts,
            final(self).parser_current == old(self).parser_current,
            final(self).start == old(self).start,
            final(self).current == word_end(old(self).src@, old(self).current as int),
            old(self).current <= final(self).current <= final(self).length,
            token_forms(final(self).tokens@) == token_forms(old(self).tokens@).push(
                TokenForm {
                    token: word_kind(
                        old(self).src@.subrange(old(self).start as int, final(self).current as int),
                    ),
                    lexeme: old(self).src@.subrange(
                        old(self).start as int,
                        final(self).current as int,
                    ),
                    lt: None,
                },
            ),
    {
        let ghost text = self.src@;
        let ghost from = self.current as int;
        while self.current < self.length && is_word_char(self.peek())
            invariant
                text == self.src@,
                self.src == old(self).src,
                self.length == text.len(),
                self.stmts == old(self).stmts,
                self.parser_current == old(self).parser_current,
                self.tokens == old(self).tokens,
                self.start == old(self).start,
                self.start < self.current <= self.length,
                from <= self.current,
                word_end(text, self.current as int) == word_end(text, from),
            decreases self.length - self.current,
        {
            self.advance_token();
        }
        let sub = self.src.substring_char(self.start, self.current).to_owned();
        let kind = kind_of_word(&sub);
        self.push_token(kind, None);
    }

    fn semantics(&mut self) -> (stmts: &Vec<Statement>)
        ensures
            final(self).src == old(self).src,
            final(self).current == old(self).current,
            final(self).tokens == old(self).tokens,
            statement_forms(final(self).stmts@) == statement_forms(old(self).stmts@) + parsed(
                token_forms(old(self).tokens@),
                old(self).parser_current as int,
            ),
            final(self).parser_current == old(self).tokens@.len(),
            stmts == final(self).stmts,
    {
        let mut more = parse_statements(&self.tokens, self.parser_current);
        let ghost before = statement_forms(self.stmts@);
        let ghost added = statement_forms(more@);
        self.stmts.append(&mut more);
        assert(statement_forms(self.stmts@) =~= before + added);
        self.parser_current = self.tokens.len();
        &self.stmts
    }

    fn is_eof(&self) -> (r: bool)
        ensures
            r == (self.current >= self.length),
    {
        self.current >= self.length
    }

    fn advance_token(&mut self) -> (c: char)
        requires
            old(self).length == old(self).src@.len(),
            old(self).current < old(self).length,
        ensures
            c == old(self).src@[old(self).current as int],
            final(self).current == old(self).current + 1,
            final(self).src == old(self).src,
            final(self).length == old(self).length,
            final(self).tokens == old(self).tokens,
            final(self).stmts == old(self).stmts,
            final(self).parser_current == old(self).parser_current,
            final(self).start == old(self).start,
    {
        let c = self.peek();
        self.current = self.current + 1;
        c
    }

    fn push_token(&mut self, token: TokenType, lt: Option<NumericValue>)
        requires
            old(self).length == old(self).src@.len(),
            old(self).start <= old(self).current <= old(self).length,
        ensures
            final(self).src == old(self).src,
            final(self).length == old(self).length,
            final(self).stmts == old(self).stmts,
            final(self).parser_current == old(self).parser_current,
            final(self).start == old(self).start,
            final(self).current == old(self).current,
            token_forms(final(self).tokens@) == token_forms(old(self).tokens@).push(
                TokenForm {
                    token,
                    lexeme: old(self).src@.subrange(
                        old(self).start as int,
                        old(self).current as int,
                    ),
                    lt: value_form(lt),
                },
            ),
    {
        let lexeme = self.src.substring_char(self.start, self.current).to_owned();
        let ghost before = token_forms(self.tokens@);
        let ghost carried = value_form(lt);
        self.tokens.push(Token { token, lexeme, lt });
        assert(token_forms(self.tokens@) =~= before.push(
            TokenForm {
                token,
                lexeme: self.src@.subrange(self.start as int, self.current as int),
                lt: carried,
            },
        ));
    }

    fn peek(&self) -> (c: char)
        requires
            self.length == self.src@.len(),
        ensures
            self.current < self.length ==> c == self.src@[self.current as int],
            self.current >= self.length ==> c == '\0',
    {
        if self.current < self.length {
            self.src.get_char(self.current)
        } else {
            '\0'
        }
    }

    /// The tokens read so far.
    pub fn tokens(&self) -> (r: &Vec<Token>)
        ensures
            token_forms(r@) == self.read(),
    {
        &self.tokens
    }

    /// The statements read so far.
    pub fn statements_read(&self) -> (r: &Vec<Statement>)
        ensures
            statement_forms(r@) == self.statements(),
    {
        &self.stmts
    }
}

} // verus!
