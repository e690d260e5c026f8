use vstd::prelude::*;

use crate::editor::stylization::{
    balise_at, overlays_at, positions, Balise, Stylization, EMPTY_BALISE, IDENTIFIER_BALISE,
    LITERAL_KEYWORD_BALISE, LITERAL_NUMERICAL_BALISE, LITERAL_STRING_BALISE, LITERAL_UNIT_BALISE,
    OPERATOR_BALISE, STRUCTURAL_BALISE,
};
use crate::interpreter::ast::literal_value::{LiteralValue, LiteralView};
use crate::interpreter::operator::Operator;
use crate::interpreter::scope::AssignmentOperator;
use crate::number::{digit_value, digit_value_exec, parse_integer, parse_integer_spec};
use crate::text::{byte_len, char_width_exec, chars_of, copy_range, lemma_byte_len_concat, lemma_byte_len_encode, lemma_byte_len_push, push_char};

verus! {

// ---------------------------------------------------------------------------------------
// Character classes
// ---------------------------------------------------------------------------------------

/// Whether `c` has the Unicode property XID_Start (the result of
/// `unicode_ident::is_xid_start`).
pub uninterp spec fn xid_start(c: char) -> bool;

/// Whether `c` has the Unicode property XID_Continue (the result of
/// `unicode_ident::is_xid_continue`).
pub uninterp spec fn xid_continue(c: char) -> bool;

/// An ASCII letter.
pub open spec fn ascii_letter(c: char) -> bool {
    ('a' <= c && c <= 'z') || ('A' <= c && c <= 'Z')
}

/// `unicode_ident::is_xid_start`. Its result is named `xid_start`; on ASCII characters the
/// crate's table holds the letters and nothing else. Which other characters it holds is not
/// stated here: it is Unicode's table.
#[verifier::external_body]
fn is_xid_start(c: char) -> (r: bool)
    ensures
        r == xid_start(c),
        (c as u32) < 128 ==> (r <==> ascii_letter(c)),
{
    unicode_ident::is_xid_start(c)
}

/// `unicode_ident::is_xid_continue`. Its result is named `xid_continue`; on ASCII characters
/// the crate's table holds the letters, the digits and `_`. Which other characters it holds
/// is not stated here: it is Unicode's table.
#[verifier::external_body]
fn is_xid_continue(c: char) -> (r: bool)
    ensures
        r == xid_continue(c),
        (c as u32) < 128 ==> (r <==> (ascii_letter(c) || ('0' <= c && c <= '9') || c == '_')),
{
    unicode_ident::is_xid_continue(c)
}

/// The characters skipped between tokens: space, `\r`, vertical tab, `\t`, `\n`, form feed.
pub open spec fn is_space(c: char) -> bool {
    c == ' ' || c == '\r' || c == '\x0B' || c == '\t' || c == '\n' || c == '\x0C'
}

/// The classes of characters that the lexer reads in runs.
#[derive(Clone, Copy)]
pub enum CharClass {
    Space,
    Digit(u32),
    XidStart,
    XidContinue,
}

pub open spec fn in_class(c: char, k: CharClass) -> bool {
    match k {
        CharClass::Space => is_space(c),
        CharClass::Digit(radix) => digit_value(c, radix as nat) is Some,
        CharClass::XidStart => xid_start(c),
        CharClass::XidContinue => xid_continue(c),
    }
}

/// The character at `k`, or `'\0'` (which starts nothing) outside `s`.
pub open spec fn char_at(s: Seq<char>, k: int) -> char {
    if 0 <= k < s.len() {
        s[k]
    } else {
        '\0'
    }
}

/// Number of characters of class `k` in a row from `i`.
pub open spec fn run(s: Seq<char>, i: int, k: CharClass) -> nat
    decreases s.len() - i,
{
    if 0 <= i < s.len() && in_class(s[i], k) {
        1 + run(s, i + 1, k)
    } else {
        0
    }
}

proof fn lemma_run_bound(s: Seq<char>, i: int, k: CharClass)
    requires
        0 <= i,
    ensures
        i + run(s, i, k) <= s.len() || run(s, i, k) == 0,
        run(s, i, k) > 0 ==> i < s.len(),
    decreases s.len() - i,
{
    if 0 <= i < s.len() && in_class(s[i], k) {
        lemma_run_bound(s, i + 1, k);
    }
}

fn in_class_exec(c: char, k: CharClass) -> (r: bool)
    requires
        k matches CharClass::Digit(radix) ==> 2 <= radix <= 36,
    ensures
        r == in_class(c, k),
{
    match k {
        CharClass::Space => c == ' ' || c == '\r' || c == '\x0B' || c == '\t' || c == '\n' || c
            == '\x0C',
        CharClass::Digit(radix) => digit_value_exec(c, radix).is_some(),
        CharClass::XidStart => is_xid_start(c),
        CharClass::XidContinue => is_xid_continue(c),
    }
}

fn run_exec(chars: &Vec<char>, i: usize, k: CharClass) -> (n: usize)
    requires
        k matches CharClass::Digit(radix) ==> 2 <= radix <= 36,
    ensures
        n == run(chars@, i as int, k),
        n > 0 ==> i + n <= chars@.len(),
{
    let mut j = i;
    while j < chars.len() && in_class_exec(chars[j], k)
        invariant
            i <= j,
            j <= chars@.len() || j == i,
            run(chars@, i as int, k) == (j - i) + run(chars@, j as int, k),
            k matches CharClass::Digit(radix) ==> 2 <= radix <= 36,
        decreases chars@.len() - j,
    {
        j += 1;
    }
    j - i
}

fn char_at_exec(chars: &Vec<char>, k: usize) -> (c: char)
    ensures
        c == char_at(chars@, k as int),
{
    if k < chars.len() {
        chars[k]
    } else {
        '\0'
    }
}

// ---------------------------------------------------------------------------------------
// Tokens
// ---------------------------------------------------------------------------------------

/// What the lexer reports where no token can be read.
#[derive(Default, Debug, Clone, Copy, PartialEq, Eq, Structural)]
pub enum LexicalError {
    #[default]
    InvalidToken,
}

/// Punctuation that gives a program its structure.
#[derive(Debug, Clone, Copy, PartialEq, Eq, Structural)]
pub enum StructuralToken {
    LParenthesis,
    RParenthesis,
    LBracket,
    RBracket,
    LBrace,
    RBrace,
    Arraow,
    Comma,
    Semicolon,
    Dot,
    Dollar,
    Percent,
}

/// A token of the language.
#[derive(Debug, PartialEq, Clone)]
pub enum Token {
    StructuralToken(StructuralToken),
    AssignmentOperator(AssignmentOperator),
    LiteralNumerical(LiteralValue),
    LiteralKeyword(LiteralValue),
    LiteralString(LiteralValue),
    LiteralUnit(LiteralValue),
    AdditiveOperator(Operator),
    SubtractiveOperator(Operator),
    MultiplicativeOperator(Operator),
    PowerOperator(Operator),
    VectorMultiplicativeOperator(Operator),
    BooleanOperator(Operator),
    ComparatorOperator(Operator),
    Identifier(String),
    RawError,
}

/// A token, with its texts as character sequences.
pub enum TokenView {
    StructuralToken(StructuralToken),
    AssignmentOperator(AssignmentOperator),
    LiteralNumerical(LiteralView),
    LiteralKeyword(LiteralView),
    LiteralString(LiteralView),
    LiteralUnit(LiteralView),
    AdditiveOperator(Operator),
    SubtractiveOperator(Operator),
    MultiplicativeOperator(Operator),
    PowerOperator(Operator),
    VectorMultiplicativeOperator(Operator),
    BooleanOperator(Operator),
    ComparatorOperator(Operator),
    Identifier(Seq<char>),
    RawError,
}

impl View for Token {
    type V = TokenView;

    open spec fn view(&self) -> TokenView {
        match self {
            Token::StructuralToken(t) => TokenView::StructuralToken(*t),
            Token::AssignmentOperator(o) => TokenView::AssignmentOperator(*o),
            Token::LiteralNumerical(l) => TokenView::LiteralNumerical(l@),
            Token::LiteralKeyword(l) => TokenView::LiteralKeyword(l@),
            Token::LiteralString(l) => TokenView::LiteralString(l@),
            Token::LiteralUnit(l) => TokenView::LiteralUnit(l@),
            Token::AdditiveOperator(o) => TokenView::AdditiveOperator(*o),
            Token::SubtractiveOperator(o) => TokenView::SubtractiveOperator(*o),
            Token::MultiplicativeOperator(o) => TokenView::MultiplicativeOperator(*o),
            Token::PowerOperator(o) => TokenView::PowerOperator(*o),
            Token::VectorMultiplicativeOperator(o) => TokenView::VectorMultiplicativeOperator(*o),
            Token::BooleanOperator(o) => TokenView::BooleanOperator(*o),
            Token::ComparatorOperator(o) => TokenView::ComparatorOperator(*o),
            Token::Identifier(t) => TokenView::Identifier(t@),
            Token::RawError => TokenView::RawError,
        }
    }
}

/// The classes with which a token is shown in the editor.
pub open spec fn token_balise(t: TokenView) -> Balise {
    match t {
        TokenView::LiteralNumerical(_) => LITERAL_NUMERICAL_BALISE,
        TokenView::LiteralKeyword(_) => LITERAL_KEYWORD_BALISE,
        TokenView::LiteralString(_) => LITERAL_STRING_BALISE,
        TokenView::LiteralUnit(_) => LITERAL_UNIT_BALISE,
        TokenView::Identifier(_) => IDENTIFIER_BALISE,
        TokenView::StructuralToken(_) => STRUCTURAL_BALISE,
        TokenView::AssignmentOperator(_) => STRUCTURAL_BALISE,
        TokenView::AdditiveOperator(_) => OPERATOR_BALISE,
        TokenView::SubtractiveOperator(_) => OPERATOR_BALISE,
        TokenView::MultiplicativeOperator(_) => OPERATOR_BALISE,
        TokenView::PowerOperator(_) => OPERATOR_BALISE,
        TokenView::VectorMultiplicativeOperator(_) => OPERATOR_BALISE,
        TokenView::BooleanOperator(_) => OPERATOR_BALISE,
        TokenView::ComparatorOperator(_) => OPERATOR_BALISE,
        TokenView::RawError => EMPTY_BALISE,
    }
}

/// Each kind of token has one class: punctuation and assignments are structural; arithmetic,
/// vector, boolean and comparison operators are operators; each kind of literal has its own
/// class, and so do identifiers; an error token has none.
pub proof fn lemma_token_classes(t: TokenView)
    ensures
        (t is StructuralToken || t is AssignmentOperator) <==> token_balise(t) == STRUCTURAL_BALISE,
        (t is AdditiveOperator || t is SubtractiveOperator || t is MultiplicativeOperator
            || t is PowerOperator || t is VectorMultiplicativeOperator || t is BooleanOperator
            || t is ComparatorOperator) <==> token_balise(t) == OPERATOR_BALISE,
        t is LiteralNumerical <==> token_balise(t) == LITERAL_NUMERICAL_BALISE,
        t is LiteralKeyword <==> token_balise(t) == LITERAL_KEYWORD_BALISE,
        t is LiteralString <==> token_balise(t) == LITERAL_STRING_BALISE,
        t is LiteralUnit <==> token_balise(t) == LITERAL_UNIT_BALISE,
        t is Identifier <==> token_balise(t) == IDENTIFIER_BALISE,
        t is RawError <==> token_balise(t) == EMPTY_BALISE,
{
}

impl Token {
    /// The classes with which the token is shown in the editor.
    pub fn get_balise(&self) -> (r: usize)
        ensures
            r == token_balise(self@),
    {
        match self {
            Token::LiteralNumerical(_) => LITERAL_NUMERICAL_BALISE,
            Token::LiteralKeyword(_) => LITERAL_KEYWORD_BALISE,
            Token::LiteralString(_) => LITERAL_STRING_BALISE,
            Token::LiteralUnit(_) => LITERAL_UNIT_BALISE,
            Token::Identifier(_) => IDENTIFIER_BALISE,
            Token::StructuralToken(_) => STRUCTURAL_BALISE,
            Token::AssignmentOperator(_) => STRUCTURAL_BALISE,
            Token::AdditiveOperator(_) => OPERATOR_BALISE,
            Token::SubtractiveOperator(_) => OPERATOR_BALISE,
            Token::MultiplicativeOperator(_) => OPERATOR_BALISE,
            Token::PowerOperator(_) => OPERATOR_BALISE,
            Token::VectorMultiplicativeOperator(_) => OPERATOR_BALISE,
            Token::BooleanOperator(_) => OPERATOR_BALISE,
            Token::ComparatorOperator(_) => OPERATOR_BALISE,
            Token::RawError => EMPTY_BALISE,
        }
    }
}

// ---------------------------------------------------------------------------------------
// Literal texts
// ---------------------------------------------------------------------------------------

/// Index of the first sign or decimal digit of `t` at or after `k`, or `t.len()`.
pub open spec fn unit_split(t: Seq<char>, k: int) -> int
    decreases t.len() - k,
{
    if k < 0 || k >= t.len() {
        t.len() as int
    } else if t[k] == '+' || t[k] == '-' || ('0' <= t[k] && t[k] <= '9') {
        k
    } else {
        unit_split(t, k + 1)
    }
}

/// A unit written as a name, then an exponent: the name runs up to the first sign or digit,
/// the rest is read as an `i32`; without a rest, or where it cannot be read, the exponent
/// is one.
pub open spec fn unit_literal(t: Seq<char>) -> LiteralView {
    let split = unit_split(t, 0);
    let exponent: i32 = if split == t.len() {
        1
    } else {
        match parse_integer_spec(t.skip(split), 10, i32::MIN as int, i32::MAX as int) {
            Some(v) => v as i32,
            None => 1,
        }
    };
    LiteralView::Unit(t.take(split), exponent)
}

/// Splits a unit written as a name and an exponent (`m2`, `s-1`, `kg`).
pub fn parse_unit(input: &str) -> (r: LiteralValue)
    ensures
        r@ == unit_literal(input@),
{
    let chars = chars_of(input);
    unit_of_chars(&chars)
}

fn unit_of_chars(chars: &Vec<char>) -> (r: LiteralValue)
    ensures
        r@ == unit_literal(chars@),
{
    let ghost t = chars@;
    let mut split: usize = 0;
    while split < chars.len() && !(chars[split] == '+' || chars[split] == '-' || ('0' <= chars[split]
        && chars[split] <= '9'))
        invariant
            chars@ == t,
            split <= t.len(),
            unit_split(t, 0) == unit_split(t, split as int),
        decreases t.len() - split,
    {
        split += 1;
    }
    let mut unit = String::new();
    crate::text::push_chars(&mut unit, chars, 0, split);
    assert(unit@ =~= t.take(split as int));
    let exponent: i32 = if split == chars.len() {
        1
    } else {
        let rest = copy_range(chars, split, chars.len());
        assert(rest@ =~= t.skip(split as int));
        match parse_integer(rest.as_slice(), 10, i32::MIN as i128, i32::MAX as i128) {
            Some(v) => v as i32,
            None => 1,
        }
    };
    LiteralValue::Unit(unit, exponent)
}

/// A character code that names a character: at most `0x10FFFF`, outside the surrogates.
pub open spec fn valid_code(v: int) -> bool {
    0 <= v <= 0x10FFFF && !(0xD800 <= v <= 0xDFFF)
}

/// `char::from_u32`: the character with code `v`, where `v` names one.
#[verifier::external_body]
fn char_from_code(v: u32) -> (r: Option<char>)
    ensures
        r == (if valid_code(v as int) {
            Some(v as char)
        } else {
            None
        }),
{
    char::from_u32(v)
}

/// The character an escape gives from the hexadecimal digits `hex`, read as an integer of at
/// most `max`; `None` where they cannot be read or name no character.
pub open spec fn escaped_char(hex: Seq<char>, max: int) -> Option<char> {
    match parse_integer_spec(hex, 16, 0, max) {
        Some(v) => if valid_code(v) {
            Some(v as char)
        } else {
            None
        },
        None => None,
    }
}

/// Number of hexadecimal digits that the escape letter `n` reads (0 for other escapes).
pub open spec fn escape_width(n: char) -> int {
    if n == 'x' {
        2
    } else if n == 'u' {
        4
    } else if n == 'U' {
        8
    } else {
        0
    }
}

/// The largest code that the escape letter `n` reads.
pub open spec fn escape_max(n: char) -> int {
    if n == 'x' {
        255
    } else {
        u32::MAX as int
    }
}

/// The character a one-letter escape `\n` gives.
pub open spec fn simple_escape(n: char) -> char {
    if n == 'n' {
        '\n'
    } else if n == 't' {
        '\t'
    } else if n == 'r' {
        '\r'
    } else {
        n
    }
}

/// The text of a string literal from index `j` of its source `s`, whose last character is
/// the closing quote: the characters up to that quote, with escapes replaced by what they
/// stand for. `None` where an escape `\\x`, `\\u` or `\\U` is not followed by the code of a
/// character (the digits of such an escape are read even where they reach the closing quote).
pub open spec fn unescape(s: Seq<char>, j: int) -> Option<Seq<char>>
    decreases s.len() - j,
{
    if j < 0 || j + 1 >= s.len() {
        Some(Seq::empty())
    } else if s[j] == '\\' {
        let n = s[j + 1];
        let w = escape_width(n);
        if w > 0 {
            let end = if j + 2 + w <= s.len() {
                j + 2 + w
            } else {
                s.len() as int
            };
            match escaped_char(s.subrange(j + 2, end), escape_max(n)) {
                Some(c) => match unescape(s, end) {
                    Some(r) => Some(seq![c] + r),
                    None => None,
                },
                None => None,
            }
        } else {
            match unescape(s, j + 2) {
                Some(r) => Some(seq![simple_escape(n)] + r),
                None => None,
            }
        }
    } else {
        match unescape(s, j + 1) {
            Some(r) => Some(seq![s[j]] + r),
            None => None,
        }
    }
}

/// The text of the string literal written `s` (between its opening quote, its first
/// character, and its closing quote, its last): the quotes are dropped, every other
/// character kept, escapes replaced.
pub open spec fn string_text(s: Seq<char>) -> Option<Seq<char>> {
    unescape(s, 1)
}

spec fn prefixed(out: Seq<char>, r: Option<Seq<char>>) -> Option<Seq<char>> {
    match r {
        Some(t) => Some(out + t),
        None => None,
    }
}

/// The text of the string literal written `s` (quotes dropped, escapes replaced), or `None`
/// where an escape names no character.
fn parse_string(s: &Vec<char>) -> (r: Option<String>)
    ensures
        r matches Some(t) ==> string_text(s@) == Some(t@),
        r is None ==> string_text(s@) is None,
{
    let mut out = String::new();
    let mut j: usize = 1;
    assert(unescape(s@, 1) == prefixed(out@, unescape(s@, 1))) by {
        assert(Seq::<char>::empty() + unescape(s@, 1)->0 =~= unescape(s@, 1)->0);
    }
    while j < s.len() && s.len() - j > 1
        invariant
            1 <= j <= s@.len() || s@.len() == 0,
            unescape(s@, 1) == prefixed(out@, unescape(s@, j as int)),
        decreases s@.len() - j,
    {
        let c = s[j];
        if c == '\\' {
            let n = s[j + 1];
            if n == 'x' || n == 'u' || n == 'U' {
                let w: usize = if n == 'x' {
                    2
                } else if n == 'u' {
                    4
                } else {
                    8
                };
                let end: usize = if w <= s.len() - (j + 2) {
                    j + 2 + w
                } else {
                    s.len()
                };
                let max: i128 = if n == 'x' {
                    255
                } else {
                    0xFFFF_FFFF
                };
                let hex = copy_range(s, j + 2, end);
                let code = match parse_integer(hex.as_slice(), 16, 0, max) {
                    Some(v) => v as u32,
                    None => {
                        return None;
                    },
                };
                let ch = match char_from_code(code) {
                    Some(ch) => ch,
                    None => {
                        return None;
                    },
                };
                proof {
                    let rest = unescape(s@, end as int);
                    assert(prefixed(out@.push(ch), rest) == prefixed(out@, prefixed(seq![ch], rest))) by {
                        if rest is Some {
                            assert(out@.push(ch) + rest->0 =~= out@ + (seq![ch] + rest->0));
                        }
                    }
                }
                push_char(&mut out, ch);
                j = end;
            } else {
                let ch = if n == 'n' {
                    '\n'
                } else if n == 't' {
                    '\t'
                } else if n == 'r' {
                    '\r'
                } else {
                    n
                };
                proof {
                    let rest = unescape(s@, j + 2);
                    assert(prefixed(out@.push(ch), rest) == prefixed(out@, prefixed(seq![ch], rest))) by {
                        if rest is Some {
                            assert(out@.push(ch) + rest->0 =~= out@ + (seq![ch] + rest->0));
                        }
                    }
                }
                push_char(&mut out, ch);
                j = j + 2;
            }
        } else {
            proof {
                let rest = unescape(s@, j + 1);
                assert(prefixed(out@.push(c), rest) == prefixed(out@, prefixed(seq![c], rest))) by {
                    if rest is Some {
                        assert(out@.push(c) + rest->0 =~= out@ + (seq![c] + rest->0));
                    }
                }
            }
            push_char(&mut out, c);
            j += 1;
        }
    }
    assert(out@ + Seq::<char>::empty() =~= out@);
    Some(out)
}

// ---------------------------------------------------------------------------------------
// What the lexer reads at a position
// ---------------------------------------------------------------------------------------

/// What the text holds at a position: something skipped (blanks, a comment), a token, text
/// that makes no token (a character that starts none, or a string that is not closed), or a
/// literal whose reading fails (an integer beyond
/// `i64`, an exponent without digits, an escape that names no character).
pub enum Lexeme {
    Skip,
    Token(TokenView),
    Invalid,
    Fails,
}

/// Index of the first `*/` whose star is at or after `j`.
pub open spec fn comment_end(s: Seq<char>, j: int) -> Option<int>
    decreases s.len() - j,
{
    if j < 0 || j + 1 >= s.len() {
        None
    } else if s[j] == '*' && s[j + 1] == '/' {
        Some(j)
    } else {
        comment_end(s, j + 1)
    }
}

/// Index of the quote `q` that closes a string whose body goes on at `j`: the body holds
/// characters other than `q` and `\\`, and escapes (a `\\` and any character but a line
/// feed).
pub open spec fn string_end(s: Seq<char>, j: int, q: char) -> Option<int>
    decreases s.len() - j,
{
    if j < 0 || j >= s.len() {
        None
    } else if s[j] == q {
        Some(j)
    } else if s[j] == '\\' {
        if j + 1 < s.len() && s[j + 1] != '\n' {
            string_end(s, j + 2, q)
        } else {
            None
        }
    } else {
        string_end(s, j + 1, q)
    }
}

/// Where reading a string whose body goes on at `j` stops, when no quote `q` closes it: at
/// the end of the text, or at a `\\` that ends the text or is followed by a line feed.
pub open spec fn string_stop(s: Seq<char>, j: int, q: char) -> int
    decreases s.len() - j,
{
    if j < 0 || j >= s.len() {
        s.len() as int
    } else if s[j] == q {
        j
    } else if s[j] == '\\' {
        if j + 1 < s.len() && s[j + 1] != '\n' {
            string_stop(s, j + 2, q)
        } else {
            j
        }
    } else {
        string_stop(s, j + 1, q)
    }
}

/// The keyword spelled `t`, if it is one.
pub open spec fn keyword(t: Seq<char>) -> Option<TokenView> {
    if t == seq!['t', 'r', 'u', 'e'] {
        Some(TokenView::LiteralKeyword(LiteralView::Bool(true)))
    } else if t == seq!['f', 'a', 'l', 's', 'e'] {
        Some(TokenView::LiteralKeyword(LiteralView::Bool(false)))
    } else if t == seq!['F', 'a', 'i', 'l', 'e', 'd'] {
        Some(TokenView::LiteralKeyword(LiteralView::Failed))
    } else if t == seq!['E', 'm', 'p', 't', 'y'] {
        Some(TokenView::LiteralKeyword(LiteralView::Empty))
    } else if t == seq!['d', 'o', 't'] {
        Some(TokenView::VectorMultiplicativeOperator(Operator::VectorDot))
    } else if t == seq!['d', 'e', 't'] {
        Some(TokenView::VectorMultiplicativeOperator(Operator::VectorDet))
    } else if t == seq!['c', 'r', 'o', 's', 's'] {
        Some(TokenView::VectorMultiplicativeOperator(Operator::VectorCross))
    } else if t == seq!['n', 'o', 't'] {
        Some(TokenView::BooleanOperator(Operator::BooleanNot))
    } else if t == seq!['a', 'n', 'd'] {
        Some(TokenView::BooleanOperator(Operator::BooleanAnd))
    } else if t == seq!['o', 'r'] {
        Some(TokenView::BooleanOperator(Operator::BooleanOr))
    } else if t == seq!['x', 'o', 'r'] {
        Some(TokenView::BooleanOperator(Operator::BooleanXor))
    } else if t == seq!['i', 'n'] {
        Some(TokenView::ComparatorOperator(Operator::ComparatorIn))
    } else if t == seq!['h', 'a', 's'] {
        Some(TokenView::ComparatorOperator(Operator::ComparatorHas))
    } else if t == seq!['i', 's'] {
        Some(TokenView::ComparatorOperator(Operator::ComparatorIs))
    } else {
        None
    }
}

/// Each keyword spells exactly one token, and no two keywords the same: `true`, `false`,
/// `Failed` and `Empty` are literal keywords; `dot`, `det` and `cross` the vector products;
/// `not`, `and`, `or` and `xor` the boolean operators; `in`, `has` and `is` comparisons.
pub proof fn lemma_keywords(w: Seq<char>)
    ensures
        keyword(w) == Some(TokenView::LiteralKeyword(LiteralView::Bool(true))) <==> w == seq![
            't',
            'r',
            'u',
            'e',
        ],
        keyword(w) == Some(TokenView::LiteralKeyword(LiteralView::Bool(false))) <==> w == seq![
            'f',
            'a',
            'l',
            's',
            'e',
        ],
        keyword(w) == Some(TokenView::LiteralKeyword(LiteralView::Failed)) <==> w == seq![
            'F',
            'a',
            'i',
            'l',
            'e',
            'd',
        ],
        keyword(w) == Some(TokenView::LiteralKeyword(LiteralView::Empty)) <==> w == seq![
            'E',
            'm',
            'p',
            't',
            'y',
        ],
        keyword(w) == Some(TokenView::VectorMultiplicativeOperator(Operator::VectorDot)) <==> w
            == seq!['d', 'o', 't'],
        keyword(w) == Some(TokenView::VectorMultiplicativeOperator(Operator::VectorDet)) <==> w
            == seq!['d', 'e', 't'],
        keyword(w) == Some(TokenView::VectorMultiplicativeOperator(Operator::VectorCross)) <==> w
            == seq!['c', 'r', 'o', 's', 's'],
        keyword(w) == Some(TokenView::BooleanOperator(Operator::BooleanNot)) <==> w == seq![
            'n',
            'o',
            't',
        ],
        keyword(w) == Some(TokenView::BooleanOperator(Operator::BooleanAnd)) <==> w == seq![
            'a',
            'n',
            'd',
        ],
        keyword(w) == Some(TokenView::BooleanOperator(Operator::BooleanOr)) <==> w == seq!['o', 'r'],
        keyword(w) == Some(TokenView::BooleanOperator(Operator::BooleanXor)) <==> w == seq![
            'x',
            'o',
            'r',
        ],
        keyword(w) == Some(TokenView::ComparatorOperator(Operator::ComparatorIn)) <==> w == seq![
            'i',
            'n',
        ],
        keyword(w) == Some(TokenView::ComparatorOperator(Operator::ComparatorHas)) <==> w == seq![
            'h',
            'a',
            's',
        ],
        keyword(w) == Some(TokenView::ComparatorOperator(Operator::ComparatorIs)) <==> w == seq![
            'i',
            's',
        ],
        forall|v: Seq<char>| #[trigger] keyword(v) is Some && keyword(v) == keyword(w) ==> v == w,
{
}

pub open spec fn dec() -> CharClass {
    CharClass::Digit(10)
}

/// An integer literal with digits `digits` in base `radix`: fails beyond `i64`.
pub open spec fn integer_lexeme(digits: Seq<char>, radix: nat) -> Lexeme {
    match parse_integer_spec(digits, radix, i64::MIN as int, i64::MAX as int) {
        Some(v) => Lexeme::Token(TokenView::LiteralNumerical(LiteralView::Integer(v as i64))),
        None => Lexeme::Fails,
    }
}

/// A decimal number with a fraction at `i`, whose integer part has `d` digits (and is
/// followed by a dot and at least one digit): its length, and whether its exponent, if it has
/// one, has digits.
pub open spec fn float_len(s: Seq<char>, i: int, d: int) -> (nat, bool) {
    let f = d + 1 + run(s, i + d + 1, dec());
    if char_at(s, i + f) == 'e' {
        let m: int = if char_at(s, i + f + 1) == '-' {
            1
        } else {
            0
        };
        let e = run(s, i + f + 1 + m, dec());
        ((f + 1 + m + e) as nat, e > 0)
    } else {
        (f as nat, true)
    }
}

/// The decimal number with a fraction at `i`, whose integer part has `d` digits.
pub open spec fn float_lexeme(s: Seq<char>, i: int, d: int) -> (nat, Lexeme) {
    let (n, ok) = float_len(s, i, d);
    (
        n,
        if ok {
            Lexeme::Token(TokenView::LiteralNumerical(LiteralView::Float(s.subrange(i, i + n))))
        } else {
            Lexeme::Fails
        },
    )
}

/// The base announced by the letter after a leading `0` (`x`, `b`, `o`), or 0.
pub open spec fn radix_letter(c: char) -> u32 {
    if c == 'x' {
        16
    } else if c == 'b' {
        2
    } else if c == 'o' {
        8
    } else {
        0
    }
}

/// What a digit at `i` starts: an integer in base 16, 2 or 8 after `0x`, `0b`, `0o`;
/// else a decimal number with a fraction; else a decimal integer.
pub open spec fn number_lexeme(s: Seq<char>, i: int) -> (nat, Lexeme) {
    let radix = radix_letter(char_at(s, i + 1));
    let p = if s[i] == '0' && radix != 0 {
        run(s, i + 2, CharClass::Digit(radix))
    } else {
        0
    };
    if p > 0 {
        ((2 + p) as nat, integer_lexeme(s.subrange(i + 2, i + 2 + p), radix as nat))
    } else {
        let d = run(s, i, dec());
        if char_at(s, i + d) == '.' && run(s, i + d + 1, dec()) > 0 {
            float_lexeme(s, i, d as int)
        } else {
            (d, integer_lexeme(s.subrange(i, i + d), 10))
        }
    }
}

/// A unit at the dot at `i`: letters (XID_Start), an optional sign, digits.
pub open spec fn unit_len(s: Seq<char>, i: int) -> nat {
    let a = run(s, i + 1, CharClass::XidStart);
    let sg: int = if char_at(s, i + 1 + a) == '+' || char_at(s, i + 1 + a) == '-' {
        1
    } else {
        0
    };
    (1 + a + sg + run(s, i + 1 + a + sg, dec())) as nat
}

/// What a dot at `i` starts: a number with a fraction, a unit, or the dot alone.
pub open spec fn dot_lexeme(s: Seq<char>, i: int) -> (nat, Lexeme) {
    if run(s, i + 1, dec()) > 0 {
        float_lexeme(s, i, 0)
    } else if run(s, i + 1, CharClass::XidStart) > 0 {
        let n = unit_len(s, i);
        (n, Lexeme::Token(TokenView::LiteralUnit(unit_literal(s.subrange(i + 1, i + n)))))
    } else {
        (1, Lexeme::Token(TokenView::StructuralToken(StructuralToken::Dot)))
    }
}

/// What a quote at `i` starts: a string, up to the quote that closes it; where none does,
/// nothing, up to where reading the string stopped.
pub open spec fn string_lexeme(s: Seq<char>, i: int) -> (nat, Lexeme) {
    match string_end(s, i + 1, s[i]) {
        Some(e) => (
            (e + 1 - i) as nat,
            match string_text(s.subrange(i, e + 1)) {
                Some(t) => Lexeme::Token(TokenView::LiteralString(LiteralView::String(t))),
                None => Lexeme::Fails,
            },
        ),
        None => ((string_stop(s, i + 1, s[i]) - i) as nat, Lexeme::Invalid),
    }
}

/// A word at `i`: a keyword where it spells one, else an identifier.
pub open spec fn word_lexeme(s: Seq<char>, i: int) -> (nat, Lexeme) {
    let n = 1 + run(s, i + 1, CharClass::XidContinue);
    let t = s.subrange(i, i + n);
    (
        n as nat,
        match keyword(t) {
            Some(k) => Lexeme::Token(k),
            None => Lexeme::Token(TokenView::Identifier(t)),
        },
    )
}

pub open spec fn structural(t: StructuralToken) -> Lexeme {
    Lexeme::Token(TokenView::StructuralToken(t))
}

pub open spec fn comparator(o: Operator) -> Lexeme {
    Lexeme::Token(TokenView::ComparatorOperator(o))
}

/// Punctuation and operators at `i`, the longest that the text spells.
pub open spec fn symbol_lexeme(s: Seq<char>, i: int) -> (nat, Lexeme) {
    let c = s[i];
    let c1 = char_at(s, i + 1);
    let c2 = char_at(s, i + 2);
    if c == '(' {
        (1, structural(StructuralToken::LParenthesis))
    } else if c == ')' {
        (1, structural(StructuralToken::RParenthesis))
    } else if c == '[' {
        (1, structural(StructuralToken::LBracket))
    } else if c == ']' {
        (1, structural(StructuralToken::RBracket))
    } else if c == '{' {
        (1, structural(StructuralToken::LBrace))
    } else if c == '}' {
        (1, structural(StructuralToken::RBrace))
    } else if c == ',' {
        (1, structural(StructuralToken::Comma))
    } else if c == ';' {
        (1, structural(StructuralToken::Semicolon))
    } else if c == '$' {
        (1, structural(StructuralToken::Dollar))
    } else if c == '%' {
        (1, structural(StructuralToken::Percent))
    } else if c == '-' {
        if c1 == '>' {
            (2, structural(StructuralToken::Arraow))
        } else {
            (1, Lexeme::Token(TokenView::SubtractiveOperator(Operator::ArithmeticSub)))
        }
    } else if c == ':' {
        if c1 == '+' && c2 == '+' {
            (3, Lexeme::Token(TokenView::AssignmentOperator(AssignmentOperator::Push)))
        } else if c1 == '=' {
            (2, Lexeme::Token(TokenView::AssignmentOperator(AssignmentOperator::Reassign)))
        } else {
            (1, Lexeme::Token(TokenView::AssignmentOperator(AssignmentOperator::Define)))
        }
    } else if c == '+' {
        (1, Lexeme::Token(TokenView::AdditiveOperator(Operator::ArithmeticAdd)))
    } else if c == '*' {
        (1, Lexeme::Token(TokenView::MultiplicativeOperator(Operator::ArithmeticMul)))
    } else if c == '^' {
        (1, Lexeme::Token(TokenView::PowerOperator(Operator::ArithmeticPow)))
    } else if c == '=' {
        (1, comparator(Operator::ComparatorEqual))
    } else if c == '!' && c1 == '=' {
        (2, comparator(Operator::ComparatorNotEqual))
    } else if c == '>' {
        if c1 == '=' {
            (2, comparator(Operator::ComparatorGreaterOrEqual))
        } else {
            (1, comparator(Operator::ComparatorGreaterThan))
        }
    } else if c == '<' {
        if c1 == '=' {
            (2, comparator(Operator::ComparatorLessOrEqual))
        } else {
            (1, comparator(Operator::ComparatorLessThan))
        }
    } else {
        (1, Lexeme::Invalid)
    }
}

/// What the text `s` holds at `i` (which is within it), and its length in characters. The
/// character at `i` decides the kind; each kind then reads as far as it can (blanks, digits,
/// letters), and a word that spells a keyword is that keyword.
pub open spec fn lexeme_at(s: Seq<char>, i: int) -> (nat, Lexeme) {
    let c = s[i];
    if is_space(c) {
        (run(s, i, CharClass::Space), Lexeme::Skip)
    } else if c == '/' {
        if char_at(s, i + 1) == '*' {
            match comment_end(s, i + 2) {
                Some(j) => ((j + 2 - i) as nat, Lexeme::Skip),
                None => (1, Lexeme::Token(TokenView::MultiplicativeOperator(Operator::ArithmeticDiv))),
            }
        } else {
            (1, Lexeme::Token(TokenView::MultiplicativeOperator(Operator::ArithmeticDiv)))
        }
    } else if '0' <= c && c <= '9' {
        number_lexeme(s, i)
    } else if c == '.' {
        dot_lexeme(s, i)
    } else if c == '"' || c == '\'' {
        string_lexeme(s, i)
    } else if xid_start(c) || c == '_' {
        word_lexeme(s, i)
    } else {
        symbol_lexeme(s, i)
    }
}

proof fn lemma_comment_end(s: Seq<char>, j: int)
    requires
        0 <= j,
    ensures
        comment_end(s, j) matches Some(k) ==> j <= k && k + 1 < s.len(),
    decreases s.len() - j,
{
    if j + 1 < s.len() && !(s[j] == '*' && s[j + 1] == '/') {
        lemma_comment_end(s, j + 1);
    }
}

proof fn lemma_string_end(s: Seq<char>, j: int, q: char)
    requires
        0 <= j,
    ensures
        string_end(s, j, q) matches Some(k) ==> j <= k < s.len(),
        string_end(s, j, q) is None ==> j <= string_stop(s, j, q) <= s.len() || (j > s.len()
            && string_stop(s, j, q) == s.len()),
    decreases s.len() - j,
{
    if j < s.len() && s[j] != q {
        if s[j] == '\\' {
            if j + 1 < s.len() && s[j + 1] != '\n' {
                lemma_string_end(s, j + 2, q);
            }
        } else {
            lemma_string_end(s, j + 1, q);
        }
    }
}

proof fn lemma_run_bounds(s: Seq<char>)
    ensures
        forall|i: int, k: CharClass|
            0 <= i ==> (i + #[trigger] run(s, i, k) <= s.len() || run(s, i, k) == 0) && (run(s, i, k) > 0 ==> i < s.len()),
{
    assert forall|i: int, k: CharClass| 0 <= i implies (i + #[trigger] run(s, i, k) <= s.len() || run(s, i, k) == 0) && (run(s, i, k) > 0 ==> i < s.len()) by {
        lemma_run_bound(s, i, k);
    }
}

/// Every lexeme has at least one character, and lies within the text.
pub proof fn lemma_lexeme_len(s: Seq<char>, i: int)
    requires
        0 <= i < s.len(),
    ensures
        1 <= lexeme_at(s, i).0,
        i + lexeme_at(s, i).0 <= s.len(),
{
    lemma_run_bounds(s);
    let c = s[i];
    if is_space(c) {
        assert(run(s, i, CharClass::Space) >= 1);
    } else if c == '/' {
        lemma_comment_end(s, i + 2);
    } else if '0' <= c && c <= '9' {
        assert(in_class(c, dec()));
        assert(run(s, i, dec()) >= 1);
    } else if c == '.' {
    } else if c == '"' || c == '\'' {
        lemma_string_end(s, i + 1, c);
    } else if xid_start(c) || c == '_' {
    } else {
    }
}

/// The next lexeme at or after `i` that is not skipped: its start, what it is, its end.
pub open spec fn next_lexeme(s: Seq<char>, i: int) -> Option<(int, Lexeme, int)>
    decreases s.len() - i,
{
    if i < 0 || i >= s.len() {
        None
    } else {
        let (n, k) = lexeme_at(s, i);
        proof {
            lemma_lexeme_len(s, i);
        }
        if k is Skip {
            next_lexeme(s, i + n)
        } else {
            Some((i, k, i + n))
        }
    }
}

pub proof fn lemma_next_lexeme(s: Seq<char>, i: int)
    ensures
        next_lexeme(s, i) matches Some((a, k, b)) ==> i <= a < b <= s.len() && k !is Skip && lexeme_at(s, a) == (
            (b - a) as nat,
            k,
        ),
    decreases s.len() - i,
{
    if 0 <= i < s.len() {
        lemma_lexeme_len(s, i);
        let (n, k) = lexeme_at(s, i);
        if k is Skip {
            lemma_next_lexeme(s, i + n);
        }
    }
}

/// No literal from `i` on fails to be read.
pub open spec fn lexable(s: Seq<char>, i: int) -> bool
    decreases s.len() - i,
{
    match next_lexeme(s, i) {
        None => true,
        Some((a, k, b)) => {
            proof {
                lemma_next_lexeme(s, i);
            }
            k !is Fails && lexable(s, b)
        },
    }
}

// ---------------------------------------------------------------------------------------
// Reading a lexeme
// ---------------------------------------------------------------------------------------

/// A lexeme as the lexer computes it.
enum Lexed {
    Skip,
    Token(Token),
    Invalid,
    Fails,
}

impl View for Lexed {
    type V = Lexeme;

    closed spec fn view(&self) -> Lexeme {
        match self {
            Lexed::Skip => Lexeme::Skip,
            Lexed::Token(t) => Lexeme::Token(t@),
            Lexed::Invalid => Lexeme::Invalid,
            Lexed::Fails => Lexeme::Fails,
        }
    }
}

/// The text is short enough for positions in it, and a few beyond, to fit in a `usize`.
pub open spec fn fits(s: Seq<char>) -> bool {
    s.len() <= isize::MAX as int
}

fn comment_end_exec(chars: &Vec<char>, j: usize) -> (r: Option<usize>)
    requires
        fits(chars@),
        j <= chars@.len() + 2,
    ensures
        r matches Some(k) ==> comment_end(chars@, j as int) == Some(k as int),
        r is None ==> comment_end(chars@, j as int) is None,
{
    let mut k = j;
    while k + 1 < chars.len()
        invariant
            fits(chars@),
            j <= k <= chars@.len() + 2,
            comment_end(chars@, j as int) == comment_end(chars@, k as int),
        decreases chars@.len() - k,
    {
        if chars[k] == '*' && chars[k + 1] == '/' {
            return Some(k);
        }
        k += 1;
    }
    None
}

fn string_end_exec(chars: &Vec<char>, j: usize, q: char) -> (r: Result<usize, usize>)
    requires
        fits(chars@),
        j <= chars@.len() + 2,
    ensures
        r matches Ok(k) ==> string_end(chars@, j as int, q) == Some(k as int),
        r matches Err(k) ==> string_end(chars@, j as int, q) is None && string_stop(chars@, j as int, q)
            == k as int,
{
    let mut k = j;
    while k < chars.len()
        invariant
            fits(chars@),
            j <= k <= chars@.len() + 2,
            string_end(chars@, j as int, q) == string_end(chars@, k as int, q),
            string_stop(chars@, j as int, q) == string_stop(chars@, k as int, q),
        decreases chars@.len() + 2 - k,
    {
        let c = chars[k];
        if c == q {
            return Ok(k);
        } else if c == '\\' {
            if k + 1 < chars.len() && chars[k + 1] != '\n' {
                k += 2;
            } else {
                return Err(k);
            }
        } else {
            k += 1;
        }
    }
    Err(chars.len())
}

/// Whether `chars[a..b]` spells `w`.
fn spells(chars: &Vec<char>, a: usize, b: usize, w: &[char]) -> (r: bool)
    requires
        a <= b <= chars@.len(),
    ensures
        r == (chars@.subrange(a as int, b as int) == w@),
{
    if b - a != w.len() {
        return false;
    }
    let mut k: usize = 0;
    while k < w.len()
        invariant
            a <= b <= chars@.len(),
            b - a == w@.len(),
            k <= w@.len(),
            forall|m: int| 0 <= m < k ==> chars@[a + m] == w@[m],
        decreases w.len() - k,
    {
        if chars[a + k] != w[k] {
            assert(chars@.subrange(a as int, b as int)[k as int] != w@[k as int]);
            return false;
        }
        k += 1;
    }
    assert(chars@.subrange(a as int, b as int) =~= w@);
    true
}

fn keyword_exec(chars: &Vec<char>, a: usize, b: usize) -> (r: Option<Token>)
    requires
        a <= b <= chars@.len(),
    ensures
        r is None <==> keyword(chars@.subrange(a as int, b as int)) is None,
        r matches Some(t) ==> keyword(chars@.subrange(a as int, b as int)) == Some(t@),
{
    let ghost t = chars@.subrange(a as int, b as int);
    let w1 = ['t', 'r', 'u', 'e'];
    assert(w1@ =~= seq!['t', 'r', 'u', 'e']);
    if spells(chars, a, b, &w1) {
        return Some(Token::LiteralKeyword(LiteralValue::Bool(true)));
    }
    let w2 = ['f', 'a', 'l', 's', 'e'];
    assert(w2@ =~= seq!['f', 'a', 'l', 's', 'e']);
    if spells(chars, a, b, &w2) {
        return Some(Token::LiteralKeyword(LiteralValue::Bool(false)));
    }
    let w3 = ['F', 'a', 'i', 'l', 'e', 'd'];
    assert(w3@ =~= seq!['F', 'a', 'i', 'l', 'e', 'd']);
    if spells(chars, a, b, &w3) {
        return Some(Token::LiteralKeyword(LiteralValue::Failed));
    }
    let w4 = ['E', 'm', 'p', 't', 'y'];
    assert(w4@ =~= seq!['E', 'm', 'p', 't', 'y']);
    if spells(chars, a, b, &w4) {
        return Some(Token::LiteralKeyword(LiteralValue::Empty));
    }
    let w5 = ['d', 'o', 't'];
    assert(w5@ =~= seq!['d', 'o', 't']);
    if spells(chars, a, b, &w5) {
        return Some(Token::VectorMultiplicativeOperator(Operator::VectorDot));
    }
    let w6 = ['d', 'e', 't'];
    assert(w6@ =~= seq!['d', 'e', 't']);
    if spells(chars, a, b, &w6) {
        return Some(Token::VectorMultiplicativeOperator(Operator::VectorDet));
    }
    let w7 = ['c', 'r', 'o', 's', 's'];
    assert(w7@ =~= seq!['c', 'r', 'o', 's', 's']);
    if spells(chars, a, b, &w7) {
        return Some(Token::VectorMultiplicativeOperator(Operator::VectorCross));
    }
    let w8 = ['n', 'o', 't'];
    assert(w8@ =~= seq!['n', 'o', 't']);
    if spells(chars, a, b, &w8) {
        return Some(Token::BooleanOperator(Operator::BooleanNot));
    }
    let w9 = ['a', 'n', 'd'];
    assert(w9@ =~= seq!['a', 'n', 'd']);
    if spells(chars, a, b, &w9) {
        return Some(Token::BooleanOperator(Operator::BooleanAnd));
    }
    let w10 = ['o', 'r'];
    assert(w10@ =~= seq!['o', 'r']);
    if spells(chars, a, b, &w10) {
        return Some(Token::BooleanOperator(Operator::BooleanOr));
    }
    let w11 = ['x', 'o', 'r'];
    assert(w11@ =~= seq!['x', 'o', 'r']);
    if spells(chars, a, b, &w11) {
        return Some(Token::BooleanOperator(Operator::BooleanXor));
    }
    let w12 = ['i', 'n'];
    assert(w12@ =~= seq!['i', 'n']);
    if spells(chars, a, b, &w12) {
        return Some(Token::ComparatorOperator(Operator::ComparatorIn));
    }
    let w13 = ['h', 'a', 's'];
    assert(w13@ =~= seq!['h', 'a', 's']);
    if spells(chars, a, b, &w13) {
        return Some(Token::ComparatorOperator(Operator::ComparatorHas));
    }
    let w14 = ['i', 's'];
    assert(w14@ =~= seq!['i', 's']);
    if spells(chars, a, b, &w14) {
        return Some(Token::ComparatorOperator(Operator::ComparatorIs));
    }
    None
}

fn text_of(chars: &Vec<char>, a: usize, b: usize) -> (r: String)
    requires
        a <= b <= chars@.len(),
    ensures
        r@ == chars@.subrange(a as int, b as int),
{
    let mut t = String::new();
    crate::text::push_chars(&mut t, chars, a, b);
    assert(t@ =~= chars@.subrange(a as int, b as int));
    t
}

fn integer_exec(chars: &Vec<char>, a: usize, b: usize, radix: u32) -> (r: Lexed)
    requires
        a <= b <= chars@.len(),
        2 <= radix <= 36,
    ensures
        r@ == integer_lexeme(chars@.subrange(a as int, b as int), radix as nat),
{
    let digits = copy_range(chars, a, b);
    match parse_integer(digits.as_slice(), radix, i64::MIN as i128, i64::MAX as i128) {
        Some(v) => Lexed::Token(Token::LiteralNumerical(LiteralValue::Integer(v as i64))),
        None => Lexed::Fails,
    }
}

fn lex_float(chars: &Vec<char>, i: usize, d: usize) -> (r: (usize, Lexed))
    requires
        fits(chars@),
        i + d < chars@.len(),
        chars@[i + d] == '.',
        run(chars@, i + d + 1, dec()) > 0,
    ensures
        r.0 as nat == float_lexeme(chars@, i as int, d as int).0,
        r.1@ == float_lexeme(chars@, i as int, d as int).1,
{
    let ghost s = chars@;
    proof {
        lemma_run_bounds(s);
    }
    let f = d + 1 + run_exec(chars, i + d + 1, CharClass::Digit(10));
    let (n, ok) = if char_at_exec(chars, i + f) == 'e' {
        let m: usize = if char_at_exec(chars, i + f + 1) == '-' {
            1
        } else {
            0
        };
        let e = run_exec(chars, i + f + 1 + m, CharClass::Digit(10));
        (f + 1 + m + e, e > 0)
    } else {
        (f, true)
    };
    assert(float_len(s, i as int, d as int) == (n as nat, ok));
    if ok {
        (n, Lexed::Token(Token::LiteralNumerical(LiteralValue::Float(text_of(chars, i, i + n)))))
    } else {
        (n, Lexed::Fails)
    }
}

fn radix_letter_exec(c: char) -> (r: u32)
    ensures
        r == radix_letter(c),
{
    if c == 'x' {
        16
    } else if c == 'b' {
        2
    } else if c == 'o' {
        8
    } else {
        0
    }
}

fn lex_number(chars: &Vec<char>, i: usize) -> (r: (usize, Lexed))
    requires
        fits(chars@),
        i < chars@.len(),
        '0' <= chars@[i as int] <= '9',
    ensures
        r.0 as nat == number_lexeme(chars@, i as int).0,
        r.1@ == number_lexeme(chars@, i as int).1,
{
    let ghost s = chars@;
    proof {
        lemma_run_bounds(s);
    }
    let radix = radix_letter_exec(char_at_exec(chars, i + 1));
    let p = if chars[i] == '0' && radix != 0 {
        run_exec(chars, i + 2, CharClass::Digit(radix))
    } else {
        0
    };
    if p > 0 {
        let k = integer_exec(chars, i + 2, i + 2 + p, radix);
        (2 + p, k)
    } else {
        let d = run_exec(chars, i, CharClass::Digit(10));
        if char_at_exec(chars, i + d) == '.' && run_exec(chars, i + d + 1, CharClass::Digit(10)) > 0 {
            lex_float(chars, i, d)
        } else {
            assert(in_class(s[i as int], dec()));
            (d, integer_exec(chars, i, i + d, 10))
        }
    }
}

fn lex_dot(chars: &Vec<char>, i: usize) -> (r: (usize, Lexed))
    requires
        fits(chars@),
        i < chars@.len(),
        chars@[i as int] == '.',
    ensures
        r.0 as nat == dot_lexeme(chars@, i as int).0,
        r.1@ == dot_lexeme(chars@, i as int).1,
{
    let ghost s = chars@;
    proof {
        lemma_run_bounds(s);
    }
    if run_exec(chars, i + 1, CharClass::Digit(10)) > 0 {
        lex_float(chars, i, 0)
    } else {
        let a = run_exec(chars, i + 1, CharClass::XidStart);
        if a > 0 {
            let c = char_at_exec(chars, i + 1 + a);
            let sg: usize = if c == '+' || c == '-' {
                1
            } else {
                0
            };
            let n = 1 + a + sg + run_exec(chars, i + 1 + a + sg, CharClass::Digit(10));
            assert(n == unit_len(s, i as int));
            let text = copy_range(chars, i + 1, i + n);
            (n, Lexed::Token(Token::LiteralUnit(unit_of_chars(&text))))
        } else {
            (1, Lexed::Token(Token::StructuralToken(StructuralToken::Dot)))
        }
    }
}

fn lex_string(chars: &Vec<char>, i: usize) -> (r: (usize, Lexed))
    requires
        fits(chars@),
        i < chars@.len(),
    ensures
        r.0 as nat == string_lexeme(chars@, i as int).0,
        r.1@ == string_lexeme(chars@, i as int).1,
{
    let ghost s = chars@;
    proof {
        lemma_string_end(s, i + 1, s[i as int]);
    }
    match string_end_exec(chars, i + 1, chars[i]) {
        Ok(e) => {
            let text = copy_range(chars, i, e + 1);
            match parse_string(&text) {
                Some(t) => (e + 1 - i, Lexed::Token(Token::LiteralString(LiteralValue::String(t)))),
                None => (e + 1 - i, Lexed::Fails),
            }
        },
        Err(stop) => (stop - i, Lexed::Invalid),
    }
}

fn lex_word(chars: &Vec<char>, i: usize) -> (r: (usize, Lexed))
    requires
        fits(chars@),
        i < chars@.len(),
    ensures
        r.0 as nat == word_lexeme(chars@, i as int).0,
        r.1@ == word_lexeme(chars@, i as int).1,
{
    let ghost s = chars@;
    proof {
        lemma_run_bounds(s);
    }
    let n = 1 + run_exec(chars, i + 1, CharClass::XidContinue);
    match keyword_exec(chars, i, i + n) {
        Some(k) => (n, Lexed::Token(k)),
        None => (n, Lexed::Token(Token::Identifier(text_of(chars, i, i + n)))),
    }
}

fn lex_symbol(chars: &Vec<char>, i: usize) -> (r: (usize, Lexed))
    requires
        fits(chars@),
        i < chars@.len(),
    ensures
        r.0 as nat == symbol_lexeme(chars@, i as int).0,
        r.1@ == symbol_lexeme(chars@, i as int).1,
{
    let c = chars[i];
    let c1 = char_at_exec(chars, i + 1);
    let c2 = char_at_exec(chars, i + 2);
    if c == '(' {
        (1, Lexed::Token(Token::StructuralToken(StructuralToken::LParenthesis)))
    } else if c == ')' {
        (1, Lexed::Token(Token::StructuralToken(StructuralToken::RParenthesis)))
    } else if c == '[' {
        (1, Lexed::Token(Token::StructuralToken(StructuralToken::LBracket)))
    } else if c == ']' {
        (1, Lexed::Token(Token::StructuralToken(StructuralToken::RBracket)))
    } else if c == '{' {
        (1, Lexed::Token(Token::StructuralToken(StructuralToken::LBrace)))
    } else if c == '}' {
        (1, Lexed::Token(Token::StructuralToken(StructuralToken::RBrace)))
    } else if c == ',' {
        (1, Lexed::Token(Token::StructuralToken(StructuralToken::Comma)))
    } else if c == ';' {
        (1, Lexed::Token(Token::StructuralToken(StructuralToken::Semicolon)))
    } else if c == '$' {
        (1, Lexed::Token(Token::StructuralToken(StructuralToken::Dollar)))
    } else if c == '%' {
        (1, Lexed::Token(Token::StructuralToken(StructuralToken::Percent)))
    } else if c == '-' {
        if c1 == '>' {
            (2, Lexed::Token(Token::StructuralToken(StructuralToken::Arraow)))
        } else {
            (1, Lexed::Token(Token::SubtractiveOperator(Operator::ArithmeticSub)))
        }
    } else if c == ':' {
        if c1 == '+' && c2 == '+' {
            (3, Lexed::Token(Token::AssignmentOperator(AssignmentOperator::Push)))
        } else if c1 == '=' {
            (2, Lexed::Token(Token::AssignmentOperator(AssignmentOperator::Reassign)))
        } else {
            (1, Lexed::Token(Token::AssignmentOperator(AssignmentOperator::Define)))
        }
    } else if c == '+' {
        (1, Lexed::Token(Token::AdditiveOperator(Operator::ArithmeticAdd)))
    } else if c == '*' {
        (1, Lexed::Token(Token::MultiplicativeOperator(Operator::ArithmeticMul)))
    } else if c == '^' {
        (1, Lexed::Token(Token::PowerOperator(Operator::ArithmeticPow)))
    } else if c == '=' {
        (1, Lexed::Token(Token::ComparatorOperator(Operator::ComparatorEqual)))
    } else if c == '!' && c1 == '=' {
        (2, Lexed::Token(Token::ComparatorOperator(Operator::ComparatorNotEqual)))
    } else if c == '>' {
        if c1 == '=' {
            (2, Lexed::Token(Token::ComparatorOperator(Operator::ComparatorGreaterOrEqual)))
        } else {
            (1, Lexed::Token(Token::ComparatorOperator(Operator::ComparatorGreaterThan)))
        }
    } else if c == '<' {
        if c1 == '=' {
            (2, Lexed::Token(Token::ComparatorOperator(Operator::ComparatorLessOrEqual)))
        } else {
            (1, Lexed::Token(Token::ComparatorOperator(Operator::ComparatorLessThan)))
        }
    } else {
        (1, Lexed::Invalid)
    }
}

/// What the text holds at `i`, and its length.
fn lexeme_exec(chars: &Vec<char>, i: usize) -> (r: (usize, Lexed))
    requires
        fits(chars@),
        i < chars@.len(),
    ensures
        r.0 as nat == lexeme_at(chars@, i as int).0,
        r.1@ == lexeme_at(chars@, i as int).1,
{
    let c = chars[i];
    proof {
        lemma_comment_end(chars@, i + 2);
    }
    if c == ' ' || c == '\r' || c == '\x0B' || c == '\t' || c == '\n' || c == '\x0C' {
        (run_exec(chars, i, CharClass::Space), Lexed::Skip)
    } else if c == '/' {
        if char_at_exec(chars, i + 1) == '*' {
            match comment_end_exec(chars, i + 2) {
                Some(j) => (j + 2 - i, Lexed::Skip),
                None => (1, Lexed::Token(Token::MultiplicativeOperator(Operator::ArithmeticDiv))),
            }
        } else {
            (1, Lexed::Token(Token::MultiplicativeOperator(Operator::ArithmeticDiv)))
        }
    } else if '0' <= c && c <= '9' {
        lex_number(chars, i)
    } else if c == '.' {
        lex_dot(chars, i)
    } else if c == '"' || c == '\'' {
        lex_string(chars, i)
    } else if is_xid_start(c) || c == '_' {
        lex_word(chars, i)
    } else {
        lex_symbol(chars, i)
    }
}

// ---------------------------------------------------------------------------------------
// The lexer
// ---------------------------------------------------------------------------------------

/// The next lexeme at or after `i` is a literal whose reading fails.
pub open spec fn next_fails(s: Seq<char>, i: int) -> bool {
    next_lexeme(s, i) matches Some((_, k, _)) && k is Fails
}

/// Byte offset in `s` of the character at index `i`.
pub open spec fn byte_at(s: Seq<char>, i: int) -> nat {
    byte_len(s.take(i))
}

/// The classes that the tokens from `i` on give to byte `p`.
pub open spec fn token_cover(s: Seq<char>, i: int, p: usize) -> Balise
    decreases s.len() - i,
{
    match next_lexeme(s, i) {
        None => EMPTY_BALISE,
        Some((a, k, b)) => {
            proof {
                lemma_next_lexeme(s, i);
            }
            let here = match k {
                Lexeme::Token(t) => if byte_at(s, a) <= p < byte_at(s, b) {
                    token_balise(t)
                } else {
                    EMPTY_BALISE
                },
                _ => EMPTY_BALISE,
            };
            here | token_cover(s, b, p)
        },
    }
}

/// The byte offsets where the tokens from `i` on start and end.
pub open spec fn token_bounds(s: Seq<char>, i: int) -> Set<usize>
    decreases s.len() - i,
{
    match next_lexeme(s, i) {
        None => Set::empty(),
        Some((a, k, b)) => {
            proof {
                lemma_next_lexeme(s, i);
            }
            let here = match k {
                Lexeme::Token(_) => set![byte_at(s, a) as usize, byte_at(s, b) as usize],
                _ => Set::empty(),
            };
            here.union(token_bounds(s, b))
        },
    }
}

proof fn lemma_byte_at_strict(s: Seq<char>, i: int, j: int)
    requires
        0 <= i < j <= s.len(),
    ensures
        byte_at(s, i) < byte_at(s, j),
{
    lemma_byte_at_mono(s, i + 1, j);
    lemma_byte_len_push(s.take(i), s[i]);
    assert(s.take(i).push(s[i]) =~= s.take(i + 1));
}

proof fn lemma_or(x: usize, y: usize, z: usize)
    ensures
        (x | y) | z == x | (y | z),
        x | 0 == x,
        0 | x == x,
{
    assert((x | y) | z == x | (y | z)) by (bit_vector);
    assert(x | 0 == x) by (bit_vector);
    assert(0 | x == x) by (bit_vector);
}

proof fn lemma_byte_at_mono(s: Seq<char>, i: int, j: int)
    requires
        0 <= i <= j <= s.len(),
    ensures
        byte_at(s, i) <= byte_at(s, j) <= byte_len(s),
{
    lemma_byte_len_concat(s.take(i), s.subrange(i, j));
    assert(s.take(i) + s.subrange(i, j) =~= s.take(j));
    lemma_byte_len_concat(s.take(j), s.skip(j));
    assert(s.take(j) + s.skip(j) =~= s);
}

/// Byte offset of the character at `b`, from that of the character at `a`.
fn byte_offset(chars: &Vec<char>, a: usize, b: usize, base: usize) -> (r: usize)
    requires
        a <= b <= chars@.len(),
        base == byte_at(chars@, a as int),
        byte_len(chars@) <= usize::MAX,
    ensures
        r == byte_at(chars@, b as int),
{
    let ghost s = chars@;
    let mut j = a;
    let mut r = base;
    while j < b
        invariant
            a <= j <= b <= s.len(),
            chars@ == s,
            r == byte_at(s, j as int),
            byte_len(s) <= usize::MAX,
        decreases b - j,
    {
        proof {
            lemma_byte_len_push(s.take(j as int), s[j as int]);
            assert(s.take(j as int).push(s[j as int]) =~= s.take(j + 1));
            lemma_byte_at_mono(s, j + 1, s.len() as int);
        }
        r = r + char_width_exec(chars[j]);
        j += 1;
    }
    r
}

/// A token with the offsets where it starts and ends, or the error in its place.
pub type SpannedToken<Tok, Loc, Error> = Result<(Loc, Tok, Loc), Error>;

/// Reads the tokens of a text, one after the other.
pub struct Lexer {
    chars: Vec<char>,
    pos: usize,
    byte_pos: usize,
}

impl View for Lexer {
    /// The text, and the index of the character where reading goes on.
    type V = (Seq<char>, int);

    closed spec fn view(&self) -> (Seq<char>, int) {
        (self.chars@, self.pos as int)
    }
}

impl Lexer {
    pub closed spec fn wf(&self) -> bool {
        &&& fits(self.chars@)
        &&& self.pos <= self.chars@.len()
        &&& self.byte_pos == byte_at(self.chars@, self.pos as int)
        &&& byte_len(self.chars@) <= usize::MAX
    }

    /// A lexer at the start of `input`.
    pub fn new(input: &str) -> (r: Lexer)
        requires
            fits(input@),
        ensures
            r.wf(),
            r@ == (input@, 0int),
    {
        let chars = chars_of(input);
        let total = input.as_bytes().len();
        proof {
            lemma_byte_len_encode(input@);
            assert(input@.take(0) =~= Seq::<char>::empty());
        }
        Lexer { chars, pos: 0, byte_pos: 0 }
    }

    /// The next lexeme that is not skipped, with its byte offsets.
    fn step(&mut self) -> (r: Option<(usize, Lexed, usize)>)
        requires
            old(self).wf(),
        ensures
            final(self).wf(),
            final(self)@.0 == old(self)@.0,
            match next_lexeme(old(self)@.0, old(self)@.1) {
                None => r is None && final(self)@.1 == old(self)@.0.len(),
                Some((a, k, b)) => r matches Some((x, e, y)) && x == byte_at(old(self)@.0, a) && e@
                    == k && y == byte_at(old(self)@.0, b) && final(self)@.1 == b,
            },
    {
        let ghost s = self.chars@;
        let ghost i0 = self.pos as int;
        loop
            invariant
                self.wf(),
                self.chars@ == s,
                s == old(self)@.0,
                i0 == old(self)@.1,
                i0 <= self.pos,
                next_lexeme(s, i0) == next_lexeme(s, self.pos as int),
            decreases s.len() - self.pos,
        {
            if self.pos >= self.chars.len() {
                return None;
            }
            let (n, k) = lexeme_exec(&self.chars, self.pos);
            proof {
                lemma_lexeme_len(s, self.pos as int);
            }
            let start = self.byte_pos;
            let end = self.pos + n;
            let end_byte = byte_offset(&self.chars, self.pos, end, self.byte_pos);
            self.pos = end;
            self.byte_pos = end_byte;
            match k {
                Lexed::Skip => {},
                _ => {
                    return Some((start, k, end_byte));
                },
            }
        }
    }

    /// The next token, with the byte offsets where it starts and ends; an error for a
    /// character that starts no token; `None` at the end of the text.
    pub fn next(&mut self) -> (r: Option<SpannedToken<Token, usize, LexicalError>>)
        requires
            old(self).wf(),
            !next_fails(old(self)@.0, old(self)@.1),
        ensures
            final(self).wf(),
            final(self)@.0 == old(self)@.0,
            match next_lexeme(old(self)@.0, old(self)@.1) {
                None => r is None && final(self)@.1 == old(self)@.0.len(),
                Some((a, k, b)) => final(self)@.1 == b && match k {
                    Lexeme::Token(t) => r matches Some(Ok((x, tok, y))) && x == byte_at(
                        old(self)@.0,
                        a,
                    ) && tok@ == t && y == byte_at(old(self)@.0, b),
                    _ => r == Some(Err::<(usize, Token, usize), LexicalError>(LexicalError::InvalidToken)),
                },
            },
    {
        proof {
            lemma_next_lexeme(self@.0, self@.1);
        }
        match self.step() {
            None => None,
            Some((a, Lexed::Token(t), b)) => Some(Ok((a, t, b))),
            Some((_, Lexed::Invalid, _)) => Some(Err(LexicalError::InvalidToken)),
            Some(_) => None,
        }
    }

    /// Gives each token of the rest of the text the classes of its kind (`Token::get_balise`)
    /// in `stylization`.
    pub fn stylize(self, stylization: &mut Stylization)
        requires
            self.wf(),
            lexable(self@.0, self@.1),
            old(stylization).wf(),
        ensures
            final(stylization).wf(),
            forall|p: usize|
                balise_at(final(stylization)@, p) == balise_at(old(stylization)@, p) | token_cover(
                    self@.0,
                    self@.1,
                    p,
                ),
            forall|p: usize| overlays_at(final(stylization)@, p) == overlays_at(old(stylization)@, p),
            positions(final(stylization)@) == positions(old(stylization)@).union(
                token_bounds(self@.0, self@.1),
            ),
    {
        let ghost s = self@.0;
        let ghost i0 = self@.1;
        let ghost m0 = stylization@;
        let mut lexer = self;
        assert(positions(stylization@).union(token_bounds(s, lexer@.1)) =~= positions(m0).union(
            token_bounds(s, i0),
        ));
        assert forall|p: usize| (balise_at(stylization@, p) | token_cover(s, lexer@.1, p)) == balise_at(m0, p)
            | token_cover(s, i0, p) by {}
        loop
            invariant
                lexer.wf(),
                lexer@.0 == s,
                s == self@.0,
                i0 == self@.1,
                m0 == old(stylization)@,
                lexable(s, lexer@.1),
                stylization.wf(),
                forall|p: usize|
                    (balise_at(stylization@, p) | token_cover(s, lexer@.1, p)) == balise_at(m0, p)
                        | token_cover(s, i0, p),
                forall|p: usize| overlays_at(stylization@, p) == overlays_at(m0, p),
                positions(stylization@).union(token_bounds(s, lexer@.1)) == positions(m0).union(
                    token_bounds(s, i0),
                ),
            decreases s.len() - lexer@.1,
        {
            let ghost i = lexer@.1;
            let ghost before = stylization@;
            proof {
                lemma_next_lexeme(s, i);
            }
            match lexer.next() {
                None => {
                    assert forall|p: usize| balise_at(stylization@, p) == balise_at(m0, p) | token_cover(s, i0, p) by {
                        lemma_or(balise_at(stylization@, p), 0, 0);
                    }
                    assert(positions(stylization@).union(token_bounds(s, i)) =~= positions(stylization@));
                    return;
                },
                Some(Ok((a, tok, b))) => {
                    let balise = tok.get_balise();
                    stylization.insert_balise(balise, (a, b));
                    proof {
                        let j = lexer@.1;
                        assert forall|p: usize|
                            (balise_at(stylization@, p) | token_cover(s, j, p)) == balise_at(m0, p)
                                | token_cover(s, i0, p) by {
                            let here: usize = if a <= p < b {
                                balise
                            } else {
                                0
                            };
                            lemma_or(balise_at(before, p), here, token_cover(s, j, p));
                            lemma_or(balise_at(before, p), 0, 0);
                            assert(token_cover(s, i, p) == here | token_cover(s, j, p));
                        }
                        let (ca, k, cb) = next_lexeme(s, i)->0;
                        lemma_byte_at_strict(s, ca, cb);
                        assert(token_bounds(s, i) == set![a, b].union(token_bounds(s, j)));
                        assert(positions(stylization@).union(token_bounds(s, j)) =~= positions(before).union(
                            token_bounds(s, i),
                        ));
                    }
                },
                Some(Err(_)) => {
                    proof {
                        let j = lexer@.1;
                        assert forall|p: usize|
                            (balise_at(stylization@, p) | token_cover(s, j, p)) == balise_at(m0, p)
                                | token_cover(s, i0, p) by {
                            assert(token_cover(s, i, p) == 0 | token_cover(s, j, p));
                            lemma_or(token_cover(s, j, p), 0, 0);
                        }
                        assert(token_bounds(s, i) =~= token_bounds(s, j));
                    }
                },
            }
        }
    }
}

/// Whether every literal of `input` can be read (the condition for `Lexer::stylize` and for
/// reading the whole text with `Lexer::next`).
pub fn is_lexable(input: &str) -> (r: bool)
    requires
        fits(input@),
    ensures
        r == lexable(input@, 0),
{
    let mut lexer = Lexer::new(input);
    let ghost s = input@;
    loop
        invariant
            lexer.wf(),
            lexer@.0 == s,
            s == input@,
            lexable(s, 0) == lexable(s, lexer@.1),
        decreases s.len() - lexer@.1,
    {
        let ghost i = lexer@.1;
        proof {
            lemma_next_lexeme(s, i);
        }
        let r = lexer.step();
        assert(lexable(s, i) == match next_lexeme(s, i) {
            None => true,
            Some((a, k, b)) => k !is Fails && lexable(s, b),
        });
        match r {
            None => {
                return true;
            },
            Some((_, Lexed::Fails, _)) => {
                return false;
            },
            Some(_) => {},
        }
    }
}

} // verus!
