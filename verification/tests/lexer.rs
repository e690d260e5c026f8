use dimsafe::editor::stylization::{
    get_balise, Stylization, IDENTIFIER_BALISE, LITERAL_NUMERICAL_BALISE, LITERAL_UNIT_BALISE,
    OPERATOR_BALISE,
};
use dimsafe::editor::stylization::get_balise_class;
use dimsafe::interpreter::ast::literal_value::LiteralValue;
use dimsafe::interpreter::operator::Operator;
use dimsafe::interpreter::scope::AssignmentOperator;
use dimsafe::lexer::{is_lexable, parse_unit, LexicalError, Lexer, StructuralToken, Token};

fn tokens(text: &str) -> Vec<Result<(usize, Token, usize), LexicalError>> {
    let mut lexer = Lexer::new(text);
    let mut all = Vec::new();
    while let Some(t) = lexer.next() {
        all.push(t);
    }
    all
}

#[test]
fn test_lexer() {
    let mut lexer = Lexer::new("1+2*3 .m");
    assert_eq!(lexer.next(), Some(Ok((0, Token::LiteralNumerical(LiteralValue::Integer(1)), 1))));
    assert_eq!(lexer.next(), Some(Ok((1, Token::AdditiveOperator(Operator::ArithmeticAdd), 2))));
    assert_eq!(lexer.next(), Some(Ok((2, Token::LiteralNumerical(LiteralValue::Integer(2)), 3))));
    assert_eq!(lexer.next(), Some(Ok((3, Token::MultiplicativeOperator(Operator::ArithmeticMul), 4))));
    assert_eq!(lexer.next(), Some(Ok((4, Token::LiteralNumerical(LiteralValue::Integer(3)), 5))));
    assert_eq!(lexer.next(), Some(Ok((6, Token::LiteralUnit(LiteralValue::Unit("m".to_string(), 1)), 8))));
}

#[test]
fn test_lexer_with_parenthesis() {
    let mut lexer = Lexer::new("sin(x+y)*3");
    assert_eq!(lexer.next(), Some(Ok((0, Token::Identifier("sin".to_string()), 3))));
    assert_eq!(lexer.next(), Some(Ok((3, Token::StructuralToken(StructuralToken::LParenthesis), 4))));
    assert_eq!(lexer.next(), Some(Ok((4, Token::Identifier("x".to_string()), 5))));
    assert_eq!(lexer.next(), Some(Ok((5, Token::AdditiveOperator(Operator::ArithmeticAdd), 6))));
    assert_eq!(lexer.next(), Some(Ok((6, Token::Identifier("y".to_string()), 7))));
    assert_eq!(lexer.next(), Some(Ok((7, Token::StructuralToken(StructuralToken::RParenthesis), 8))));
    assert_eq!(lexer.next(), Some(Ok((8, Token::MultiplicativeOperator(Operator::ArithmeticMul), 9))));
    assert_eq!(lexer.next(), Some(Ok((9, Token::LiteralNumerical(LiteralValue::Integer(3)), 10))));
}

#[test]
fn the_end_of_the_text_gives_none() {
    let mut lexer = Lexer::new("  /* only a comment */ \n");
    assert_eq!(lexer.next(), None);
    assert_eq!(lexer.next(), None);
}

#[test]
fn numbers_in_every_base() {
    assert_eq!(
        tokens("0x1F 0b101 0o17 42"),
        vec![
            Ok((0, Token::LiteralNumerical(LiteralValue::Integer(31)), 4)),
            Ok((5, Token::LiteralNumerical(LiteralValue::Integer(5)), 10)),
            Ok((11, Token::LiteralNumerical(LiteralValue::Integer(15)), 15)),
            Ok((16, Token::LiteralNumerical(LiteralValue::Integer(42)), 18)),
        ]
    );
    // a base letter without digits: the zero, then a word
    assert_eq!(
        tokens("0x"),
        vec![
            Ok((0, Token::LiteralNumerical(LiteralValue::Integer(0)), 1)),
            Ok((1, Token::Identifier("x".to_string()), 2)),
        ]
    );
}

#[test]
fn numbers_with_a_fraction_keep_their_text() {
    assert_eq!(
        tokens("1.5 .25 2.5e-3 12."),
        vec![
            Ok((0, Token::LiteralNumerical(LiteralValue::Float("1.5".to_string())), 3)),
            Ok((4, Token::LiteralNumerical(LiteralValue::Float(".25".to_string())), 7)),
            Ok((8, Token::LiteralNumerical(LiteralValue::Float("2.5e-3".to_string())), 14)),
            Ok((15, Token::LiteralNumerical(LiteralValue::Integer(12)), 17)),
            Ok((17, Token::StructuralToken(StructuralToken::Dot), 18)),
        ]
    );
    assert_eq!("2.5e-3".parse::<f64>().unwrap(), 0.0025f64);
}

#[test]
fn literals_that_cannot_be_read() {
    // an exponent without digits, an integer beyond i64, an escape naming no character
    assert!(!is_lexable("1.5e"));
    assert!(!is_lexable("99999999999999999999"));
    assert!(!is_lexable("\"\\uD800\""));
    assert!(!is_lexable("\"\\x4\""));
    assert!(is_lexable("1.5e3 + 9223372036854775807"));
    assert!(is_lexable("\"\\x41\""));
}

#[test]
fn keywords_win_over_identifiers_of_the_same_length() {
    assert_eq!(
        tokens("true trueish and is in has not dot"),
        vec![
            Ok((0, Token::LiteralKeyword(LiteralValue::Bool(true)), 4)),
            Ok((5, Token::Identifier("trueish".to_string()), 12)),
            Ok((13, Token::BooleanOperator(Operator::BooleanAnd), 16)),
            Ok((17, Token::ComparatorOperator(Operator::ComparatorIs), 19)),
            Ok((20, Token::ComparatorOperator(Operator::ComparatorIn), 22)),
            Ok((23, Token::ComparatorOperator(Operator::ComparatorHas), 26)),
            Ok((27, Token::BooleanOperator(Operator::BooleanNot), 30)),
            Ok((31, Token::VectorMultiplicativeOperator(Operator::VectorDot), 34)),
        ]
    );
    assert_eq!(
        tokens("Empty Failed false"),
        vec![
            Ok((0, Token::LiteralKeyword(LiteralValue::Empty), 5)),
            Ok((6, Token::LiteralKeyword(LiteralValue::Failed), 12)),
            Ok((13, Token::LiteralKeyword(LiteralValue::Bool(false)), 18)),
        ]
    );
}

#[test]
fn longest_symbols() {
    assert_eq!(
        tokens(":++ := : -> - != >= <= > < = ^ / %"),
        vec![
            Ok((0, Token::AssignmentOperator(AssignmentOperator::Push), 3)),
            Ok((4, Token::AssignmentOperator(AssignmentOperator::Reassign), 6)),
            Ok((7, Token::AssignmentOperator(AssignmentOperator::Define), 8)),
            Ok((9, Token::StructuralToken(StructuralToken::Arraow), 11)),
            Ok((12, Token::SubtractiveOperator(Operator::ArithmeticSub), 13)),
            Ok((14, Token::ComparatorOperator(Operator::ComparatorNotEqual), 16)),
            Ok((17, Token::ComparatorOperator(Operator::ComparatorGreaterOrEqual), 19)),
            Ok((20, Token::ComparatorOperator(Operator::ComparatorLessOrEqual), 22)),
            Ok((23, Token::ComparatorOperator(Operator::ComparatorGreaterThan), 24)),
            Ok((25, Token::ComparatorOperator(Operator::ComparatorLessThan), 26)),
            Ok((27, Token::ComparatorOperator(Operator::ComparatorEqual), 28)),
            Ok((29, Token::PowerOperator(Operator::ArithmeticPow), 30)),
            Ok((31, Token::MultiplicativeOperator(Operator::ArithmeticDiv), 32)),
            Ok((33, Token::StructuralToken(StructuralToken::Percent), 34)),
        ]
    );
    // `:+` is a definition followed by a plus
    assert_eq!(
        tokens(":+"),
        vec![
            Ok((0, Token::AssignmentOperator(AssignmentOperator::Define), 1)),
            Ok((1, Token::AdditiveOperator(Operator::ArithmeticAdd), 2)),
        ]
    );
}

#[test]
fn characters_that_start_no_token() {
    assert_eq!(
        tokens("a ! #"),
        vec![
            Ok((0, Token::Identifier("a".to_string()), 1)),
            Err(LexicalError::InvalidToken),
            Err(LexicalError::InvalidToken),
        ]
    );
    // a string that is not closed makes no token, up to the end of the text
    assert_eq!(tokens("x \"ab"), vec![Ok((0, Token::Identifier("x".to_string()), 1)), Err(LexicalError::InvalidToken)]);
    // or up to a backslash followed by a line feed, which then starts no token
    assert_eq!(
        tokens("'a\\\nb"),
        vec![
            Err(LexicalError::InvalidToken),
            Err(LexicalError::InvalidToken),
            Ok((4, Token::Identifier("b".to_string()), 5)),
        ]
    );
}

#[test]
fn strings_and_their_escapes() {
    assert_eq!(
        tokens(r#""a\tb\"c" "\x41\u00e9""#),
        vec![
            Ok((0, Token::LiteralString(LiteralValue::String("a\tb\"c".to_string())), 9)),
            Ok((10, Token::LiteralString(LiteralValue::String("Aé".to_string())), 22)),
        ]
    );
    // the delimiting quotes are dropped, whichever kind they are, and what is inside is kept
    assert_eq!(
        tokens("'ab' 'a\"b'"),
        vec![
            Ok((0, Token::LiteralString(LiteralValue::String("ab".to_string())), 4)),
            Ok((5, Token::LiteralString(LiteralValue::String("a\"b".to_string())), 10)),
        ]
    );
    assert_eq!(
        tokens("\"it's\""),
        vec![Ok((0, Token::LiteralString(LiteralValue::String("it's".to_string())), 6))]
    );
}

#[test]
fn units_and_their_exponents() {
    assert_eq!(
        tokens(".kg2 .s-1 .m+ .m_s"),
        vec![
            Ok((0, Token::LiteralUnit(LiteralValue::Unit("kg".to_string(), 2)), 4)),
            Ok((5, Token::LiteralUnit(LiteralValue::Unit("s".to_string(), -1)), 9)),
            Ok((10, Token::LiteralUnit(LiteralValue::Unit("m".to_string(), 1)), 13)),
            Ok((14, Token::LiteralUnit(LiteralValue::Unit("m".to_string(), 1)), 16)),
            Ok((16, Token::Identifier("_s".to_string()), 18)),
        ]
    );
    assert_eq!(parse_unit("m2"), LiteralValue::Unit("m".to_string(), 2));
    assert_eq!(parse_unit("kg"), LiteralValue::Unit("kg".to_string(), 1));
    assert_eq!(parse_unit("s-"), LiteralValue::Unit("s".to_string(), 1));
    assert_eq!(parse_unit("s99999999999"), LiteralValue::Unit("s".to_string(), 1));
    assert_eq!(parse_unit("A+3"), LiteralValue::Unit("A".to_string(), 3));
}

#[test]
fn offsets_are_bytes() {
    assert_eq!(
        tokens("é+1"),
        vec![
            Ok((0, Token::Identifier("é".to_string()), 2)),
            Ok((2, Token::AdditiveOperator(Operator::ArithmeticAdd), 3)),
            Ok((3, Token::LiteralNumerical(LiteralValue::Integer(1)), 4)),
        ]
    );
}

#[test]
fn stylize_gives_each_token_its_class() {
    let mut marking = Stylization::new();
    Lexer::new("x+1 .m").stylize(&mut marking);
    let sections = marking.apply_to_text("x+1 .m");
    let got: Vec<(String, String)> = sections.iter().map(|s| (s.class.clone(), s.text.clone())).collect();
    assert_eq!(
        got,
        vec![
            (get_balise_class(IDENTIFIER_BALISE), "x".to_string()),
            (get_balise_class(OPERATOR_BALISE), "+".to_string()),
            (get_balise_class(LITERAL_NUMERICAL_BALISE), "1".to_string()),
            (String::new(), " ".to_string()),
            (get_balise_class(LITERAL_UNIT_BALISE), ".m".to_string()),
            (String::new(), String::new()),
        ]
    );
    assert_eq!(get_balise(&Token::Identifier("x".to_string())), IDENTIFIER_BALISE);
    assert_eq!(Token::RawError.get_balise(), 0);
}
