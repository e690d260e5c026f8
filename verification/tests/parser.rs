use dimsafe::interpreter::parser::{get_error_location, get_lines_pos, ParseError};
use dimsafe::lexer::{LexicalError, Token};
use dimsafe::interpreter::operator::Operator;

#[test]
fn test_get_lines_pos() {
    let lines_pos = get_lines_pos("1+2*3 .m");
    assert_eq!(lines_pos, vec![0]);

    let lines_pos = get_lines_pos("1+2*3 .m\n4+5*6 .kg");
    assert_eq!(lines_pos, vec![0, 9]);
}

#[test]
fn lines_are_counted_in_characters() {
    assert_eq!(get_lines_pos(""), vec![0]);
    assert_eq!(get_lines_pos("\n\n"), vec![0, 1, 2]);
    // 'é' takes two bytes but one character
    assert_eq!(get_lines_pos("é\nx"), vec![0, 2]);
}

#[test]
fn error_location_of_each_parse_error() {
    let l = get_error_location(&ParseError::InvalidToken { location: 4 });
    assert_eq!((l.loc_range.start.index, l.loc_range.end.index), (4, 4));
    let l = get_error_location(&ParseError::UnrecognizedEof { location: 9, expected: vec!["\")\"".to_string()] });
    assert_eq!((l.loc_range.start.index, l.loc_range.end.index), (9, 9));
    let l = get_error_location(&ParseError::UnrecognizedToken {
        token: (2, Token::AdditiveOperator(Operator::ArithmeticAdd), 3),
        expected: vec![],
    });
    assert_eq!((l.loc_range.start.index, l.loc_range.end.index), (2, 3));
    let l = get_error_location(&ParseError::ExtraToken { token: (5, Token::Identifier("x".to_string()), 6) });
    assert_eq!((l.loc_range.start.index, l.loc_range.end.index), (5, 6));
    let l = get_error_location(&ParseError::User { error: (7, LexicalError::InvalidToken, 8) });
    assert_eq!((l.loc_range.start.index, l.loc_range.end.index), (7, 8));
}
