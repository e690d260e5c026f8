use dimsafe::interpreter::ast::location::{RangeReverseLocation, ReverseLocation};
use dimsafe::interpreter::error::collector::ErrorCollector;
use dimsafe::interpreter::error::{
    AssignmentError, DimensionMismatchError, Error, ErrorMessage, InvalidInputError, UndefinedError,
    UnfoundUnitError, UnsupportedError,
};
use dimsafe::interpreter::scope::AssignmentOperator;

fn range(a: usize, b: usize) -> RangeReverseLocation {
    RangeReverseLocation {
        start: ReverseLocation { block: 0, line: 0, column: a },
        end: ReverseLocation { block: 0, line: 0, column: b },
    }
}

#[test]
fn messages_of_each_kind() {
    assert_eq!(
        UnsupportedError { functionality: "array" }.get_message(None),
        "UnsupportedError: The functionality 'array' is not supported"
    );
    assert_eq!(
        UnfoundUnitError { unit_name: "parsec".to_string() }.get_message(None),
        "UnfoundUnitError: The unit 'parsec' is not found"
    );
    assert_eq!(
        DimensionMismatchError { unit_a: "[[ L1]]".to_string(), unit_b: "[[ T1]]".to_string() }
            .get_message(None),
        "DimensionMismatchError: The units '[[ L1]]' and '[[ T1]]' do not match"
    );
    assert_eq!(
        InvalidInputError { message: "bad".to_string() }.get_message(None),
        "InvalidInputError: 'bad'"
    );
    assert_eq!(
        AssignmentError { variable_name: "v".to_string(), assignment_operator: AssignmentOperator::Push }
            .get_message(Some(range(1, 2))),
        "AssignmentError: You can't push a value to a variable that is not defined: 'v'\nLocation: 0:0:1..0:0:2"
    );
    let r: Result<(), Error> = UndefinedError { variable_name: "z".to_string() }.raise();
    assert_eq!(r.err().unwrap().get_message(), "UndefinedError: The variable 'z' is not defined");
}

#[test]
fn the_first_location_given_is_kept() {
    let mut e = Error::new(UndefinedError { variable_name: "a".to_string() });
    e.set_loc_range(&range(3, 4));
    e.set_loc_range(&range(7, 9));
    assert_eq!(e.get_message(), "UndefinedError: The variable 'a' is not defined\nLocation: 0:0:3..0:0:4");
}

#[test]
fn collector_locates_and_joins() {
    let mut errors = ErrorCollector::new();
    errors.raise(UndefinedError { variable_name: "a".to_string() });
    errors.set_loc_range(&range(0, 1));
    errors.add_error(Error::new(UnsupportedError { functionality: "bool" }));
    errors.set_loc_range(&range(5, 6));
    assert_eq!(errors.get_errors().len(), 2);
    assert_eq!(
        errors.into_string(),
        "UndefinedError: The variable 'a' is not defined\nLocation: 0:0:0..0:0:1\n\
         UnsupportedError: The functionality 'bool' is not supported\nLocation: 0:0:5..0:0:6"
    );
    errors.clear_errors();
    assert_eq!(errors.into_string(), "");
}
