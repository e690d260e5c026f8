use dimsafe::interpreter::error::collector::ErrorCollector;
use dimsafe::interpreter::operator::implementation::OperatorImplementation;
use dimsafe::interpreter::operator::table::{Computation, OperatorTable};
use dimsafe::interpreter::operator::Operator;
use dimsafe::interpreter::value::TypeId;

fn table() -> OperatorTable<u32> {
    let mut t = OperatorTable::new();
    t.add_implementation(Operator::ArithmeticAdd, OperatorImplementation::new(vec![TypeId::Scalar, TypeId::Scalar], false, 1));
    t.add_implementation(Operator::ArithmeticAdd, OperatorImplementation::new(vec![TypeId::Scalar, TypeId::Empty], true, 2));
    t.add_implementation(Operator::ArithmeticAdd, OperatorImplementation::new(vec![TypeId::Empty, TypeId::Scalar], false, 3));
    t
}

#[test]
fn the_first_fitting_implementation_is_chosen() {
    let t = table();
    let mut errors = ErrorCollector::new();
    match t.compute(&Operator::ArithmeticAdd, &[TypeId::Scalar, TypeId::Scalar], &mut errors) {
        Computation::Apply(f) => assert_eq!(*f, 1),
        Computation::Failed => panic!("expected an implementation"),
    }
    // a symmetric implementation takes its inputs in either order
    match t.compute(&Operator::ArithmeticAdd, &[TypeId::Empty, TypeId::Scalar], &mut errors) {
        Computation::Apply(f) => assert_eq!(*f, 2),
        Computation::Failed => panic!("expected an implementation"),
    }
    assert!(errors.get_errors().is_empty());
}

#[test]
fn failed_inputs_and_missing_implementations_fail() {
    let t = table();
    let mut errors = ErrorCollector::new();
    assert!(matches!(t.compute(&Operator::ArithmeticAdd, &[TypeId::Failed, TypeId::Scalar], &mut errors), Computation::Failed));
    assert!(errors.get_errors().is_empty());
    assert!(matches!(t.compute(&Operator::ArithmeticSub, &[TypeId::Scalar], &mut errors), Computation::Failed));
    assert_eq!(
        errors.into_string(),
        "UnsupportedError: The functionality 'operator for given inputs' is not supported"
    );
    let imp = OperatorImplementation::new(vec![TypeId::Scalar], false, 9u32);
    assert_eq!(*imp.implementation(), 9);
    assert!(imp.matches(&[TypeId::Scalar]));
    assert!(!imp.matches(&[TypeId::Empty]));
}
