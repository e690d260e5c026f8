use dimsafe::interpreter::error::collector::ErrorCollector;
use dimsafe::interpreter::scope::{AssignmentOperator, Identifier, Scope};

fn ident(names: &[&str]) -> Identifier {
    Identifier { text: names.iter().map(|n| n.to_string()).collect() }
}

#[test]
fn a_defined_variable_reads_back() {
    let mut scope: Scope<i64> = Scope::new();
    let mut errors = ErrorCollector::new();
    scope.assign_value(&ident(&["x"]), 3, &AssignmentOperator::Define, &mut errors);
    assert_eq!(scope.get_value(&ident(&["x"]), &mut errors), Some(&3));
    // the last part of a dotted name names the variable
    assert_eq!(scope.get_value(&ident(&["a", "x"]), &mut errors), Some(&3));
    assert!(errors.get_errors().is_empty());
}

#[test]
fn reading_an_undefined_variable_raises_an_error() {
    let scope: Scope<i64> = Scope::new();
    let mut errors = ErrorCollector::new();
    assert_eq!(scope.get_value(&ident(&["y"]), &mut errors), None);
    assert_eq!(errors.into_string(), "UndefinedError: The variable 'y' is not defined");
}

#[test]
fn defining_twice_is_refused() {
    let mut scope: Scope<i64> = Scope::new();
    let mut errors = ErrorCollector::new();
    scope.assign_value(&ident(&["x"]), 1, &AssignmentOperator::Define, &mut errors);
    scope.assign_value(&ident(&["x"]), 2, &AssignmentOperator::Define, &mut errors);
    assert_eq!(scope.get_value(&ident(&["x"]), &mut errors), Some(&1));
    assert_eq!(
        errors.into_string(),
        "AssignmentError: You can't define a variable that already exists: 'x'"
    );
}

#[test]
fn reassign_and_push_need_an_existing_variable() {
    let mut scope: Scope<i64> = Scope::new();
    let mut errors = ErrorCollector::new();
    scope.assign_value(&ident(&["x"]), 1, &AssignmentOperator::Reassign, &mut errors);
    scope.assign_value(&ident(&["x"]), 1, &AssignmentOperator::Push, &mut errors);
    assert_eq!(scope.get_value(&ident(&["x"]), &mut ErrorCollector::new()), None);
    assert_eq!(
        errors.into_string(),
        "AssignmentError: You can't reassign a variable that is not defined: 'x'\n\
         AssignmentError: You can't push a value to a variable that is not defined: 'x'"
    );
    let mut errors = ErrorCollector::new();
    scope.assign_value(&ident(&["x"]), 1, &AssignmentOperator::Define, &mut errors);
    scope.assign_value(&ident(&["x"]), 5, &AssignmentOperator::Reassign, &mut errors);
    assert_eq!(scope.get_value(&ident(&["x"]), &mut errors), Some(&5));
    scope.assign_value(&ident(&["x"]), 7, &AssignmentOperator::Push, &mut errors);
    assert_eq!(scope.get_value(&ident(&["x"]), &mut errors), Some(&7));
    assert!(errors.get_errors().is_empty());
}

#[test]
fn merge_prefers_the_other_scope() {
    let mut a: Scope<i64> = Scope::new();
    let mut b: Scope<i64> = Scope::new();
    let mut errors = ErrorCollector::new();
    a.assign_value(&ident(&["x"]), 1, &AssignmentOperator::Define, &mut errors);
    a.assign_value(&ident(&["y"]), 2, &AssignmentOperator::Define, &mut errors);
    b.assign_value(&ident(&["y"]), 20, &AssignmentOperator::Define, &mut errors);
    let m = a.merge(&b);
    assert_eq!(m.get_value(&ident(&["x"]), &mut errors), Some(&1));
    assert_eq!(m.get_value(&ident(&["y"]), &mut errors), Some(&20));
    assert!(errors.get_errors().is_empty());
}
