use dimsafe::editor::overlays_location::OverlaysLocation;
use dimsafe::interpreter::ast::location::LocationIndex;
use dimsafe::interpreter::execute::ProgramResult;
use dimsafe::interpreter::scope::output::{Output, OutputCollector, OutputMessage};

#[test]
fn outputs_are_numbered_in_order() {
    let mut output = OutputCollector::new();
    output.add(LocationIndex::from_index(4), OutputMessage::Result("1".to_string()));
    output.add(LocationIndex::from_index(2), OutputMessage::Error("e".to_string()));
    output.add(LocationIndex::from_index(9), OutputMessage::Result("3".to_string()));
    assert_eq!(output.nb_ghost_overlay(), 3);
    let numbers: Vec<usize> = output.outputs().iter().map(|o| o.index).collect();
    assert_eq!(numbers, vec![0, 1, 2]);
    let overlays = OverlaysLocation::from_output(&output);
    assert_eq!(overlays.location, vec![(4, 0), (2, 1), (9, 2)]);
}

#[test]
fn output_keeps_what_it_is_given() {
    let o = Output::new(LocationIndex::from_index(7), OutputMessage::Result("x".to_string()), 5);
    assert_eq!(o.initial_location.index, 7);
    assert_eq!(o.index, 5);
    assert!(matches!(o.message, OutputMessage::Result(ref m) if m == "x"));
    assert!(matches!(ProgramResult::default(), ProgramResult::Unexecuted));
}
