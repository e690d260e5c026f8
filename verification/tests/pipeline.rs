use dimsafe::editor::editor_pipeline::restyle;
use dimsafe::editor::line_indicator::line_count;
use dimsafe::interpreter::ast::location::LocationIndex;
use dimsafe::interpreter::ast::location::RangeIndex;
use dimsafe::interpreter::execute::ProgramResult;
use dimsafe::interpreter::parser::ErrorLocation;
use dimsafe::interpreter::scope::output::{OutputCollector, OutputMessage};

#[test]
fn unchanged_text_keeps_cursor_and_overlays() {
    let shown = "1\u{E001}+\u{E002}2\u{E003}0\u{E004}";
    let r = restyle(shown, "1+2", &ProgramResult::Unexecuted);
    assert_eq!(r.text, "1+2");
    assert_eq!(r.cursor_state.cursor, vec![[1, 2]]);
    assert_eq!(r.overlays_location.location, vec![(3, 0)]);
    let got: Vec<(String, String, usize)> =
        r.sections.iter().map(|s| (s.class.clone(), s.text.clone(), s.ghost_overlays.len())).collect();
    assert_eq!(
        got,
        vec![
            ("literal_numerical".to_string(), "1".to_string(), 0),
            ("cursor_begin operator".to_string(), "+".to_string(), 0),
            ("cursor_end literal_numerical".to_string(), "2".to_string(), 0),
            (String::new(), String::new(), 1),
        ]
    );
}

#[test]
fn changed_text_drops_cursor_and_overlays() {
    let r = restyle("1\u{E001}\u{E002}\u{E003}0\u{E004}", "12", &ProgramResult::Unexecuted);
    assert_eq!(r.text, "12");
    assert!(r.cursor_state.cursor.is_empty());
    assert!(r.overlays_location.location.is_empty());
}

#[test]
fn a_run_places_the_overlays_of_its_outputs() {
    let mut output = OutputCollector::new();
    output.add(LocationIndex::from_index(1), OutputMessage::Result("=1".to_string()));
    let r = restyle("x", "x", &ProgramResult::Executed(output));
    assert_eq!(r.overlays_location.location, vec![(1, 0)]);
    let r = restyle(
        "x\u{E003}4\u{E004}",
        "x",
        &ProgramResult::InvalidTokens(ErrorLocation { loc_range: RangeIndex::new(0, 1) }),
    );
    assert!(r.overlays_location.location.is_empty());
}

#[test]
fn lines_are_one_more_than_line_feeds() {
    assert_eq!(line_count(""), 1);
    assert_eq!(line_count("a\nb\n"), 3);
}
