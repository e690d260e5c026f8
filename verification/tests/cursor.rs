use dimsafe::editor::cursor::CursorState;
use dimsafe::editor::stylization::{get_balise_class, Stylization, CURSOR_BEGIN, CURSOR_END};

#[test]
fn cursor_test_get_retrieve_cursor() {
    let string = "1+2*3\u{E001}4\u{E002}";
    let (cursor_state, string) = CursorState::retrieve_cursor(string);
    assert_eq!(cursor_state.cursor, vec![[5, 6]]);
    assert_eq!(string, "1+2*34");
}

#[test]
fn cursor_test_get_retrieve_cursor2() {
    let string = "1+2*3\u{E001}\u{E002}4";
    let (cursor_state, string) = CursorState::retrieve_cursor(string);
    assert_eq!(cursor_state.cursor, vec![[5, 5]]);
    assert_eq!(string, "1+2*34");
}

#[test]
fn input_test_get_retrieve_cursor() {
    let string = "1+2*3\u{E001}4\u{E002}";
    let (cursor_state, string) = CursorState::retrieve_cursor(string);
    assert_eq!(cursor_state.cursor, vec![[5, 6]]);
    assert_eq!(string, "1+2*34");
}

#[test]
fn input_test_get_retrieve_cursor2() {
    let string = "1+2*3\u{E001}\u{E002}4";
    let (cursor_state, string) = CursorState::retrieve_cursor(string);
    assert_eq!(cursor_state.cursor, vec![[5, 5]]);
    assert_eq!(string, "1+2*34");
}

#[test]
fn several_selections_in_bytes() {
    // 'é' is two bytes long
    let (cursor_state, text) = CursorState::retrieve_cursor("\u{E001}é\u{E002}a\u{E001}b\u{E002}");
    assert_eq!(cursor_state.cursor, vec![[0, 2], [3, 4]]);
    assert_eq!(text, "éab");
}

#[test]
fn an_unclosed_selection_is_dropped() {
    let (cursor_state, text) = CursorState::retrieve_cursor("ab\u{E001}cd");
    assert_eq!(cursor_state.cursor, Vec::<[usize; 2]>::new());
    assert_eq!(text, "abcd");
    let (cursor_state, text) = CursorState::retrieve_cursor("a\u{E002}b");
    assert!(cursor_state.cursor.is_empty());
    assert_eq!(text, "a\u{E002}b");
    assert!(CursorState::void().cursor.is_empty());
}

#[test]
fn cursor_classes_mark_one_character() {
    let cursor_state = CursorState { cursor: vec![[1, 3]] };
    let mut marking = Stylization::new();
    cursor_state.place_cursor_balise(&mut marking);
    let sections = marking.apply_to_text("abcd");
    let got: Vec<(String, String)> = sections.iter().map(|s| (s.class.clone(), s.text.clone())).collect();
    assert_eq!(
        got,
        vec![
            (String::new(), "a".to_string()),
            (get_balise_class(CURSOR_BEGIN), "b".to_string()),
            (String::new(), "c".to_string()),
            (get_balise_class(CURSOR_END), "d".to_string()),
            (String::new(), String::new()),
        ]
    );
}
