use dimsafe::editor::stylization::{
    get_balise_class, GhostOverlayIndex, Section, Stylization as Marking, CURSOR_BEGIN, CURSOR_END,
    EMPTY_BALISE, LITERAL_NUMERICAL_BALISE, OPERATOR_BALISE, STRUCTURAL_BALISE,
};
use dimsafe::stylization::Stylization;

/// The HTML the editor shows for sections: each section's ghost overlays, then its text in a
/// span with its classes, and the end marker of the list.
fn render(sections: &[Section]) -> String {
    let mut html = String::new();
    for section in sections {
        for overlay in &section.ghost_overlays {
            html.push_str(&format!("<span class=\"ghost_overlay ghost_overlay_{}\"></span>", overlay.index));
        }
        html.push_str(&format!("<span class=\"{}\">{}</span>", section.class, section.text));
    }
    html.push_str("<!>");
    html
}

#[test]
fn stylization_test_get_balise_class() {
    let test_text = "1+2*32 ";

    let mut stylization = Stylization::new();

    // cursor
    stylization.insert_balise(CURSOR_BEGIN, (2, 3));
    stylization.insert_balise(CURSOR_END, (2, 3));

    // highlight text
    stylization.insert_balise(LITERAL_NUMERICAL_BALISE, (0, 1));
    stylization.insert_balise(OPERATOR_BALISE, (1, 2));
    stylization.insert_balise(LITERAL_NUMERICAL_BALISE, (2, 3));
    stylization.insert_balise(OPERATOR_BALISE, (3, 4));
    stylization.insert_balise(LITERAL_NUMERICAL_BALISE, (4, 6));

    // apply text style
    let style_text = stylization.apply_to_text(&test_text);
    assert_eq!(style_text, "\
    <span class=\"literal_numerical\">1</span>\
    <span class=\"operator\">+</span>\
    <span class=\"cursor_begin cursor_end literal_numerical\">2</span>\
    <span class=\"operator\">*</span>\
    <span class=\"literal_numerical\">32</span>\
    <span class=\"\"> </span>");
}

#[test]
fn editor_stylization_test_get_balise_class() {
    let test_text = "1+2*32 ";

    let mut stylization = Marking::new();

    // cursor
    stylization.insert_balise(CURSOR_BEGIN, (2, 3));
    stylization.insert_balise(CURSOR_END, (2, 3));

    // highlight text
    stylization.insert_balise(LITERAL_NUMERICAL_BALISE, (0, 1));
    stylization.insert_balise(OPERATOR_BALISE, (1, 2));
    stylization.insert_balise(LITERAL_NUMERICAL_BALISE, (2, 3));
    stylization.insert_balise(OPERATOR_BALISE, (3, 4));
    stylization.insert_balise(LITERAL_NUMERICAL_BALISE, (4, 6));

    // apply text style
    let style_text = render(&stylization.apply_to_text(&test_text));
    assert_eq!(style_text, "\
    <span class=\"literal_numerical\">1</span>\
    <span class=\"operator\">+</span>\
    <span class=\"cursor_begin cursor_end literal_numerical\">2</span>\
    <span class=\"operator\">*</span>\
    <span class=\"literal_numerical\">32</span>\
    <span class=\"\"> </span><!>");
}

#[test]
fn test_with_multiple_ghost_overlay() {
    let test_text = "Un peu de texte";

    let mut stylization = Marking::new();

    let ghost_overlay_0 = GhostOverlayIndex { index: 0 };
    let ghost_overlay_1 = GhostOverlayIndex { index: 1 };

    // ghost overlay
    stylization.insert_ghost_overlay(4, ghost_overlay_0);
    stylization.insert_ghost_overlay(4, ghost_overlay_1);

    // apply text style
    let style_text = render(&stylization.apply_to_text(&test_text));

    // assert style text
    assert_eq!(style_text, "\
    <span class=\"\">Un p</span>\
    <span class=\"ghost_overlay ghost_overlay_0\"></span>\
    <span class=\"ghost_overlay ghost_overlay_1\"></span>\
    <span class=\"\">eu de texte</span><!>");
}

#[test]
fn class_names_in_bit_order() {
    assert_eq!(get_balise_class(EMPTY_BALISE), "");
    assert_eq!(get_balise_class(CURSOR_BEGIN | STRUCTURAL_BALISE), "cursor_begin structural");
    assert_eq!(get_balise_class(OPERATOR_BALISE | CURSOR_END), "cursor_end operator");
}

#[test]
fn classes_add_up_where_ranges_overlap() {
    let mut marking = Marking::new();
    marking.insert_balise(OPERATOR_BALISE, (1, 4));
    marking.insert_balise(STRUCTURAL_BALISE, (2, 6));
    // an empty or reversed range changes nothing
    marking.insert_balise(CURSOR_BEGIN, (3, 3));
    marking.insert_balise(CURSOR_END, (5, 2));
    let sections = marking.apply_to_text("abcdefg");
    let got: Vec<(String, String)> = sections.iter().map(|s| (s.class.clone(), s.text.clone())).collect();
    assert_eq!(
        got,
        vec![
            (String::new(), "a".to_string()),
            ("operator".to_string(), "b".to_string()),
            ("operator structural".to_string(), "cd".to_string()),
            ("structural".to_string(), "ef".to_string()),
            (String::new(), "g".to_string()),
        ]
    );
}

#[test]
fn sections_put_together_give_the_text() {
    let text = "é1+ü2";
    let mut marking = Marking::new();
    // positions inside a character are moved to its end
    marking.insert_balise(OPERATOR_BALISE, (1, 3));
    marking.insert_balise(LITERAL_NUMERICAL_BALISE, (5, 40));
    let sections = marking.apply_to_text(text);
    let joined: String = sections.iter().map(|s| s.text.as_str()).collect();
    assert_eq!(joined, text);
    let texts: Vec<&str> = sections.iter().map(|s| s.text.as_str()).collect();
    assert_eq!(texts, vec!["é", "1", "+ü", "2", ""]);
}

#[test]
fn ranges_in_either_order_or_twice_style_alike() {
    let text = "a+bc*d";
    let classes = |marking: &Marking| -> Vec<(String, String)> {
        marking.apply_to_text(text).iter().map(|s| (s.class.clone(), s.text.clone())).collect()
    };
    let mut first = Marking::new();
    first.insert_balise(OPERATOR_BALISE, (1, 4));
    first.insert_balise(STRUCTURAL_BALISE, (3, 5));
    let mut second = Marking::new();
    second.insert_balise(STRUCTURAL_BALISE, (3, 5));
    second.insert_balise(OPERATOR_BALISE, (1, 4));
    assert_eq!(classes(&first), classes(&second));
    let mut once = Marking::new();
    once.insert_balise(OPERATOR_BALISE, (1, 4));
    let mut twice = Marking::new();
    twice.insert_balise(OPERATOR_BALISE, (1, 4));
    twice.insert_balise(OPERATOR_BALISE, (1, 4));
    assert_eq!(classes(&once), classes(&twice));
    assert_eq!(
        classes(&first),
        vec![
            (String::new(), "a".to_string()),
            ("operator".to_string(), "+b".to_string()),
            ("operator structural".to_string(), "c".to_string()),
            ("structural".to_string(), "*".to_string()),
            (String::new(), "d".to_string()),
        ]
    );
}
