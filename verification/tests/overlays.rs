use dimsafe::editor::overlays_location::{class_index, overlay_marker, overlays_readable, OverlaysLocation};
use dimsafe::editor::stylization::{GhostOverlayIndex, Stylization};

#[test]
fn overlay_markers_are_read_and_removed() {
    let text = "ab\u{E003}12\u{E004}cd\u{E003}3\u{E004}";
    let (overlays, plain) = OverlaysLocation::retrieve_overlays_location(text);
    assert_eq!(plain, "abcd");
    assert_eq!(overlays.location, vec![(2, 12), (4, 3)]);
}

#[test]
fn cursor_markers_do_not_count_in_positions() {
    let text = "a\u{E001}b\u{E002}\u{E003}0\u{E004}c";
    let (overlays, plain) = OverlaysLocation::retrieve_overlays_location(text);
    assert_eq!(plain, "a\u{E001}b\u{E002}c");
    assert_eq!(overlays.location, vec![(2, 0)]);
    // an unclosed overlay marker stays in the text
    let (overlays, plain) = OverlaysLocation::retrieve_overlays_location("x\u{E003}1");
    assert!(overlays.location.is_empty());
    assert_eq!(plain, "x\u{E003}1");
}

#[test]
fn overlays_go_back_in_order() {
    let overlays = OverlaysLocation { location: vec![(3, 1), (0, 0), (3, 2)] };
    let mut marking = Stylization::new();
    overlays.restore_overlays_location(&mut marking);
    let sections = marking.apply_to_text("hello");
    let got: Vec<(Vec<usize>, String)> = sections
        .iter()
        .map(|s| (s.ghost_overlays.iter().map(|g: &GhostOverlayIndex| g.index).collect(), s.text.clone()))
        .collect();
    assert_eq!(got, vec![(vec![0], "hel".to_string()), (vec![1, 2], "lo".to_string())]);
    assert!(OverlaysLocation::void().location.is_empty());
}

#[test]
fn marker_text_reads_back_as_its_overlay() {
    let marker = overlay_marker(12);
    assert_eq!(marker, "\u{E003}12\u{E004}");
    let text = format!("ab{}cd", marker);
    assert!(overlays_readable(&text));
    let (overlays, plain) = OverlaysLocation::retrieve_overlays_location(&text);
    assert_eq!(plain, "abcd");
    assert_eq!(overlays.location, vec![(2, 12)]);
    assert!(!overlays_readable("a\u{E003}x\u{E004}"));
    assert!(!overlays_readable("a\u{E003}\u{E004}"));
    assert!(overlays_readable("a\u{E003}x"));
}

#[test]
fn index_after_the_last_prefix() {
    assert_eq!(class_index("ghost_overlay ghost_overlay_12", "ghost_overlay_"), Some(12));
    assert_eq!(class_index("output_overlay output_overlay_3", "output_overlay_"), Some(3));
    assert_eq!(class_index("a_1 a_2", "a_"), Some(2));
    assert_eq!(class_index("7", "a_"), Some(7));
    assert_eq!(class_index("ghost_overlay_", "ghost_overlay_"), None);
    assert_eq!(class_index("ghost_overlay_x", "ghost_overlay_"), None);
}
