use dimsafe::interpreter::ast::location::{LocationIndex, RangeIndex, ReverseLocation};

#[test]
fn test_location_index() {
    // just one line
    let location_index = LocationIndex::from_index(0);
    let reverse_location = location_index.rev_pos(0, &vec![0]);
    assert_eq!(reverse_location, ReverseLocation { block: 0, line: 0, column: 0 });

    let location_index2 = LocationIndex::from_index(15);
    let reverse_location = location_index2.rev_pos(0, &vec![0]);
    assert_eq!(reverse_location, ReverseLocation { block: 0, line: 0, column: 15 });

    // many lines
    let location_index = LocationIndex::from_index(17);
    let reverse_location = location_index.rev_pos(0, &vec![0, 15, 20, 60, 100]);
    assert_eq!(reverse_location, ReverseLocation { block: 0, line: 1, column: 2 });
}

#[test]
fn location_at_a_line_start_is_column_zero() {
    let lines = vec![0, 15, 20, 60, 100];
    let r = LocationIndex::from_index(60).rev_pos(3, &lines);
    assert_eq!(r, ReverseLocation { block: 3, line: 3, column: 0 });
    let r = LocationIndex::from_index(150).rev_pos(0, &lines);
    assert_eq!(r, ReverseLocation { block: 0, line: 4, column: 50 });
    let r = LocationIndex::from_index(14).rev_pos(0, &lines);
    assert_eq!(r, ReverseLocation { block: 0, line: 0, column: 14 });
}

#[test]
fn range_reverses_both_ends() {
    let range = RangeIndex::new(3, 17);
    assert_eq!(range.start.index, 3);
    assert_eq!(range.end.index, 17);
    let r = range.rev_pos(1, &[0, 15]);
    assert_eq!(r.start, ReverseLocation { block: 1, line: 0, column: 3 });
    assert_eq!(r.end, ReverseLocation { block: 1, line: 1, column: 2 });
    assert_eq!(r.to_string(), "1:0:3..1:1:2");
    assert_eq!(r.start.to_string(), "1:0:3");
}

#[test]
fn line_starts_out_of_order_still_give_a_line_that_holds_the_position() {
    let r = LocationIndex::from_index(20).rev_pos(0, &[0, 30, 10]);
    assert_eq!(r, ReverseLocation { block: 0, line: 0, column: 20 });
}
