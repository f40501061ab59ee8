use taffy::compute::grid::coordinates::{GridLine, OriginZeroLine, TrackCounts};

#[test]
fn grid_line_keeps_its_number() {
    assert_eq!(GridLine::from_i16(5).as_i16(), 5);
    assert_eq!(GridLine::from_i16(-3).as_i16(), -3);
}

#[test]
fn positive_lines_count_from_the_start() {
    assert_eq!(GridLine::from_i16(1).into_origin_zero_line(3), OriginZeroLine(0));
    assert_eq!(GridLine::from_i16(4).into_origin_zero_line(3), OriginZeroLine(3));
}

#[test]
fn negative_lines_count_from_the_end() {
    assert_eq!(GridLine::from_i16(-1).into_origin_zero_line(3), OriginZeroLine(3));
    assert_eq!(GridLine::from_i16(-4).into_origin_zero_line(3), OriginZeroLine(0));
    assert_eq!(GridLine::from_i16(-5).into_origin_zero_line(3), OriginZeroLine(-1));
}

#[test]
fn lines_stand_at_even_indexes() {
    let counts = TrackCounts::from_raw(2, 3, 1);
    assert_eq!(OriginZeroLine(-2).into_track_vec_index(counts), 0);
    assert_eq!(OriginZeroLine(0).into_track_vec_index(counts), 4);
    assert_eq!(OriginZeroLine(4).into_track_vec_index(counts), 12);
    assert_eq!(counts.len(), 6);
}

#[test]
fn lines_add_and_subtract() {
    assert_eq!(OriginZeroLine(2) + OriginZeroLine(3), OriginZeroLine(5));
    assert_eq!(OriginZeroLine(2) - OriginZeroLine(3), OriginZeroLine(-1));
    assert_eq!(OriginZeroLine(-2) + 3u16, OriginZeroLine(1));
    assert_eq!(OriginZeroLine(2) - 3u16, OriginZeroLine(-1));
}

#[test]
fn a_grid_line_from_its_number() {
    assert_eq!(GridLine::from(5), GridLine::from_i16(5));
    let mut line = OriginZeroLine(-2);
    line.add_assign(3);
    assert_eq!(line, OriginZeroLine(1));
}
