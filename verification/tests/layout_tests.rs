use tui_core::layout::{Constraint, Direction, Layout, Rect};

fn vertical(constraints: Vec<Constraint>) -> Layout {
    Layout::new(Direction::Vertical, constraints)
}

#[test]
fn length_then_min_tiles_exactly() {
    let layout = vertical(vec![Constraint::Length(4), Constraint::Min(0)]);
    let rects = layout.split(Rect::new(0, 0, 10, 10));
    assert_eq!(rects.len(), 2);
    assert_eq!(rects[0], Rect::new(0, 0, 10, 4));
    assert_eq!(rects[1], Rect::new(0, 4, 10, 6));
}

#[test]
fn empty_constraints_empty_result() {
    let layout = vertical(vec![]);
    let rects = layout.split(Rect::new(0, 0, 10, 10));
    assert_eq!(rects.len(), 0);
}

#[test]
fn single_min_consumes_whole_area() {
    let layout = vertical(vec![Constraint::Min(0)]);
    let rects = layout.split(Rect::new(0, 0, 10, 10));
    assert_eq!(rects, vec![Rect::new(0, 0, 10, 10)]);
}

#[test]
fn percentage_rounds_down() {
    let layout = vertical(vec![Constraint::Percentage(30), Constraint::Percentage(70)]);
    let rects = layout.split(Rect::new(0, 0, 10, 10));
    assert_eq!(rects, vec![Rect::new(0, 0, 10, 3), Rect::new(0, 3, 10, 7)]);
}

#[test]
fn ratio_splits() {
    let layout = vertical(vec![Constraint::Ratio(1, 3), Constraint::Ratio(2, 3)]);
    let rects = layout.split(Rect::new(0, 0, 9, 9));
    assert_eq!(rects, vec![Rect::new(0, 0, 9, 3), Rect::new(0, 3, 9, 6)]);
}

#[test]
fn length_clamped_to_area() {
    let layout = vertical(vec![Constraint::Length(15)]);
    let rects = layout.split(Rect::new(0, 0, 10, 10));
    assert_eq!(rects, vec![Rect::new(0, 0, 10, 10)]);
}

#[test]
fn leftover_goes_to_last_without_min() {
    let layout = vertical(vec![Constraint::Length(3), Constraint::Length(3)]);
    let rects = layout.split(Rect::new(0, 0, 10, 10));
    assert_eq!(rects, vec![Rect::new(0, 0, 10, 3), Rect::new(0, 3, 10, 7)]);
}

#[test]
fn max_caps_segment() {
    let layout = vertical(vec![Constraint::Max(4), Constraint::Min(0)]);
    let rects = layout.split(Rect::new(0, 0, 10, 10));
    assert_eq!(rects, vec![Rect::new(0, 0, 10, 4), Rect::new(0, 4, 10, 6)]);
}

#[test]
fn leftover_shared_evenly_among_mins() {
    let layout = vertical(vec![Constraint::Min(1), Constraint::Min(1)]);
    let rects = layout.split(Rect::new(0, 0, 11, 11));
    // leftover 9 over two Min segments: 5 to the earliest, 4 to the other
    assert_eq!(rects, vec![Rect::new(0, 0, 11, 6), Rect::new(0, 6, 11, 5)]);
}

#[test]
fn margins_shrink_area() {
    let layout = vertical(vec![Constraint::Min(0)]).with_margin(1, 1);
    let rects = layout.split(Rect::new(0, 0, 10, 10));
    assert_eq!(rects, vec![Rect::new(1, 1, 8, 8)]);
}

#[test]
fn spacing_between_segments() {
    let layout = vertical(vec![
        Constraint::Length(2),
        Constraint::Length(2),
        Constraint::Min(0),
    ])
    .with_spacing(1);
    let rects = layout.split(Rect::new(0, 0, 10, 10));
    assert_eq!(
        rects,
        vec![
            Rect::new(0, 0, 10, 2),
            Rect::new(0, 3, 10, 2),
            Rect::new(0, 6, 10, 4),
        ]
    );
}

#[test]
fn zero_extent_area_gives_zero_segments() {
    let layout = vertical(vec![Constraint::Length(3), Constraint::Length(5)]);
    let rects = layout.split(Rect::new(0, 0, 10, 0));
    assert_eq!(rects, vec![Rect::new(0, 0, 10, 0), Rect::new(0, 0, 10, 0)]);
}

#[test]
fn all_zero_constraints_on_zero_area() {
    let layout = vertical(vec![Constraint::Length(0), Constraint::Length(0)]);
    let rects = layout.split(Rect::new(0, 0, 10, 0));
    assert_eq!(rects, vec![Rect::new(0, 0, 10, 0), Rect::new(0, 0, 10, 0)]);
}

#[test]
fn all_zero_constraints_last_absorbs_area() {
    // exact tiling wins: with no Min segment, the last zero-valued segment
    // still absorbs the leftover so the rectangles cover the area
    let layout = vertical(vec![Constraint::Length(0), Constraint::Length(0)]);
    let rects = layout.split(Rect::new(0, 0, 10, 10));
    assert_eq!(rects, vec![Rect::new(0, 0, 10, 0), Rect::new(0, 0, 10, 10)]);
}

#[test]
fn horizontal_direction_splits_columns() {
    let layout = Layout::new(
        Direction::Horizontal,
        vec![Constraint::Length(4), Constraint::Min(0)],
    );
    let rects = layout.split(Rect::new(0, 0, 10, 10));
    assert_eq!(rects, vec![Rect::new(0, 0, 4, 10), Rect::new(4, 0, 6, 10)]);
}

#[test]
fn zero_valued_constraints_are_legal() {
    let layout = vertical(vec![Constraint::Length(0), Constraint::Min(0)]);
    let rects = layout.split(Rect::new(0, 0, 10, 10));
    assert_eq!(rects, vec![Rect::new(0, 0, 10, 0), Rect::new(0, 0, 10, 10)]);
}

#[test]
fn ratio_zero_denominator_gives_zero() {
    let layout = vertical(vec![Constraint::Ratio(1, 0), Constraint::Min(0)]);
    let rects = layout.split(Rect::new(0, 0, 10, 10));
    assert_eq!(rects, vec![Rect::new(0, 0, 10, 0), Rect::new(0, 0, 10, 10)]);
}

#[test]
fn rect_inner_and_contains() {
    let r = Rect::new(2, 3, 10, 8);
    assert!(r.contains(2, 3));
    assert!(r.contains(11, 10));
    assert!(!r.contains(12, 3));
    assert!(!r.contains(2, 11));
    assert_eq!(r.inner(2, 1), Rect::new(4, 4, 6, 6));
    assert_eq!(r.inner(6, 1), Rect::new(0, 0, 0, 0));
    assert_eq!(r.area(), 80);
}
