use tui_core::buffer::{char_width, Buffer, Cell, Color};
use tui_core::layout::Rect;

fn styled(symbol: char, fg: Color) -> Cell {
    Cell {
        symbol,
        fg,
        bg: Color::Reset,
        modifier: 0,
    }
}

#[test]
fn empty_buffer_is_blank() {
    let b = Buffer::empty(Rect::new(0, 0, 4, 3));
    assert_eq!(b.content.len(), 12);
    for y in 0..3u16 {
        for x in 0..4u16 {
            assert_eq!(b.get(x, y), Cell::blank());
        }
    }
}

#[test]
fn set_then_get() {
    let mut b = Buffer::empty(Rect::new(2, 1, 4, 3));
    let cell = styled('x', Color::Green);
    b.set(3, 2, cell);
    assert_eq!(b.get(3, 2), cell);
    assert_eq!(b.get(2, 1), Cell::blank());
}

#[test]
fn diff_of_identical_buffers_is_empty() {
    let mut a = Buffer::empty(Rect::new(0, 0, 5, 5));
    a.set(1, 1, styled('q', Color::Red));
    let b = a.clone();
    assert_eq!(a.diff(&b).len(), 0);
    assert_eq!(a.diff(&a).len(), 0);
}

#[test]
fn diff_reports_changes_in_row_major_order() {
    let prev = Buffer::empty(Rect::new(0, 0, 4, 3));
    let mut curr = Buffer::empty(Rect::new(0, 0, 4, 3));
    curr.set(3, 2, styled('c', Color::Blue));
    curr.set(0, 1, styled('b', Color::Red));
    curr.set(2, 0, styled('a', Color::Green));
    let updates = prev.diff(&curr);
    assert_eq!(updates.len(), 3);
    assert_eq!((updates[0].x, updates[0].y), (2, 0));
    assert_eq!(updates[0].cell.symbol, 'a');
    assert_eq!((updates[1].x, updates[1].y), (0, 1));
    assert_eq!((updates[2].x, updates[2].y), (3, 2));
}

#[test]
fn diff_roundtrip_restores_current_frame() {
    let mut prev = Buffer::empty(Rect::new(1, 1, 4, 4));
    prev.set(1, 1, styled('p', Color::Red));
    prev.set(4, 4, styled('q', Color::Blue));
    let mut curr = Buffer::empty(Rect::new(1, 1, 4, 4));
    curr.set(1, 1, styled('r', Color::Green));
    curr.set(2, 3, styled('s', Color::Magenta));
    let updates = prev.diff(&curr);
    let mut replayed = prev.clone();
    replayed.apply(&updates);
    assert_eq!(replayed.content, curr.content);
}

#[test]
fn diff_skips_wide_symbol_continuation() {
    let prev = Buffer::empty(Rect::new(0, 0, 4, 1));
    let mut curr = Buffer::empty(Rect::new(0, 0, 4, 1));
    curr.set(0, 0, styled('\u{4e00}', Color::Red));
    curr.set(1, 0, styled('x', Color::Red));
    let updates = prev.diff(&curr);
    // the slot after the wide symbol is its continuation: not emitted
    assert_eq!(updates.len(), 1);
    assert_eq!((updates[0].x, updates[0].y), (0, 0));
    assert_eq!(updates[0].cell.symbol, '\u{4e00}');
}

#[test]
fn reset_clears_to_blanks() {
    let mut b = Buffer::empty(Rect::new(0, 0, 3, 3));
    b.set(1, 1, styled('x', Color::Red));
    b.reset();
    for y in 0..3u16 {
        for x in 0..3u16 {
            assert_eq!(b.get(x, y), Cell::blank());
        }
    }
}

#[test]
fn char_width_values() {
    assert_eq!(char_width('a'), 1);
    assert_eq!(char_width(' '), 1);
    assert_eq!(char_width('\u{2022}'), 1);
    assert_eq!(char_width('\u{4e00}'), 2);
    assert_eq!(char_width('\u{ff01}'), 2);
    assert_eq!(char_width('\u{ac00}'), 2);
}

#[test]
fn diff_on_offset_area_uses_absolute_coordinates() {
    let prev = Buffer::empty(Rect::new(5, 7, 3, 2));
    let mut curr = Buffer::empty(Rect::new(5, 7, 3, 2));
    curr.set(6, 8, styled('z', Color::Cyan));
    let updates = prev.diff(&curr);
    assert_eq!(updates.len(), 1);
    assert_eq!((updates[0].x, updates[0].y), (6, 8));
}
