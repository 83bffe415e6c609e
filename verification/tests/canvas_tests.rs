use tui_core::buffer::Color;
use tui_core::canvas::{Line, Painter, Shape};

fn draw_and_check(line: Line, expected_lines: Vec<&str>) {
    let mut painter = Painter::new(10, 10, 0, 10, 0, 10);
    line.render(&mut painter);
    let buffer = painter.grid.to_buffer('\u{2022}');
    for (y, row) in expected_lines.iter().enumerate() {
        for (x, ch) in row.chars().enumerate() {
            let cell = buffer.get(x as u16, y as u16);
            assert_eq!(
                cell.symbol, ch,
                "symbol mismatch at ({}, {}): got {:?}, want {:?}",
                x, y, cell.symbol, ch
            );
            if ch == '\u{2022}' {
                assert_eq!(cell.fg, Color::Red, "color mismatch at ({}, {})", x, y);
            } else {
                assert_eq!(cell.fg, Color::Reset);
            }
        }
    }
}

#[test]
fn off_grid() {
    draw_and_check(Line::new(-1, -1, 10, 10, Color::Red), vec!["          "; 10]);
    draw_and_check(Line::new(0, 0, 11, 11, Color::Red), vec!["          "; 10]);
}

#[test]
fn horizontal() {
    draw_and_check(
        Line::new(0, 0, 10, 0, Color::Red),
        vec![
            "          ",
            "          ",
            "          ",
            "          ",
            "          ",
            "          ",
            "          ",
            "          ",
            "          ",
            "\u{2022}\u{2022}\u{2022}\u{2022}\u{2022}\u{2022}\u{2022}\u{2022}\u{2022}\u{2022}",
        ],
    );
    draw_and_check(
        Line::new(10, 10, 0, 10, Color::Red),
        vec![
            "\u{2022}\u{2022}\u{2022}\u{2022}\u{2022}\u{2022}\u{2022}\u{2022}\u{2022}\u{2022}",
            "          ",
            "          ",
            "          ",
            "          ",
            "          ",
            "          ",
            "          ",
            "          ",
            "          ",
        ],
    );
}

#[test]
fn vertical() {
    draw_and_check(
        Line::new(0, 0, 0, 10, Color::Red),
        vec!["\u{2022}         "; 10],
    );
    draw_and_check(
        Line::new(10, 10, 10, 0, Color::Red),
        vec!["         \u{2022}"; 10],
    );
}

#[test]
fn diagonal() {
    // dy < dx, x1 < x2
    draw_and_check(
        Line::new(0, 0, 10, 5, Color::Red),
        vec![
            "          ",
            "          ",
            "          ",
            "          ",
            "         \u{2022}",
            "       \u{2022}\u{2022} ",
            "     \u{2022}\u{2022}   ",
            "   \u{2022}\u{2022}     ",
            " \u{2022}\u{2022}       ",
            "\u{2022}         ",
        ],
    );
    // dy < dx, x1 > x2
    draw_and_check(
        Line::new(10, 0, 0, 5, Color::Red),
        vec![
            "          ",
            "          ",
            "          ",
            "          ",
            "\u{2022}         ",
            " \u{2022}\u{2022}       ",
            "   \u{2022}\u{2022}     ",
            "     \u{2022}\u{2022}   ",
            "       \u{2022}\u{2022} ",
            "         \u{2022}",
        ],
    );
    // dy > dx, y1 < y2
    draw_and_check(
        Line::new(0, 0, 5, 10, Color::Red),
        vec![
            "    \u{2022}     ",
            "    \u{2022}     ",
            "   \u{2022}      ",
            "   \u{2022}      ",
            "  \u{2022}       ",
            "  \u{2022}       ",
            " \u{2022}        ",
            " \u{2022}        ",
            "\u{2022}         ",
            "\u{2022}         ",
        ],
    );
    // dy > dx, y1 > y2
    draw_and_check(
        Line::new(0, 10, 5, 0, Color::Red),
        vec![
            "\u{2022}         ",
            "\u{2022}         ",
            " \u{2022}        ",
            " \u{2022}        ",
            "  \u{2022}       ",
            "  \u{2022}       ",
            "   \u{2022}      ",
            "   \u{2022}      ",
            "    \u{2022}     ",
            "    \u{2022}     ",
        ],
    );
}

#[test]
fn line_symmetry_same_points() {
    let mut p1 = Painter::new(10, 10, 0, 10, 0, 10);
    let mut p2 = Painter::new(10, 10, 0, 10, 0, 10);
    Line::new(1, 2, 9, 7, Color::Blue).render(&mut p1);
    Line::new(9, 7, 1, 2, Color::Blue).render(&mut p2);
    for y in 0..10u16 {
        for x in 0..10u16 {
            assert_eq!(p1.grid.get(x, y), p2.grid.get(x, y));
        }
    }
}

#[test]
fn one_endpoint_outside_paints_nothing() {
    let mut p = Painter::new(10, 10, 0, 10, 0, 10);
    Line::new(5, 5, 11, 5, Color::Red).render(&mut p);
    for y in 0..10u16 {
        for x in 0..10u16 {
            assert_eq!(p.grid.get(x, y), None);
        }
    }
}

#[test]
fn get_point_clips_and_projects() {
    let p = Painter::new(10, 10, 0, 10, 0, 10);
    assert_eq!(p.get_point(-1, 5), None);
    assert_eq!(p.get_point(5, -1), None);
    assert_eq!(p.get_point(11, 5), None);
    assert_eq!(p.get_point(5, 11), None);
    assert_eq!(p.get_point(0, 0), Some((0, 9)));
    assert_eq!(p.get_point(10, 10), Some((9, 0)));
    assert_eq!(p.get_point(5, 5), Some((4, 4)));
}

#[test]
fn get_point_degenerate_bounds() {
    let p = Painter::new(10, 10, 3, 3, 0, 10);
    assert_eq!(p.get_point(3, 5), None);
    let q = Painter::new(0, 0, 0, 10, 0, 10);
    assert_eq!(q.get_point(5, 5), None);
}

#[test]
fn paint_ignores_out_of_grid() {
    let mut p = Painter::new(2, 2, 0, 10, 0, 10);
    p.paint(5, 5, Color::Red);
    for y in 0..2u16 {
        for x in 0..2u16 {
            assert_eq!(p.grid.get(x, y), None);
        }
    }
    p.paint(1, 0, Color::Green);
    assert_eq!(p.grid.get(1, 0), Some(Color::Green));
}

#[test]
fn shape_trait_draws_like_render() {
    let mut p1 = Painter::new(10, 10, 0, 10, 0, 10);
    let mut p2 = Painter::new(10, 10, 0, 10, 0, 10);
    let line = Line::new(0, 0, 10, 10, Color::Red);
    line.render(&mut p1);
    <Line as Shape>::draw(&line, &mut p2);
    for y in 0..10u16 {
        for x in 0..10u16 {
            assert_eq!(p1.grid.get(x, y), p2.grid.get(x, y));
        }
    }
}
