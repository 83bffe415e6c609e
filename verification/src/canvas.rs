//! The canvas layer: a painter that maps a continuous coordinate space onto
//! a grid of drawable points, and line rasterization over that grid.
//!
//! Canvas coordinates are fixed-point integers: the caller picks a scale and
//! hands every bound and endpoint in the same scale, which cancels out in
//! the projection. The grid has one addressable point per cell for block or
//! dot markers, more for denser markers.

use vstd::prelude::*;
use crate::buffer::{Buffer, Cell, Color};
use crate::layout::{min_int, Rect};

verus! {

/// Largest magnitude a canvas bound may have; keeps every intermediate
/// product of the projection inside `i64`.
pub const COORD_LIMIT: i64 = 0x4000_0000;

/// A grid of drawable points; a painted point holds the color it was last
/// painted with.
#[derive(Clone, Debug)]
pub struct Grid {
    pub width: u16,
    pub height: u16,
    pub cells: Vec<Option<Color>>,
}

impl Grid {
    /// One slot per point, row-major.
    pub open spec fn wf(self) -> bool {
        self.cells@.len() == self.width * self.height
    }

    pub fn new(width: u16, height: u16) -> (g: Grid)
        ensures
            g.wf(),
            g.width == width,
            g.height == height,
            forall|i: int| 0 <= i < g.cells@.len() ==> g.cells@[i] is None,
    {
        proof {
            assert(width * height <= 0xffff_ffff) by (nonlinear_arith)
                requires
                    width <= 0xffff,
                    height <= 0xffff,
            ;
        }
        let n: usize = ((width as u32) * (height as u32)) as usize;
        let mut cells: Vec<Option<Color>> = Vec::new();
        let mut i: usize = 0;
        while i < n
            invariant
                i <= n,
                cells@.len() == i,
                forall|j: int| 0 <= j < i ==> cells@[j] is None,
            decreases n - i,
        {
            cells.push(None);
            i += 1;
        }
        Grid { width, height, cells }
    }

    /// The color the point at (x, y) was painted with, if any.
    pub fn get(&self, x: u16, y: u16) -> (c: Option<Color>)
        requires
            self.wf(),
            x < self.width,
            y < self.height,
        ensures
            c == self.cells@[(y as int) * (self.width as int) + (x as int)],
    {
        proof {
            let w = self.width as int;
            let h = self.height as int;
            assert((y as int) * w + (x as int) < h * w && (y as int) * w + (x as int) >= 0 && h * w
                == w * h && (y as int) * w + (x as int) < 0xffff_ffff) by (nonlinear_arith)
                requires
                    0 <= (y as int) && (y as int) < h,
                    0 <= (x as int) && (x as int) < w,
                    h <= 0xffff,
                    w <= 0xffff,
            ;
        }
        let i: usize = ((y as u32) * (self.width as u32) + (x as u32)) as usize;
        self.cells[i]
    }

    /// A fresh buffer of the grid's dimensions at the origin: every painted
    /// point becomes `symbol` in its color, every other cell stays blank.
    pub fn to_buffer(&self, symbol: char) -> (b: Buffer)
        requires
            self.wf(),
        ensures
            b.wf(),
            b.area == (Rect { x: 0, y: 0, width: self.width, height: self.height }),
            b.content@.len() == self.cells@.len(),
            forall|k: int|
                0 <= k < self.cells@.len() ==> b.content@[k] == (match self.cells@[k] {
                    Some(c) => Cell {
                        symbol,
                        fg: c,
                        bg: Color::Reset,
                        modifier: 0,
                    },
                    None => crate::buffer::blank_cell(),
                }),
    {
        let n = self.cells.len();
        let mut content: Vec<Cell> = Vec::new();
        let mut k: usize = 0;
        while k < n
            invariant
                k <= n,
                n == self.cells@.len(),
                self.wf(),
                content@.len() == k,
                forall|j: int|
                    0 <= j < k ==> content@[j] == (match self.cells@[j] {
                        Some(c) => Cell { symbol, fg: c, bg: Color::Reset, modifier: 0 },
                        None => crate::buffer::blank_cell(),
                    }),
            decreases n - k,
        {
            let cell = match self.cells[k] {
                Some(c) => Cell { symbol, fg: c, bg: Color::Reset, modifier: 0 },
                None => Cell::blank(),
            };
            content.push(cell);
            k += 1;
        }
        Buffer { area: Rect { x: 0, y: 0, width: self.width, height: self.height }, content }
    }
}

/// The painter: a grid of points plus the continuous bounds it projects
/// from. `x_min..x_max` maps left to right, `y_min..y_max` maps bottom to
/// top (row 0 is the top row of the grid).
#[derive(Clone, Debug)]
pub struct Painter {
    pub grid: Grid,
    pub x_min: i64,
    pub x_max: i64,
    pub y_min: i64,
    pub y_max: i64,
}

/// One point painted, every slot out of range untouched.
pub open spec fn paint_at(
    cells: Seq<Option<Color>>,
    w: int,
    h: int,
    x: int,
    y: int,
    c: Color,
) -> Seq<Option<Color>> {
    if 0 <= x < w && 0 <= y < h {
        cells.update(y * w + x, Some(c))
    } else {
        cells
    }
}

/// A whole run of points painted in order.
pub open spec fn spec_painted(
    cells: Seq<Option<Color>>,
    w: int,
    h: int,
    pts: Seq<(int, int)>,
    c: Color,
) -> Seq<Option<Color>>
    decreases pts.len(),
{
    if pts.len() == 0 {
        cells
    } else {
        spec_painted(paint_at(cells, w, h, pts[0].0, pts[0].1, c), w, h, pts.skip(1), c)
    }
}

/// The projection of a continuous point onto the grid: `None` outside the
/// bounds (out-of-range points are clipped, not an error), `None` for
/// degenerate bounds or an empty grid, otherwise the proportional position
/// with the y axis flipped.
pub open spec fn spec_get_point(p: Painter, x: int, y: int) -> Option<(int, int)> {
    if x < p.x_min || x > p.x_max || y < p.y_min || y > p.y_max {
        None
    } else if p.x_max == p.x_min || p.y_max == p.y_min {
        None
    } else if p.grid.width == 0 || p.grid.height == 0 {
        None
    } else {
        Some(
            (
                (x - p.x_min) * (p.grid.width - 1) / (p.x_max - p.x_min),
                (p.y_max - y) * (p.grid.height - 1) / (p.y_max - p.y_min),
            ),
        )
    }
}

/// Dimensions and bounds agree; only the painted points may differ.
pub open spec fn same_frame(a: Painter, b: Painter) -> bool {
    &&& a.grid.width == b.grid.width
    &&& a.grid.height == b.grid.height
    &&& a.x_min == b.x_min
    &&& a.x_max == b.x_max
    &&& a.y_min == b.y_min
    &&& a.y_max == b.y_max
}

impl Painter {
    /// Bounds small enough that the projection arithmetic stays exact.
    pub open spec fn wf(self) -> bool {
        &&& self.grid.wf()
        &&& -COORD_LIMIT <= self.x_min <= COORD_LIMIT
        &&& -COORD_LIMIT <= self.x_max <= COORD_LIMIT
        &&& -COORD_LIMIT <= self.y_min <= COORD_LIMIT
        &&& -COORD_LIMIT <= self.y_max <= COORD_LIMIT
    }

    pub fn new(width: u16, height: u16, x_min: i64, x_max: i64, y_min: i64, y_max: i64) -> (p:
        Painter)
        requires
            -COORD_LIMIT <= x_min <= COORD_LIMIT,
            -COORD_LIMIT <= x_max <= COORD_LIMIT,
            -COORD_LIMIT <= y_min <= COORD_LIMIT,
            -COORD_LIMIT <= y_max <= COORD_LIMIT,
        ensures
            p.wf(),
            p.grid.width == width,
            p.grid.height == height,
            p.x_min == x_min,
            p.x_max == x_max,
            p.y_min == y_min,
            p.y_max == y_max,
            forall|i: int| 0 <= i < p.grid.cells@.len() ==> p.grid.cells@[i] is None,
    {
        Painter { grid: Grid::new(width, height), x_min, x_max, y_min, y_max }
    }

    /// Whether the bounds are inside the representable range, so that a
    /// caller built from untrusted values can test before drawing.
    pub fn in_range(&self) -> (b: bool)
        requires
            self.grid.wf(),
        ensures
            b == self.wf(),
    {
        -COORD_LIMIT <= self.x_min && self.x_min <= COORD_LIMIT && -COORD_LIMIT <= self.x_max
            && self.x_max <= COORD_LIMIT && -COORD_LIMIT <= self.y_min && self.y_min <= COORD_LIMIT
            && -COORD_LIMIT <= self.y_max && self.y_max <= COORD_LIMIT
    }

    /// Project a continuous point onto the grid; `None` means the point is
    /// clipped and nothing is drawn for it.
    pub fn get_point(&self, x: i64, y: i64) -> (p: Option<(usize, usize)>)
        requires
            self.wf(),
        ensures
            match p {
                Some(q) => {
                    &&& spec_get_point(*self, x as int, y as int) == Some(
                        (q.0 as int, q.1 as int),
                    )
                    &&& q.0 < self.grid.width
                    &&& q.1 < self.grid.height
                },
                None => spec_get_point(*self, x as int, y as int) is None,
            },
    {
        if x < self.x_min || x > self.x_max || y < self.y_min || y > self.y_max {
            return None;
        }
        if self.x_max == self.x_min || self.y_max == self.y_min {
            return None;
        }
        if self.grid.width == 0 || self.grid.height == 0 {
            return None;
        }
        let w = self.x_max - self.x_min;
        let h = self.y_max - self.y_min;
        proof {
            assert((x - self.x_min) * ((self.grid.width - 1) as int) <= w * ((self.grid.width
                - 1) as int) && 0 <= (x - self.x_min) * ((self.grid.width - 1) as int) && w * ((
            self.grid.width - 1) as int) <= 0x2000_0000_0000_0000) by (nonlinear_arith)
                requires
                    0 <= x - self.x_min <= w,
                    0 < w <= 0x8000_0000,
                    0 <= (self.grid.width - 1) as int,
                    ((self.grid.width - 1) as int) < 0x10000,
            ;
            assert((self.y_max - y) * ((self.grid.height - 1) as int) <= h * ((self.grid.height
                - 1) as int) && 0 <= (self.y_max - y) * ((self.grid.height - 1) as int) && h * ((
            self.grid.height - 1) as int) <= 0x2000_0000_0000_0000) by (nonlinear_arith)
                requires
                    0 <= self.y_max - y <= h,
                    0 < h <= 0x8000_0000,
                    0 <= (self.grid.height - 1) as int,
                    ((self.grid.height - 1) as int) < 0x10000,
            ;
        }
        let gx = (x - self.x_min) * ((self.grid.width - 1) as i64) / w;
        let gy = (self.y_max - y) * ((self.grid.height - 1) as i64) / h;
        proof {
            let wi = (self.grid.width - 1) as int;
            let hi = (self.grid.height - 1) as int;
            vstd::arithmetic::div_mod::lemma_div_is_ordered(
                (x - self.x_min) * wi,
                w as int * wi,
                w as int,
            );
            vstd::arithmetic::div_mod::lemma_div_multiples_vanish(wi, w as int);
            vstd::arithmetic::div_mod::lemma_div_pos_is_pos((x - self.x_min) * wi, w as int);
            vstd::arithmetic::div_mod::lemma_div_is_ordered(
                (self.y_max - y) * hi,
                h as int * hi,
                h as int,
            );
            vstd::arithmetic::div_mod::lemma_div_multiples_vanish(hi, h as int);
            vstd::arithmetic::div_mod::lemma_div_pos_is_pos((self.y_max - y) * hi, h as int);
        }
        Some((gx as usize, gy as usize))
    }

    /// Paint one grid point; a point outside the grid is ignored.
    pub fn paint(&mut self, x: usize, y: usize, color: Color)
        requires
            old(self).grid.wf(),
        ensures
            same_frame(*final(self), *old(self)),
            final(self).grid.wf(),
            final(self).grid.cells@ == paint_at(
                old(self).grid.cells@,
                old(self).grid.width as int,
                old(self).grid.height as int,
                x as int,
                y as int,
                color,
            ),
    {
        if x < self.grid.width as usize && y < self.grid.height as usize {
            proof {
                let w = self.grid.width as int;
                let h = self.grid.height as int;
                assert((y as int) * w + (x as int) < h * w && (y as int) * w + (x as int) >= 0 && h
                    * w == w * h && (y as int) * w + (x as int) < 0xffff_ffff) by (nonlinear_arith)
                    requires
                        0 <= (y as int) && (y as int) < h,
                        0 <= (x as int) && (x as int) < w,
                        h <= 0xffff,
                        w <= 0xffff,
                ;
            }
            let i: usize = ((y as u32) * (self.grid.width as u32) + (x as u32)) as usize;
            self.grid.cells[i] = Some(color);
        }
    }
}

pub open spec fn abs_int(a: int) -> int {
    if a < 0 {
        -a
    } else {
        a
    }
}

/// The points of the shallow ("low") Bresenham stepper from the state
/// `(x, y, d)` up to `x2`: one point per column, the row following the
/// error accumulator, never stepping below row zero.
pub open spec fn bres_low_rec(
    x: int,
    x2: int,
    y: int,
    d: int,
    dx: int,
    dy: int,
    down: bool,
) -> Seq<(int, int)>
    decreases x2 + 1 - x,
{
    if x > x2 {
        Seq::empty()
    } else {
        let y_next = if d > 0 {
            if down {
                if y > 0 {
                    y - 1
                } else {
                    0
                }
            } else {
                y + 1
            }
        } else {
            y
        };
        let d_next = (if d > 0 {
            d - 2 * dx
        } else {
            d
        }) + 2 * dy;
        seq![(x, y)] + bres_low_rec(x + 1, x2, y_next, d_next, dx, dy, down)
    }
}

/// The shallow stepper started as the rasterizer starts it, for endpoints
/// already ordered by x.
pub open spec fn bres_low_points(x1: int, y1: int, x2: int, y2: int) -> Seq<(int, int)> {
    bres_low_rec(x1, x2, y1, 2 * abs_int(y2 - y1) - (x2 - x1), x2 - x1, abs_int(y2 - y1), y1 > y2)
}

/// The steep ("high") stepper: one point per row, the column following the
/// error accumulator, never stepping left of column zero.
pub open spec fn bres_high_rec(
    y: int,
    y2: int,
    x: int,
    d: int,
    dx: int,
    dy: int,
    left: bool,
) -> Seq<(int, int)>
    decreases y2 + 1 - y,
{
    if y > y2 {
        Seq::empty()
    } else {
        let x_next = if d > 0 {
            if left {
                if x > 0 {
                    x - 1
                } else {
                    0
                }
            } else {
                x + 1
            }
        } else {
            x
        };
        let d_next = (if d > 0 {
            d - 2 * dy
        } else {
            d
        }) + 2 * dx;
        seq![(x, y)] + bres_high_rec(y + 1, y2, x_next, d_next, dx, dy, left)
    }
}

/// The steep stepper started as the rasterizer starts it, for endpoints
/// already ordered by y.
pub open spec fn bres_high_points(x1: int, y1: int, x2: int, y2: int) -> Seq<(int, int)> {
    bres_high_rec(y1, y2, x1, 2 * abs_int(x2 - x1) - (y2 - y1), abs_int(x2 - x1), y2 - y1, x1 > x2)
}

/// A vertical run of points, bottom row index to top.
pub open spec fn vertical_points(x: int, y_lo: int, y_hi: int) -> Seq<(int, int)>
    decreases y_hi + 1 - y_lo,
{
    if y_lo > y_hi {
        Seq::empty()
    } else {
        seq![(x, y_lo)] + vertical_points(x, y_lo + 1, y_hi)
    }
}

/// A horizontal run of points.
pub open spec fn horizontal_points(x_lo: int, x_hi: int, y: int) -> Seq<(int, int)>
    decreases x_hi + 1 - x_lo,
{
    if x_lo > x_hi {
        Seq::empty()
    } else {
        seq![(x_lo, y)] + horizontal_points(x_lo + 1, x_hi, y)
    }
}

/// The points a line between two grid points visits: straight runs are
/// iterated directly; otherwise the octant picks the shallow or the steep
/// stepper, with the endpoints normalized so iteration ascends. The
/// normalization makes the set independent of the endpoint order.
pub open spec fn line_points(x1: int, y1: int, x2: int, y2: int) -> Seq<(int, int)> {
    let dx = abs_int(x2 - x1);
    let dy = abs_int(y2 - y1);
    if dx == 0 {
        vertical_points(x1, min_int(y1, y2), if y1 <= y2 {
            y2
        } else {
            y1
        })
    } else if dy == 0 {
        horizontal_points(min_int(x1, x2), if x1 <= x2 {
            x2
        } else {
            x1
        }, y1)
    } else if dy < dx {
        if x1 > x2 {
            bres_low_points(x2, y2, x1, y1)
        } else {
            bres_low_points(x1, y1, x2, y2)
        }
    } else {
        if y1 > y2 {
            bres_high_points(x2, y2, x1, y1)
        } else {
            bres_high_points(x1, y1, x2, y2)
        }
    }
}

/// Shallow Bresenham stepper: paints one point per column from `(x1, y1)`
/// to `(x2, y2)`, advancing the row when the error accumulator says the
/// true line has moved ahead, with the row clamped at zero.
pub fn draw_line_low(
    painter: &mut Painter,
    x1: usize,
    y1: usize,
    x2: usize,
    y2: usize,
    color: Color,
)
    requires
        old(painter).grid.wf(),
        x1 <= x2,
        x2 <= 0xffff,
        y1 <= 0xffff,
        y2 <= 0xffff,
    ensures
        same_frame(*final(painter), *old(painter)),
        final(painter).grid.wf(),
        final(painter).grid.cells@ == spec_painted(
            old(painter).grid.cells@,
            old(painter).grid.width as int,
            old(painter).grid.height as int,
            bres_low_points(x1 as int, y1 as int, x2 as int, y2 as int),
            color,
        ),
{
    let ghost orig = *painter;
    let ghost w = old(painter).grid.width as int;
    let ghost h = old(painter).grid.height as int;
    let dx: i64 = (x2 - x1) as i64;
    let dy_raw: i64 = (y2 as i64) - (y1 as i64);
    let dy: i64 = if dy_raw < 0 {
        -dy_raw
    } else {
        dy_raw
    };
    let down = y1 > y2;
    let mut d: i64 = 2 * dy - dx;
    let mut y = y1;
    let mut x = x1;
    while x <= x2
        invariant
            painter.grid.wf(),
            same_frame(*painter, orig),
            painter.x_min == orig.x_min,
            painter.x_max == orig.x_max,
            painter.y_min == orig.y_min,
            painter.y_max == orig.y_max,
            w == orig.grid.width as int,
            h == orig.grid.height as int,
            x1 <= x <= x2 + 1,
            x1 <= x2,
            x2 <= 0xffff,
            y1 <= 0xffff,
            y2 <= 0xffff,
            y as int <= y1 + (x - x1),
            dx == x2 - x1,
            dy == abs_int(y2 as int - y1 as int),
            down == (y1 > y2),
            -0x10_0000 - (x - x1) * 0x40000 <= d <= 0x10_0000 + (x - x1) * 0x40000,
            spec_painted(
                orig.grid.cells@,
                w,
                h,
                bres_low_points(x1 as int, y1 as int, x2 as int, y2 as int),
                color,
            ) == spec_painted(
                painter.grid.cells@,
                w,
                h,
                bres_low_rec(x as int, x2 as int, y as int, d as int, dx as int, dy as int, down),
                color,
            ),
        decreases x2 + 1 - x,
    {
        let ghost run = bres_low_rec(
            x as int,
            x2 as int,
            y as int,
            d as int,
            dx as int,
            dy as int,
            down,
        );
        painter.paint(x, y, color);
        proof {
            assert(run[0] == (x as int, y as int));
            assert(run.skip(1) =~= bres_low_rec(
                x as int + 1,
                x2 as int,
                if d > 0 {
                    if down {
                        if y as int > 0 {
                            y as int - 1
                        } else {
                            0
                        }
                    } else {
                        y as int + 1
                    }
                } else {
                    y as int
                },
                (if d > 0 {
                    d - 2 * dx
                } else {
                    d as int
                }) + 2 * dy,
                dx as int,
                dy as int,
                down,
            ));
        }
        if d > 0 {
            y = if down {
                if y > 0 {
                    y - 1
                } else {
                    0
                }
            } else {
                y + 1
            };
            d = d - 2 * dx;
        }
        d = d + 2 * dy;
        x = x + 1;
    }
    proof {
        assert(bres_low_rec(x as int, x2 as int, y as int, d as int, dx as int, dy as int, down)
            =~= Seq::<(int, int)>::empty());
    }
}

/// Steep Bresenham stepper: paints one point per row from `(x1, y1)` to
/// `(x2, y2)`, advancing the column when the error accumulator says the
/// true line has moved ahead, with the column clamped at zero.
pub fn draw_line_high(
    painter: &mut Painter,
    x1: usize,
    y1: usize,
    x2: usize,
    y2: usize,
    color: Color,
)
    requires
        old(painter).grid.wf(),
        y1 <= y2,
        y2 <= 0xffff,
        x1 <= 0xffff,
        x2 <= 0xffff,
    ensures
        same_frame(*final(painter), *old(painter)),
        final(painter).grid.wf(),
        final(painter).grid.cells@ == spec_painted(
            old(painter).grid.cells@,
            old(painter).grid.width as int,
            old(painter).grid.height as int,
            bres_high_points(x1 as int, y1 as int, x2 as int, y2 as int),
            color,
        ),
{
    let ghost orig = *painter;
    let ghost w = old(painter).grid.width as int;
    let ghost h = old(painter).grid.height as int;
    let dy: i64 = (y2 - y1) as i64;
    let dx_raw: i64 = (x2 as i64) - (x1 as i64);
    let dx: i64 = if dx_raw < 0 {
        -dx_raw
    } else {
        dx_raw
    };
    let left = x1 > x2;
    let mut d: i64 = 2 * dx - dy;
    let mut x = x1;
    let mut y = y1;
    while y <= y2
        invariant
            painter.grid.wf(),
            same_frame(*painter, orig),
            painter.x_min == orig.x_min,
            painter.x_max == orig.x_max,
            painter.y_min == orig.y_min,
            painter.y_max == orig.y_max,
            w == orig.grid.width as int,
            h == orig.grid.height as int,
            y1 <= y <= y2 + 1,
            y1 <= y2,
            y2 <= 0xffff,
            x1 <= 0xffff,
            x2 <= 0xffff,
            x as int <= x1 + (y - y1),
            dy == y2 - y1,
            dx == abs_int(x2 as int - x1 as int),
            left == (x1 > x2),
            -0x10_0000 - (y - y1) * 0x40000 <= d <= 0x10_0000 + (y - y1) * 0x40000,
            spec_painted(
                orig.grid.cells@,
                w,
                h,
                bres_high_points(x1 as int, y1 as int, x2 as int, y2 as int),
                color,
            ) == spec_painted(
                painter.grid.cells@,
                w,
                h,
                bres_high_rec(y as int, y2 as int, x as int, d as int, dx as int, dy as int, left),
                color,
            ),
        decreases y2 + 1 - y,
    {
        let ghost run = bres_high_rec(
            y as int,
            y2 as int,
            x as int,
            d as int,
            dx as int,
            dy as int,
            left,
        );
        painter.paint(x, y, color);
        proof {
            assert(run[0] == (x as int, y as int));
            assert(run.skip(1) =~= bres_high_rec(
                y as int + 1,
                y2 as int,
                if d > 0 {
                    if left {
                        if x as int > 0 {
                            x as int - 1
                        } else {
                            0
                        }
                    } else {
                        x as int + 1
                    }
                } else {
                    x as int
                },
                (if d > 0 {
                    d - 2 * dy
                } else {
                    d as int
                }) + 2 * dx,
                dx as int,
                dy as int,
                left,
            ));
        }
        if d > 0 {
            x = if left {
                if x > 0 {
                    x - 1
                } else {
                    0
                }
            } else {
                x + 1
            };
            d = d - 2 * dy;
        }
        d = d + 2 * dx;
        y = y + 1;
    }
    proof {
        assert(bres_high_rec(y as int, y2 as int, x as int, d as int, dx as int, dy as int, left)
            =~= Seq::<(int, int)>::empty());
    }
}

/// Anything that can render itself onto a painter.
pub trait Shape {
    fn draw(&self, painter: &mut Painter)
        requires
            old(painter).wf(),
        ensures
            final(painter).wf(),
            same_frame(*final(painter), *old(painter)),
    ;
}

/// A line from (x1, y1) to (x2, y2) in canvas coordinates, drawn in one
/// color.
#[derive(Clone, Copy, Debug, PartialEq, Eq, Structural)]
pub struct Line {
    pub x1: i64,
    pub y1: i64,
    pub x2: i64,
    pub y2: i64,
    pub color: Color,
}

/// What drawing a line leaves on the grid: if either endpoint is clipped
/// the whole line is rejected and nothing is painted; otherwise every point
/// the stepper visits between the two projected endpoints is painted.
pub open spec fn spec_draw_line(p: Painter, l: Line) -> Seq<Option<Color>> {
    match (spec_get_point(p, l.x1 as int, l.y1 as int), spec_get_point(
        p,
        l.x2 as int,
        l.y2 as int,
    )) {
        (Some(a), Some(b)) => spec_painted(
            p.grid.cells@,
            p.grid.width as int,
            p.grid.height as int,
            line_points(a.0, a.1, b.0, b.1),
            l.color,
        ),
        _ => p.grid.cells@,
    }
}

impl Line {
    /// Create a new line from (x1, y1) to (x2, y2) with the given color.
    pub fn new(x1: i64, y1: i64, x2: i64, y2: i64, color: Color) -> (l: Line)
        ensures
            l == (Line { x1, y1, x2, y2, color }),
    {
        Line { x1, y1, x2, y2, color }
    }

    /// Rasterize the line onto the painter's grid.
    pub fn render(&self, painter: &mut Painter)
        requires
            old(painter).wf(),
        ensures
            final(painter).wf(),
            same_frame(*final(painter), *old(painter)),
            final(painter).grid.cells@ == spec_draw_line(*old(painter), *self),
    {
        let ghost orig = *painter;
        let ghost w = old(painter).grid.width as int;
        let ghost h = old(painter).grid.height as int;
        let p1 = painter.get_point(self.x1, self.y1);
        let (gx1, gy1) = match p1 {
            Some(v) => v,
            None => {
                return ;
            },
        };
        let p2 = painter.get_point(self.x2, self.y2);
        let (gx2, gy2) = match p2 {
            Some(v) => v,
            None => {
                return ;
            },
        };
        let dx = if gx2 >= gx1 {
            gx2 - gx1
        } else {
            gx1 - gx2
        };
        let dy = if gy2 >= gy1 {
            gy2 - gy1
        } else {
            gy1 - gy2
        };
        if dx == 0 {
            let y_hi = if gy1 <= gy2 {
                gy2
            } else {
                gy1
            };
            let mut yy = if gy1 <= gy2 {
                gy1
            } else {
                gy2
            };
            let ghost y_lo = yy as int;
            proof {
                assert(line_points(gx1 as int, gy1 as int, gx2 as int, gy2 as int)
                    == vertical_points(gx1 as int, y_lo, y_hi as int));
            }
            while yy <= y_hi
                invariant
                    painter.grid.wf(),
                    same_frame(*painter, orig),
                    w == orig.grid.width as int,
                    h == orig.grid.height as int,
                    y_lo <= yy as int <= y_hi as int + 1,
                    y_hi <= 0xffff,
                    spec_painted(
                        orig.grid.cells@,
                        w,
                        h,
                        vertical_points(gx1 as int, y_lo, y_hi as int),
                        self.color,
                    ) == spec_painted(
                        painter.grid.cells@,
                        w,
                        h,
                        vertical_points(gx1 as int, yy as int, y_hi as int),
                        self.color,
                    ),
                decreases y_hi + 1 - yy,
            {
                let ghost run = vertical_points(gx1 as int, yy as int, y_hi as int);
                painter.paint(gx1, yy, self.color);
                proof {
                    assert(run[0] == (gx1 as int, yy as int));
                    assert(run.skip(1) =~= vertical_points(
                        gx1 as int,
                        yy as int + 1,
                        y_hi as int,
                    ));
                }
                yy = yy + 1;
            }
            proof {
                assert(vertical_points(gx1 as int, yy as int, y_hi as int) =~= Seq::<
                    (int, int),
                >::empty());
            }
        } else if dy == 0 {
            let x_hi = if gx1 <= gx2 {
                gx2
            } else {
                gx1
            };
            let mut xx = if gx1 <= gx2 {
                gx1
            } else {
                gx2
            };
            let ghost x_lo = xx as int;
            proof {
                assert(line_points(gx1 as int, gy1 as int, gx2 as int, gy2 as int)
                    == horizontal_points(x_lo, x_hi as int, gy1 as int));
            }
            while xx <= x_hi
                invariant
                    painter.grid.wf(),
                    same_frame(*painter, orig),
                    w == orig.grid.width as int,
                    h == orig.grid.height as int,
                    x_lo <= xx as int <= x_hi as int + 1,
                    x_hi <= 0xffff,
                    spec_painted(
                        orig.grid.cells@,
                        w,
                        h,
                        horizontal_points(x_lo, x_hi as int, gy1 as int),
                        self.color,
                    ) == spec_painted(
                        painter.grid.cells@,
                        w,
                        h,
                        horizontal_points(xx as int, x_hi as int, gy1 as int),
                        self.color,
                    ),
                decreases x_hi + 1 - xx,
            {
                let ghost run = horizontal_points(xx as int, x_hi as int, gy1 as int);
                painter.paint(xx, gy1, self.color);
                proof {
                    assert(run[0] == (xx as int, gy1 as int));
                    assert(run.skip(1) =~= horizontal_points(
                        xx as int + 1,
                        x_hi as int,
                        gy1 as int,
                    ));
                }
                xx = xx + 1;
            }
            proof {
                assert(horizontal_points(xx as int, x_hi as int, gy1 as int) =~= Seq::<
                    (int, int),
                >::empty());
            }
        } else if dy < dx {
            if gx1 > gx2 {
                draw_line_low(painter, gx2, gy2, gx1, gy1, self.color);
            } else {
                draw_line_low(painter, gx1, gy1, gx2, gy2, self.color);
            }
        } else if gy1 > gy2 {
            draw_line_high(painter, gx2, gy2, gx1, gy1, self.color);
        } else {
            draw_line_high(painter, gx1, gy1, gx2, gy2, self.color);
        }
    }
}

impl Shape for Line {
    fn draw(&self, painter: &mut Painter) {
        self.render(painter);
    }
}

/// The visited points do not depend on the order of the endpoints: the
/// rasterizer normalizes direction before stepping, so a line is
/// undirected.
pub proof fn lemma_line_points_symmetric(x1: int, y1: int, x2: int, y2: int)
    ensures
        line_points(x1, y1, x2, y2) == line_points(x2, y2, x1, y1),
{
}

/// Whole-line clipping law: when either endpoint projects outside the
/// bounds, drawing the line leaves the grid exactly as it was.
pub proof fn lemma_line_clipped(p: Painter, l: Line)
    requires
        spec_get_point(p, l.x1 as int, l.y1 as int) is None || spec_get_point(
            p,
            l.x2 as int,
            l.y2 as int,
        ) is None,
    ensures
        spec_draw_line(p, l) == p.grid.cells@,
{
}

/// Symmetry law: drawing a line and drawing its reversal paint the same
/// points, so the final grid is the same.
pub proof fn lemma_line_symmetric(p: Painter, l: Line, r: Line)
    requires
        r.x1 == l.x2,
        r.y1 == l.y2,
        r.x2 == l.x1,
        r.y2 == l.y1,
        r.color == l.color,
    ensures
        spec_draw_line(p, l) == spec_draw_line(p, r),
{
    let a = spec_get_point(p, l.x1 as int, l.y1 as int);
    let b = spec_get_point(p, l.x2 as int, l.y2 as int);
    match (a, b) {
        (Some(av), Some(bv)) => {
            lemma_line_points_symmetric(av.0, av.1, bv.0, bv.1);
        },
        _ => {},
    }
}

} // verus!
