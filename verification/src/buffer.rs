//! The cell grid that holds one rendered frame, and the diff engine that
//! computes the minimal ordered update sequence between two frames.

use vstd::prelude::*;
use crate::layout::Rect;

verus! {

/// A terminal color, attached to cell content and compared by value.
#[derive(Clone, Copy, Debug, PartialEq, Eq, Structural)]
pub enum Color {
    Reset,
    Black,
    Red,
    Green,
    Yellow,
    Blue,
    Magenta,
    Cyan,
    Gray,
    DarkGray,
    LightRed,
    LightGreen,
    LightYellow,
    LightBlue,
    LightMagenta,
    LightCyan,
    White,
    Rgb(u8, u8, u8),
    Indexed(u8),
}

/// One addressable character position: a displayed symbol plus its style
/// (foreground, background, modifier bits). Compared by value when diffing.
#[derive(Clone, Copy, Debug, PartialEq, Eq, Structural)]
pub struct Cell {
    pub symbol: char,
    pub fg: Color,
    pub bg: Color,
    pub modifier: u16,
}

/// The default cell: a plain space with no style.
pub open spec fn blank_cell() -> Cell {
    Cell { symbol: ' ', fg: Color::Reset, bg: Color::Reset, modifier: 0 }
}

impl Cell {
    pub fn blank() -> (c: Cell)
        ensures
            c == blank_cell(),
    {
        Cell { symbol: ' ', fg: Color::Reset, bg: Color::Reset, modifier: 0 }
    }

    pub fn new(symbol: char) -> (c: Cell)
        ensures
            c == (Cell { symbol, fg: Color::Reset, bg: Color::Reset, modifier: 0 }),
    {
        Cell { symbol, fg: Color::Reset, bg: Color::Reset, modifier: 0 }
    }
}

/// Columns a symbol occupies on screen: 2 for the East Asian wide and
/// fullwidth blocks, 1 for everything else. A wide symbol's right half is a
/// continuation slot that is never written on its own.
pub open spec fn spec_char_width(c: char) -> int {
    if is_wide_code(c as u32) {
        2
    } else {
        1
    }
}

/// The wide blocks: Hangul Jamo, CJK ideographs and punctuation, Hangul
/// syllables, compatibility ideographs, fullwidth forms.
pub open spec fn is_wide_code(u: u32) -> bool {
    ||| 0x1100 <= u <= 0x115F
    ||| 0x2E80 <= u <= 0x303E
    ||| 0x3041 <= u <= 0x33FF
    ||| 0x3400 <= u <= 0x4DBF
    ||| 0x4E00 <= u <= 0x9FFF
    ||| 0xA000 <= u <= 0xA4CF
    ||| 0xAC00 <= u <= 0xD7A3
    ||| 0xF900 <= u <= 0xFAFF
    ||| 0xFE30 <= u <= 0xFE4F
    ||| 0xFF00 <= u <= 0xFF60
    ||| 0xFFE0 <= u <= 0xFFE6
    ||| 0x20000 <= u <= 0x2FFFD
    ||| 0x30000 <= u <= 0x3FFFD
}

pub fn char_width(c: char) -> (w: u8)
    ensures
        w as int == spec_char_width(c),
        1 <= w <= 2,
{
    let u = c as u32;
    let wide = (0x1100 <= u && u <= 0x115F) || (0x2E80 <= u && u <= 0x303E) || (0x3041 <= u && u
        <= 0x33FF) || (0x3400 <= u && u <= 0x4DBF) || (0x4E00 <= u && u <= 0x9FFF) || (0xA000 <= u
        && u <= 0xA4CF) || (0xAC00 <= u && u <= 0xD7A3) || (0xF900 <= u && u <= 0xFAFF) || (0xFE30
        <= u && u <= 0xFE4F) || (0xFF00 <= u && u <= 0xFF60) || (0xFFE0 <= u && u <= 0xFFE6) || (
    0x20000 <= u && u <= 0x2FFFD) || (0x30000 <= u && u <= 0x3FFFD);
    if wide {
        2
    } else {
        1
    }
}

/// One instruction of a frame patch: write `cell` at column `x`, row `y`.
#[derive(Clone, Copy, Debug, PartialEq, Eq, Structural)]
pub struct Update {
    pub x: u16,
    pub y: u16,
    pub cell: Cell,
}

/// A grid of cells covering `area`, stored row-major.
#[derive(Clone, Debug)]
pub struct Buffer {
    pub area: Rect,
    pub content: Vec<Cell>,
}

impl Buffer {
    /// The content holds exactly one cell per position of the area.
    pub open spec fn wf(self) -> bool {
        &&& self.area.wf()
        &&& self.content@.len() == self.area.width * self.area.height
    }

    /// Row-major index of the cell at (x, y).
    pub open spec fn spec_index_of(self, x: int, y: int) -> int {
        (y - self.area.y) * (self.area.width as int) + (x - self.area.x)
    }

    /// A buffer over `area` filled with blank cells.
    pub fn empty(area: Rect) -> (b: Buffer)
        requires
            area.wf(),
        ensures
            b.wf(),
            b.area == area,
            forall|i: int| 0 <= i < b.content@.len() ==> b.content@[i] == blank_cell(),
    {
        proof {
            assert(area.width * area.height <= 0xffff_ffff) by (nonlinear_arith)
                requires
                    area.width <= 0xffff,
                    area.height <= 0xffff,
            ;
        }
        let n: usize = ((area.width as u32) * (area.height as u32)) as usize;
        let mut content: Vec<Cell> = Vec::new();
        let mut i: usize = 0;
        while i < n
            invariant
                i <= n,
                content@.len() == i,
                forall|j: int| 0 <= j < i ==> content@[j] == blank_cell(),
            decreases n - i,
        {
            content.push(Cell::blank());
            i += 1;
        }
        Buffer { area, content }
    }

    pub fn index_of(&self, x: u16, y: u16) -> (i: usize)
        requires
            self.wf(),
            self.area.spec_contains(x as int, y as int),
        ensures
            i as int == self.spec_index_of(x as int, y as int),
            i < self.content@.len(),
    {
        proof {
            let dy = y - self.area.y;
            let dx = x - self.area.x;
            let w = self.area.width as int;
            let h = self.area.height as int;
            assert(dy * w + dx < h * w && dy * w + dx >= 0 && dy * w == w * dy && h * w == w * h
                && dy * w + dx < 0xffff_ffff) by (nonlinear_arith)
                requires
                    0 <= dy < h,
                    0 <= dx < w,
                    h <= 0xffff,
                    w <= 0xffff,
            ;
        }
        (((y - self.area.y) as u32) * (self.area.width as u32) + ((x - self.area.x) as u32)) as usize
    }

    /// The cell at (x, y), which must lie inside the area.
    pub fn get(&self, x: u16, y: u16) -> (c: Cell)
        requires
            self.wf(),
            self.area.spec_contains(x as int, y as int),
        ensures
            c == self.content@[self.spec_index_of(x as int, y as int)],
    {
        let i = self.index_of(x, y);
        self.content[i]
    }

    /// Write the cell at (x, y), which must lie inside the area.
    pub fn set(&mut self, x: u16, y: u16, cell: Cell)
        requires
            old(self).wf(),
            old(self).area.spec_contains(x as int, y as int),
        ensures
            final(self).area == old(self).area,
            final(self).wf(),
            final(self).content@ == old(self).content@.update(
                old(self).spec_index_of(x as int, y as int),
                cell,
            ),
    {
        let i = self.index_of(x, y);
        self.content[i] = cell;
    }
}

/// The update for linear index `i`, with its (x, y) position recovered from
/// the row-major order.
pub open spec fn diff_update(area: Rect, i: int, c: Cell) -> Update {
    Update {
        x: (area.x + (i % (area.width as int))) as u16,
        y: (area.y + (i / (area.width as int))) as u16,
        cell: c,
    }
}

/// The diff walk from position `i` with `skip` continuation slots pending:
/// every position whose cell changed is emitted in row-major order, except
/// the continuation slots of wide symbols in the new frame, which are
/// skipped so they are never written on their own.
pub open spec fn spec_diff(prev: Seq<Cell>, curr: Seq<Cell>, area: Rect, i: int, skip: int) -> Seq<
    Update,
>
    decreases curr.len() - i,
{
    if i < 0 || i >= curr.len() {
        Seq::empty()
    } else if skip > 0 {
        spec_diff(prev, curr, area, i + 1, skip - 1)
    } else {
        let rest = spec_diff(prev, curr, area, i + 1, spec_char_width(curr[i].symbol) - 1);
        if prev[i] == curr[i] {
            rest
        } else {
            seq![diff_update(area, i, curr[i])] + rest
        }
    }
}

/// Replaying a patch: each update overwrites its cell in order.
pub open spec fn spec_apply(content: Seq<Cell>, area: Rect, ups: Seq<Update>) -> Seq<Cell>
    decreases ups.len(),
{
    if ups.len() == 0 {
        content
    } else {
        spec_apply(content.update(update_index(area, ups[0]), ups[0].cell), area, ups.skip(1))
    }
}

/// Linear index an update writes to.
pub open spec fn update_index(area: Rect, u: Update) -> int {
    (u.y - area.y) * (area.width as int) + (u.x - area.x)
}

/// Pending-skip state of the diff walk at position `i`: positive exactly on
/// the continuation slots of wide symbols of the new frame.
pub open spec fn skip_state(curr: Seq<Cell>, i: int) -> int
    decreases i,
{
    if i <= 0 {
        0
    } else if skip_state(curr, i - 1) > 0 {
        skip_state(curr, i - 1) - 1
    } else if i - 1 < curr.len() {
        spec_char_width(curr[i - 1].symbol) - 1
    } else {
        0
    }
}

/// Whether position `i` is the continuation slot of a wide symbol in `curr`.
pub open spec fn is_continuation(curr: Seq<Cell>, i: int) -> bool {
    skip_state(curr, i) > 0
}

impl Buffer {
    /// Compare this frame (the previous one) against `other` (the next one)
    /// and return the updates that turn the one into the other, ordered by
    /// row then column. Both buffers must cover the same area.
    pub fn diff(&self, other: &Buffer) -> (updates: Vec<Update>)
        requires
            self.wf(),
            other.wf(),
            self.area == other.area,
        ensures
            updates@ == spec_diff(self.content@, other.content@, self.area, 0, 0),
    {
        let ghost prev = self.content@;
        let ghost curr = other.content@;
        let area = self.area;
        let w = area.width as usize;
        let n = self.content.len();
        let mut updates: Vec<Update> = Vec::new();
        let mut i: usize = 0;
        let mut x: u16 = 0;
        let mut y: u16 = 0;
        let mut skip: u8 = 0;
        proof {
            assert(spec_diff(prev, curr, area, 0, 0) =~= updates@ + spec_diff(
                prev,
                curr,
                area,
                0,
                0,
            ));
        }
        while i < n
            invariant
                i <= n,
                n == curr.len(),
                n == prev.len(),
                prev == self.content@,
                curr == other.content@,
                area == self.area,
                area.wf(),
                n == area.width * area.height,
                w == area.width,
                i < n ==> x < area.width && y < area.height,
                i as int == (y as int) * (w as int) + (x as int),
                x <= area.width,
                spec_diff(prev, curr, area, 0, 0) == updates@ + spec_diff(
                    prev,
                    curr,
                    area,
                    i as int,
                    skip as int,
                ),
            decreases n - i,
        {
            proof {
                if i + 1 < n {
                    let w_i = w as int;
                    assert((y as int) * w_i + (x as int) + 1 < (area.height as int) * w_i
                        ==> (x as int) + 1 < w_i || (y as int) + 1 < (area.height as int))
                        by (nonlinear_arith)
                        requires
                            0 <= x as int,
                            (x as int) < w_i,
                            0 <= y as int,
                            (y as int) < area.height as int,
                    ;
                    assert((area.height as int) * w_i == w_i * (area.height as int))
                        by (nonlinear_arith);
                }
            }
            if skip > 0 {
                skip = skip - 1;
            } else {
                let pc = self.content[i];
                let cc = other.content[i];
                let differs = !(pc.symbol == cc.symbol && pc.fg == cc.fg && pc.bg == cc.bg
                    && pc.modifier == cc.modifier);
                proof {
                    assert(differs == (prev[i as int] != curr[i as int]));
                }
                if differs {
                    let u = Update { x: area.x + x, y: area.y + y, cell: cc };
                    proof {
                        vstd::arithmetic::div_mod::lemma_fundamental_div_mod_converse(
                            i as int,
                            w as int,
                            y as int,
                            x as int,
                        );
                        assert(u == diff_update(area, i as int, curr[i as int]));
                        let rest = spec_diff(
                            prev,
                            curr,
                            area,
                            i as int + 1,
                            spec_char_width(curr[i as int].symbol) - 1,
                        );
                        assert(updates@ + (seq![u] + rest) =~= updates@.push(u) + rest);
                    }
                    updates.push(u);
                }
                skip = char_width(cc.symbol) - 1;
            }
            i += 1;
            if x + 1 < area.width {
                x = x + 1;
            } else {
                x = 0;
                y = y + 1;
                proof {
                    let w_i = w as int;
                    assert((y as int) * w_i == (y as int - 1) * w_i + w_i) by (nonlinear_arith);
                }
            }
            proof {
                if i < n {
                    let w_i = w as int;
                    assert((y as int) * w_i + (x as int) < (area.height as int) * w_i
                        ==> (y as int) < (area.height as int)) by (nonlinear_arith)
                        requires
                            0 <= x as int,
                            (x as int) < w_i,
                            0 <= y as int,
                    ;
                    assert((area.height as int) * w_i == w_i * (area.height as int))
                        by (nonlinear_arith);
                }
            }
        }
        updates
    }

    /// Clear the buffer back to blanks, keeping its area, so one
    /// allocation can be reused frame after frame.
    pub fn reset(&mut self)
        requires
            old(self).wf(),
        ensures
            final(self).wf(),
            final(self).area == old(self).area,
            final(self).content@.len() == old(self).content@.len(),
            forall|i: int|
                0 <= i < final(self).content@.len() ==> final(self).content@[i] == blank_cell(),
    {
        let n = self.content.len();
        let mut i: usize = 0;
        while i < n
            invariant
                i <= n,
                n == self.content@.len(),
                self.wf(),
                self.area == old(self).area,
                forall|j: int| 0 <= j < i ==> self.content@[j] == blank_cell(),
            decreases n - i,
        {
            self.content[i] = Cell::blank();
            i += 1;
        }
    }

    /// Replay a patch onto this buffer: every update must address a cell
    /// inside the area.
    pub fn apply(&mut self, updates: &Vec<Update>)
        requires
            old(self).wf(),
            forall|k: int|
                0 <= k < updates@.len() ==> old(self).area.spec_contains(
                (#[trigger] updates@[k]).x as int,
                updates@[k].y as int,
            ),
        ensures
            final(self).area == old(self).area,
            final(self).wf(),
            final(self).content@ == spec_apply(old(self).content@, old(self).area, updates@),
    {
        let ghost orig = self.content@;
        let ghost area = self.area;
        let n = updates.len();
        let mut k: usize = 0;
        proof {
            assert(updates@.skip(0) =~= updates@);
        }
        while k < n
            invariant
                k <= n,
                n == updates@.len(),
                self.area == area,
                self.wf(),
                forall|j: int|
                    0 <= j < updates@.len() ==> area.spec_contains(
                    (#[trigger] updates@[j]).x as int,
                    updates@[j].y as int,
                ),
                spec_apply(orig, area, updates@) == spec_apply(
                    self.content@,
                    area,
                    updates@.skip(k as int),
                ),
            decreases n - k,
        {
            let u = updates[k];
            proof {
                let rest = updates@.skip(k as int);
                assert(rest[0] == u);
                assert(rest.skip(1) =~= updates@.skip(k as int + 1));
            }
            self.set(u.x, u.y, u.cell);
            k += 1;
        }
        proof {
            assert(updates@.skip(n as int) =~= Seq::<Update>::empty());
        }
    }
}

/// A frame never differs from itself: the diff walk over two equal
/// sequences emits nothing, from any position and skip state.
pub proof fn lemma_diff_self(b: Seq<Cell>, area: Rect, i: int, skip: int)
    ensures
        spec_diff(b, b, area, i, skip) =~= Seq::<Update>::empty(),
    decreases b.len() - i,
{
    if i < 0 || i >= b.len() {
    } else if skip > 0 {
        lemma_diff_self(b, area, i + 1, skip - 1);
    } else {
        lemma_diff_self(b, area, i + 1, spec_char_width(b[i].symbol) - 1);
    }
}

/// Diff then apply, generalized over the walk position: replaying the tail
/// of a diff onto a copy that already matches the new frame up to `i`
/// finishes the job, provided the new frame's continuation slots did not
/// change (they are skipped, so nothing would rewrite them).
proof fn lemma_diff_apply_rec(prev: Seq<Cell>, curr: Seq<Cell>, area: Rect, c: Seq<Cell>, i: int)
    requires
        prev.len() == curr.len(),
        c.len() == curr.len(),
        curr.len() == area.width * area.height,
        area.wf(),
        0 <= i <= curr.len(),
        forall|j: int| 0 <= j < i ==> c[j] == curr[j],
        forall|j: int| i <= j < curr.len() ==> c[j] == prev[j],
        forall|j: int|
            0 <= j < curr.len() && is_continuation(curr, j) ==> prev[j] == #[trigger] curr[j],
    ensures
        spec_apply(c, area, spec_diff(prev, curr, area, i, skip_state(curr, i))) =~= curr,
    decreases curr.len() - i,
{
    let sk = skip_state(curr, i);
    if i == curr.len() {
    } else if sk > 0 {
        assert(is_continuation(curr, i));
        assert(skip_state(curr, i + 1) == sk - 1);
        lemma_diff_apply_rec(prev, curr, area, c, i + 1);
    } else {
        assert(skip_state(curr, i + 1) == spec_char_width(curr[i].symbol) - 1);
        if prev[i] == curr[i] {
            lemma_diff_apply_rec(prev, curr, area, c, i + 1);
        } else {
            let u = diff_update(area, i, curr[i]);
            let rest = spec_diff(prev, curr, area, i + 1, spec_char_width(curr[i].symbol) - 1);
            let w = area.width as int;
            assert(w > 0 && i / w < area.height as int && 0 <= i % w) by {
                if area.width == 0 {
                    assert((area.width as int) * (area.height as int) == 0) by (nonlinear_arith)
                        requires
                            area.width as int == 0,
                    ;
                }
                vstd::arithmetic::div_mod::lemma_fundamental_div_mod(i, w);
                assert(i / w < area.height as int) by (nonlinear_arith)
                    requires
                        w > 0,
                        0 <= i % w,
                        i % w < w,
                        i == w * (i / w) + i % w,
                        i < w * (area.height as int),
                        i / w >= 0,
                ;
                vstd::arithmetic::div_mod::lemma_div_pos_is_pos(i, w);
                assert(i < w * (area.height as int)) by (nonlinear_arith)
                    requires
                        i < (area.width as int) * (area.height as int),
                        w == area.width as int,
                ;
            }
            assert(update_index(area, u) == i) by {
                vstd::arithmetic::div_mod::lemma_fundamental_div_mod(i, w);
                assert((i / w) * w == w * (i / w)) by (nonlinear_arith);
            }
            let c2 = c.update(i, curr[i]);
            assert((seq![u] + rest)[0] == u);
            assert((seq![u] + rest).skip(1) =~= rest);
            lemma_diff_apply_rec(prev, curr, area, c2, i + 1);
        }
    }
}

/// Round-trip law: applying `prev.diff(&curr)` onto a copy of `prev`
/// reproduces `curr` exactly, for any two buffers over the same area whose
/// new frame keeps its wide-symbol continuation slots unchanged (those
/// slots are deliberately skipped by the diff, so nothing could restore
/// them).
pub proof fn lemma_diff_roundtrip(prev: Buffer, curr: Buffer)
    requires
        prev.wf(),
        curr.wf(),
        prev.area == curr.area,
        forall|j: int|
            0 <= j < curr.content@.len() && is_continuation(curr.content@, j)
                ==> prev.content@[j] == #[trigger] curr.content@[j],
    ensures
        spec_apply(
            prev.content@,
            prev.area,
            spec_diff(prev.content@, curr.content@, prev.area, 0, 0),
        ) == curr.content@,
{
    lemma_diff_apply_rec(prev.content@, curr.content@, prev.area, prev.content@, 0);
}

/// Minimality law, one direction: every update the diff emits is a real
/// change — it carries the new frame's cell for a position where the two
/// frames differ. Nothing is ever rewritten needlessly.
pub proof fn lemma_diff_minimal(prev: Seq<Cell>, curr: Seq<Cell>, area: Rect, i: int, skip: int)
    requires
        area.wf(),
        prev.len() == curr.len(),
        curr.len() == area.width * area.height,
        0 <= i,
    ensures
        forall|k: int|
            0 <= k < spec_diff(prev, curr, area, i, skip).len() ==> {
                let idx = update_index(area, #[trigger] spec_diff(prev, curr, area, i, skip)[k]);
                &&& 0 <= idx < curr.len()
                &&& spec_diff(prev, curr, area, i, skip)[k].cell == curr[idx]
                &&& prev[idx] != curr[idx]
            },
    decreases curr.len() - i,
{
    let d = spec_diff(prev, curr, area, i, skip);
    if i >= curr.len() {
    } else if skip > 0 {
        lemma_diff_minimal(prev, curr, area, i + 1, skip - 1);
        let rest = spec_diff(prev, curr, area, i + 1, skip - 1);
        assert forall|k: int| 0 <= k < d.len() implies {
            let idx = update_index(area, #[trigger] d[k]);
            &&& 0 <= idx < curr.len()
            &&& d[k].cell == curr[idx]
            &&& prev[idx] != curr[idx]
        } by {
            assert(d[k] == rest[k]);
        }
    } else {
        let rest = spec_diff(prev, curr, area, i + 1, spec_char_width(curr[i].symbol) - 1);
        lemma_diff_minimal(prev, curr, area, i + 1, spec_char_width(curr[i].symbol) - 1);
        if prev[i] == curr[i] {
            assert forall|k: int| 0 <= k < d.len() implies {
                let idx = update_index(area, #[trigger] d[k]);
                &&& 0 <= idx < curr.len()
                &&& d[k].cell == curr[idx]
                &&& prev[idx] != curr[idx]
            } by {
                assert(d[k] == rest[k]);
            }
        } else {
            let u = diff_update(area, i, curr[i]);
            let w = area.width as int;
            assert(w > 0) by {
                if area.width == 0 {
                    assert((area.width as int) * (area.height as int) == 0) by (nonlinear_arith)
                        requires
                            area.width as int == 0,
                    ;
                }
            }
            assert(update_index(area, u) == i) by {
                vstd::arithmetic::div_mod::lemma_fundamental_div_mod(i, w);
                vstd::arithmetic::div_mod::lemma_div_pos_is_pos(i, w);
                assert(i < w * (area.height as int)) by (nonlinear_arith)
                    requires
                        i < (area.width as int) * (area.height as int),
                        w == area.width as int,
                ;
                assert(i / w < area.height as int) by (nonlinear_arith)
                    requires
                        w > 0,
                        0 <= i % w,
                        i % w < w,
                        i == w * (i / w) + i % w,
                        i < w * (area.height as int),
                        i / w >= 0,
                ;
                assert((i / w) * w == w * (i / w)) by (nonlinear_arith);
            }
            assert(d == seq![u] + rest);
            assert forall|k: int| 0 <= k < d.len() implies {
                let idx = update_index(area, #[trigger] d[k]);
                &&& 0 <= idx < curr.len()
                &&& d[k].cell == curr[idx]
                &&& prev[idx] != curr[idx]
            } by {
                if k == 0 {
                    assert(d[0] == u);
                } else {
                    assert(d[k] == rest[k - 1]);
                }
            }
        }
    }
}

/// Minimality law, other direction: every position where the frames
/// differ, except the continuation slot of a wide symbol, is emitted by
/// the diff walk. Together with `lemma_diff_minimal`, the diff is exactly
/// the set of changed drawable positions.
pub proof fn lemma_diff_complete(prev: Seq<Cell>, curr: Seq<Cell>, area: Rect, i: int, j: int)
    requires
        area.wf(),
        prev.len() == curr.len(),
        curr.len() == area.width * area.height,
        0 <= i <= j < curr.len(),
        !is_continuation(curr, j),
        prev[j] != curr[j],
    ensures
        exists|k: int|
            0 <= k < spec_diff(prev, curr, area, i, skip_state(curr, i)).len() && update_index(
                area,
                spec_diff(prev, curr, area, i, skip_state(curr, i))[k],
            ) == j,
    decreases j - i,
{
    let skip = skip_state(curr, i);
    let d = spec_diff(prev, curr, area, i, skip);
    let w = area.width as int;
    if i == j {
        assert(skip == 0);
        let u = diff_update(area, i, curr[i]);
        let rest = spec_diff(prev, curr, area, i + 1, spec_char_width(curr[i].symbol) - 1);
        assert(w > 0) by {
            if area.width == 0 {
                assert((area.width as int) * (area.height as int) == 0) by (nonlinear_arith)
                    requires
                        area.width as int == 0,
                ;
            }
        }
        assert(update_index(area, u) == i) by {
            vstd::arithmetic::div_mod::lemma_fundamental_div_mod(i, w);
            vstd::arithmetic::div_mod::lemma_div_pos_is_pos(i, w);
            assert(i < w * (area.height as int)) by (nonlinear_arith)
                requires
                    i < (area.width as int) * (area.height as int),
                    w == area.width as int,
            ;
            assert(i / w < area.height as int) by (nonlinear_arith)
                requires
                    w > 0,
                    0 <= i % w,
                    i % w < w,
                    i == w * (i / w) + i % w,
                    i < w * (area.height as int),
                    i / w >= 0,
            ;
            assert((i / w) * w == w * (i / w)) by (nonlinear_arith);
        }
        assert(d == seq![u] + rest);
        assert(d[0] == u);
        assert(0 < d.len() && update_index(area, d[0]) == j);
    } else {
        lemma_diff_complete(prev, curr, area, i + 1, j);
        let rest = spec_diff(prev, curr, area, i + 1, skip_state(curr, i + 1));
        let k0 = choose|k: int|
            0 <= k < rest.len() && update_index(area, rest[k]) == j;
        if skip > 0 {
            assert(skip_state(curr, i + 1) == skip - 1);
            assert(d == rest);
            assert(0 <= k0 < d.len() && update_index(area, d[k0]) == j);
        } else {
            assert(skip_state(curr, i + 1) == spec_char_width(curr[i].symbol) - 1);
            if prev[i] == curr[i] {
                assert(d == rest);
                assert(0 <= k0 < d.len() && update_index(area, d[k0]) == j);
            } else {
                let u = diff_update(area, i, curr[i]);
                assert(d == seq![u] + rest);
                assert(d[k0 + 1] == rest[k0]);
                assert(0 <= k0 + 1 < d.len() && update_index(area, d[k0 + 1]) == j);
            }
        }
    }
}

/// Coalescing law: the diff's updates land at strictly increasing
/// row-major positions, so a backend can stream them with a forward-moving
/// cursor.
pub proof fn lemma_diff_ordered(prev: Seq<Cell>, curr: Seq<Cell>, area: Rect, i: int, skip: int)
    requires
        area.wf(),
        prev.len() == curr.len(),
        curr.len() == area.width * area.height,
        0 <= i,
    ensures
        forall|k: int|
            0 <= k < spec_diff(prev, curr, area, i, skip).len() ==> update_index(
                area,
                #[trigger] spec_diff(prev, curr, area, i, skip)[k],
            ) >= i,
        forall|k1: int, k2: int|
            0 <= k1 < k2 < spec_diff(prev, curr, area, i, skip).len() ==> update_index(
                area,
                #[trigger] spec_diff(prev, curr, area, i, skip)[k1],
            ) < update_index(area, #[trigger] spec_diff(prev, curr, area, i, skip)[k2]),
    decreases curr.len() - i,
{
    let d = spec_diff(prev, curr, area, i, skip);
    if i >= curr.len() {
    } else if skip > 0 {
        lemma_diff_ordered(prev, curr, area, i + 1, skip - 1);
        let rest = spec_diff(prev, curr, area, i + 1, skip - 1);
        assert(d == rest);
        assert forall|k: int| 0 <= k < d.len() implies update_index(area, #[trigger] d[k])
            >= i by {
            assert(d[k] == rest[k]);
        }
    } else {
        let rest = spec_diff(prev, curr, area, i + 1, spec_char_width(curr[i].symbol) - 1);
        lemma_diff_ordered(prev, curr, area, i + 1, spec_char_width(curr[i].symbol) - 1);
        if prev[i] == curr[i] {
            assert(d == rest);
            assert forall|k: int| 0 <= k < d.len() implies update_index(area, #[trigger] d[k])
                >= i by {
                assert(d[k] == rest[k]);
            }
        } else {
            let u = diff_update(area, i, curr[i]);
            let w = area.width as int;
            assert(w > 0) by {
                if area.width == 0 {
                    assert((area.width as int) * (area.height as int) == 0) by (nonlinear_arith)
                        requires
                            area.width as int == 0,
                    ;
                }
            }
            assert(update_index(area, u) == i) by {
                vstd::arithmetic::div_mod::lemma_fundamental_div_mod(i, w);
                vstd::arithmetic::div_mod::lemma_div_pos_is_pos(i, w);
                assert(i < w * (area.height as int)) by (nonlinear_arith)
                    requires
                        i < (area.width as int) * (area.height as int),
                        w == area.width as int,
                ;
                assert(i / w < area.height as int) by (nonlinear_arith)
                    requires
                        w > 0,
                        0 <= i % w,
                        i % w < w,
                        i == w * (i / w) + i % w,
                        i < w * (area.height as int),
                        i / w >= 0,
                ;
                assert((i / w) * w == w * (i / w)) by (nonlinear_arith);
            }
            assert(d == seq![u] + rest);
            assert forall|k: int| 0 <= k < d.len() implies update_index(area, #[trigger] d[k])
                >= i by {
                if k == 0 {
                    assert(d[0] == u);
                } else {
                    assert(d[k] == rest[k - 1]);
                }
            }
            assert forall|k1: int, k2: int| 0 <= k1 < k2 < d.len() implies update_index(
                area,
                #[trigger] d[k1],
            ) < update_index(area, #[trigger] d[k2]) by {
                if k1 == 0 {
                    assert(d[0] == u);
                    assert(d[k2] == rest[k2 - 1]);
                } else {
                    assert(d[k1] == rest[k1 - 1]);
                    assert(d[k2] == rest[k2 - 1]);
                }
            }
        }
    }
}

} // verus!
