//! Geometry primitives and the constraint-based layout solver.

use vstd::prelude::*;

verus! {

/// Axis-aligned rectangle on the character grid, in cell coordinates.
///
/// A rectangle is well formed when its far edges still fit in the grid
/// coordinate type; a zero-area rectangle is valid and means "nothing".
#[derive(Clone, Copy, Debug, PartialEq, Eq, Structural)]
pub struct Rect {
    pub x: u16,
    pub y: u16,
    pub width: u16,
    pub height: u16,
}

impl Rect {
    /// The far edges do not overflow the grid coordinate type.
    pub open spec fn wf(self) -> bool {
        self.x + self.width <= u16::MAX && self.y + self.height <= u16::MAX
    }

    /// Number of cells covered.
    pub open spec fn spec_area(self) -> int {
        self.width * self.height
    }

    /// Whether the cell at (x, y) lies inside the rectangle.
    pub open spec fn spec_contains(self, x: int, y: int) -> bool {
        &&& self.x <= x < self.x + self.width
        &&& self.y <= y < self.y + self.height
    }

    pub fn new(x: u16, y: u16, width: u16, height: u16) -> (r: Rect)
        requires
            x + width <= u16::MAX,
            y + height <= u16::MAX,
        ensures
            r == (Rect { x, y, width, height }),
            r.wf(),
    {
        Rect { x, y, width, height }
    }

    pub fn area(&self) -> (a: u32)
        ensures
            a == self.spec_area(),
    {
        proof {
            assert(self.width * self.height <= 0xffff_ffff) by (nonlinear_arith)
                requires
                    self.width <= 0xffff,
                    self.height <= 0xffff,
            ;
        }
        (self.width as u32) * (self.height as u32)
    }

    pub fn contains(&self, x: u16, y: u16) -> (b: bool)
        ensures
            b == self.spec_contains(x as int, y as int),
    {
        self.x <= x && (x as u32) < self.x as u32 + self.width as u32 && self.y <= y
            && (y as u32) < self.y as u32 + self.height as u32
    }

    /// The rectangle shrunk by `margin_h` cells on the left and right and
    /// `margin_v` cells on the top and bottom; a margin that does not fit
    /// leaves nothing to draw in.
    pub open spec fn spec_inner(self, margin_h: int, margin_v: int) -> Rect {
        if 2 * margin_h <= self.width && 2 * margin_v <= self.height {
            Rect {
                x: (self.x + margin_h) as u16,
                y: (self.y + margin_v) as u16,
                width: (self.width - 2 * margin_h) as u16,
                height: (self.height - 2 * margin_v) as u16,
            }
        } else {
            Rect { x: 0, y: 0, width: 0, height: 0 }
        }
    }

    pub fn inner(&self, margin_h: u16, margin_v: u16) -> (r: Rect)
        requires
            self.wf(),
        ensures
            r == self.spec_inner(margin_h as int, margin_v as int),
            r.wf(),
    {
        if margin_h <= self.width / 2 && margin_v <= self.height / 2 {
            Rect {
                x: self.x + margin_h,
                y: self.y + margin_v,
                width: self.width - 2 * margin_h,
                height: self.height - 2 * margin_v,
            }
        } else {
            Rect { x: 0, y: 0, width: 0, height: 0 }
        }
    }
}

/// One sizing rule for one segment of a layout split.
#[derive(Clone, Copy, Debug, PartialEq, Eq, Structural)]
pub enum Constraint {
    /// A fixed number of cells.
    Length(u16),
    /// A fraction of the budget, in percent, rounded down.
    Percentage(u16),
    /// `num / den` of the budget, rounded down; a zero denominator yields
    /// a zero-size segment.
    Ratio(u32, u32),
    /// At most this many cells; takes what is left up to the cap.
    Max(u16),
    /// At least this many cells; all leftover space is shared evenly among
    /// the `Min` segments.
    Min(u16),
}

#[derive(Clone, Copy, Debug, PartialEq, Eq, Structural)]
pub enum Direction {
    Horizontal,
    Vertical,
}

pub open spec fn min_int(a: int, b: int) -> int {
    if a <= b {
        a
    } else {
        b
    }
}

pub open spec fn is_min(c: Constraint) -> bool {
    c is Min
}

/// The size a constraint asks for against a budget of `total` cells, before
/// clamping and before leftover distribution.
pub open spec fn desired_size(c: Constraint, total: int) -> int {
    match c {
        Constraint::Length(v) => v as int,
        Constraint::Percentage(p) => total * (p as int) / 100int,
        Constraint::Ratio(num, den) => if den == 0 {
            0
        } else {
            total * (num as int) / (den as int)
        },
        Constraint::Max(v) => v as int,
        Constraint::Min(v) => v as int,
    }
}

/// First pass of the solver: each constraint in order takes its desired
/// size, clamped to the space that is still unclaimed.
pub open spec fn base_sizes(cs: Seq<Constraint>, total: int, rem: int) -> Seq<int>
    decreases cs.len(),
{
    if cs.len() == 0 {
        Seq::empty()
    } else {
        let s = min_int(desired_size(cs[0], total), rem);
        seq![s] + base_sizes(cs.skip(1), total, rem - s)
    }
}

pub open spec fn sum_seq(s: Seq<int>) -> int
    decreases s.len(),
{
    if s.len() == 0 {
        0
    } else {
        sum_seq(s.drop_last()) + s.last()
    }
}

/// How many `Min` constraints the list holds.
pub open spec fn min_count(cs: Seq<Constraint>) -> int
    decreases cs.len(),
{
    if cs.len() == 0 {
        0
    } else {
        min_count(cs.drop_last()) + if is_min(cs.last()) {
            1int
        } else {
            0int
        }
    }
}

/// Index of the first `Min` constraint, or the length when there is none.
pub open spec fn first_min_idx(cs: Seq<Constraint>) -> int
    decreases cs.len(),
{
    if cs.len() == 0 {
        0
    } else if is_min(cs[0]) {
        0
    } else {
        1int + first_min_idx(cs.skip(1))
    }
}

/// Second pass: what segment `i` gains from the leftover space. With `Min`
/// constraints present the leftover is split evenly among them and the
/// division remainder goes to the earliest one; otherwise the last segment
/// absorbs everything, so that the segments tile the budget exactly.
pub open spec fn extra_at(cs: Seq<Constraint>, leftover: int, i: int) -> int {
    let m = min_count(cs);
    if m > 0 {
        if is_min(cs[i]) {
            leftover / m + if i == first_min_idx(cs) {
                leftover % m
            } else {
                0
            }
        } else {
            0
        }
    } else {
        if i == cs.len() - 1 {
            leftover
        } else {
            0
        }
    }
}

/// The sizes the solver assigns: clamped desired sizes plus the leftover
/// distribution. Their sum is exactly `budget` whenever the list is
/// non-empty (`lemma_resolved_props`).
pub open spec fn resolved_sizes(cs: Seq<Constraint>, budget: int) -> Seq<int> {
    let base = base_sizes(cs, budget, budget);
    let leftover = budget - sum_seq(base);
    Seq::new(cs.len(), |i: int| base[i] + extra_at(cs, leftover, i))
}

pub proof fn lemma_sum_concat(a: Seq<int>, b: Seq<int>)
    ensures
        sum_seq(a + b) == sum_seq(a) + sum_seq(b),
    decreases b.len(),
{
    if b.len() == 0 {
        assert(a + b =~= a);
    } else {
        lemma_sum_concat(a, b.drop_last());
        assert((a + b).drop_last() =~= a + b.drop_last());
        assert((a + b).last() == b.last());
    }
}

pub proof fn lemma_desired_nonneg(c: Constraint, total: int)
    requires
        total >= 0,
    ensures
        desired_size(c, total) >= 0,
{
    match c {
        Constraint::Percentage(p) => {
            assert(total * p >= 0) by (nonlinear_arith)
                requires
                    total >= 0,
                    p >= 0,
            ;
        },
        Constraint::Ratio(num, den) => {
            assert(total * num >= 0) by (nonlinear_arith)
                requires
                    total >= 0,
                    num >= 0,
            ;
        },
        _ => {},
    }
}

/// The first pass never assigns a negative size and never hands out more
/// than the unclaimed space.
pub proof fn lemma_base_props(cs: Seq<Constraint>, total: int, rem: int)
    requires
        total >= 0,
        rem >= 0,
    ensures
        base_sizes(cs, total, rem).len() == cs.len(),
        forall|i: int|
            0 <= i < cs.len() ==> 0 <= #[trigger] base_sizes(cs, total, rem)[i],
        sum_seq(base_sizes(cs, total, rem)) <= rem,
        sum_seq(base_sizes(cs, total, rem)) >= 0,
    decreases cs.len(),
{
    if cs.len() == 0 {
    } else {
        let s = min_int(desired_size(cs[0], total), rem);
        lemma_desired_nonneg(cs[0], total);
        lemma_base_props(cs.skip(1), total, rem - s);
        lemma_sum_concat(seq![s], base_sizes(cs.skip(1), total, rem - s));
        assert(sum_seq(seq![s]) == s) by {
            let t = seq![s];
            assert(t.drop_last() =~= Seq::<int>::empty());
            assert(sum_seq(Seq::<int>::empty()) == 0);
            assert(sum_seq(t) == sum_seq(t.drop_last()) + t.last());
        }
    }
}

pub proof fn lemma_elem_le_sum(s: Seq<int>, i: int)
    requires
        0 <= i < s.len(),
        forall|j: int| 0 <= j < s.len() ==> 0 <= #[trigger] s[j],
    ensures
        s[i] <= sum_seq(s),
    decreases s.len(),
{
    if i == s.len() - 1 {
        lemma_sum_nonneg(s.drop_last());
    } else {
        lemma_elem_le_sum(s.drop_last(), i);
    }
}

pub proof fn lemma_sum_nonneg(s: Seq<int>)
    requires
        forall|j: int| 0 <= j < s.len() ==> 0 <= #[trigger] s[j],
    ensures
        sum_seq(s) >= 0,
    decreases s.len(),
{
    if s.len() > 0 {
        lemma_sum_nonneg(s.drop_last());
    }
}

/// Relates the head-based view of `min_count` to its definition.
pub proof fn lemma_min_count_skip(cs: Seq<Constraint>)
    requires
        cs.len() > 0,
    ensures
        min_count(cs) == (if is_min(cs[0]) {
            1int
        } else {
            0int
        }) + min_count(cs.skip(1)),
    decreases cs.len(),
{
    if cs.len() == 1 {
        assert(cs.skip(1) =~= Seq::<Constraint>::empty());
        assert(cs.drop_last() =~= Seq::<Constraint>::empty());
    } else {
        lemma_min_count_skip(cs.drop_last());
        assert(cs.drop_last()[0] == cs[0]);
        assert(cs.drop_last().skip(1) =~= cs.skip(1).drop_last());
        assert(cs.skip(1).last() == cs.last());
    }
}

pub proof fn lemma_min_count_nonneg(cs: Seq<Constraint>)
    ensures
        0 <= min_count(cs) <= cs.len(),
    decreases cs.len(),
{
    if cs.len() > 0 {
        lemma_min_count_nonneg(cs.drop_last());
    }
}

/// `first_min_idx` finds the earliest `Min`, and finds one exactly when
/// `min_count` is positive.
pub proof fn lemma_first_min_char(cs: Seq<Constraint>)
    ensures
        0 <= first_min_idx(cs) <= cs.len(),
        min_count(cs) > 0 ==> first_min_idx(cs) < cs.len() && is_min(
            cs[first_min_idx(cs)],
        ),
        forall|j: int| 0 <= j < first_min_idx(cs) ==> !is_min(#[trigger] cs[j]),
        min_count(cs) == 0 ==> first_min_idx(cs) == cs.len(),
    decreases cs.len(),
{
    if cs.len() == 0 {
    } else {
        lemma_min_count_skip(cs);
        lemma_min_count_nonneg(cs.skip(1));
        if is_min(cs[0]) {
        } else {
            lemma_first_min_char(cs.skip(1));
            assert(forall|j: int|
                1 <= j < first_min_idx(cs) ==> cs[j] == cs.skip(1)[j - 1]);
        }
    }
}

pub proof fn lemma_sum_extras_min(cs: Seq<Constraint>, leftover: int, k: int)
    requires
        min_count(cs) > 0,
        leftover >= 0,
        0 <= k <= cs.len(),
    ensures
        sum_seq(Seq::new(k as nat, |i: int| extra_at(cs, leftover, i))) == (leftover
            / min_count(cs)) * min_count(cs.take(k)) + if first_min_idx(cs) < k {
            leftover % min_count(cs)
        } else {
            0int
        },
    decreases k,
{
    let m = min_count(cs);
    let q = leftover / m;
    let r = leftover % m;
    lemma_first_min_char(cs);
    if k == 0 {
        assert(Seq::new(0nat, |i: int| extra_at(cs, leftover, i)) =~= Seq::<int>::empty());
        assert(cs.take(0) =~= Seq::<Constraint>::empty());
    } else {
        lemma_sum_extras_min(cs, leftover, k - 1);
        let e = Seq::new(k as nat, |i: int| extra_at(cs, leftover, i));
        assert(e.drop_last() =~= Seq::new((k - 1) as nat, |i: int| extra_at(cs, leftover, i)));
        assert(cs.take(k).drop_last() =~= cs.take(k - 1));
        assert(cs.take(k).last() == cs[k - 1]);
        let c0 = min_count(cs.take(k - 1));
        let c1 = min_count(cs.take(k));
        assert(e.last() == extra_at(cs, leftover, k - 1));
        if is_min(cs[k - 1]) {
            assert(c1 == c0 + 1);
            assert(q * (c0 + 1) == q * c0 + q) by (nonlinear_arith);
        } else {
            assert(cs[k - 1] != cs[first_min_idx(cs)] || k - 1 == first_min_idx(cs));
            assert(k - 1 != first_min_idx(cs));
            assert(c1 == c0);
        }
    }
}

pub proof fn lemma_sum_extras_none(cs: Seq<Constraint>, leftover: int, k: int)
    requires
        min_count(cs) == 0,
        0 <= k <= cs.len(),
    ensures
        sum_seq(Seq::new(k as nat, |i: int| extra_at(cs, leftover, i))) == if k == cs.len()
            && cs.len() > 0 {
            leftover
        } else {
            0int
        },
    decreases k,
{
    if k == 0 {
        assert(Seq::new(0nat, |i: int| extra_at(cs, leftover, i)) =~= Seq::<int>::empty());
    } else {
        lemma_sum_extras_none(cs, leftover, k - 1);
        let e = Seq::new(k as nat, |i: int| extra_at(cs, leftover, i));
        assert(e.drop_last() =~= Seq::new((k - 1) as nat, |i: int| extra_at(cs, leftover, i)));
        assert(e.last() == extra_at(cs, leftover, k - 1));
    }
}

pub proof fn lemma_sum_new_add(n: nat, f: spec_fn(int) -> int, g: spec_fn(int) -> int)
    ensures
        sum_seq(Seq::new(n, |i: int| f(i) + g(i))) == sum_seq(Seq::new(n, f)) + sum_seq(
            Seq::new(n, g),
        ),
    decreases n,
{
    if n > 0 {
        lemma_sum_new_add((n - 1) as nat, f, g);
        assert(Seq::new(n, |i: int| f(i) + g(i)).drop_last() =~= Seq::new(
            (n - 1) as nat,
            |i: int| f(i) + g(i),
        ));
        assert(Seq::new(n, f).drop_last() =~= Seq::new((n - 1) as nat, f));
        assert(Seq::new(n, g).drop_last() =~= Seq::new((n - 1) as nat, g));
    } else {
        assert(Seq::new(0nat, |i: int| f(i) + g(i)) =~= Seq::<int>::empty());
        assert(Seq::new(0nat, f) =~= Seq::<int>::empty());
        assert(Seq::new(0nat, g) =~= Seq::<int>::empty());
    }
}

/// The solved sizes are non-negative, never exceed the budget, and tile it
/// exactly: for a non-empty constraint list they sum to `budget`.
pub proof fn lemma_resolved_props(cs: Seq<Constraint>, budget: int)
    requires
        budget >= 0,
    ensures
        resolved_sizes(cs, budget).len() == cs.len(),
        forall|i: int|
            0 <= i < cs.len() ==> 0 <= #[trigger] resolved_sizes(cs, budget)[i] <= budget,
        cs.len() > 0 ==> sum_seq(resolved_sizes(cs, budget)) == budget,
{
    let base = base_sizes(cs, budget, budget);
    let leftover = budget - sum_seq(base);
    let n = cs.len();
    let m = min_count(cs);
    let res = resolved_sizes(cs, budget);
    lemma_base_props(cs, budget, budget);
    lemma_min_count_nonneg(cs);
    lemma_first_min_char(cs);
    let fb = |i: int| base[i];
    let fe = |i: int| extra_at(cs, leftover, i);
    assert(res =~= Seq::new(n, |i: int| fb(i) + fe(i)));
    lemma_sum_new_add(n, fb, fe);
    assert(Seq::new(n, fb) =~= base);
    if m > 0 {
        vstd::arithmetic::div_mod::lemma_fundamental_div_mod(leftover, m);
        lemma_sum_extras_min(cs, leftover, n as int);
        assert(cs.take(n as int) =~= cs);
        assert(sum_seq(Seq::new(n, fe)) == (leftover / m) * m + leftover % m);
        assert((leftover / m) * m == m * (leftover / m)) by (nonlinear_arith);
        assert(sum_seq(res) == budget);
        assert(leftover / m >= 0 && leftover % m >= 0) by {
            vstd::arithmetic::div_mod::lemma_div_pos_is_pos(leftover, m);
        }
        assert forall|i: int| 0 <= i < n implies 0 <= #[trigger] res[i] by {
            assert(res[i] == base[i] + extra_at(cs, leftover, i));
        }
        assert forall|i: int| 0 <= i < n implies #[trigger] res[i] <= budget by {
            lemma_elem_le_sum(res, i);
        }
    } else {
        lemma_sum_extras_none(cs, leftover, n as int);
        if n > 0 {
            assert(sum_seq(res) == budget);
        }
        assert forall|i: int| 0 <= i < n implies 0 <= #[trigger] res[i] by {
            assert(res[i] == base[i] + extra_at(cs, leftover, i));
        }
        assert forall|i: int| 0 <= i < n implies #[trigger] res[i] <= budget by {
            lemma_elem_le_sum(res, i);
        }
    }
}

/// Solve a constraint list against a budget of cells. The result holds one
/// size per constraint; for a non-empty list the sizes always sum to the
/// budget exactly (`lemma_resolved_props`), so segments placed back to back
/// tile the budget with no gap and no overlap.
pub fn resolve_sizes(constraints: &Vec<Constraint>, budget: u16) -> (sizes: Vec<u16>)
    ensures
        sizes@.len() == constraints@.len(),
        forall|i: int|
            0 <= i < sizes@.len() ==> sizes@[i] as int == resolved_sizes(
                constraints@,
                budget as int,
            )[i],
{
    let ghost cs = constraints@;
    let ghost t = budget as int;
    let ghost base = base_sizes(cs, t, t);
    let n = constraints.len();
    let mut sizes: Vec<u16> = Vec::new();
    let mut rem: u16 = budget;
    let mut i: usize = 0;
    proof {
        assert(cs.skip(0) =~= cs);
        assert(sizes@.map_values(|v: u16| v as int) =~= Seq::<int>::empty());
    }
    while i < n
        invariant
            i <= n,
            n == cs.len(),
            cs == constraints@,
            t == budget as int,
            base == base_sizes(cs, t, t),
            sizes@.len() == i,
            rem <= budget,
            base == sizes@.map_values(|v: u16| v as int) + base_sizes(cs.skip(i as int), t, rem as int),
            rem as int == t - sum_seq(sizes@.map_values(|v: u16| v as int)),
        decreases n - i,
    {
        let ghost pre = sizes@.map_values(|v: u16| v as int);
        let c = constraints[i];
        let d: u64 = match c {
            Constraint::Length(v) => v as u64,
            Constraint::Percentage(p) => {
                proof {
                    assert((budget as u64) * (p as u64) <= 0xffff * 0xffff) by (nonlinear_arith)
                        requires
                            budget <= 0xffff,
                            p <= 0xffff,
                    ;
                }
                (budget as u64) * (p as u64) / 100
            },
            Constraint::Ratio(num, den) => {
                if den == 0 {
                    0
                } else {
                    proof {
                        assert((budget as u64) * (num as u64) <= 0xffff * 0xffff_ffffu64)
                            by (nonlinear_arith)
                            requires
                                budget <= 0xffff,
                                num <= 0xffff_ffffu64,
                        ;
                    }
                    (budget as u64) * (num as u64) / (den as u64)
                }
            },
            Constraint::Max(v) => v as u64,
            Constraint::Min(v) => v as u64,
        };
        let s: u16 = if d < rem as u64 {
            d as u16
        } else {
            rem
        };
        proof {
            assert(cs.skip(i as int)[0] == cs[i as int]);
            assert(d as int == desired_size(cs[i as int], t));
            assert(s as int == min_int(desired_size(cs[i as int], t), rem as int));
        }
        sizes.push(s);
        proof {
            let post = sizes@.map_values(|v: u16| v as int);
            assert(post =~= pre + seq![s as int]);
            assert(cs.skip(i as int).skip(1) =~= cs.skip(i as int + 1));
            lemma_sum_concat(pre, seq![s as int]);
            assert(sum_seq(seq![s as int]) == s as int) by {
                let u = seq![s as int];
                assert(u.drop_last() =~= Seq::<int>::empty());
                assert(sum_seq(Seq::<int>::empty()) == 0);
                assert(sum_seq(u) == sum_seq(u.drop_last()) + u.last());
            }
            assert((pre + seq![s as int]) + base_sizes(
                cs.skip(i as int + 1),
                t,
                rem as int - s as int,
            ) =~= pre + (seq![s as int] + base_sizes(cs.skip(i as int + 1), t, rem as int - s as int)));
        }
        rem = rem - s;
        i += 1;
    }
    proof {
        assert(cs.skip(n as int) =~= Seq::<Constraint>::empty());
        assert(base_sizes(cs.skip(n as int), t, rem as int) =~= Seq::<int>::empty());
        assert(base =~= sizes@.map_values(|v: u16| v as int));
        assert(forall|j: int| 0 <= j < n ==> sizes@[j] as int == base[j]);
    }
    let leftover: u16 = rem;

    // Locate the `Min` constraints that share the leftover space.
    let mut m: usize = 0;
    let mut fm: usize = n;
    let mut i: usize = 0;
    proof {
        assert(cs.take(0) =~= Seq::<Constraint>::empty());
    }
    while i < n
        invariant
            i <= n,
            n == cs.len(),
            cs == constraints@,
            m <= i,
            m == min_count(cs.take(i as int)),
            m == 0 ==> fm == n && forall|j: int| 0 <= j < i ==> !is_min(#[trigger] cs[j]),
            m > 0 ==> fm < i && is_min(cs[fm as int]) && forall|j: int|
                0 <= j < fm ==> !is_min(#[trigger] cs[j]),
        decreases n - i,
    {
        let c = constraints[i];
        let found = match c {
            Constraint::Min(_) => true,
            _ => false,
        };
        proof {
            assert(cs.take(i as int + 1).drop_last() =~= cs.take(i as int));
            assert(cs.take(i as int + 1).last() == cs[i as int]);
        }
        if found {
            if m == 0 {
                fm = i;
            }
            m = m + 1;
        }
        i += 1;
    }
    proof {
        assert(cs.take(n as int) =~= cs);
        lemma_min_count_nonneg(cs);
        lemma_first_min_char(cs);
        if m > 0 {
            assert(fm as int == first_min_idx(cs)) by {
                if (fm as int) < first_min_idx(cs) {
                    assert(!is_min(cs[fm as int]));
                } else if first_min_idx(cs) < fm as int {
                    assert(!is_min(cs[first_min_idx(cs)]));
                }
            }
        }
    }

    // Share the leftover: evenly among the `Min` segments (remainder to the
    // earliest), or all of it to the last segment when there is none.
    let ghost res = resolved_sizes(cs, t);
    let ghost leftover_g = leftover as int;
    proof {
        lemma_base_props(cs, t, t);
        assert(leftover as int == t - sum_seq(base));
    }
    if n == 0 {
        proof {
            assert(res.len() == 0);
        }
        return sizes;
    }
    if m > 0 {
        let q: usize = (leftover as usize) / m;
        let r: usize = (leftover as usize) % m;
        proof {
            let qi = leftover_g / (m as int);
            let ri = leftover_g % (m as int);
            vstd::arithmetic::div_mod::lemma_fundamental_div_mod(leftover_g, m as int);
            vstd::arithmetic::div_mod::lemma_div_pos_is_pos(leftover_g, m as int);
            assert(qi <= (m as int) * qi) by (nonlinear_arith)
                requires
                    qi >= 0,
                    m as int >= 1,
            ;
            assert(q as int == qi && r as int == ri);
            assert(q as int + r as int <= leftover_g);
        }
        let mut i: usize = 0;
        while i < n
            invariant
                i <= n,
                n == cs.len(),
                n > 0,
                cs == constraints@,
                t == budget as int,
                base == base_sizes(cs, t, t),
                res == resolved_sizes(cs, t),
                leftover_g == t - sum_seq(base),
                leftover_g == leftover as int,
                min_count(cs) == m,
                m > 0,
                fm as int == first_min_idx(cs),
                q as int == leftover_g / m as int,
                r as int == leftover_g % m as int,
                q as int + r as int <= leftover_g,
                base.len() == n,
                forall|j: int| 0 <= j < n ==> 0 <= #[trigger] base[j],
                sum_seq(base) <= t,
                sizes@.len() == n,
                forall|j: int| 0 <= j < i ==> sizes@[j] as int == res[j],
                forall|j: int| i <= j < n ==> sizes@[j] as int == base[j],
            decreases n - i,
        {
            let c = constraints[i];
            let found = match c {
                Constraint::Min(_) => true,
                _ => false,
            };
            if found {
                let add: usize = if i == fm {
                    q + r
                } else {
                    q
                };
                proof {
                    lemma_elem_le_sum(base, i as int);
                    assert(base[i as int] + add as int <= t);
                    assert(res[i as int] == base[i as int] + extra_at(cs, leftover_g, i as int));
                }
                let v = sizes[i];
                sizes[i] = v + (add as u16);
            } else {
                proof {
                    assert(res[i as int] == base[i as int] + extra_at(cs, leftover_g, i as int));
                    assert(extra_at(cs, leftover_g, i as int) == 0);
                }
            }
            i += 1;
        }
        sizes
    } else {
        proof {
            lemma_elem_le_sum(base, n as int - 1);
            assert(res[n as int - 1] == base[n as int - 1] + extra_at(cs, leftover_g, n as int - 1));
            assert(forall|j: int|
                0 <= j < n - 1 ==> res[j] == base[j] + extra_at(cs, leftover_g, j));
        }
        let v = sizes[n - 1];
        sizes[n - 1] = v + leftover;
        sizes
    }
}

/// A layout: an ordered list of sizing rules plus direction, margins and
/// spacing, turned by `split` into rectangles that tile an area.
#[derive(Clone, Debug)]
pub struct Layout {
    pub direction: Direction,
    pub margin_h: u16,
    pub margin_v: u16,
    pub spacing: u16,
    pub constraints: Vec<Constraint>,
}

/// Extent of a rectangle along the split axis.
pub open spec fn axis_len(d: Direction, r: Rect) -> int {
    if d is Vertical {
        r.height as int
    } else {
        r.width as int
    }
}

/// The cells left for the segments once the gaps between consecutive
/// segments are taken out; gaps that do not fit leave no budget at all.
pub open spec fn split_budget(l: Layout, inner: Rect) -> int {
    let n = l.constraints@.len() as int;
    let total_sp = if n > 0 {
        (l.spacing as int) * (n - 1)
    } else {
        0
    };
    let len = axis_len(l.direction, inner);
    if total_sp <= len {
        len - total_sp
    } else {
        0
    }
}

/// Offset of segment `i` from the inner origin along the split axis:
/// everything placed before it plus one gap per earlier segment.
pub open spec fn split_offset(sizes: Seq<int>, spacing: int, i: int) -> int {
    sum_seq(sizes.take(i)) + i * spacing
}

/// The rectangle of segment `i`: the solved size along the split axis at its
/// offset (clamped to the inner extent), the full margin-adjusted area on
/// the cross axis.
pub open spec fn split_rect_at(l: Layout, area: Rect, i: int) -> Rect {
    let inner = area.spec_inner(l.margin_h as int, l.margin_v as int);
    let len = axis_len(l.direction, inner);
    let sizes = resolved_sizes(l.constraints@, split_budget(l, inner));
    let off = min_int(split_offset(sizes, l.spacing as int, i), len);
    if l.direction is Vertical {
        Rect {
            x: inner.x,
            y: (inner.y + off) as u16,
            width: inner.width,
            height: sizes[i] as u16,
        }
    } else {
        Rect {
            x: (inner.x + off) as u16,
            y: inner.y,
            width: sizes[i] as u16,
            height: inner.height,
        }
    }
}

/// The full result of a split, one rectangle per constraint.
pub open spec fn split_rects(l: Layout, area: Rect) -> Seq<Rect> {
    Seq::new(l.constraints@.len(), |i: int| split_rect_at(l, area, i))
}

pub proof fn lemma_sum_take_succ(s: Seq<int>, i: int)
    requires
        0 <= i < s.len(),
    ensures
        sum_seq(s.take(i + 1)) == sum_seq(s.take(i)) + s[i],
{
    assert(s.take(i + 1).drop_last() =~= s.take(i));
    assert(s.take(i + 1).last() == s[i]);
}

pub proof fn lemma_sum_take_monotone(s: Seq<int>, i: int, j: int)
    requires
        0 <= i <= j <= s.len(),
        forall|k: int| 0 <= k < s.len() ==> 0 <= #[trigger] s[k],
    ensures
        sum_seq(s.take(i)) <= sum_seq(s.take(j)),
    decreases j - i,
{
    if i < j {
        lemma_sum_take_monotone(s, i, j - 1);
        lemma_sum_take_succ(s, j - 1);
    }
}

pub proof fn lemma_sum_take_all(s: Seq<int>)
    ensures
        sum_seq(s.take(s.len() as int)) == sum_seq(s),
{
    assert(s.take(s.len() as int) =~= s);
}

impl Layout {
    pub fn new(direction: Direction, constraints: Vec<Constraint>) -> (l: Layout)
        ensures
            l.direction == direction,
            l.constraints == constraints,
            l.margin_h == 0,
            l.margin_v == 0,
            l.spacing == 0,
    {
        Layout { direction, margin_h: 0, margin_v: 0, spacing: 0, constraints }
    }

    /// The same layout with the given margins on both axes.
    pub fn with_margin(self, margin_h: u16, margin_v: u16) -> (l: Layout)
        ensures
            l == (Layout { margin_h, margin_v, ..self }),
    {
        Layout { margin_h, margin_v, ..self }
    }

    /// The same layout with the given gap between consecutive segments.
    pub fn with_spacing(self, spacing: u16) -> (l: Layout)
        ensures
            l == (Layout { spacing, ..self }),
    {
        Layout { spacing, ..self }
    }

    /// Split `area` into one rectangle per constraint, laid out contiguously
    /// along the direction inside the margin-adjusted area, with `spacing`
    /// gaps between consecutive segments.
    pub fn split(&self, area: Rect) -> (rects: Vec<Rect>)
        requires
            area.wf(),
        ensures
            rects@ == split_rects(*self, area),
            rects@.len() == self.constraints@.len(),
            forall|i: int| 0 <= i < rects@.len() ==> (#[trigger] rects@[i]).wf(),
    {
        let ghost cs = self.constraints@;
        let inner = area.inner(self.margin_h, self.margin_v);
        let n = self.constraints.len();
        let len: u16 = match self.direction {
            Direction::Vertical => inner.height,
            Direction::Horizontal => inner.width,
        };
        let spacing = self.spacing;
        let fits: bool = n <= 1 || spacing == 0 || ((n - 1) as u64) <= (len as u64) / (
        spacing as u64);
        proof {
            if n > 1 && spacing > 0 {
                assert((spacing as int) * (n - 1) <= len as int <==> n - 1 <= (len as int) / (
                spacing as int)) by (nonlinear_arith)
                    requires
                        spacing as int >= 1,
                        n as int > 1,
                        len as int >= 0,
                ;
            } else if n > 0 {
                assert((spacing as int) * (n - 1) == 0) by (nonlinear_arith)
                    requires
                        spacing == 0 || n == 1,
                ;
            }
        }
        let budget: u16 = if n == 0 {
            len
        } else if fits {
            proof {
                assert((spacing as u64) * ((n - 1) as u64) == (spacing as int) * (n - 1))
                    by (nonlinear_arith)
                    requires
                        n >= 1,
                        spacing as int * (n as int - 1) <= len as int,
                        len <= 0xffff,
                        spacing >= 0,
                        n <= usize::MAX,
                ;
            }
            len - ((spacing as u64) * ((n - 1) as u64)) as u16
        } else {
            0
        };
        proof {
            assert(budget as int == split_budget(*self, inner));
        }
        let sizes = resolve_sizes(&self.constraints, budget);
        let ghost szs = resolved_sizes(cs, budget as int);
        proof {
            lemma_resolved_props(cs, budget as int);
        }
        let mut rects: Vec<Rect> = Vec::new();
        let mut pos: u16 = 0;
        let mut i: usize = 0;
        proof {
            assert(szs.take(0) =~= Seq::<int>::empty());
            assert(0int * (spacing as int) == 0);
        }
        while i < n
            invariant
                i <= n,
                n == cs.len(),
                cs == self.constraints@,
                inner == area.spec_inner(self.margin_h as int, self.margin_v as int),
                inner.wf(),
                len as int == axis_len(self.direction, inner),
                spacing == self.spacing,
                budget as int == split_budget(*self, inner),
                szs == resolved_sizes(cs, budget as int),
                sizes@.len() == n,
                forall|j: int| 0 <= j < n ==> sizes@[j] as int == szs[j],
                forall|j: int| 0 <= j < n ==> 0 <= #[trigger] szs[j] <= budget,
                n > 0 ==> sum_seq(szs) == budget as int,
                budget <= len,
                pos as int == min_int(split_offset(szs, spacing as int, i as int), len as int),
                pos <= len,
                rects@.len() == i,
                forall|j: int| 0 <= j < i ==> rects@[j] == split_rect_at(*self, area, j),
                forall|j: int| 0 <= j < i ==> (#[trigger] rects@[j]).wf(),
            decreases n - i,
        {
            let size = sizes[i];
            proof {
                lemma_sum_take_succ(szs, i as int);
                lemma_sum_take_monotone(szs, i as int + 1, n as int);
                lemma_sum_take_all(szs);
                let tsp = (self.spacing as int) * (n as int - 1);
                if tsp <= len as int {
                    vstd::arithmetic::mul::lemma_mul_inequality(
                        i as int,
                        n as int - 1,
                        self.spacing as int,
                    );
                } else {
                    assert(budget == 0);
                }
                assert(pos as int + szs[i as int] <= len as int);
            }
            let r = match self.direction {
                Direction::Vertical => Rect {
                    x: inner.x,
                    y: inner.y + pos,
                    width: inner.width,
                    height: size,
                },
                Direction::Horizontal => Rect {
                    x: inner.x + pos,
                    y: inner.y,
                    width: size,
                    height: inner.height,
                },
            };
            proof {
                assert(r == split_rect_at(*self, area, i as int));
                assert(r.wf());
            }
            rects.push(r);
            let step: u32 = pos as u32 + size as u32 + spacing as u32;
            let new_pos: u16 = if step <= len as u32 {
                step as u16
            } else {
                len
            };
            proof {
                let o_i = split_offset(szs, spacing as int, i as int);
                let o_n = split_offset(szs, spacing as int, i as int + 1);
                lemma_sum_take_succ(szs, i as int);
                assert((i as int + 1) * (spacing as int) == (i as int) * (spacing as int) + (
                spacing as int)) by (nonlinear_arith);
                assert(o_n == o_i + szs[i as int] + spacing);
                assert(new_pos as int == min_int(o_n, len as int));
            }
            pos = new_pos;
            i += 1;
        }
        proof {
            assert(rects@ =~= split_rects(*self, area));
        }
        rects
    }
}

/// Tiling law: whenever the gaps fit in the split axis, the rectangles of a
/// split are ordered along that axis, pairwise non-overlapping, begin at the
/// margin-adjusted origin, sit exactly one gap apart, and their sizes plus
/// the gaps cover the axis exactly; on the cross axis every rectangle spans
/// the full margin-adjusted area.
pub proof fn lemma_split_tiling(l: Layout, area: Rect)
    requires
        area.wf(),
        l.constraints@.len() > 0,
        (l.spacing as int) * (l.constraints@.len() - 1) <= axis_len(
            l.direction,
            area.spec_inner(l.margin_h as int, l.margin_v as int),
        ),
    ensures
        split_rects(l, area).len() == l.constraints@.len(),
        forall|i: int|
            0 <= i < l.constraints@.len() ==> cross_axis_full(
                l,
                area,
                #[trigger] split_rects(l, area)[i],
            ),
        axis_pos(l.direction, split_rects(l, area)[0]) == axis_pos(
            l.direction,
            area.spec_inner(l.margin_h as int, l.margin_v as int),
        ),
        forall|i: int|
            0 <= i < l.constraints@.len() - 1 ==> axis_pos(
                l.direction,
                #[trigger] split_rects(l, area)[i + 1],
            ) == axis_pos(l.direction, split_rects(l, area)[i]) + axis_size(
                l.direction,
                split_rects(l, area)[i],
            ) + l.spacing,
        axis_pos(l.direction, split_rects(l, area).last()) + axis_size(
            l.direction,
            split_rects(l, area).last(),
        ) == axis_pos(l.direction, area.spec_inner(l.margin_h as int, l.margin_v as int))
            + axis_len(l.direction, area.spec_inner(l.margin_h as int, l.margin_v as int)),
        forall|i: int, j: int|
            0 <= i < j < l.constraints@.len() ==> axis_pos(
                l.direction,
                #[trigger] split_rects(l, area)[i],
            ) + axis_size(l.direction, split_rects(l, area)[i]) <= axis_pos(
                l.direction,
                #[trigger] split_rects(l, area)[j],
            ),
{
    let inner = area.spec_inner(l.margin_h as int, l.margin_v as int);
    let len = axis_len(l.direction, inner);
    let n = l.constraints@.len() as int;
    let budget = split_budget(l, inner);
    let szs = resolved_sizes(l.constraints@, budget);
    let sp = l.spacing as int;
    lemma_resolved_props(l.constraints@, budget);
    lemma_sum_take_all(szs);
    assert(inner.wf());
    assert forall|i: int| 0 <= i <= n implies 0 <= sum_seq(szs.take(i)) && 0 <= i * sp by {
        lemma_sum_take_monotone(szs, 0, i);
        assert(szs.take(0) =~= Seq::<int>::empty());
        vstd::arithmetic::mul::lemma_mul_nonnegative(i, sp);
    }
    assert forall|i: int| 0 <= i < n implies #[trigger] split_offset(szs, sp, i) + szs[i]
        <= len by {
        lemma_sum_take_succ(szs, i);
        lemma_sum_take_monotone(szs, i + 1, n);
        assert(sum_seq(szs.take(i + 1)) <= sum_seq(szs.take(n)));
        assert(sum_seq(szs.take(n)) == budget);
        vstd::arithmetic::mul::lemma_mul_inequality(i, n - 1, sp);
        assert(i * sp <= (n - 1) * sp);
        assert((n - 1) * sp == sp * (n - 1)) by (nonlinear_arith);
        assert(budget == len - sp * (n - 1));
        assert(split_offset(szs, sp, i) + szs[i] == sum_seq(szs.take(i + 1)) + i * sp);
    }
    assert(split_offset(szs, sp, 0) == 0) by {
        assert(szs.take(0) =~= Seq::<int>::empty());
    }
    assert forall|i: int|
        0 <= i < n - 1 implies #[trigger] split_offset(szs, sp, i + 1) == split_offset(
        szs,
        sp,
        i,
    ) + szs[i] + sp by {
        lemma_sum_take_succ(szs, i);
        assert((i + 1) * sp == i * sp + sp) by (nonlinear_arith);
    }
    assert(split_offset(szs, sp, n - 1) + szs[n - 1] == len) by {
        lemma_sum_take_succ(szs, n - 1);
        assert(sum_seq(szs.take(n)) == budget);
        assert((n - 1) * sp == sp * (n - 1)) by (nonlinear_arith);
    }
    assert forall|i: int, j: int|
        0 <= i < j < n implies #[trigger] split_offset(szs, sp, i) + szs[i]
        <= #[trigger] split_offset(szs, sp, j) by {
        lemma_sum_take_succ(szs, i);
        lemma_sum_take_monotone(szs, i + 1, j);
        vstd::arithmetic::mul::lemma_mul_inequality(i, j, sp);
    }
}

/// Position of a rectangle along the split axis.
pub open spec fn axis_pos(d: Direction, r: Rect) -> int {
    if d is Vertical {
        r.y as int
    } else {
        r.x as int
    }
}

/// Size of a rectangle along the split axis.
pub open spec fn axis_size(d: Direction, r: Rect) -> int {
    if d is Vertical {
        r.height as int
    } else {
        r.width as int
    }
}

/// Whether a rectangle spans the whole margin-adjusted area on the cross
/// axis.
pub open spec fn cross_axis_full(l: Layout, area: Rect, r: Rect) -> bool {
    let inner = area.spec_inner(l.margin_h as int, l.margin_v as int);
    if l.direction is Vertical {
        r.x == inner.x && r.width == inner.width
    } else {
        r.y == inner.y && r.height == inner.height
    }
}

/// An empty constraint list splits into an empty sequence of rectangles.
pub proof fn lemma_split_empty(l: Layout, area: Rect)
    requires
        l.constraints@.len() == 0,
    ensures
        split_rects(l, area) =~= Seq::<Rect>::empty(),
{
}

/// An area with no extent along the split axis yields only zero-size
/// segments sitting at the margin-adjusted origin, whatever the
/// constraints say.
pub proof fn lemma_split_zero_area(l: Layout, area: Rect)
    requires
        axis_len(l.direction, area.spec_inner(l.margin_h as int, l.margin_v as int)) == 0,
    ensures
        forall|i: int|
            0 <= i < l.constraints@.len() ==> axis_size(
                l.direction,
                #[trigger] split_rects(l, area)[i],
            ) == 0 && axis_pos(l.direction, split_rects(l, area)[i]) == axis_pos(
                l.direction,
                area.spec_inner(l.margin_h as int, l.margin_v as int),
            ),
{
    let inner = area.spec_inner(l.margin_h as int, l.margin_v as int);
    let n = l.constraints@.len() as int;
    let budget = split_budget(l, inner);
    let szs = resolved_sizes(l.constraints@, budget);
    let sp = l.spacing as int;
    assert(budget == 0) by {
        if n > 0 {
            vstd::arithmetic::mul::lemma_mul_nonnegative(sp, n - 1);
        }
    }
    lemma_resolved_props(l.constraints@, budget);
    assert forall|i: int| 0 <= i < n implies axis_size(
        l.direction,
        #[trigger] split_rects(l, area)[i],
    ) == 0 && axis_pos(l.direction, split_rects(l, area)[i]) == axis_pos(l.direction, inner) by {
        assert(szs[i] == 0);
        assert(sum_seq(szs.take(i)) >= 0 && i * sp >= 0) by {
            lemma_sum_take_monotone(szs, 0, i);
            assert(szs.take(0) =~= Seq::<int>::empty());
            vstd::arithmetic::mul::lemma_mul_nonnegative(i, sp);
        }
        assert(min_int(split_offset(szs, sp, i), 0) == 0);
    }
}

pub proof fn lemma_base_all_zero(cs: Seq<Constraint>, total: int, rem: int)
    requires
        rem >= 0,
        forall|i: int| 0 <= i < cs.len() ==> desired_size(#[trigger] cs[i], total) == 0,
    ensures
        base_sizes(cs, total, rem) =~= Seq::new(cs.len(), |i: int| 0int),
        sum_seq(base_sizes(cs, total, rem)) == 0,
    decreases cs.len(),
{
    if cs.len() == 0 {
    } else {
        assert(forall|i: int|
            0 <= i < cs.skip(1).len() ==> desired_size(#[trigger] cs.skip(1)[i], total) == 0);
        lemma_base_all_zero(cs.skip(1), total, rem);
        let base = base_sizes(cs, total, rem);
        assert(base =~= seq![0int] + Seq::new(cs.skip(1).len(), |i: int| 0int));
        lemma_sum_concat(seq![0int], base_sizes(cs.skip(1), total, rem));
        assert(sum_seq(seq![0int]) == 0) by {
            assert(seq![0int].drop_last() =~= Seq::<int>::empty());
            assert(sum_seq(Seq::<int>::empty()) == 0);
            assert(sum_seq(seq![0int]) == sum_seq(seq![0int].drop_last()) + seq![0int].last());
        }
        assert(sum_seq(base) == 0) by {
            assert(base =~= seq![0int] + base_sizes(cs.skip(1), total, rem));
        }
    }
}

/// Constraints that all ask for zero cells, with no `Min` among them, yield
/// zero-size segments at their offsets — except the last one, which
/// absorbs the whole budget so that the segments still tile the area
/// exactly.
pub proof fn lemma_split_all_zero_fixed(l: Layout, area: Rect)
    requires
        area.wf(),
        l.constraints@.len() > 0,
        forall|i: int|
            0 <= i < l.constraints@.len() ==> !is_min(#[trigger] l.constraints@[i])
                && desired_size(
                l.constraints@[i],
                split_budget(l, area.spec_inner(l.margin_h as int, l.margin_v as int)),
            ) == 0,
    ensures
        forall|i: int|
            0 <= i < l.constraints@.len() - 1 ==> axis_size(
                l.direction,
                #[trigger] split_rects(l, area)[i],
            ) == 0,
        axis_size(l.direction, split_rects(l, area).last()) == split_budget(
            l,
            area.spec_inner(l.margin_h as int, l.margin_v as int),
        ),
{
    let inner = area.spec_inner(l.margin_h as int, l.margin_v as int);
    let cs = l.constraints@;
    let n = cs.len() as int;
    let budget = split_budget(l, inner);
    assert(budget >= 0);
    lemma_base_all_zero(cs, budget, budget);
    let base = base_sizes(cs, budget, budget);
    assert(min_count(cs) == 0) by {
        lemma_min_count_nonneg(cs);
        lemma_first_min_char(cs);
        if min_count(cs) > 0 {
            assert(is_min(cs[first_min_idx(cs)]));
        }
    }
    let szs = resolved_sizes(cs, budget);
    assert(forall|i: int| 0 <= i < n - 1 ==> #[trigger] szs[i] == 0);
    assert(szs[n - 1] == budget);
}

/// A single `Min` constraint, whatever its floor, absorbs the whole
/// margin-adjusted area.
pub proof fn lemma_split_single_min(l: Layout, area: Rect, v: u16)
    requires
        area.wf(),
        l.constraints@ =~= seq![Constraint::Min(v)],
    ensures
        split_rects(l, area).len() == 1,
        split_rects(l, area)[0] == area.spec_inner(l.margin_h as int, l.margin_v as int),
{
    let inner = area.spec_inner(l.margin_h as int, l.margin_v as int);
    let len = axis_len(l.direction, inner);
    let cs = l.constraints@;
    let budget = split_budget(l, inner);
    assert(budget == len) by {
        assert((l.spacing as int) * 0 == 0) by (nonlinear_arith);
    }
    let base = base_sizes(cs, budget, budget);
    let b0 = min_int(v as int, budget);
    assert(base =~= seq![b0]) by {
        assert(cs.skip(1) =~= Seq::<Constraint>::empty());
        assert(base_sizes(cs.skip(1), budget, budget - b0) =~= Seq::<int>::empty());
        assert(seq![b0] + Seq::<int>::empty() =~= seq![b0]);
    }
    assert(sum_seq(base) == b0) by {
        assert(base.drop_last() =~= Seq::<int>::empty());
        assert(sum_seq(Seq::<int>::empty()) == 0);
        assert(sum_seq(base) == sum_seq(base.drop_last()) + base.last());
    }
    let leftover = budget - b0;
    assert(min_count(cs) == 1) by {
        assert(cs.drop_last() =~= Seq::<Constraint>::empty());
        assert(min_count(Seq::<Constraint>::empty()) == 0);
        assert(min_count(cs) == min_count(cs.drop_last()) + if is_min(cs.last()) {
            1int
        } else {
            0int
        });
    }
    assert(first_min_idx(cs) == 0);
    let szs = resolved_sizes(cs, budget);
    assert(szs[0] == b0 + leftover / 1int + leftover % 1int);
    assert(leftover / 1int == leftover && leftover % 1int == 0);
    assert(szs[0] == len);
    assert(split_offset(szs, l.spacing as int, 0) == 0) by {
        assert(szs.take(0) =~= Seq::<int>::empty());
        assert(0int * (l.spacing as int) == 0) by (nonlinear_arith);
    }
    assert(inner.wf());
    assert(split_rects(l, area)[0] == inner);
}

} // verus!
