//! Declarative sizing and flow, and the arithmetic that turns it into
//! concrete draw regions.
//!
//! Every instance may declare a [`LayoutStyle`]: a flow direction,
//! content justification, inter-child gap, margin and a width and height
//! sizing token. A parent splits its drawable area along its main axis
//! from its children's main-axis tokens and, independently, sizes each
//! child along the cross axis from that child's own token.

use vstd::prelude::*;

verus! {

/// The main-axis flow direction of a container.
#[derive(Clone, Copy, Debug, PartialEq, Eq, Structural)]
pub enum Direction {
    Horizontal,
    Vertical,
}

/// Content justification along the main axis.
#[derive(Clone, Copy, Debug, PartialEq, Eq, Structural)]
pub enum Flex {
    Start,
    Center,
    End,
    SpaceBetween,
    SpaceAround,
}

/// The user-facing placement vocabulary; each placement maps onto the
/// justification the layout engine understands.
#[derive(Clone, Copy, Debug, PartialEq, Eq, Structural)]
pub enum Placement {
    Start,
    Center,
    End,
    SpaceBetween,
    SpaceAround,
}

impl Placement {
    /// The justification this placement stands for.
    pub fn to_flex(&self) -> (r: Flex)
        ensures
            r == (match *self {
                Placement::Start => Flex::Start,
                Placement::Center => Flex::Center,
                Placement::End => Flex::End,
                Placement::SpaceBetween => Flex::SpaceBetween,
                Placement::SpaceAround => Flex::SpaceAround,
            }),
    {
        match self {
            Placement::Start => Flex::Start,
            Placement::Center => Flex::Center,
            Placement::End => Flex::End,
            Placement::SpaceBetween => Flex::SpaceBetween,
            Placement::SpaceAround => Flex::SpaceAround,
        }
    }
}

/// A sizing token: a fixed cell count, a share of the available length,
/// a rational share, a lower or upper bound, or a weighted share of the
/// space left over after the other children took theirs.
#[derive(Clone, Copy, Debug, PartialEq, Eq, Structural)]
pub enum Constraint {
    Length(u16),
    Percentage(u16),
    Ratio(u32, u32),
    Min(u16),
    Max(u16),
    Fill(u16),
}

/// A rectangular region of the character grid, in cells.
#[derive(Clone, Copy, Debug, PartialEq, Eq, Structural)]
pub struct Rect {
    pub x: u16,
    pub y: u16,
    pub width: u16,
    pub height: u16,
}

impl Rect {
    /// A rectangle from its corner and extent.
    pub fn new(x: u16, y: u16, width: u16, height: u16) -> (r: Rect)
        ensures
            r == (Rect { x, y, width, height }),
    {
        Rect { x, y, width, height }
    }
}

/// `r` lies inside `outer`.
pub open spec fn rect_within(r: Rect, outer: Rect) -> bool {
    &&& outer.x <= r.x
    &&& r.x + r.width <= outer.x + outer.width
    &&& outer.y <= r.y
    &&& r.y + r.height <= outer.y + outer.height
}

/// The declarative sizing and flow intent of one instance.
#[derive(Clone, Copy, Debug, PartialEq, Eq, Structural)]
pub struct LayoutStyle {
    /// Flow direction of this container's children.
    pub flex_direction: Direction,
    /// Justification of the children along the main axis.
    pub justify_content: Flex,
    /// Cells left between two adjacent children.
    pub gap: u16,
    /// Cells taken off every side of the drawable area before children
    /// are placed.
    pub margin: u16,
    /// The width token this instance reports to its parent.
    pub width: Constraint,
    /// The height token this instance reports to its parent.
    pub height: Constraint,
}

impl LayoutStyle {
    /// The width token, as read by the parent for cross or main sizing.
    pub fn get_width(&self) -> (r: Constraint)
        ensures
            r == self.width,
    {
        self.width
    }

    /// The height token.
    pub fn get_height(&self) -> (r: Constraint)
        ensures
            r == self.height,
    {
        self.height
    }

    /// The drawable area after this style's margin is taken off every
    /// side; an area too small for the margin collapses to nothing.
    pub fn inner_area(&self, area: Rect) -> (r: Rect)
        requires
            area.x + area.width <= 0xFFFF,
            area.y + area.height <= 0xFFFF,
        ensures
            r == spec_inner_area(*self, area),
    {
        let m = self.margin;
        let dx = if m > area.width {
            area.width
        } else {
            m
        };
        let dy = if m > area.height {
            area.height
        } else {
            m
        };
        let width = if area.width as u32 >= 2 * m as u32 {
            area.width - 2 * m
        } else {
            0
        };
        let height = if area.height as u32 >= 2 * m as u32 {
            area.height - 2 * m
        } else {
            0
        };
        Rect { x: area.x + dx, y: area.y + dy, width, height }
    }
}

/// What [`LayoutStyle::inner_area`] returns.
pub open spec fn spec_inner_area(style: LayoutStyle, area: Rect) -> Rect {
    let m = style.margin as int;
    Rect {
        x: (area.x + (if m > area.width {
            area.width as int
        } else {
            m
        })) as u16,
        y: (area.y + (if m > area.height {
            area.height as int
        } else {
            m
        })) as u16,
        width: if area.width >= 2 * m {
            (area.width - 2 * m) as u16
        } else {
            0u16
        },
        height: if area.height >= 2 * m {
            (area.height - 2 * m) as u16
        } else {
            0u16
        },
    }
}

/// The inner area lies inside the area it was cut from, and keeps its
/// edges representable.
pub proof fn lemma_inner_area_within(style: LayoutStyle, area: Rect)
    requires
        area.x + area.width <= 0xFFFF,
        area.y + area.height <= 0xFFFF,
    ensures
        rect_within(spec_inner_area(style, area), area),
        spec_inner_area(style, area).x + spec_inner_area(style, area).width <= 0xFFFF,
        spec_inner_area(style, area).y + spec_inner_area(style, area).height <= 0xFFFF,
{
}

impl Default for LayoutStyle {
    /// A vertical flow justified at the start, without gap or margin,
    /// filling the available space in both directions.
    fn default() -> (r: LayoutStyle)
        ensures
            r == (LayoutStyle {
                flex_direction: Direction::Vertical,
                justify_content: Flex::Start,
                gap: 0u16,
                margin: 0u16,
                width: Constraint::Fill(1u16),
                height: Constraint::Fill(1u16),
            }),
    {
        LayoutStyle {
            flex_direction: Direction::Vertical,
            justify_content: Flex::Start,
            gap: 0,
            margin: 0,
            width: Constraint::Fill(1),
            height: Constraint::Fill(1),
        }
    }
}

/// The cells a token asks for out of `total` available, before any
/// clamping: a percentage or ratio takes its share of `total`, bounds ask
/// for their bound, and a weighted share asks for `total` per weight
/// unit. This is the content measure used to size scrollable content.
pub open spec fn spec_content_len(c: Constraint, total: int) -> int {
    match c {
        Constraint::Length(n) => n as int,
        Constraint::Percentage(p) => total * p / 100,
        Constraint::Ratio(r, d) => if d == 0 {
            0
        } else {
            total * r / (d as int)
        },
        Constraint::Min(m) => m as int,
        Constraint::Max(m) => m as int,
        Constraint::Fill(f) => total * f,
    }
}

/// The content measure, computed exactly.
pub fn resolve_content(c: &Constraint, total: u16) -> (r: u64)
    ensures
        r == spec_content_len(*c, total as int),
{
    proof {
        lemma_u16_u32_products_fit(total);
    }
    match c {
        Constraint::Length(n) => *n as u64,
        Constraint::Percentage(p) => (total as u64 * *p as u64) / 100,
        Constraint::Ratio(r, d) => if *d == 0 {
            0
        } else {
            (total as u64 * *r as u64) / *d as u64
        },
        Constraint::Min(m) => *m as u64,
        Constraint::Max(m) => *m as u64,
        Constraint::Fill(f) => total as u64 * *f as u64,
    }
}

/// Any product of `total` with a 32-bit factor fits in 64 bits.
proof fn lemma_u16_u32_products_fit(total: u16)
    ensures
        forall|b: int| 0 <= b <= u32::MAX ==> #[trigger] (total as int * b) <= 0xFFFF_FFFF_FFFF,
{
    assert forall|b: int| 0 <= b <= u32::MAX implies #[trigger] (total as int * b)
        <= 0xFFFF_FFFF_FFFF by {
        assert(total as int * b <= 0xFFFF * b) by (nonlinear_arith)
            requires
                0 <= total as int <= 0xFFFF,
                b >= 0,
        ;
        assert(0xFFFF * b <= 0xFFFF * 0xFFFF_FFFF) by (nonlinear_arith)
            requires
                0 <= b <= 0xFFFF_FFFF,
        ;
    }
}

/// The main-axis cells a non-`Fill` token is granted when `total` cells
/// are available: its content measure, clamped into the area. A `Fill`
/// token is granted nothing here; it shares the leftover instead.
pub open spec fn spec_fixed_len(c: Constraint, total: int) -> int {
    if c is Fill {
        0
    } else {
        let l = spec_content_len(c, total);
        if l > total {
            total
        } else {
            l
        }
    }
}

/// The main-axis grant of a non-`Fill` token, computed exactly.
pub fn resolve_fixed(c: &Constraint, total: u16) -> (r: u16)
    ensures
        r == spec_fixed_len(*c, total as int),
        r <= total,
{
    match c {
        Constraint::Fill(_) => 0,
        _ => {
            let l = resolve_content(c, total);
            if l > total as u64 {
                total
            } else {
                l as u16
            }
        },
    }
}

/// The cross-axis cells a child is granted: a lower bound and a weighted
/// share expand to the whole cross extent, everything else is its content
/// measure clamped into the extent.
pub open spec fn spec_cross_len(c: Constraint, total: int) -> int {
    match c {
        Constraint::Min(_) => total,
        Constraint::Fill(_) => total,
        _ => spec_fixed_len(c, total),
    }
}

/// The cross-axis grant, computed exactly.
pub fn resolve_cross(c: &Constraint, total: u16) -> (r: u16)
    ensures
        r == spec_cross_len(*c, total as int),
        r <= total,
{
    match c {
        Constraint::Min(_) => total,
        Constraint::Fill(_) => total,
        _ => resolve_fixed(c, total),
    }
}

} // verus!

use vstd::prelude::*;

verus! {

/// The sum of a sequence of integers.
pub open spec fn sum_ints(s: Seq<int>) -> int
    decreases s.len(),
{
    if s.len() == 0 {
        0
    } else {
        sum_ints(s.drop_last()) + s.last()
    }
}

/// One more element extends the sum by that element.
pub proof fn lemma_sum_take_step(s: Seq<int>, i: int)
    requires
        0 <= i < s.len(),
    ensures
        sum_ints(s.take(i + 1)) == sum_ints(s.take(i)) + s[i],
{
    assert(s.take(i + 1).drop_last() =~= s.take(i));
    assert(s.take(i + 1).last() == s[i]);
}

/// A sequence of non-negative values has a non-negative sum.
pub proof fn lemma_sum_nonneg(s: Seq<int>)
    requires
        forall|i: int| 0 <= i < s.len() ==> s[i] >= 0,
    ensures
        sum_ints(s) >= 0,
    decreases s.len(),
{
    if s.len() > 0 {
        lemma_sum_nonneg(s.drop_last());
    }
}

/// The cells spent on gaps between `n` children.
pub open spec fn spec_gap_total(n: int, gap: int) -> int {
    if n <= 1 {
        0
    } else {
        (n - 1) * gap
    }
}

/// The main-axis grants of the non-`Fill` tokens, position by position.
pub open spec fn spec_fixed_seq(cs: Seq<Constraint>, total: int) -> Seq<int> {
    Seq::new(cs.len(), |i: int| spec_fixed_len(cs[i], total))
}

/// The weight a token puts into the leftover share.
pub open spec fn spec_weight(c: Constraint) -> int {
    match c {
        Constraint::Fill(f) => f as int,
        _ => 0,
    }
}

/// The leftover weights, position by position.
pub open spec fn spec_weight_seq(cs: Seq<Constraint>) -> Seq<int> {
    Seq::new(cs.len(), |i: int| spec_weight(cs[i]))
}

/// The cells left for the `Fill` tokens once gaps and fixed grants are
/// taken out of `total`.
pub open spec fn spec_leftover(cs: Seq<Constraint>, total: int, gap: int) -> int {
    let rest = total - spec_gap_total(cs.len() as int, gap) - sum_ints(spec_fixed_seq(cs, total));
    if rest < 0 {
        0
    } else {
        rest
    }
}

/// The main-axis cells granted to every token: non-`Fill` tokens take
/// their clamped content measure, `Fill` tokens split the leftover in
/// proportion to their weights.
pub open spec fn spec_main_sizes(cs: Seq<Constraint>, total: int, gap: int) -> Seq<int> {
    let leftover = spec_leftover(cs, total, gap);
    let wsum = sum_ints(spec_weight_seq(cs));
    Seq::new(
        cs.len(),
        |i: int|
            match cs[i] {
                Constraint::Fill(f) => if wsum == 0 {
                    0
                } else {
                    let share = leftover * f / wsum;
                    if share > total {
                        total
                    } else {
                        share
                    }
                },
                _ => spec_fixed_len(cs[i], total),
            },
    )
}

/// The cells still free after gaps and every grant; justification
/// distributes them.
pub open spec fn spec_free(cs: Seq<Constraint>, total: int, gap: int) -> int {
    let rest = total - spec_gap_total(cs.len() as int, gap) - sum_ints(
        spec_main_sizes(cs, total, gap),
    );
    if rest < 0 {
        0
    } else {
        rest
    }
}

/// Where the first child starts, by justification.
pub open spec fn spec_justify_offset(flex: Flex, free: int, n: int) -> int {
    match flex {
        Flex::Start => 0,
        Flex::SpaceBetween => 0,
        Flex::Center => free / 2,
        Flex::End => free,
        Flex::SpaceAround => if n == 0 {
            0
        } else {
            free / (2 * n)
        },
    }
}

/// The extra cells justification adds to every gap.
pub open spec fn spec_justify_extra(flex: Flex, free: int, n: int) -> int {
    match flex {
        Flex::SpaceBetween => if n >= 2 {
            free / (n - 1)
        } else {
            0
        },
        Flex::SpaceAround => if n == 0 {
            0
        } else {
            free / n
        },
        _ => 0,
    }
}

/// Where child `i` starts along the main axis, measured from the start of
/// the area: children are laid out in order, each taking its grant
/// clamped to the space that is left, with an effective gap in between;
/// every start is clamped into the area.
pub open spec fn spec_start_at(sizes: Seq<int>, geff: int, off: int, total: int, i: int) -> int
    decreases i, 0int,
{
    if i <= 0 {
        if off > total {
            total
        } else {
            off
        }
    } else {
        let p = spec_start_at(sizes, geff, off, total, i - 1);
        let l = spec_len_at(sizes, geff, off, total, i - 1);
        let q = p + l + geff;
        if q > total {
            total
        } else {
            q
        }
    }
}

/// The cells child `i` is granted once placed: its size clamped to what
/// remains of the area.
pub open spec fn spec_len_at(sizes: Seq<int>, geff: int, off: int, total: int, i: int) -> int
    decreases i, 1int,
{
    let p = spec_start_at(sizes, geff, off, total, i);
    if sizes[i] > total - p {
        total - p
    } else {
        sizes[i]
    }
}

/// Every start lies inside the area.
pub proof fn lemma_start_bounds(sizes: Seq<int>, geff: int, off: int, total: int, i: int)
    requires
        0 <= off,
        0 <= geff,
        0 <= total,
        0 <= i <= sizes.len(),
        forall|j: int| 0 <= j < i ==> sizes[j] >= 0,
    ensures
        0 <= spec_start_at(sizes, geff, off, total, i) <= total,
        i < sizes.len() && sizes[i] >= 0 ==> 0 <= spec_len_at(sizes, geff, off, total, i)
            <= total - spec_start_at(sizes, geff, off, total, i),
    decreases i,
{
    if i > 0 {
        lemma_start_bounds(sizes, geff, off, total, i - 1);
    }
}

/// The main-axis intervals, start and length for every child.
pub open spec fn spec_main_intervals(cs: Seq<Constraint>, total: int, gap: int, flex: Flex) -> Seq<
    (int, int),
> {
    let sizes = spec_main_sizes(cs, total, gap);
    let n = cs.len() as int;
    let free = spec_free(cs, total, gap);
    let off = spec_justify_offset(flex, free, n);
    let geff = gap + spec_justify_extra(flex, free, n);
    Seq::new(
        cs.len(),
        |i: int|
            (
                spec_start_at(sizes, geff, off, total, i),
                spec_len_at(sizes, geff, off, total, i),
            ),
    )
}

} // verus!

verus! {

/// A product of two 16-bit quantities stays under `2^32`.
proof fn lemma_mul_u16_bound(a: int, b: int)
    requires
        0 <= a <= 0xFFFF,
        0 <= b <= 0xFFFF,
    ensures
        0 <= a * b < 0x1_0000_0000,
{
    assert(0 <= a * b && a * b <= 0xFFFF * 0xFFFF) by (nonlinear_arith)
        requires
            0 <= a <= 0xFFFF,
            0 <= b <= 0xFFFF,
    ;
}

/// Dividing a value by something larger yields zero.
proof fn lemma_div_small(x: int, d: int)
    requires
        0 <= x < d,
    ensures
        x / d == 0,
{
    assert(x / d == 0) by (nonlinear_arith)
        requires
            0 <= x < d,
    ;
}

/// A token's content measure is non-negative, and the clamped grants stay
/// inside the area.
pub proof fn lemma_resolve_bounds(c: Constraint, total: int)
    requires
        total >= 0,
    ensures
        spec_content_len(c, total) >= 0,
        0 <= spec_fixed_len(c, total) <= total,
        0 <= spec_cross_len(c, total) <= total,
{
    match c {
        Constraint::Percentage(p) => {
            assert(total * p >= 0) by (nonlinear_arith)
                requires
                    total >= 0,
                    p >= 0,
            ;
            assert(total * p / 100 >= 0);
        },
        Constraint::Ratio(r, d) => {
            if d != 0 {
                assert(total * r >= 0) by (nonlinear_arith)
                    requires
                        total >= 0,
                        r >= 0,
                ;
                assert(total * r / (d as int) >= 0) by (nonlinear_arith)
                    requires
                        total * r >= 0,
                        d > 0,
                ;
            }
        },
        Constraint::Fill(f) => {
            assert(total * f >= 0) by (nonlinear_arith)
                requires
                    total >= 0,
                    f >= 0,
            ;
        },
        _ => {},
    }
}

/// Extending a row of children by one more extends the gap budget by one
/// gap.
proof fn lemma_gap_step(i: int, gap: int)
    requires
        i >= 0,
    ensures
        spec_gap_total(i + 1, gap) == spec_gap_total(i, gap) + (if i >= 1 {
            gap
        } else {
            0
        }),
{
    if i >= 2 {
        assert(i * gap == (i - 1) * gap + gap) by (nonlinear_arith);
    }
}

/// The main-axis grants, computed exactly: one length per token, each
/// inside the area.
pub fn resolve_main_sizes(cs: &Vec<Constraint>, total: u16, gap: u16) -> (r: Vec<u16>)
    ensures
        r@.len() == cs@.len(),
        forall|i: int|
            0 <= i < cs@.len() ==> r@[i] as int == spec_main_sizes(cs@, total as int, gap as int)[i]
                && r@[i] <= total,
{
    let ghost fseq = spec_fixed_seq(cs@, total as int);
    let ghost wseq = spec_weight_seq(cs@);
    let n = cs.len();

    // Fixed grants plus gaps, saturated just above any possible area, and
    // the leftover weights, saturated just above any possible weight sum
    // that matters.
    let mut used: u64 = 0;
    let mut wacc: u64 = 0;
    let mut i: usize = 0;
    #[verifier::loop_isolation(false)]
    while i < n
        invariant
            0 <= i <= n,
            ({
                let s = sum_ints(fseq.take(i as int)) + spec_gap_total(i as int, gap as int);
                used == if s >= 0x10000 {
                    0x10000int
                } else {
                    s
                }
            }),
            ({
                let w = sum_ints(wseq.take(i as int));
                wacc == if w >= 0x1_0000_0000 {
                    0x1_0000_0000int
                } else {
                    w
                }
            }),
        decreases n - i,
    {
        proof {
            lemma_resolve_bounds(cs@[i as int], total as int);
            lemma_sum_take_step(fseq, i as int);
            lemma_sum_take_step(wseq, i as int);
            lemma_gap_step(i as int, gap as int);
            lemma_sum_nonneg(fseq.take(i as int));
            lemma_sum_nonneg(wseq.take(i as int));
        }
        let add_gap: u64 = if i >= 1 {
            gap as u64
        } else {
            0
        };
        let f = resolve_fixed(&cs[i], total);
        let step = used + f as u64 + add_gap;
        used = if step >= 0x10000 {
            0x10000
        } else {
            step
        };
        let w: u64 = match cs[i] {
            Constraint::Fill(fw) => fw as u64,
            _ => 0,
        };
        let wstep = wacc + w;
        wacc = if wstep >= 0x1_0000_0000 {
            0x1_0000_0000
        } else {
            wstep
        };
        i = i + 1;
    }
    proof {
        assert(fseq.take(n as int) =~= fseq);
        assert(wseq.take(n as int) =~= wseq);
    }
    let leftover: u16 = if (total as u64) > used {
        total - used as u16
    } else {
        0
    };
    assert(leftover as int == spec_leftover(cs@, total as int, gap as int));

    let mut r: Vec<u16> = Vec::new();
    let mut i: usize = 0;
    #[verifier::loop_isolation(false)]
    while i < n
        invariant
            0 <= i <= n,
            r@.len() == i,
            forall|j: int|
                0 <= j < i ==> r@[j] as int == spec_main_sizes(cs@, total as int, gap as int)[j]
                    && r@[j] <= total,
        decreases n - i,
    {
        proof {
            lemma_sum_nonneg(wseq);
            assert(wseq.take(n as int) =~= wseq);
        }
        let size: u16 = match cs[i] {
            Constraint::Fill(f) => {
                if wacc == 0 {
                    0
                } else {
                    proof {
                        lemma_mul_u16_bound(leftover as int, f as int);
                        if sum_ints(wseq) >= 0x1_0000_0000 {
                            lemma_div_small(leftover as int * f as int, sum_ints(wseq));
                            lemma_div_small(leftover as int * f as int, 0x1_0000_0000);
                        }
                    }
                    let x = leftover as u64 * f as u64;
                    let s = x / wacc;
                    if s > total as u64 {
                        total
                    } else {
                        s as u16
                    }
                }
            },
            _ => resolve_fixed(&cs[i], total),
        };
        r.push(size);
        i = i + 1;
    }
    r
}

} // verus!

verus! {

/// Every main-axis grant lies inside the area.
pub proof fn lemma_main_sizes_bounds(cs: Seq<Constraint>, total: int, gap: int, i: int)
    requires
        total >= 0,
        0 <= i < cs.len(),
    ensures
        0 <= spec_main_sizes(cs, total, gap)[i] <= total,
{
    match cs[i] {
        Constraint::Fill(f) => {
            let leftover = spec_leftover(cs, total, gap);
            let wsum = sum_ints(spec_weight_seq(cs));
            if wsum != 0 {
                lemma_sum_nonneg(spec_weight_seq(cs));
                assert(leftover * f >= 0) by (nonlinear_arith)
                    requires
                        leftover >= 0,
                        f >= 0,
                ;
                assert(leftover * f / wsum >= 0) by (nonlinear_arith)
                    requires
                        leftover * f >= 0,
                        wsum > 0,
                ;
            }
        },
        _ => {
            lemma_resolve_bounds(cs[i], total);
        },
    }
}

/// An area whose right and bottom edges are representable.
pub open spec fn rect_wf(r: Rect) -> bool {
    r.x + r.width <= 0xFFFF && r.y + r.height <= 0xFFFF
}

/// The main-axis intervals for a row of tokens, computed exactly; every
/// interval lies inside the area.
pub fn split_main(cs: &Vec<Constraint>, total: u16, gap: u16, flex: Flex) -> (r: Vec<(u16, u16)>)
    ensures
        r@.len() == cs@.len(),
        forall|i: int|
            0 <= i < cs@.len() ==> {
                let iv = spec_main_intervals(cs@, total as int, gap as int, flex)[i];
                (#[trigger] r@[i]).0 as int == iv.0 && r@[i].1 as int == iv.1 && r@[i].0 as int
                    + r@[i].1 as int <= total
            },
{
    let ghost mseq = spec_main_sizes(cs@, total as int, gap as int);
    let n = cs.len();
    let sizes = resolve_main_sizes(cs, total, gap);

    // The grants plus gaps, saturated just above any possible area.
    let mut used: u64 = 0;
    let mut i: usize = 0;
    #[verifier::loop_isolation(false)]
    while i < n
        invariant
            0 <= i <= n,
            ({
                let s = sum_ints(mseq.take(i as int)) + spec_gap_total(i as int, gap as int);
                used == if s >= 0x10000 {
                    0x10000int
                } else {
                    s
                }
            }),
        decreases n - i,
    {
        proof {
            lemma_sum_take_step(mseq, i as int);
            lemma_gap_step(i as int, gap as int);
            assert forall|j: int| 0 <= j < i implies mseq.take(i as int)[j] >= 0 by {
                lemma_main_sizes_bounds(cs@, total as int, gap as int, j);
            }
            lemma_sum_nonneg(mseq.take(i as int));
        }
        let add_gap: u64 = if i >= 1 {
            gap as u64
        } else {
            0
        };
        let step = used + sizes[i] as u64 + add_gap;
        used = if step >= 0x10000 {
            0x10000
        } else {
            step
        };
        i = i + 1;
    }
    proof {
        assert(mseq.take(n as int) =~= mseq);
    }
    let free: u16 = if (total as u64) > used {
        total - used as u16
    } else {
        0
    };
    assert(free as int == spec_free(cs@, total as int, gap as int));

    let off: u16 = match flex {
        Flex::Start => 0,
        Flex::SpaceBetween => 0,
        Flex::Center => free / 2,
        Flex::End => free,
        Flex::SpaceAround => {
            if n == 0 {
                0
            } else if n >= 0x10000 {
                proof {
                    lemma_div_small(free as int, 2 * n as int);
                }
                0
            } else {
                (free as u64 / (2 * n as u64)) as u16
            }
        },
    };
    let extra: u16 = match flex {
        Flex::SpaceBetween => {
            if n < 2 {
                0
            } else if n - 1 >= 0x10000 {
                proof {
                    lemma_div_small(free as int, n as int - 1);
                }
                0
            } else {
                (free as u64 / (n as u64 - 1)) as u16
            }
        },
        Flex::SpaceAround => {
            if n == 0 {
                0
            } else if n >= 0x10000 {
                proof {
                    lemma_div_small(free as int, n as int);
                }
                0
            } else {
                (free as u64 / n as u64) as u16
            }
        },
        _ => 0,
    };
    proof {
        assert(off as int == spec_justify_offset(
            flex,
            spec_free(cs@, total as int, gap as int),
            n as int,
        ));
        assert(extra as int == spec_justify_extra(
            flex,
            spec_free(cs@, total as int, gap as int),
            n as int,
        ));
    }
    let geff: u32 = gap as u32 + extra as u32;
    let ghost geffi = gap as int + extra as int;
    let ghost offi = off as int;

    let mut r: Vec<(u16, u16)> = Vec::new();
    let mut cur: u16 = if off > total {
        total
    } else {
        off
    };
    let mut i: usize = 0;
    #[verifier::loop_isolation(false)]
    while i < n
        invariant
            0 <= i <= n,
            r@.len() == i,
            cur <= total,
            cur as int == spec_start_at(mseq, geffi, offi, total as int, i as int),
            forall|j: int|
                0 <= j < i ==> {
                    let iv = spec_main_intervals(cs@, total as int, gap as int, flex)[j];
                    (#[trigger] r@[j]).0 as int == iv.0 && r@[j].1 as int == iv.1 && r@[j].0 as int
                        + r@[j].1 as int <= total
                },
        decreases n - i,
    {
        let sz = sizes[i];
        let l: u16 = if sz > total - cur {
            total - cur
        } else {
            sz
        };
        proof {
            assert(l as int == spec_len_at(mseq, geffi, offi, total as int, i as int));
        }
        r.push((cur, l));
        let q: u32 = cur as u32 + l as u32 + geff;
        cur = if q > total as u32 {
            total
        } else {
            q as u16
        };
        i = i + 1;
    }
    r
}

/// The draw regions a parent's area splits into: each child takes its
/// main-axis interval and the parent's whole cross extent.
pub open spec fn spec_split_areas(
    area: Rect,
    dir: Direction,
    flex: Flex,
    gap: int,
    cs: Seq<Constraint>,
) -> Seq<Rect> {
    let total = if dir is Horizontal {
        area.width as int
    } else {
        area.height as int
    };
    let ivs = spec_main_intervals(cs, total, gap, flex);
    Seq::new(
        cs.len(),
        |i: int|
            match dir {
                Direction::Horizontal => Rect {
                    x: (area.x + ivs[i].0) as u16,
                    y: area.y,
                    width: ivs[i].1 as u16,
                    height: area.height,
                },
                Direction::Vertical => Rect {
                    x: area.x,
                    y: (area.y + ivs[i].0) as u16,
                    width: area.width,
                    height: ivs[i].1 as u16,
                },
            },
    )
}

/// Splits `area` along `dir` into one region per token.
pub fn split_areas(
    area: Rect,
    dir: Direction,
    flex: Flex,
    gap: u16,
    cs: &Vec<Constraint>,
) -> (r: Vec<Rect>)
    requires
        rect_wf(area),
    ensures
        r@ == spec_split_areas(area, dir, flex, gap as int, cs@),
        r@.len() == cs@.len(),
        forall|i: int| 0 <= i < r@.len() ==> rect_within(#[trigger] r@[i], area) && rect_wf(r@[i]),
{
    let total: u16 = match dir {
        Direction::Horizontal => area.width,
        Direction::Vertical => area.height,
    };
    let ivs = split_main(cs, total, gap, flex);
    let n = cs.len();
    let mut r: Vec<Rect> = Vec::new();
    let mut i: usize = 0;
    #[verifier::loop_isolation(false)]
    while i < n
        invariant
            0 <= i <= n,
            r@.len() == i,
            forall|j: int|
                0 <= j < i ==> r@[j] == spec_split_areas(area, dir, flex, gap as int, cs@)[j]
                    && rect_within(#[trigger] r@[j], area) && rect_wf(r@[j]),
        decreases n - i,
    {
        let (start, len) = ivs[i];
        let rect = match dir {
            Direction::Horizontal => Rect {
                x: area.x + start,
                y: area.y,
                width: len,
                height: area.height,
            },
            Direction::Vertical => Rect {
                x: area.x,
                y: area.y + start,
                width: area.width,
                height: len,
            },
        };
        r.push(rect);
        i = i + 1;
    }
    proof {
        assert(r@ =~= spec_split_areas(area, dir, flex, gap as int, cs@));
    }
    r
}

/// The concrete regions of a parent's children: the main axis is split by
/// the children's main-axis tokens under the parent's direction, gap and
/// justification; each child's cross extent then comes from its own
/// cross-axis token.
pub open spec fn spec_children_areas(
    area: Rect,
    style: LayoutStyle,
    main_cs: Seq<Constraint>,
    cross_cs: Seq<Constraint>,
) -> Seq<Rect> {
    let base = spec_split_areas(
        area,
        style.flex_direction,
        style.justify_content,
        style.gap as int,
        main_cs,
    );
    Seq::new(
        main_cs.len(),
        |i: int|
            match style.flex_direction {
                Direction::Horizontal => Rect {
                    x: base[i].x,
                    y: base[i].y,
                    width: base[i].width,
                    height: spec_cross_len(cross_cs[i], area.height as int) as u16,
                },
                Direction::Vertical => Rect {
                    x: base[i].x,
                    y: base[i].y,
                    width: spec_cross_len(cross_cs[i], area.width as int) as u16,
                    height: base[i].height,
                },
            },
    )
}

/// Computes the children's draw regions, exactly as
/// [`spec_children_areas`] states them; every region lies inside `area`.
pub fn calc_children_areas(
    area: Rect,
    style: &LayoutStyle,
    main_cs: &Vec<Constraint>,
    cross_cs: &Vec<Constraint>,
) -> (r: Vec<Rect>)
    requires
        rect_wf(area),
        main_cs@.len() == cross_cs@.len(),
    ensures
        r@ == spec_children_areas(area, *style, main_cs@, cross_cs@),
        r@.len() == main_cs@.len(),
        forall|i: int| 0 <= i < r@.len() ==> rect_within(#[trigger] r@[i], area) && rect_wf(r@[i]),
{
    let mut base = split_areas(
        area,
        style.flex_direction,
        style.justify_content,
        style.gap,
        main_cs,
    );
    let n = base.len();
    let mut r: Vec<Rect> = Vec::new();
    let mut i: usize = 0;
    #[verifier::loop_isolation(false)]
    while i < n
        invariant
            0 <= i <= n,
            r@.len() == i,
            forall|j: int|
                0 <= j < i ==> r@[j] == spec_children_areas(area, *style, main_cs@, cross_cs@)[j]
                    && rect_within(#[trigger] r@[j], area) && rect_wf(r@[j]),
        decreases n - i,
    {
        proof {
            lemma_resolve_bounds(cross_cs@[i as int], area.width as int);
            lemma_resolve_bounds(cross_cs@[i as int], area.height as int);
        }
        let b = base[i];
        let rect = match style.flex_direction {
            Direction::Horizontal => Rect {
                x: b.x,
                y: b.y,
                width: b.width,
                height: resolve_cross(&cross_cs[i], area.height),
            },
            Direction::Vertical => Rect {
                x: b.x,
                y: b.y,
                width: resolve_cross(&cross_cs[i], area.width),
                height: b.height,
            },
        };
        r.push(rect);
        i = i + 1;
    }
    proof {
        assert(r@ =~= spec_children_areas(area, *style, main_cs@, cross_cs@));
    }
    r
}

} // verus!

verus! {

/// One token's contribution to the content measure, capped at the largest
/// representable extent.
pub open spec fn spec_item_content(c: Constraint, total: int) -> int {
    let l = spec_content_len(c, total);
    if l > 0xFFFF {
        0xFFFF
    } else {
        l
    }
}

/// The capped content contributions, position by position.
pub open spec fn spec_content_seq(cs: Seq<Constraint>, total: int) -> Seq<int> {
    Seq::new(cs.len(), |i: int| spec_item_content(cs[i], total))
}

/// The largest value in a sequence, or `0` for an empty one.
pub open spec fn max_ints(s: Seq<int>) -> int
    decreases s.len(),
{
    if s.len() == 0 {
        0
    } else {
        let rest = max_ints(s.drop_last());
        if s.last() > rest {
            s.last()
        } else {
            rest
        }
    }
}

/// One more element extends the maximum.
pub proof fn lemma_max_take_step(s: Seq<int>, i: int)
    requires
        0 <= i < s.len(),
    ensures
        max_ints(s.take(i + 1)) == if s[i] > max_ints(s.take(i)) {
            s[i]
        } else {
            max_ints(s.take(i))
        },
{
    assert(s.take(i + 1).drop_last() =~= s.take(i));
    assert(s.take(i + 1).last() == s[i]);
}

/// The cells content asks for along one axis: the sum of the tokens'
/// content measures plus the gaps, capped at the largest representable
/// extent.
pub open spec fn spec_content_main(cs: Seq<Constraint>, total: int, gap: int) -> int {
    let s = sum_ints(spec_content_seq(cs, total)) + spec_gap_total(cs.len() as int, gap);
    if s > 0xFFFF {
        0xFFFF
    } else {
        s
    }
}

/// The cells content asks for across the flow: the largest single
/// content measure.
pub open spec fn spec_content_cross(cs: Seq<Constraint>, total: int) -> int {
    max_ints(spec_content_seq(cs, total))
}

/// Measures scrollable content: how many cells the children would take
/// along the main axis (their content measures summed, with gaps) and
/// across it (the largest single measure), given the visible area's
/// extent on each axis.
pub fn content_size(
    main_cs: &Vec<Constraint>,
    cross_cs: &Vec<Constraint>,
    main_total: u16,
    cross_total: u16,
    gap: u16,
) -> (r: (u16, u16))
    ensures
        r.0 as int == spec_content_main(main_cs@, main_total as int, gap as int),
        r.1 as int == spec_content_cross(cross_cs@, cross_total as int),
{
    let ghost cm = spec_content_seq(main_cs@, main_total as int);
    let ghost cc = spec_content_seq(cross_cs@, cross_total as int);
    let n = main_cs.len();
    let mut acc: u64 = 0;
    let mut i: usize = 0;
    #[verifier::loop_isolation(false)]
    while i < n
        invariant
            0 <= i <= n,
            ({
                let s = sum_ints(cm.take(i as int)) + spec_gap_total(i as int, gap as int);
                acc == if s >= 0x10000 {
                    0x10000int
                } else {
                    s
                }
            }),
        decreases n - i,
    {
        proof {
            lemma_sum_take_step(cm, i as int);
            lemma_gap_step(i as int, gap as int);
            lemma_resolve_bounds(main_cs@[i as int], main_total as int);
            assert forall|j: int| 0 <= j < i implies cm.take(i as int)[j] >= 0 by {
                lemma_resolve_bounds(main_cs@[j], main_total as int);
            }
            lemma_sum_nonneg(cm.take(i as int));
        }
        let c = resolve_content(&main_cs[i], main_total);
        let item: u64 = if c > 0xFFFF {
            0xFFFF
        } else {
            c
        };
        let add_gap: u64 = if i >= 1 {
            gap as u64
        } else {
            0
        };
        let step = acc + item + add_gap;
        acc = if step >= 0x10000 {
            0x10000
        } else {
            step
        };
        i = i + 1;
    }
    proof {
        assert(cm.take(n as int) =~= cm);
    }
    let main_len: u16 = if acc > 0xFFFF {
        0xFFFF
    } else {
        acc as u16
    };

    let m = cross_cs.len();
    let mut best: u16 = 0;
    let mut i: usize = 0;
    #[verifier::loop_isolation(false)]
    while i < m
        invariant
            0 <= i <= m,
            best as int == max_ints(cc.take(i as int)),
        decreases m - i,
    {
        proof {
            lemma_max_take_step(cc, i as int);
            lemma_resolve_bounds(cross_cs@[i as int], cross_total as int);
        }
        let c = resolve_content(&cross_cs[i], cross_total);
        let item: u16 = if c > 0xFFFF {
            0xFFFF
        } else {
            c as u16
        };
        if item > best {
            best = item;
        }
        i = i + 1;
    }
    proof {
        assert(cc.take(m as int) =~= cc);
    }
    (main_len, best)
}

/// When a scrollbar shows on one axis.
#[derive(Clone, Copy, Debug, PartialEq, Eq, Structural)]
pub enum ScrollbarVisibility {
    /// Show the bar exactly when the content overflows the area.
    Automatic,
    Always,
    Never,
}

/// The scrollbar policy of a scrollable view, one axis each.
#[derive(Clone, Copy, Debug, PartialEq, Eq, Structural)]
pub struct ScrollBars {
    pub horizontal: ScrollbarVisibility,
    pub vertical: ScrollbarVisibility,
}

impl Default for ScrollBars {
    /// Both bars appear only when their axis overflows.
    fn default() -> (r: ScrollBars)
        ensures
            r == (ScrollBars {
                horizontal: ScrollbarVisibility::Automatic,
                vertical: ScrollbarVisibility::Automatic,
            }),
    {
        ScrollBars {
            horizontal: ScrollbarVisibility::Automatic,
            vertical: ScrollbarVisibility::Automatic,
        }
    }
}

/// Whether one bar shows, from its policy and the spare cells on its
/// axis (visible extent minus content extent, plus one).
pub open spec fn spec_bar_visible(v: ScrollbarVisibility, space: int) -> bool {
    match v {
        ScrollbarVisibility::Automatic => space <= 0,
        ScrollbarVisibility::Always => true,
        ScrollbarVisibility::Never => false,
    }
}

impl ScrollBars {
    /// Which bars show, given the spare cells on each axis.
    pub fn visible_scrollbars(&self, horizontal_space: i32, vertical_space: i32) -> (r: (
        bool,
        bool,
    ))
        ensures
            r.0 == spec_bar_visible(self.horizontal, horizontal_space as int),
            r.1 == spec_bar_visible(self.vertical, vertical_space as int),
    {
        let h = match self.horizontal {
            ScrollbarVisibility::Automatic => horizontal_space <= 0,
            ScrollbarVisibility::Always => true,
            ScrollbarVisibility::Never => false,
        };
        let v = match self.vertical {
            ScrollbarVisibility::Automatic => vertical_space <= 0,
            ScrollbarVisibility::Always => true,
            ScrollbarVisibility::Never => false,
        };
        (h, v)
    }
}

/// The scroll position of a scrollable view, clamped to its content.
#[derive(Clone, Copy, Debug, PartialEq, Eq, Structural)]
pub struct ScrollViewState {
    pub offset_x: u16,
    pub offset_y: u16,
}

impl Default for ScrollViewState {
    /// The unscrolled position.
    fn default() -> (r: ScrollViewState)
        ensures
            r == (ScrollViewState { offset_x: 0u16, offset_y: 0u16 }),
    {
        ScrollViewState { offset_x: 0, offset_y: 0 }
    }
}

impl ScrollViewState {
    /// Moves the position by one step on each axis, holding it inside
    /// `[0, max_x] x [0, max_y]`.
    pub fn scroll_by(&self, dx: i32, dy: i32, max_x: u16, max_y: u16) -> (r: ScrollViewState)
        ensures
            r.offset_x as int == clamp_int(self.offset_x + dx, 0, max_x as int),
            r.offset_y as int == clamp_int(self.offset_y + dy, 0, max_y as int),
    {
        let x = clamp_offset(self.offset_x, dx, max_x);
        let y = clamp_offset(self.offset_y, dy, max_y);
        ScrollViewState { offset_x: x, offset_y: y }
    }
}

/// `v` held inside `[lo, hi]`.
pub open spec fn clamp_int(v: int, lo: int, hi: int) -> int {
    if v < lo {
        lo
    } else if v > hi {
        hi
    } else {
        v
    }
}

/// One clamped scroll step along one axis.
pub fn clamp_offset(offset: u16, delta: i32, max: u16) -> (r: u16)
    ensures
        r as int == clamp_int(offset + delta, 0, max as int),
{
    let v: i64 = offset as i64 + delta as i64;
    if v < 0 {
        0
    } else if v > max as i64 {
        max
    } else {
        v as u16
    }
}

} // verus!

verus! {

/// What a scrollable container computed for one draw: the canvas its
/// content needs, which scrollbars show, and the children's regions on
/// that canvas.
pub struct ScrollPlan {
    /// The canvas the children paint into, anchored at the origin and
    /// sized to the content.
    pub content: Rect,
    /// Whether the horizontal bar takes the bottom row.
    pub horizontal_bar: bool,
    /// Whether the vertical bar takes the rightmost column.
    pub vertical_bar: bool,
    /// One region per child, on the canvas.
    pub areas: Vec<Rect>,
}

/// The cells the content wants in each direction inside `area`: the
/// main-axis tokens summed (with gaps) along the flow, the largest
/// cross-axis token across it.
pub open spec fn spec_scroll_content(
    area: Rect,
    style: LayoutStyle,
    main_cs: Seq<Constraint>,
    cross_cs: Seq<Constraint>,
) -> (int, int) {
    match style.flex_direction {
        Direction::Horizontal => (
            spec_content_main(main_cs, area.width as int, style.gap as int),
            spec_content_cross(cross_cs, area.height as int),
        ),
        Direction::Vertical => (
            spec_content_cross(cross_cs, area.width as int),
            spec_content_main(main_cs, area.height as int, style.gap as int),
        ),
    }
}

/// Every child's content measure, frozen into a fixed-size token.
pub open spec fn spec_frozen_tokens(cs: Seq<Constraint>, total: int) -> Seq<Constraint> {
    Seq::new(cs.len(), |i: int| Constraint::Length(spec_item_content(cs[i], total) as u16))
}

/// Freezes each token to its content measure, computed exactly.
pub fn freeze_tokens(cs: &Vec<Constraint>, total: u16) -> (r: Vec<Constraint>)
    ensures
        r@ == spec_frozen_tokens(cs@, total as int),
{
    let n = cs.len();
    let mut r: Vec<Constraint> = Vec::new();
    let mut i: usize = 0;
    #[verifier::loop_isolation(false)]
    while i < n
        invariant
            0 <= i <= n,
            r@.len() == i,
            forall|k: int| 0 <= k < i ==> #[trigger] r@[k] == spec_frozen_tokens(cs@, total as int)[k],
        decreases n - i,
    {
        proof {
            lemma_resolve_bounds(cs@[i as int], total as int);
        }
        let c = resolve_content(&cs[i], total);
        let l: u16 = if c > 0xFFFF {
            0xFFFF
        } else {
            c as u16
        };
        r.push(Constraint::Length(l));
        i = i + 1;
    }
    proof {
        assert(r@ =~= spec_frozen_tokens(cs@, total as int));
    }
    r
}

/// Lays a scrollable container out: measures the content against the
/// visible area, decides both scrollbars from the spare cells on each
/// axis (visible minus content, plus one), reserves the bottom row and
/// rightmost column for bars that show, re-measures the content against
/// what is left, and places every child on the resulting canvas by its
/// frozen content measure.
pub fn scroll_view_plan(
    area: Rect,
    style: &LayoutStyle,
    main_cs: &Vec<Constraint>,
    cross_cs: &Vec<Constraint>,
    bars: &ScrollBars,
) -> (r: ScrollPlan)
    requires
        main_cs@.len() == cross_cs@.len(),
    ensures
        ({
            let (cw, ch) = spec_scroll_content(area, *style, main_cs@, cross_cs@);
            &&& r.horizontal_bar == spec_bar_visible(bars.horizontal, area.width - cw + 1)
            &&& r.vertical_bar == spec_bar_visible(bars.vertical, area.height - ch + 1)
        }),
        ({
            let avail = spec_scroll_avail(area, spec_plan_bars(r));
            let (cw2, ch2) = spec_scroll_content(avail, *style, main_cs@, cross_cs@);
            &&& r.content == (Rect { x: 0u16, y: 0u16, width: cw2 as u16, height: ch2 as u16 })
            &&& r.areas@ == spec_children_areas(
                r.content,
                *style,
                spec_frozen_tokens(
                    main_cs@,
                    (if style.flex_direction is Horizontal {
                        avail.width as int
                    } else {
                        avail.height as int
                    }),
                ),
                spec_frozen_tokens(
                    cross_cs@,
                    (if style.flex_direction is Horizontal {
                        avail.height as int
                    } else {
                        avail.width as int
                    }),
                ),
            )
        }),
        r.areas@.len() == main_cs@.len(),
        forall|i: int|
            0 <= i < r.areas@.len() ==> rect_within(#[trigger] r.areas@[i], r.content),
{
    let (cw, ch) = match style.flex_direction {
        Direction::Horizontal => {
            let (m, c) = content_size(main_cs, cross_cs, area.width, area.height, style.gap);
            (m, c)
        },
        Direction::Vertical => {
            let (m, c) = content_size(main_cs, cross_cs, area.height, area.width, style.gap);
            (c, m)
        },
    };
    let hspace: i32 = area.width as i32 - cw as i32 + 1;
    let vspace: i32 = area.height as i32 - ch as i32 + 1;
    let (horizontal_bar, vertical_bar) = bars.visible_scrollbars(hspace, vspace);

    let avail = Rect {
        x: area.x,
        y: area.y,
        width: if vertical_bar && area.width > 0 {
            area.width - 1
        } else {
            area.width
        },
        height: if horizontal_bar && area.height > 0 {
            area.height - 1
        } else {
            area.height
        },
    };
    let (cw2, ch2) = match style.flex_direction {
        Direction::Horizontal => {
            let (m, c) = content_size(main_cs, cross_cs, avail.width, avail.height, style.gap);
            (m, c)
        },
        Direction::Vertical => {
            let (m, c) = content_size(main_cs, cross_cs, avail.height, avail.width, style.gap);
            (c, m)
        },
    };
    let content = Rect { x: 0, y: 0, width: cw2, height: ch2 };
    let (main_total, cross_total) = match style.flex_direction {
        Direction::Horizontal => (avail.width, avail.height),
        Direction::Vertical => (avail.height, avail.width),
    };
    let frozen_main = freeze_tokens(main_cs, main_total);
    let frozen_cross = freeze_tokens(cross_cs, cross_total);
    let areas = calc_children_areas(content, style, &frozen_main, &frozen_cross);
    ScrollPlan { content, horizontal_bar, vertical_bar, areas }
}

/// The visible area left once the bars a plan shows are reserved.
pub open spec fn spec_scroll_avail(area: Rect, plan_bars: (bool, bool)) -> Rect {
    Rect {
        x: area.x,
        y: area.y,
        width: if plan_bars.1 && area.width > 0 {
            (area.width - 1) as u16
        } else {
            area.width
        },
        height: if plan_bars.0 && area.height > 0 {
            (area.height - 1) as u16
        } else {
            area.height
        },
    }
}

/// The bars a plan decided on, as a pair.
pub open spec fn spec_plan_bars(r: ScrollPlan) -> (bool, bool) {
    (r.horizontal_bar, r.vertical_bar)
}

} // verus!

verus! {

/// A maximum over values inside a band stays inside it.
pub proof fn lemma_max_bounds(s: Seq<int>, cap: int)
    requires
        cap >= 0,
        forall|i: int| 0 <= i < s.len() ==> 0 <= #[trigger] s[i] <= cap,
    ensures
        0 <= max_ints(s) <= cap,
    decreases s.len(),
{
    if s.len() > 0 {
        lemma_max_bounds(s.drop_last(), cap);
    }
}

/// Content measures are sizes: non-negative and representable.
pub proof fn lemma_scroll_content_bounds(
    area: Rect,
    style: LayoutStyle,
    main_cs: Seq<Constraint>,
    cross_cs: Seq<Constraint>,
)
    ensures
        0 <= spec_scroll_content(area, style, main_cs, cross_cs).0 <= 0xFFFF,
        0 <= spec_scroll_content(area, style, main_cs, cross_cs).1 <= 0xFFFF,
{
    lemma_content_axis_bounds(main_cs, area.width as int, style.gap as int);
    lemma_content_axis_bounds(main_cs, area.height as int, style.gap as int);
    lemma_content_axis_bounds(cross_cs, area.width as int, style.gap as int);
    lemma_content_axis_bounds(cross_cs, area.height as int, style.gap as int);
}

/// Both axis measures of one token row are sizes.
pub proof fn lemma_content_axis_bounds(cs: Seq<Constraint>, total: int, gap: int)
    requires
        total >= 0,
        gap >= 0,
    ensures
        0 <= spec_content_main(cs, total, gap) <= 0xFFFF,
        0 <= spec_content_cross(cs, total) <= 0xFFFF,
{
    assert forall|i: int| 0 <= i < cs.len() implies 0 <= #[trigger] spec_content_seq(cs, total)[i]
        <= 0xFFFF by {
        lemma_resolve_bounds(cs[i], total);
    }
    lemma_sum_nonneg(spec_content_seq(cs, total));
    if cs.len() >= 2 {
        assert((cs.len() - 1) * gap >= 0) by (nonlinear_arith)
            requires
                cs.len() >= 2,
                gap >= 0,
        ;
    }
    lemma_max_bounds(spec_content_seq(cs, total), 0xFFFF);
}

} // verus!
