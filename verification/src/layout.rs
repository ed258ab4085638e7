use vstd::prelude::*;

use crate::geometry::Rect;

verus! {

/// The three tiling arrangements, cycled in declaration order.
#[derive(Clone, Copy, PartialEq, Eq, Structural, Debug)]
pub enum Layout {
    Vertical,
    Horizontal,
    Monocle,
}

/// Width of the master slot: six tenths of the screen width, rounded down.
pub open spec fn master_width(screen: Rect) -> int {
    screen.width * 3 / 5
}

/// Height of the master slot in the horizontal layout.
pub open spec fn master_height(screen: Rect) -> int {
    screen.height * 3 / 5
}

/// Height of each non-final stack slot when `n` windows tile vertically;
/// the final slot absorbs the division remainder.
pub open spec fn stack_height(screen: Rect, n: int) -> int {
    screen.height as int / (n - 1)
}

/// Width of each non-final stack slot when `n` windows tile horizontally.
pub open spec fn stack_width(screen: Rect, n: int) -> int {
    screen.width as int / (n - 1)
}

/// Slot `i` (for `1 <= i < n`) of a vertical tiling: a row of the right
/// column, stacked top to bottom, the last row taking the remainder.
pub open spec fn vertical_stack_ok(screen: Rect, n: int, i: int, r: Rect) -> bool {
    let h = stack_height(screen, n);
    &&& r.x == screen.x + master_width(screen)
    &&& r.width == screen.width - master_width(screen)
    &&& r.y == screen.y + h * (i - 1)
    &&& r.height == if i < n - 1 {
        h
    } else {
        screen.height - h * (n - 2)
    }
}

/// Slot `i` (for `1 <= i < n`) of a horizontal tiling: a column of the
/// bottom band, left to right, the last column taking the remainder.
pub open spec fn horizontal_stack_ok(screen: Rect, n: int, i: int, r: Rect) -> bool {
    let w = stack_width(screen, n);
    &&& r.y == screen.y + master_height(screen)
    &&& r.height == screen.height - master_height(screen)
    &&& r.x == screen.x + w * (i - 1)
    &&& r.width == if i < n - 1 {
        w
    } else {
        screen.width - w * (n - 2)
    }
}

/// The vertical master-stack arrangement: one window fills the screen;
/// otherwise the master takes the left column at full height and the
/// rest stack in the right column.
pub open spec fn vertical_tiling(screen: Rect, rs: Seq<Rect>) -> bool {
    let n = rs.len() as int;
    &&& n == 1 ==> rs[0] == screen
    &&& n >= 2 ==> {
        &&& rs[0].x == screen.x
        &&& rs[0].y == screen.y
        &&& rs[0].width == master_width(screen)
        &&& rs[0].height == screen.height
        &&& forall|i: int| 1 <= i < n ==> vertical_stack_ok(screen, n, i, #[trigger] rs[i])
    }
}

/// The horizontal master-stack arrangement, mirrored across the axes.
pub open spec fn horizontal_tiling(screen: Rect, rs: Seq<Rect>) -> bool {
    let n = rs.len() as int;
    &&& n == 1 ==> rs[0] == screen
    &&& n >= 2 ==> {
        &&& rs[0].x == screen.x
        &&& rs[0].y == screen.y
        &&& rs[0].width == screen.width
        &&& rs[0].height == master_height(screen)
        &&& forall|i: int| 1 <= i < n ==> horizontal_stack_ok(screen, n, i, #[trigger] rs[i])
    }
}

/// The monocle arrangement: every slot is the whole screen.
pub open spec fn monocle_tiling(screen: Rect, rs: Seq<Rect>) -> bool {
    forall|i: int| 0 <= i < rs.len() ==> #[trigger] rs[i] == screen
}

/// What `tile_windows` computes for each layout.
pub open spec fn tiling(layout: Layout, screen: Rect, rs: Seq<Rect>) -> bool {
    match layout {
        Layout::Vertical => vertical_tiling(screen, rs),
        Layout::Horizontal => horizontal_tiling(screen, rs),
        Layout::Monocle => monocle_tiling(screen, rs),
    }
}

/// Division facts for the master split: `0 <= total * 3 / 5 <= total`.
proof fn lemma_master_split(total: int)
    requires
        total >= 0,
    ensures
        0 <= total * 3 / 5 <= total,
{
    vstd::arithmetic::div_mod::lemma_div_pos_is_pos(total * 3, 5);
    vstd::arithmetic::div_mod::lemma_fundamental_div_mod(total * 3, 5);
    vstd::arithmetic::div_mod::lemma_mod_division_less_than_divisor(total * 3, 5);
}

/// Division facts for the stack split: the per-slot extent is
/// non-negative and `n - 1` of them fit inside the total.
proof fn lemma_stack_split(total: int, n: int)
    requires
        total >= 0,
        n >= 2,
    ensures
        0 <= total / (n - 1),
        (total / (n - 1)) * (n - 1) <= total,
{
    vstd::arithmetic::div_mod::lemma_div_pos_is_pos(total, n - 1);
    vstd::arithmetic::div_mod::lemma_fundamental_div_mod(total, n - 1);
    vstd::arithmetic::div_mod::lemma_mod_division_less_than_divisor(total, n - 1);
    assert((n - 1) * (total / (n - 1)) == (total / (n - 1)) * (n - 1)) by (nonlinear_arith);
}

/// Fill `rects` with the vertical master-stack arrangement for `screen`.
pub fn tile_vertical(rects: &mut Vec<Rect>, screen: Rect)
    requires
        screen.bounded(),
        old(rects)@.len() <= 0x1000_0000_0000,
    ensures
        final(rects)@.len() == old(rects)@.len(),
        vertical_tiling(screen, final(rects)@),
        forall|i: int| 0 <= i < final(rects)@.len() ==> (#[trigger] final(rects)@[i]).wf(),
{
    let n = rects.len();
    if n == 0 {
        return ;
    }
    if n == 1 {
        rects.set(0, screen);
        return ;
    }
    proof {
        lemma_master_split(screen.width as int);
        lemma_stack_split(screen.height as int, n as int);
    }
    let mw: i64 = screen.width * 3 / 5;
    let sw: i64 = screen.width - mw;
    let h: i64 = screen.height / (n as i64 - 1);
    rects.set(0, Rect { x: screen.x, y: screen.y, width: mw, height: screen.height });
    let mut ycur: i64 = screen.y;
    proof {
        assert(h * 0 == 0) by (nonlinear_arith);
    }
    for i in 1..n
        invariant
            2 <= n <= 0x1000_0000_0000,
            n == rects@.len(),
            screen.bounded(),
            mw == master_width(screen),
            0 <= mw <= screen.width,
            sw == screen.width - mw,
            h == stack_height(screen, n as int),
            h >= 0,
            h * (n - 1) <= screen.height,
            1 <= i <= n,
            ycur == screen.y + h * (i - 1),
            screen.y <= ycur <= screen.y + screen.height,
            rects@[0].x == screen.x,
            rects@[0].y == screen.y,
            rects@[0].width == mw,
            rects@[0].height == screen.height,
            forall|j: int| 1 <= j < i ==> vertical_stack_ok(screen, n as int, j, #[trigger] rects@[j]),
            forall|j: int| 0 <= j < i ==> (#[trigger] rects@[j]).wf(),
    {
        let hh: i64 = if i < n - 1 {
            h
        } else {
            screen.height - (ycur - screen.y)
        };
        rects.set(i, Rect { x: screen.x + mw, y: ycur, width: sw, height: hh });
        proof {
            assert(h * (i as int) == h * (i as int - 1) + h) by (nonlinear_arith);
            assert(h * (i as int) <= h * (n - 1)) by (nonlinear_arith)
                requires
                    h >= 0,
                    i as int <= n - 1,
            ;
        }
        ycur = ycur + h;
    }
}

/// Fill `rects` with the horizontal master-stack arrangement for `screen`.
pub fn tile_horizontal(rects: &mut Vec<Rect>, screen: Rect)
    requires
        screen.bounded(),
        old(rects)@.len() <= 0x1000_0000_0000,
    ensures
        final(rects)@.len() == old(rects)@.len(),
        horizontal_tiling(screen, final(rects)@),
        forall|i: int| 0 <= i < final(rects)@.len() ==> (#[trigger] final(rects)@[i]).wf(),
{
    let n = rects.len();
    if n == 0 {
        return ;
    }
    if n == 1 {
        rects.set(0, screen);
        return ;
    }
    proof {
        lemma_master_split(screen.height as int);
        lemma_stack_split(screen.width as int, n as int);
    }
    let mh: i64 = screen.height * 3 / 5;
    let sh: i64 = screen.height - mh;
    let w: i64 = screen.width / (n as i64 - 1);
    rects.set(0, Rect { x: screen.x, y: screen.y, width: screen.width, height: mh });
    let mut xcur: i64 = screen.x;
    proof {
        assert(w * 0 == 0) by (nonlinear_arith);
    }
    for i in 1..n
        invariant
            2 <= n <= 0x1000_0000_0000,
            n == rects@.len(),
            screen.bounded(),
            mh == master_height(screen),
            0 <= mh <= screen.height,
            sh == screen.height - mh,
            w == stack_width(screen, n as int),
            w >= 0,
            w * (n - 1) <= screen.width,
            1 <= i <= n,
            xcur == screen.x + w * (i - 1),
            screen.x <= xcur <= screen.x + screen.width,
            rects@[0].x == screen.x,
            rects@[0].y == screen.y,
            rects@[0].width == screen.width,
            rects@[0].height == mh,
            forall|j: int| 1 <= j < i ==> horizontal_stack_ok(screen, n as int, j, #[trigger] rects@[j]),
            forall|j: int| 0 <= j < i ==> (#[trigger] rects@[j]).wf(),
    {
        let ww: i64 = if i < n - 1 {
            w
        } else {
            screen.width - (xcur - screen.x)
        };
        rects.set(i, Rect { x: xcur, y: screen.y + mh, width: ww, height: sh });
        proof {
            assert(w * (i as int) == w * (i as int - 1) + w) by (nonlinear_arith);
            assert(w * (i as int) <= w * (n - 1)) by (nonlinear_arith)
                requires
                    w >= 0,
                    i as int <= n - 1,
            ;
        }
        xcur = xcur + w;
    }
}

/// Fill `rects` with copies of `screen`; overlap is resolved by z-order,
/// which is outside this engine's control.
pub fn tile_monocle(rects: &mut Vec<Rect>, screen: Rect)
    requires
        screen.wf(),
    ensures
        final(rects)@.len() == old(rects)@.len(),
        monocle_tiling(screen, final(rects)@),
        forall|i: int| 0 <= i < final(rects)@.len() ==> (#[trigger] final(rects)@[i]).wf(),
{
    let n = rects.len();
    for i in 0..n
        invariant
            n == rects@.len(),
            screen.wf(),
            forall|j: int| 0 <= j < i ==> #[trigger] rects@[j] == screen,
    {
        rects.set(i, screen);
    }
}

/// Compute the slot rectangle for each of `n` windows on `display`:
/// index 0 is the master slot, the rest follow in window order.
pub fn tile_windows(layout: Layout, display: Rect, n: usize) -> (rects: Vec<Rect>)
    requires
        display.bounded(),
        n <= 0x1000_0000_0000,
    ensures
        rects@.len() == n,
        tiling(layout, display, rects@),
        forall|i: int| 0 <= i < rects@.len() ==> (#[trigger] rects@[i]).wf(),
{
    let mut rects: Vec<Rect> = Vec::new();
    for i in 0..n
        invariant
            rects@.len() == i,
            forall|j: int| 0 <= j < i ==> #[trigger] rects@[j] == (Rect {
                x: 0i64,
                y: 0i64,
                width: 0i64,
                height: 0i64,
            }),
    {
        rects.push(Rect { x: 0, y: 0, width: 0, height: 0 });
    }
    match layout {
        Layout::Vertical => tile_vertical(&mut rects, display),
        Layout::Horizontal => tile_horizontal(&mut rects, display),
        Layout::Monocle => tile_monocle(&mut rects, display),
    }
    rects
}

/// Total height of a sequence of rectangles.
pub open spec fn sum_heights(rs: Seq<Rect>) -> int
    decreases rs.len(),
{
    if rs.len() == 0 {
        0
    } else {
        rs[0].height + sum_heights(rs.drop_first())
    }
}

/// Rows that each start where the previous one ends sum to the span
/// from the first top edge to the last bottom edge.
proof fn lemma_contiguous_sum(rs: Seq<Rect>)
    requires
        rs.len() > 0,
        forall|i: int| 0 <= i < rs.len() - 1 ==> (#[trigger] rs[i]).y + rs[i].height == rs[i + 1].y,
    ensures
        sum_heights(rs) == rs[rs.len() - 1].y + rs[rs.len() - 1].height - rs[0].y,
    decreases rs.len(),
{
    if rs.len() == 1 {
        assert(rs.drop_first().len() == 0);
        assert(sum_heights(rs.drop_first()) == 0);
        assert(sum_heights(rs) == rs[0].height);
    } else {
        let tail = rs.drop_first();
        assert(forall|i: int| 0 <= i < tail.len() ==> #[trigger] tail[i] == rs[i + 1]);
        assert(forall|i: int|
            0 <= i < tail.len() - 1 ==> (#[trigger] tail[i]).y + tail[i].height == tail[i + 1].y);
        lemma_contiguous_sum(tail);
        assert(rs[0].y + rs[0].height == rs[1].y);
        assert(tail[0] == rs[1]);
        assert(tail[tail.len() - 1] == rs[rs.len() - 1]);
        assert(sum_heights(rs) == rs[0].height + sum_heights(tail));
    }
}

/// With zero windows there is nothing to place, and a single window
/// fills the screen in every layout.
pub proof fn lemma_tile_single(layout: Layout, screen: Rect, rs: Seq<Rect>)
    requires
        tiling(layout, screen, rs),
        rs.len() == 1,
    ensures
        rs[0] == screen,
{
}

/// Under monocle every slot is the whole screen, whatever the count.
pub proof fn lemma_monocle_fills(screen: Rect, rs: Seq<Rect>, i: int)
    requires
        monocle_tiling(screen, rs),
        0 <= i < rs.len(),
    ensures
        rs[i] == screen,
{
}

/// For two or more windows the vertical layout gives the master the
/// left column at full height; the stack rows share the remaining
/// width and run contiguously from the top of the screen to its
/// bottom, so their heights sum to the screen height.
pub proof fn lemma_vertical_partition(screen: Rect, rs: Seq<Rect>)
    requires
        screen.wf(),
        vertical_tiling(screen, rs),
        rs.len() >= 2,
    ensures
        rs[0].x == screen.x,
        rs[0].y == screen.y,
        rs[0].width == master_width(screen),
        rs[0].height == screen.height,
        forall|i: int| 1 <= i < rs.len() ==> (#[trigger] rs[i]).x == screen.x + master_width(screen),
        forall|i: int|
            1 <= i < rs.len() ==> (#[trigger] rs[i]).width == screen.width - master_width(screen),
        rs[1].y == screen.y,
        forall|i: int| 1 <= i < rs.len() - 1 ==> (#[trigger] rs[i]).y + rs[i].height == rs[i + 1].y,
        rs[rs.len() - 1].y + rs[rs.len() - 1].height == screen.y + screen.height,
        sum_heights(rs.skip(1)) == screen.height,
{
    let n = rs.len() as int;
    let h = stack_height(screen, n);
    assert(h * 0 == 0) by (nonlinear_arith);
    assert forall|i: int| 1 <= i < n - 1 implies (#[trigger] rs[i]).y + rs[i].height == rs[i
        + 1].y by {
        assert(vertical_stack_ok(screen, n, i, rs[i]));
        assert(vertical_stack_ok(screen, n, i + 1, rs[i + 1]));
        assert(h * (i + 1 - 1) == h * (i - 1) + h) by (nonlinear_arith);
    }
    let stack = rs.skip(1);
    assert(forall|i: int| 0 <= i < stack.len() ==> #[trigger] stack[i] == rs[i + 1]);
    lemma_contiguous_sum(stack);
    assert(stack[0] == rs[1]);
    assert(stack[stack.len() - 1] == rs[n - 1]);
}

/// Distinct stack rows of a vertical tiling do not overlap: the
/// earlier row ends at or above where the later one starts.
pub proof fn lemma_vertical_disjoint(screen: Rect, rs: Seq<Rect>, i: int, j: int)
    requires
        screen.wf(),
        vertical_tiling(screen, rs),
        1 <= i < j < rs.len(),
    ensures
        rs[i].y + rs[i].height <= rs[j].y,
{
    let n = rs.len() as int;
    let h = stack_height(screen, n);
    lemma_stack_split(screen.height as int, n);
    assert(vertical_stack_ok(screen, n, i, rs[i]));
    assert(vertical_stack_ok(screen, n, j, rs[j]));
    if i < n - 1 {
        assert(h * (i - 1) + h == h * i) by (nonlinear_arith);
        vstd::arithmetic::mul::lemma_mul_inequality(i, j - 1, h);
    }
}

/// The horizontal counterpart: master band on top at full width, the
/// stack columns partition the bottom band left to right.
pub proof fn lemma_horizontal_partition(screen: Rect, rs: Seq<Rect>)
    requires
        screen.wf(),
        horizontal_tiling(screen, rs),
        rs.len() >= 2,
    ensures
        rs[0].x == screen.x,
        rs[0].y == screen.y,
        rs[0].width == screen.width,
        rs[0].height == master_height(screen),
        forall|i: int| 1 <= i < rs.len() ==> (#[trigger] rs[i]).y == screen.y + master_height(screen),
        forall|i: int|
            1 <= i < rs.len() ==> (#[trigger] rs[i]).height == screen.height - master_height(screen),
        rs[1].x == screen.x,
        forall|i: int| 1 <= i < rs.len() - 1 ==> (#[trigger] rs[i]).x + rs[i].width == rs[i + 1].x,
        rs[rs.len() - 1].x + rs[rs.len() - 1].width == screen.x + screen.width,
{
    let n = rs.len() as int;
    let w = stack_width(screen, n);
    assert(w * 0 == 0) by (nonlinear_arith);
    assert forall|i: int| 1 <= i < n - 1 implies (#[trigger] rs[i]).x + rs[i].width == rs[i
        + 1].x by {
        assert(horizontal_stack_ok(screen, n, i, rs[i]));
        assert(horizontal_stack_ok(screen, n, i + 1, rs[i + 1]));
        assert(w * (i + 1 - 1) == w * (i - 1) + w) by (nonlinear_arith);
    }
}

/// Distinct stack columns of a horizontal tiling do not overlap.
pub proof fn lemma_horizontal_disjoint(screen: Rect, rs: Seq<Rect>, i: int, j: int)
    requires
        screen.wf(),
        horizontal_tiling(screen, rs),
        1 <= i < j < rs.len(),
    ensures
        rs[i].x + rs[i].width <= rs[j].x,
{
    let n = rs.len() as int;
    let w = stack_width(screen, n);
    lemma_stack_split(screen.width as int, n);
    assert(horizontal_stack_ok(screen, n, i, rs[i]));
    assert(horizontal_stack_ok(screen, n, j, rs[j]));
    if i < n - 1 {
        assert(w * (i - 1) + w == w * i) by (nonlinear_arith);
        vstd::arithmetic::mul::lemma_mul_inequality(i, j - 1, w);
    }
}

} // verus!
