//! The outline of a filled rectangle of cells is its four corners.
use crate::contour::{
    corners_upto, dir_dx, dir_dy, is_edge, is_min_cell, lemma_min_cell_unique, occupied,
    outline_of, scan, step, trace, try_dir, turns_at, walk, walk_budget, west_edge, WEST,
};
use crate::terrain::{rect_cells, Cell};
use vstd::prelude::*;

verus! {

/// The corners of a rectangle are cells with `i64` coordinates, with a
/// neighbour all round that is representable or not, as the case may be.
pub open spec fn rect_fits(x0: int, y0: int, w: int, h: int) -> bool {
    &&& i64::MIN <= x0
    &&& i64::MIN <= y0
    &&& x0 + w - 1 <= i64::MAX
    &&& y0 + h - 1 <= i64::MAX
}

proof fn lemma_rect_occupied(x0: int, y0: int, w: int, h: int)
    requires
        rect_fits(x0, y0, w, h),
    ensures
        forall|x: int, y: int|
            #[trigger] occupied(rect_cells(x0, y0, w, h), x, y) == (x0 <= x < x0 + w && y0 <= y
                < y0 + h),
{
}

proof fn lemma_rect_edge(x0: int, y0: int, w: int, h: int)
    requires
        rect_fits(x0, y0, w, h),
    ensures
        forall|x: int, y: int|
            #[trigger] is_edge(rect_cells(x0, y0, w, h), x, y) == (x0 <= x < x0 + w && y0 <= y
                < y0 + h && (x == x0 || x == x0 + w - 1 || y == y0 || y == y0 + h - 1)),
{
    let s = rect_cells(x0, y0, w, h);
    lemma_rect_occupied(x0, y0, w, h);
    assert forall|x: int, y: int|
        #[trigger] is_edge(s, x, y) == (x0 <= x < x0 + w && y0 <= y < y0 + h && (x == x0 || x
            == x0 + w - 1 || y == y0 || y == y0 + h - 1)) by {
        if x0 <= x < x0 + w && y0 <= y < y0 + h {
            if x == x0 {
                assert(!occupied(s, x + dir_dx(7), y + dir_dy(7)));
            } else if x == x0 + w - 1 {
                assert(!occupied(s, x + dir_dx(3), y + dir_dy(3)));
            } else if y == y0 {
                assert(!occupied(s, x + dir_dx(5), y + dir_dy(5)));
            } else if y == y0 + h - 1 {
                assert(!occupied(s, x + dir_dx(1), y + dir_dy(1)));
            } else {
                assert forall|d: int| 0 <= d < 8 implies occupied(s, x + dir_dx(d), y + dir_dy(d)) by {}
            }
        }
    }
}

proof fn lemma_rect_finite(x0: int, y0: int, w: int, h: int)
    requires
        rect_fits(x0, y0, w, h),
        w >= 0,
        h >= 0,
    ensures
        rect_cells(x0, y0, w, h).finite(),
    decreases w,
{
    if w == 0 {
        assert(rect_cells(x0, y0, w, h) =~= Set::<Cell>::empty());
    } else {
        lemma_rect_finite(x0, y0, w - 1, h);
        lemma_column_finite(x0 + w - 1, y0, h);
        assert(rect_cells(x0, y0, w, h) =~= rect_cells(x0, y0, w - 1, h).union(
            rect_cells(x0 + w - 1, y0, 1, h),
        ));
    }
}

proof fn lemma_column_finite(x: int, y0: int, h: int)
    requires
        rect_fits(x, y0, 1, h),
        h >= 0,
    ensures
        rect_cells(x, y0, 1, h).finite(),
    decreases h,
{
    if h == 0 {
        assert(rect_cells(x, y0, 1, h) =~= Set::<Cell>::empty());
    } else {
        lemma_column_finite(x, y0, h - 1);
        assert(rect_cells(x, y0, 1, h) =~= rect_cells(x, y0, 1, h - 1).insert(
            (x as i64, (y0 + h - 1) as i64),
        ));
    }
}

/// The `i`-th cell of the walk round the rectangle: up the left column from
/// the first cell, along the top row, down the right column and back along
/// the bottom row.
pub open spec fn border_cell(x0: int, y0: int, w: int, h: int, i: int) -> Cell {
    (border_x(x0, w, h, i) as i64, border_y(y0, w, h, i) as i64)
}

/// The `x` of the `i`-th cell of the walk round the rectangle.
pub open spec fn border_x(x0: int, w: int, h: int, i: int) -> int {
    let a = h - 1;
    let b = a + w - 1;
    let c = b + h - 1;
    if i <= a {
        x0
    } else if i <= b {
        x0 + i - a
    } else if i <= c {
        x0 + w - 1
    } else {
        x0 + w - 1 - (i - c)
    }
}

/// The `y` of the `i`-th cell of the walk round the rectangle.
pub open spec fn border_y(y0: int, w: int, h: int, i: int) -> int {
    let a = h - 1;
    let b = a + w - 1;
    let c = b + h - 1;
    if i <= a {
        y0 + i
    } else if i <= b {
        y0 + h - 1
    } else if i <= c {
        y0 + h - 1 - (i - b)
    } else {
        y0
    }
}

/// The direction of the move into the `i`-th cell of the walk round the
/// rectangle; the walk starts as if it had moved west.
pub open spec fn border_dir(w: int, h: int, i: int) -> int {
    let a = h - 1;
    let b = a + w - 1;
    let c = b + h - 1;
    if i == 0 {
        WEST as int
    } else if i <= a {
        1
    } else if i <= b {
        3
    } else if i <= c {
        5
    } else {
        7
    }
}

/// The number of cells on the rectangle's border.
pub open spec fn perimeter(w: int, h: int) -> int {
    2 * (w - 1) + 2 * (h - 1)
}

proof fn lemma_scan_second(s: Set<Cell>, x: int, y: int, last: int)
    requires
        0 <= last < 8,
        !is_edge(s, x + dir_dx(try_dir(last, 0)), y + dir_dy(try_dir(last, 0))),
        is_edge(s, x + dir_dx(try_dir(last, 1)), y + dir_dy(try_dir(last, 1))),
    ensures
        scan(s, x, y, last, 0) == Some(try_dir(last, 1)),
{
    assert(scan(s, x, y, last, 0) == scan(s, x, y, last, 1));
}

proof fn lemma_scan_fourth(s: Set<Cell>, x: int, y: int, last: int)
    requires
        0 <= last < 8,
        !is_edge(s, x + dir_dx(try_dir(last, 0)), y + dir_dy(try_dir(last, 0))),
        !is_edge(s, x + dir_dx(try_dir(last, 1)), y + dir_dy(try_dir(last, 1))),
        !is_edge(s, x + dir_dx(try_dir(last, 2)), y + dir_dy(try_dir(last, 2))),
        is_edge(s, x + dir_dx(try_dir(last, 3)), y + dir_dy(try_dir(last, 3))),
    ensures
        scan(s, x, y, last, 0) == Some(try_dir(last, 3)),
{
    assert(scan(s, x, y, last, 0) == scan(s, x, y, last, 1));
    assert(scan(s, x, y, last, 1) == scan(s, x, y, last, 2));
    assert(scan(s, x, y, last, 2) == scan(s, x, y, last, 3));
}

#[verifier::spinoff_prover]
#[verifier::rlimit(40)]
proof fn lemma_border_step(x0: int, y0: int, w: int, h: int, i: int)
    requires
        rect_fits(x0, y0, w, h),
        w >= 2,
        h >= 2,
        0 <= i < perimeter(w, h),
    ensures
        step(rect_cells(x0, y0, w, h), border_cell(x0, y0, w, h, i), border_dir(w, h, i)) == (
            border_cell(x0, y0, w, h, if i + 1 == perimeter(w, h) { 0 } else { i + 1 }),
            if i + 1 == perimeter(w, h) { 7 } else { border_dir(w, h, i + 1) },
        ),
{
    let s = rect_cells(x0, y0, w, h);
    lemma_rect_edge(x0, y0, w, h);
    let a = h - 1;
    let b = a + w - 1;
    let c = b + h - 1;
    let p = border_cell(x0, y0, w, h, i);
    let x = p.0 as int;
    let y = p.1 as int;
    let last = border_dir(w, h, i);
    assert(try_dir(7, 0) == 6 && try_dir(7, 1) == 7 && try_dir(7, 2) == 0 && try_dir(7, 3) == 1);
    assert(try_dir(1, 0) == 0 && try_dir(1, 1) == 1 && try_dir(1, 2) == 2 && try_dir(1, 3) == 3);
    assert(try_dir(3, 0) == 2 && try_dir(3, 1) == 3 && try_dir(3, 2) == 4 && try_dir(3, 3) == 5);
    assert(try_dir(5, 0) == 4 && try_dir(5, 1) == 5 && try_dir(5, 2) == 6 && try_dir(5, 3) == 7);
    if i == 0 || i == a || i == b || i == c {
        lemma_scan_fourth(s, x, y, last);
    } else {
        lemma_scan_second(s, x, y, last);
    }
}

proof fn lemma_border_in_rect(x0: int, y0: int, w: int, h: int, i: int)
    requires
        rect_fits(x0, y0, w, h),
        w >= 2,
        h >= 2,
        0 <= i < perimeter(w, h),
    ensures
        x0 <= border_x(x0, w, h, i) < x0 + w,
        y0 <= border_y(y0, w, h, i) < y0 + h,
        border_cell(x0, y0, w, h, i).0 as int == border_x(x0, w, h, i),
        border_cell(x0, y0, w, h, i).1 as int == border_y(y0, w, h, i),
        rect_cells(x0, y0, w, h).contains(border_cell(x0, y0, w, h, i)),
{
}

proof fn lemma_border_injective(x0: int, y0: int, w: int, h: int, i: int, j: int)
    requires
        rect_fits(x0, y0, w, h),
        w >= 2,
        h >= 2,
        0 <= i < perimeter(w, h),
        0 <= j < perimeter(w, h),
        border_cell(x0, y0, w, h, i) == border_cell(x0, y0, w, h, j),
    ensures
        i == j,
{
    lemma_border_in_rect(x0, y0, w, h, i);
    lemma_border_in_rect(x0, y0, w, h, j);
    assert(border_x(x0, w, h, i) == border_x(x0, w, h, j));
    assert(border_y(y0, w, h, i) == border_y(y0, w, h, j));
}

proof fn lemma_border_walk(x0: int, y0: int, w: int, h: int, i: int, fuel: nat)
    requires
        rect_fits(x0, y0, w, h),
        w >= 2,
        h >= 2,
        0 <= i < perimeter(w, h),
        fuel >= perimeter(w, h) - i,
    ensures
        walk(
            rect_cells(x0, y0, w, h),
            border_cell(x0, y0, w, h, i),
            border_dir(w, h, i),
            border_cell(x0, y0, w, h, 0),
            fuel,
        ) == Some(
            Seq::new((perimeter(w, h) - 1 - i) as nat, |j: int| border_cell(x0, y0, w, h, i + 1 + j)),
        ),
    decreases perimeter(w, h) - i,
{
    let n = perimeter(w, h);
    lemma_border_step(x0, y0, w, h, i);
    if i + 1 == n {
        assert(Seq::new((n - 1 - i) as nat, |j: int| border_cell(x0, y0, w, h, i + 1 + j)) =~= Seq::<Cell>::empty());
    } else {
        if border_cell(x0, y0, w, h, i + 1) == border_cell(x0, y0, w, h, 0) {
            lemma_border_injective(x0, y0, w, h, i + 1, 0);
        }
        lemma_border_walk(x0, y0, w, h, i + 1, (fuel - 1) as nat);
        assert(seq![border_cell(x0, y0, w, h, i + 1)] + Seq::new(
            (n - 2 - i) as nat,
            |j: int| border_cell(x0, y0, w, h, i + 2 + j),
        ) =~= Seq::new((n - 1 - i) as nat, |j: int| border_cell(x0, y0, w, h, i + 1 + j)));
    }
}

/// The walk round the rectangle, as a closed sequence.
pub open spec fn border(x0: int, y0: int, w: int, h: int) -> Seq<Cell> {
    Seq::new(perimeter(w, h) as nat, |i: int| border_cell(x0, y0, w, h, i))
}

proof fn lemma_border_turns(x0: int, y0: int, w: int, h: int, i: int)
    requires
        rect_fits(x0, y0, w, h),
        w >= 2,
        h >= 2,
        0 <= i < perimeter(w, h),
    ensures
        turns_at(border(x0, y0, w, h), i) == (i == 0 || i == h - 1 || i == h + w - 2 || i == 2 * h
            + w - 3),
{
    let n = perimeter(w, h);
    let prev = if i == 0 { n - 1 } else { i - 1 };
    let next = if i + 1 == n { 0 } else { i + 1 };
    lemma_border_in_rect(x0, y0, w, h, i);
    lemma_border_in_rect(x0, y0, w, h, prev);
    lemma_border_in_rect(x0, y0, w, h, next);
}

/// The corners of the rectangle that the walk meets before index `k`.
pub open spec fn corners_before(x0: int, y0: int, w: int, h: int, k: int) -> Seq<Cell> {
    let s0 = if k > 0 {
        seq![border_cell(x0, y0, w, h, 0)]
    } else {
        Seq::empty()
    };
    let s1 = if k > h - 1 {
        s0.push(border_cell(x0, y0, w, h, h - 1))
    } else {
        s0
    };
    let s2 = if k > h + w - 2 {
        s1.push(border_cell(x0, y0, w, h, h + w - 2))
    } else {
        s1
    };
    if k > 2 * h + w - 3 {
        s2.push(border_cell(x0, y0, w, h, 2 * h + w - 3))
    } else {
        s2
    }
}

proof fn lemma_border_corners(x0: int, y0: int, w: int, h: int, k: int)
    requires
        rect_fits(x0, y0, w, h),
        w >= 2,
        h >= 2,
        0 <= k <= perimeter(w, h),
    ensures
        corners_upto(border(x0, y0, w, h), k) == corners_before(x0, y0, w, h, k),
    decreases k,
{
    if k > 0 {
        lemma_border_corners(x0, y0, w, h, k - 1);
        lemma_border_turns(x0, y0, w, h, k - 1);
    }
}

/// A filled rectangle at least two cells wide and high has an outline of
/// four vertices, its corners, starting at its first cell and going round.
pub proof fn lemma_rectangle_outline(x0: int, y0: int, w: int, h: int)
    requires
        rect_fits(x0, y0, w, h),
        w >= 2,
        h >= 2,
    ensures
        outline_of(rect_cells(x0, y0, w, h)) == seq![
            (x0 as i64, y0 as i64),
            (x0 as i64, (y0 + h - 1) as i64),
            ((x0 + w - 1) as i64, (y0 + h - 1) as i64),
            ((x0 + w - 1) as i64, y0 as i64),
        ],
{
    let s = rect_cells(x0, y0, w, h);
    let n = perimeter(w, h);
    let start = border_cell(x0, y0, w, h, 0);
    lemma_rect_edge(x0, y0, w, h);
    lemma_rect_finite(x0, y0, w, h);
    lemma_border_in_rect(x0, y0, w, h, 0);
    assert(is_min_cell(s, start));
    lemma_min_cell_unique(s, start);
    assert(!s.is_empty());
    assert(west_edge(s, start, s.len()) == start);
    let poly = border(x0, y0, w, h);
    assert forall|i: int, j: int| 0 <= i < poly.len() && 0 <= j < poly.len() && i != j implies poly[i] != poly[j] by {
        if poly[i] == poly[j] {
            lemma_border_injective(x0, y0, w, h, i, j);
        }
    }
    poly.unique_seq_to_set();
    assert forall|c: Cell| poly.to_set().contains(c) implies s.contains(c) by {
        let i = choose|i: int| 0 <= i < poly.len() && poly[i] == c;
        lemma_border_in_rect(x0, y0, w, h, i);
    }
    vstd::set_lib::lemma_len_subset(poly.to_set(), s);
    lemma_border_walk(x0, y0, w, h, 0, walk_budget(s));
    assert(seq![start] + Seq::new((n - 1) as nat, |j: int| border_cell(x0, y0, w, h, 1 + j)) =~= poly);
    assert(trace(s, start) == Some(poly));
    lemma_border_corners(x0, y0, w, h, n);
    lemma_border_in_rect(x0, y0, w, h, h - 1);
    lemma_border_in_rect(x0, y0, w, h, h + w - 2);
    lemma_border_in_rect(x0, y0, w, h, 2 * h + w - 3);
}

} // verus!
