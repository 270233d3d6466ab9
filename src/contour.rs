//! Tracing the outline of a set of cells.
//!
//! The tracer starts from the first occupied cell, by `x` and then by `y`,
//! walks towards smaller `x` until it stands on an edge cell (an occupied cell with an unoccupied neighbour),
//! then follows the edge cells around, trying the eight neighbours in a fixed
//! rotation that begins one step before the direction it last moved in. The
//! walk ends when it comes back to its first cell. Of the cells visited, the
//! outline keeps those where the walk changes direction.
use crate::terrain::Cell;
use std::collections::BTreeSet;
use vstd::prelude::*;
use vstd::std_specs::btree::{increasing_seq, spec_btree_keys_iter};
use vstd::std_specs::cmp::OrdSpec;
use vstd::std_specs::iter::IteratorSpec;

verus! {

broadcast use {vstd::std_specs::btree::group_btree_axioms, vstd::laws_cmp::group_laws_cmp};

/// The direction in which the walk starts: towards smaller `x`.
pub const WEST: usize = 7;

/// The `x` step of direction `d`; the directions run through the eight
/// neighbours in turn, starting at `(-1, 1)`.
pub open spec fn dir_dx(d: int) -> int {
    if d == 0 || d == 6 || d == 7 {
        -1
    } else if d == 1 || d == 5 {
        0
    } else {
        1
    }
}

/// The `y` step of direction `d`.
pub open spec fn dir_dy(d: int) -> int {
    if d == 0 || d == 1 || d == 2 {
        1
    } else if d == 3 || d == 7 {
        0
    } else {
        -1
    }
}

/// The cell `(x, y)` is in `s`.
pub open spec fn occupied(s: Set<Cell>, x: int, y: int) -> bool {
    &&& i64::MIN <= x <= i64::MAX
    &&& i64::MIN <= y <= i64::MAX
    &&& s.contains((x as i64, y as i64))
}

/// The cell `(x, y)` is in `s` and has a neighbour that is not.
pub open spec fn is_edge(s: Set<Cell>, x: int, y: int) -> bool {
    &&& occupied(s, x, y)
    &&& exists|d: int| 0 <= d < 8 && !occupied(s, x + dir_dx(d), y + dir_dy(d))
}

/// The direction in which the `k`-th try from `(x, y)` looks, after a move in
/// direction `last`.
pub open spec fn try_dir(last: int, k: int) -> int {
    (last + 7 + k) % 8
}

/// The first of the tries from the `k`-th on that finds an edge cell.
pub open spec fn scan(s: Set<Cell>, x: int, y: int, last: int, k: nat) -> Option<int>
    decreases 8 - k,
{
    if k >= 8 {
        None
    } else {
        let d = try_dir(last, k as int);
        if is_edge(s, x + dir_dx(d), y + dir_dy(d)) {
            Some(d)
        } else {
            scan(s, x, y, last, k + 1)
        }
    }
}

/// Where the walk goes from `p` after a move in direction `last`, and the
/// direction of that move; it stays put when no neighbour is an edge cell.
pub open spec fn step(s: Set<Cell>, p: Cell, last: int) -> (Cell, int) {
    match scan(s, p.0 as int, p.1 as int, last, 0) {
        Some(d) => (((p.0 + dir_dx(d)) as i64, (p.1 + dir_dy(d)) as i64), d),
        None => (p, last),
    }
}

/// The cells that the walk visits after `p` until it is back at `start`, or
/// `None` when that takes more than `fuel` moves.
pub open spec fn walk(s: Set<Cell>, p: Cell, last: int, start: Cell, fuel: nat) -> Option<
    Seq<Cell>,
>
    decreases fuel,
{
    if fuel == 0 {
        None
    } else {
        let (q, d) = step(s, p, last);
        if q == start {
            Some(Seq::empty())
        } else {
            match walk(s, q, d, start, (fuel - 1) as nat) {
                Some(rest) => Some(seq![q] + rest),
                None => None,
            }
        }
    }
}

/// The number of moves the walk is given. A walk is fixed by its cell and
/// last direction, of which there are at most eight times as many as cells,
/// so a walk that has not closed after that many moves never closes.
pub open spec fn walk_budget(s: Set<Cell>) -> nat {
    8 * s.len() + 8
}

/// The closed walk from `start`, beginning with `start` itself.
pub open spec fn trace(s: Set<Cell>, start: Cell) -> Option<Seq<Cell>> {
    match walk(s, start, WEST as int, start, walk_budget(s)) {
        Some(rest) => Some(seq![start] + rest),
        None => None,
    }
}

/// The first edge cell found going from `c` towards smaller `x`, within
/// `fuel` moves.
pub open spec fn west_edge(s: Set<Cell>, c: Cell, fuel: nat) -> Cell
    decreases fuel,
{
    if fuel == 0 || is_edge(s, c.0 as int, c.1 as int) {
        c
    } else {
        west_edge(s, ((c.0 - 1) as i64, c.1), (fuel - 1) as nat)
    }
}

/// The index before `i` in a closed sequence of length `n`.
pub open spec fn prev_index(n: int, i: int) -> int {
    if i == 0 {
        n - 1
    } else {
        i - 1
    }
}

/// The index after `i` in a closed sequence of length `n`.
pub open spec fn next_index(n: int, i: int) -> int {
    if i + 1 == n {
        0
    } else {
        i + 1
    }
}

/// The closed sequence `poly` turns at index `i`: the step into it differs
/// from the step out of it.
pub open spec fn turns_at(poly: Seq<Cell>, i: int) -> bool {
    let n = poly.len() as int;
    let a = poly[prev_index(n, i)];
    let b = poly[i];
    let c = poly[next_index(n, i)];
    b.0 - a.0 != c.0 - b.0 || b.1 - a.1 != c.1 - b.1
}

/// The cells of `poly` before index `i` at which it turns, in order.
pub open spec fn corners_upto(poly: Seq<Cell>, i: int) -> Seq<Cell>
    decreases i,
{
    if i <= 0 {
        Seq::empty()
    } else {
        let r = corners_upto(poly, i - 1);
        if turns_at(poly, i - 1) {
            r.push(poly[i - 1])
        } else {
            r
        }
    }
}

/// The cells at which the closed sequence `poly` turns: runs of collinear
/// cells are merged into their end points.
pub open spec fn corners(poly: Seq<Cell>) -> Seq<Cell> {
    corners_upto(poly, poly.len() as int)
}

/// The outline of `s` traced from the scan start `c`; empty when the walk
/// does not close.
pub open spec fn outline(s: Set<Cell>, c: Cell) -> Seq<Cell> {
    match trace(s, west_edge(s, c, s.len())) {
        Some(poly) => corners(poly),
        None => Seq::empty(),
    }
}

/// `p` followed by what `o` holds, if it holds anything.
pub open spec fn prepend(p: Seq<Cell>, o: Option<Seq<Cell>>) -> Option<Seq<Cell>> {
    match o {
        Some(rest) => Some(p + rest),
        None => None,
    }
}

/// A direction that the scan finds is one of the eight and leads to an edge
/// cell.
proof fn lemma_scan_found(s: Set<Cell>, x: int, y: int, last: int, k: nat)
    requires
        0 <= last < 8,
        scan(s, x, y, last, k) is Some,
    ensures
        ({
            let d = scan(s, x, y, last, k)->0;
            &&& 0 <= d < 8
            &&& is_edge(s, x + dir_dx(d), y + dir_dy(d))
        }),
    decreases 8 - k,
{
    if k < 8 {
        let d = try_dir(last, k as int);
        if !is_edge(s, x + dir_dx(d), y + dir_dy(d)) {
            lemma_scan_found(s, x, y, last, k + 1);
        }
    }
}

/// `a` comes before or is `b`: by `x`, then by `y`.
pub open spec fn cell_le(a: Cell, b: Cell) -> bool {
    a.0 < b.0 || (a.0 == b.0 && a.1 <= b.1)
}

/// `c` is the first cell of `s`.
pub open spec fn is_min_cell(s: Set<Cell>, c: Cell) -> bool {
    &&& s.contains(c)
    &&& forall|d: Cell| s.contains(d) ==> cell_le(c, d)
}

/// The first cell of `s`.
pub open spec fn min_cell(s: Set<Cell>) -> Cell {
    choose|c: Cell| is_min_cell(s, c)
}

/// A set has one first cell.
pub proof fn lemma_min_cell_unique(s: Set<Cell>, c: Cell)
    requires
        is_min_cell(s, c),
    ensures
        min_cell(s) == c,
{
    let m = min_cell(s);
    assert(is_min_cell(s, m));
    assert(cell_le(m, c) && cell_le(c, m));
}

/// The outline of `s`, traced from its first cell; no cells have an empty
/// outline.
pub open spec fn outline_of(s: Set<Cell>) -> Seq<Cell> {
    if s.is_empty() {
        Seq::empty()
    } else {
        outline(s, min_cell(s))
    }
}

/// The steps of the eight directions.
fn direction(d: usize) -> (r: (i128, i128))
    requires
        d < 8,
    ensures
        r.0 == dir_dx(d as int),
        r.1 == dir_dy(d as int),
{
    match d {
        0 => (-1, 1),
        1 => (0, 1),
        2 => (1, 1),
        3 => (1, 0),
        4 => (1, -1),
        5 => (0, -1),
        6 => (-1, -1),
        _ => (-1, 0),
    }
}

/// Whether the cell `(x, y)` is in `points`.
fn occupied_at(points: &BTreeSet<Cell>, x: i128, y: i128) -> (r: bool)
    ensures
        r == occupied(points@, x as int, y as int),
{
    if i64::MIN as i128 <= x && x <= i64::MAX as i128 && i64::MIN as i128 <= y && y
        <= i64::MAX as i128 {
        points.contains(&(x as i64, y as i64))
    } else {
        false
    }
}

/// Whether `(x, y)` is an edge cell of `points`.
fn is_edge_cell(points: &BTreeSet<Cell>, x: i128, y: i128) -> (r: bool)
    requires
        -0x1_0000_0000_0000_0000 <= x <= 0x1_0000_0000_0000_0000,
        -0x1_0000_0000_0000_0000 <= y <= 0x1_0000_0000_0000_0000,
    ensures
        r == is_edge(points@, x as int, y as int),
{
    if !occupied_at(points, x, y) {
        return false;
    }
    let mut d: usize = 0;
    while d < 8
        invariant
            d <= 8,
            occupied(points@, x as int, y as int),
            -0x1_0000_0000_0000_0000 <= x <= 0x1_0000_0000_0000_0000,
            -0x1_0000_0000_0000_0000 <= y <= 0x1_0000_0000_0000_0000,
            forall|e: int|
                0 <= e < d ==> occupied(points@, x + dir_dx(e), y + dir_dy(e)),
        decreases 8 - d,
    {
        let (dx, dy) = direction(d);
        if !occupied_at(points, x + dx, y + dy) {
            assert(!occupied(points@, x + dir_dx(d as int), y + dir_dy(d as int)));
            return true;
        }
        d = d + 1;
    }
    false
}

/// The direction of the next move from `(x, y)` after a move in direction
/// `last`, if any neighbour is an edge cell.
fn scan_from(points: &BTreeSet<Cell>, x: i64, y: i64, last: usize) -> (r: Option<usize>)
    requires
        last < 8,
    ensures
        match r {
            Some(d) => d < 8 && scan(points@, x as int, y as int, last as int, 0) == Some(d as int),
            None => scan(points@, x as int, y as int, last as int, 0) is None,
        },
{
    let mut k: usize = 0;
    while k < 8
        invariant
            k <= 8,
            last < 8,
            scan(points@, x as int, y as int, last as int, 0) == scan(
                points@,
                x as int,
                y as int,
                last as int,
                k as nat,
            ),
        decreases 8 - k,
    {
        let d = (last + 7 + k) % 8;
        let (dx, dy) = direction(d);
        if is_edge_cell(points, x as i128 + dx, y as i128 + dy) {
            return Some(d);
        }
        k = k + 1;
    }
    None
}

/// The first edge cell going from the occupied cell `c` towards smaller `x`.
fn scan_start(points: &BTreeSet<Cell>, c: Cell) -> (r: Cell)
    requires
        points@.contains(c),
    ensures
        r == west_edge(points@, c, points@.len()),
{
    let mut cur = c;
    let mut fuel: usize = points.len();
    while fuel > 0 && !is_edge_cell(points, cur.0 as i128, cur.1 as i128)
        invariant
            occupied(points@, cur.0 as int, cur.1 as int),
            west_edge(points@, c, points@.len()) == west_edge(points@, cur, fuel as nat),
        decreases fuel,
    {
        assert(occupied(points@, cur.0 + dir_dx(7), cur.1 + dir_dy(7)));
        cur = (cur.0 - 1, cur.1);
        fuel = fuel - 1;
    }
    cur
}

/// The closed walk around the edge cells of `points` from `start`.
fn trace_from(points: &BTreeSet<Cell>, start: Cell) -> (r: Option<Vec<Cell>>)
    ensures
        match r {
            Some(v) => trace(points@, start) == Some(v@),
            None => trace(points@, start) is None,
        },
{
    let budget: u128 = 8 * (points.len() as u128) + 8;
    let mut poly: Vec<Cell> = Vec::new();
    poly.push(start);
    let mut cur = start;
    let mut last: usize = WEST;
    let mut fuel: u128 = budget;
    assert(poly@ == seq![start]);
    loop
        invariant
            last < 8,
            trace(points@, start) == prepend(
                poly@,
                walk(points@, cur, last as int, start, fuel as nat),
            ),
        decreases fuel,
    {
        if fuel == 0 {
            return None;
        }
        let ghost old_poly = poly@;
        let (next, dir) = match scan_from(points, cur.0, cur.1, last) {
            Some(d) => {
                proof {
                    lemma_scan_found(points@, cur.0 as int, cur.1 as int, last as int, 0);
                }
                let (dx, dy) = direction(d);
                (((cur.0 as i128 + dx) as i64, (cur.1 as i128 + dy) as i64), d)
            },
            None => (cur, last),
        };
        assert((next, dir as int) == step(points@, cur, last as int));
        if next.0 == start.0 && next.1 == start.1 {
            assert(poly@ + Seq::<Cell>::empty() =~= poly@);
            return Some(poly);
        }
        poly.push(next);
        proof {
            let w = walk(points@, next, dir as int, start, (fuel - 1) as nat);
            if w is Some {
                assert(old_poly + (seq![next] + w->0) =~= poly@ + w->0);
            }
        }
        cur = next;
        last = dir;
        fuel = fuel - 1;
    }
}

/// The cells at which the closed sequence `poly` turns.
fn corners_of(poly: &Vec<Cell>) -> (r: Vec<Cell>)
    ensures
        r@ == corners(poly@),
{
    let n = poly.len();
    let mut out: Vec<Cell> = Vec::new();
    let mut i: usize = 0;
    while i < n
        invariant
            n == poly@.len(),
            i <= n,
            out@ == corners_upto(poly@, i as int),
        decreases n - i,
    {
        let prev = if i == 0 {
            n - 1
        } else {
            i - 1
        };
        let next = if i + 1 == n {
            0
        } else {
            i + 1
        };
        let a = poly[prev];
        let b = poly[i];
        let c = poly[next];
        let in_x = b.0 as i128 - a.0 as i128;
        let in_y = b.1 as i128 - a.1 as i128;
        let out_x = c.0 as i128 - b.0 as i128;
        let out_y = c.1 as i128 - b.1 as i128;
        if in_x != out_x || in_y != out_y {
            out.push(b);
        }
        i = i + 1;
    }
    out
}

/// The outline of the occupied cells `points`, as the corners of the closed
/// walk around them, traced from their first cell. No cells, or a walk that
/// does not close, give an empty outline.
pub fn new_bounds(points: &BTreeSet<Cell>) -> (r: Vec<Cell>)
    ensures
        r@ == outline_of(points@),
{
    let mut found: Option<Cell> = None;
    for c in it: points.iter()
        invariant_except_break
            found is None,
            it.index() == 0,
        ensures
            match found {
                Some(c) => is_min_cell(points@, c),
                None => points@.is_empty(),
            },
    {
        proof {
            let ks = spec_btree_keys_iter(points).remaining();
            assert(it.seq() == ks);
            assert(increasing_seq(ks));
            assert(vstd::laws_cmp::obeys_cmp::<&(i64, i64)>());
            assert forall|d: Cell| points@.contains(d) implies cell_le(*c, d) by {
                assert(ks.unref().to_set().contains(d));
                let j = choose|j: int| 0 <= j < ks.len() && ks.unref()[j] == d;
                if j > 0 {
                    assert(<&Cell as OrdSpec>::cmp_spec(&ks[0], &ks[j]) is Less);
                }
            }
        }
        found = Some(*c);
        break;
    }
    match found {
        None => Vec::new(),
        Some(c) => {
            proof {
                lemma_min_cell_unique(points@, c);
            }
            let start = scan_start(points, c);
            match trace_from(points, start) {
                Some(poly) => corners_of(&poly),
                None => Vec::new(),
            }
        },
    }
}

} // verus!
