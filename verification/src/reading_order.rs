//! Reading order: rows from vertical centers, columns from left edges.
use vstd::prelude::*;

use crate::segment::GlyphBbox;
use crate::sorting::{
    both, has_key, insertion_point, key_class, lemma_filter_filter, lemma_filter_sorted,
    lemma_insert_by_splice, lemma_map_preserves_permutation, lemma_sort_by_key_sorted,
    lemma_sort_filter, lemma_sort_map, lemma_sorted_member, lemma_sorted_permutation_unique,
    lemma_sorted_unique, sort_by_key, sorted_by,
};

verus! {

/// Vertical center of a box, the key of the first reading-order pass.
pub open spec fn center(g: GlyphBbox) -> int {
    g.y + g.h / 2
}

pub open spec fn center_key() -> spec_fn(GlyphBbox) -> int {
    |g: GlyphBbox| center(g)
}

/// Row first, then left edge: the key of the final reading order.
pub open spec fn row_x_key() -> spec_fn(GlyphBbox) -> int {
    |g: GlyphBbox| g.row * 0x1_0000_0000 + g.x
}

pub open spec fn height_key() -> spec_fn(u32) -> int {
    |h: u32| h as int
}

pub open spec fn heights_of(s: Seq<GlyphBbox>) -> Seq<u32> {
    s.map_values(|g: GlyphBbox| g.h)
}

/// The middle element of the sorted heights (the upper middle for an even count), at least 1.
pub open spec fn median_height(s: Seq<GlyphBbox>) -> int {
    let sh = sort_by_key(heights_of(s), height_key());
    if sh[(s.len() / 2) as int] < 1 {
        1
    } else {
        sh[(s.len() / 2) as int] as int
    }
}

/// Two thirds of the median height, rounded down: a larger jump of the center starts a new row.
pub open spec fn row_tolerance(s: Seq<GlyphBbox>) -> int {
    median_height(s) * 2 / 3
}

pub open spec fn abs_diff(a: int, b: int) -> int {
    if a >= b {
        a - b
    } else {
        b - a
    }
}

/// Walking down the center-sorted boxes: the row counter and the center that opened
/// the current row, after the first `i` boxes.
pub open spec fn row_state(s: Seq<GlyphBbox>, tol: int, i: nat) -> (int, int)
    decreases i,
{
    if i == 0 {
        (0, center(s[0]))
    } else {
        let prev = row_state(s, tol, (i - 1) as nat);
        let cy = center(s[i - 1]);
        if abs_diff(cy, prev.1) > tol {
            (prev.0 + 1, cy)
        } else {
            prev
        }
    }
}

pub open spec fn with_row(g: GlyphBbox, row: u32) -> GlyphBbox {
    GlyphBbox { row: row, ..g }
}

pub open spec fn with_col(g: GlyphBbox, col: u32) -> GlyphBbox {
    GlyphBbox { col: col, ..g }
}

/// Each box with the row that the walk gives it.
pub open spec fn with_rows(s: Seq<GlyphBbox>, tol: int) -> Seq<GlyphBbox> {
    Seq::new(s.len(), |i: int| with_row(s[i], row_state(s, tol, (i + 1) as nat).0 as u32))
}

/// Column of the `i`-th box: 0 where a new row starts, else one more than its predecessor.
pub open spec fn col_of(s: Seq<GlyphBbox>, i: int) -> int
    decreases i,
{
    if i <= 0 {
        0
    } else if s[i].row != s[i - 1].row {
        0
    } else {
        col_of(s, i - 1) + 1
    }
}

pub open spec fn with_cols(s: Seq<GlyphBbox>) -> Seq<GlyphBbox> {
    Seq::new(s.len(), |i: int| with_col(s[i], col_of(s, i) as u32))
}

/// The reading order of a set of boxes: sort by vertical center, group into rows where the
/// center jumps by more than the tolerance, sort by row then left edge, number the columns.
pub open spec fn reading_order(s: Seq<GlyphBbox>) -> Seq<GlyphBbox> {
    if s.len() == 0 {
        s
    } else {
        let by_center = sort_by_key(s, center_key());
        let rows = with_rows(by_center, row_tolerance(by_center));
        with_cols(sort_by_key(rows, row_x_key()))
    }
}

/// The inputs on which the reading-order pass stays within `u32`.
pub open spec fn reading_order_fits(s: Seq<GlyphBbox>) -> bool {
    &&& s.len() < u32::MAX
    &&& forall|i: int| 0 <= i < s.len() ==> center(#[trigger] s[i]) <= u32::MAX
    &&& s.len() > 0 ==> 2 * median_height(sort_by_key(s, center_key())) <= u32::MAX
}

fn center_of(g: &GlyphBbox) -> (c: u32)
    requires
        center(*g) <= u32::MAX,
    ensures
        c == center(*g),
{
    g.y + g.h / 2
}

/// Whether `a` sorts strictly after `b` under the chosen key.
fn key_after(a: &GlyphBbox, b: &GlyphBbox, by_rows: bool) -> (r: bool)
    requires
        !by_rows ==> center(*a) <= u32::MAX && center(*b) <= u32::MAX,
    ensures
        r == ((if by_rows { row_x_key() } else { center_key() })(*a) > (if by_rows {
            row_x_key()
        } else {
            center_key()
        })(*b)),
{
    if by_rows {
        a.row > b.row || (a.row == b.row && a.x > b.x)
    } else {
        center_of(a) > center_of(b)
    }
}

/// Stable sort of boxes, by vertical center or by row then left edge.
fn sort_boxes(v: &Vec<GlyphBbox>, by_rows: bool) -> (r: Vec<GlyphBbox>)
    requires
        !by_rows ==> forall|i: int| 0 <= i < v.len() ==> center(#[trigger] v@[i]) <= u32::MAX,
    ensures
        r@ == sort_by_key(v@, if by_rows { row_x_key() } else { center_key() }),
{
    let ghost key = if by_rows { row_x_key() } else { center_key() };
    let mut r: Vec<GlyphBbox> = Vec::new();
    let mut i: usize = 0;
    while i < v.len()
        invariant
            i <= v.len(),
            key == (if by_rows { row_x_key() } else { center_key() }),
            !by_rows ==> forall|k: int| 0 <= k < v.len() ==> center(#[trigger] v@[k]) <= u32::MAX,
            r@ == sort_by_key(v@.take(i as int), key),
            forall|k: int| 0 <= k < r.len() ==> v@.contains(#[trigger] r@[k]),
        decreases v.len() - i,
    {
        let x = v[i];
        let mut j: usize = r.len();
        while j > 0 && key_after(&r[j - 1], &x, by_rows)
            invariant
                j <= r.len(),
                key == (if by_rows { row_x_key() } else { center_key() }),
                !by_rows ==> forall|k: int| 0 <= k < v.len() ==> center(#[trigger] v@[k]) <= u32::MAX,
                forall|k: int| 0 <= k < r.len() ==> v@.contains(#[trigger] r@[k]),
                v@.contains(x),
                forall|k: int| j <= k < r.len() ==> key(#[trigger] r@[k]) > key(x),
            decreases j,
        {
            j = j - 1;
        }
        proof {
            assert(insertion_point(r@, x, key, j as int));
            lemma_insert_by_splice(r@, x, key, j as int);
            assert(v@.take(i as int + 1).drop_last() =~= v@.take(i as int));
            assert(v@.take(i as int + 1).last() == x);
            assert(r@.insert(j as int, x) =~= r@.take(j as int).push(x) + r@.skip(j as int));
        }
        let ghost before = r@;
        r.insert(j, x);
        i = i + 1;
        proof {
            assert forall|k: int| 0 <= k < r.len() implies v@.contains(#[trigger] r@[k]) by {
                if k < j as int {
                    assert(r@[k] == before[k]);
                } else if k > j as int {
                    assert(r@[k] == before[k - 1]);
                }
            }
        }
    }
    proof {
        assert(v@.take(v.len() as int) =~= v@);
    }
    r
}


/// Stable (hence, for plain integers, the unique) ascending sort of heights.
fn sort_heights(v: &Vec<u32>) -> (r: Vec<u32>)
    ensures
        r@ == sort_by_key(v@, height_key()),
{
    let ghost key = height_key();
    let mut r: Vec<u32> = Vec::new();
    let mut i: usize = 0;
    while i < v.len()
        invariant
            i <= v.len(),
            key == height_key(),
            r@ == sort_by_key(v@.take(i as int), key),
        decreases v.len() - i,
    {
        let x = v[i];
        let mut j: usize = r.len();
        while j > 0 && r[j - 1] > x
            invariant
                j <= r.len(),
                key == height_key(),
                forall|k: int| j <= k < r.len() ==> key(#[trigger] r@[k]) > key(x),
            decreases j,
        {
            j = j - 1;
        }
        proof {
            assert(insertion_point(r@, x, key, j as int));
            lemma_insert_by_splice(r@, x, key, j as int);
            assert(v@.take(i as int + 1).drop_last() =~= v@.take(i as int));
            assert(v@.take(i as int + 1).last() == x);
            assert(r@.insert(j as int, x) =~= r@.take(j as int).push(x) + r@.skip(j as int));
        }
        r.insert(j, x);
        i = i + 1;
    }
    proof {
        assert(v@.take(v.len() as int) =~= v@);
    }
    r
}

/// Sort glyphs into reading order (top to bottom, left to right) and assign row/col indices.
pub fn assign_reading_order(glyphs: &mut Vec<GlyphBbox>)
    requires
        reading_order_fits(old(glyphs)@),
    ensures
        final(glyphs)@ == reading_order(old(glyphs)@),
{
    if glyphs.len() == 0 {
        return;
    }
    let n = glyphs.len();
    // Sort by vertical center for initial row grouping.
    let by_center = sort_boxes(glyphs, false);
    proof {
        lemma_sort_by_key_sorted(old(glyphs)@, center_key());
        assert forall|k: int| 0 <= k < by_center.len() implies center(#[trigger] by_center@[k])
            <= u32::MAX by {
            lemma_sorted_member(old(glyphs)@, center_key(), k);
        }
    }
    // Use 2/3 of the median glyph height as the row-change threshold.
    let mut heights: Vec<u32> = Vec::new();
    let mut i: usize = 0;
    while i < n
        invariant
            i <= n,
            n == by_center.len(),
            heights@ == heights_of(by_center@).take(i as int),
        decreases n - i,
    {
        heights.push(by_center[i].h);
        i = i + 1;
        proof {
            assert(heights@ =~= heights_of(by_center@).take(i as int));
        }
    }
    proof {
        assert(heights@ =~= heights_of(by_center@));
    }
    let sorted_heights = sort_heights(&heights);
    proof {
        lemma_sort_by_key_sorted(heights@, height_key());
    }
    let mid = sorted_heights[n / 2];
    let median_h = if mid < 1 { 1 } else { mid };
    let tolerance = median_h * 2 / 3;
    assert(tolerance == row_tolerance(by_center@));
    // Walk down and bump the row counter whenever the center jumps by more than the tolerance.
    let ghost tol = tolerance as int;
    let mut row: u32 = 0;
    let mut last_cy = center_of(&by_center[0]);
    let mut rows: Vec<GlyphBbox> = Vec::new();
    let mut i: usize = 0;
    while i < n
        invariant
            i <= n,
            n == by_center.len(),
            n < u32::MAX,
            tol == tolerance,
            forall|k: int| 0 <= k < by_center.len() ==> center(#[trigger] by_center@[k]) <= u32::MAX,
            row_state(by_center@, tol, i as nat) == (row as int, last_cy as int),
            row <= i,
            rows@ == with_rows(by_center@, tol).take(i as int),
        decreases n - i,
    {
        let g = by_center[i];
        let cy = center_of(&g);
        let diff = if cy >= last_cy { cy - last_cy } else { last_cy - cy };
        if diff > tolerance {
            row = row + 1;
            last_cy = cy;
        }
        rows.push(GlyphBbox { row: row, ..g });
        i = i + 1;
        proof {
            assert(rows@ =~= with_rows(by_center@, tol).take(i as int));
        }
    }
    proof {
        assert(rows@ =~= with_rows(by_center@, tol));
    }
    // Final sort: by row then by x for left-to-right column order.
    let by_rows = sort_boxes(&rows, true);
    // Assign column indices within each row.
    let mut col: u32 = 0;
    let mut prev_row: u32 = 0;
    let mut out: Vec<GlyphBbox> = Vec::new();
    let mut i: usize = 0;
    proof {
        lemma_sort_by_key_sorted(rows@, row_x_key());
    }
    while i < n
        invariant
            i <= n,
            n == by_rows.len(),
            n < u32::MAX,
            i == 0 ==> col == 0 && prev_row == 0,
            i > 0 ==> col == col_of(by_rows@, i - 1) + 1 && prev_row == by_rows@[i - 1].row,
            col <= i,
            out@ == with_cols(by_rows@).take(i as int),
        decreases n - i,
    {
        let g = by_rows[i];
        if g.row != prev_row {
            col = 0;
            prev_row = g.row;
        }
        out.push(GlyphBbox { col: col, ..g });
        col = col + 1;
        i = i + 1;
        proof {
            assert(out@ =~= with_cols(by_rows@).take(i as int));
        }
    }
    proof {
        assert(out@ =~= with_cols(by_rows@));
    }
    *glyphs = out;
}


/// A box without its reading-order coordinates.
pub open spec fn unplaced(g: GlyphBbox) -> GlyphBbox {
    GlyphBbox { row: 0, col: 0, ..g }
}

pub open spec fn unplaced_all(s: Seq<GlyphBbox>) -> Seq<GlyphBbox> {
    s.map_values(|g: GlyphBbox| unplaced(g))
}

proof fn lemma_row_state_bounds(s: Seq<GlyphBbox>, tol: int, i: nat)
    requires
        s.len() > 0,
    ensures
        0 <= row_state(s, tol, i).0 <= i,
    decreases i,
{
    if i > 0 {
        lemma_row_state_bounds(s, tol, (i - 1) as nat);
    }
}

proof fn lemma_row_state_monotone(s: Seq<GlyphBbox>, tol: int, i: nat, j: nat)
    requires
        i <= j,
    ensures
        row_state(s, tol, i).0 <= row_state(s, tol, j).0,
    decreases j,
{
    if i < j {
        lemma_row_state_monotone(s, tol, i, (j - 1) as nat);
    }
}

/// Boxes that share a center after `p` in the center order never open a new row.
proof fn lemma_row_state_same_center(s: Seq<GlyphBbox>, tol: int, p: int, k: int)
    requires
        0 <= p < k <= s.len(),
        tol >= 0,
        sorted_by(s, center_key()),
        forall|m: int| p <= m < k ==> center(#[trigger] s[m]) == center(s[p]),
    ensures
        row_state(s, tol, k as nat).0 == row_state(s, tol, (p + 1) as nat).0,
        abs_diff(center(s[p]), row_state(s, tol, k as nat).1) <= tol,
    decreases k - p,
{
    if k > p + 1 {
        lemma_row_state_same_center(s, tol, p, k - 1);
        assert(center(s[k - 1]) == center(s[p]));
    }
}

proof fn lemma_with_rows_top_down(s: Seq<GlyphBbox>, tol: int, p: int, q: int)
    requires
        0 <= p < s.len(),
        0 <= q < s.len(),
        s.len() < u32::MAX,
        tol >= 0,
        sorted_by(s, center_key()),
        with_rows(s, tol)[p].row < with_rows(s, tol)[q].row,
    ensures
        center(s[p]) < center(s[q]),
{
    lemma_row_state_bounds(s, tol, (p + 1) as nat);
    lemma_row_state_bounds(s, tol, (q + 1) as nat);
    if q <= p {
        lemma_row_state_monotone(s, tol, (q + 1) as nat, (p + 1) as nat);
    }
    assert(p < q);
    assert(center_key()(s[p]) <= center_key()(s[q]));
    if center(s[p]) == center(s[q]) {
        assert forall|m: int| p <= m < q + 1 implies center(#[trigger] s[m]) == center(s[p]) by {
            assert(center_key()(s[p]) <= center_key()(s[m]));
            assert(center_key()(s[m]) <= center_key()(s[q]));
        }
        lemma_row_state_same_center(s, tol, p, q + 1);
    }
}

proof fn lemma_tolerance_nonneg(s: Seq<GlyphBbox>)
    requires
        s.len() > 0,
    ensures
        row_tolerance(s) >= 0,
{
}

/// The reading order only rearranges the boxes and fills in their row and column.
pub proof fn law_reading_order_permutes(s: Seq<GlyphBbox>)
    ensures
        reading_order(s).len() == s.len(),
        unplaced_all(reading_order(s)).to_multiset() == unplaced_all(s).to_multiset(),
{
    if s.len() > 0 {
        let c = sort_by_key(s, center_key());
        let rows = with_rows(c, row_tolerance(c));
        let sorted = sort_by_key(rows, row_x_key());
        let f = |g: GlyphBbox| unplaced(g);
        lemma_sort_by_key_sorted(s, center_key());
        lemma_sort_by_key_sorted(rows, row_x_key());
        lemma_map_preserves_permutation(c, s, f);
        lemma_map_preserves_permutation(sorted, rows, f);
        assert(unplaced_all(rows) =~= unplaced_all(c));
        assert(unplaced_all(reading_order(s)) =~= unplaced_all(sorted));
    }
}

/// Boxes come out ordered by row, and by left edge within a row.
pub proof fn law_reading_order_row_major(s: Seq<GlyphBbox>)
    ensures
        forall|i: int, j: int|
            0 <= i < j < reading_order(s).len() ==> {
                let a = #[trigger] reading_order(s)[i];
                let b = #[trigger] reading_order(s)[j];
                a.row < b.row || (a.row == b.row && a.x <= b.x)
            },
{
    if s.len() > 0 {
        let c = sort_by_key(s, center_key());
        let rows = with_rows(c, row_tolerance(c));
        let sorted = sort_by_key(rows, row_x_key());
        lemma_sort_by_key_sorted(rows, row_x_key());
        assert forall|i: int, j: int| 0 <= i < j < reading_order(s).len() implies {
            let a = #[trigger] reading_order(s)[i];
            let b = #[trigger] reading_order(s)[j];
            a.row < b.row || (a.row == b.row && a.x <= b.x)
        } by {
            assert(row_x_key()(sorted[i]) <= row_x_key()(sorted[j]));
        }
    }
}

/// Columns number the boxes of each row from 0, left to right.
pub proof fn law_reading_order_columns(s: Seq<GlyphBbox>)
    requires
        s.len() < u32::MAX,
    ensures
        reading_order(s).len() > 0 ==> reading_order(s)[0].col == 0,
        forall|i: int|
            0 < i < reading_order(s).len() ==> (#[trigger] reading_order(s)[i]).col == if
            reading_order(s)[i].row == reading_order(s)[i - 1].row {
                reading_order(s)[i - 1].col + 1
            } else {
                0
            },
{
    if s.len() > 0 {
        let c = sort_by_key(s, center_key());
        let rows = with_rows(c, row_tolerance(c));
        let sorted = sort_by_key(rows, row_x_key());
        lemma_sort_by_key_sorted(s, center_key());
        lemma_sort_by_key_sorted(rows, row_x_key());
        assert forall|i: int| 0 <= i < sorted.len() implies 0 <= #[trigger] col_of(sorted, i) <= i by {
            lemma_col_of_bounds(sorted, i);
        }
    }
}

proof fn lemma_col_of_bounds(s: Seq<GlyphBbox>, i: int)
    requires
        0 <= i,
    ensures
        0 <= col_of(s, i) <= i,
    decreases i,
{
    if i > 0 {
        lemma_col_of_bounds(s, i - 1);
    }
}

/// Top to bottom: a box placed in an earlier row has a strictly higher vertical center.
pub proof fn law_reading_order_top_down(s: Seq<GlyphBbox>)
    requires
        s.len() < u32::MAX,
    ensures
        forall|i: int, j: int|
            0 <= i < reading_order(s).len() && 0 <= j < reading_order(s).len() && (
            #[trigger] reading_order(s)[i]).row < (#[trigger] reading_order(s)[j]).row ==> center(
                reading_order(s)[i],
            ) < center(reading_order(s)[j]),
{
    if s.len() > 0 {
        let c = sort_by_key(s, center_key());
        let tol = row_tolerance(c);
        let rows = with_rows(c, tol);
        let sorted = sort_by_key(rows, row_x_key());
        lemma_sort_by_key_sorted(s, center_key());
        lemma_sort_by_key_sorted(rows, row_x_key());
        lemma_tolerance_nonneg(c);
        assert forall|i: int, j: int|
            0 <= i < reading_order(s).len() && 0 <= j < reading_order(s).len() && (
            #[trigger] reading_order(s)[i]).row < (#[trigger] reading_order(s)[j]).row implies center(
            reading_order(s)[i]) < center(reading_order(s)[j]) by {
            lemma_sorted_member(rows, row_x_key(), i);
            lemma_sorted_member(rows, row_x_key(), j);
            let p = choose|p: int| 0 <= p < rows.len() && rows[p] == sorted[i];
            let q = choose|q: int| 0 <= q < rows.len() && rows[q] == sorted[j];
            lemma_with_rows_top_down(c, tol, p, q);
        }
    }
}


proof fn lemma_row_state_step(s: Seq<GlyphBbox>, tol: int, i: nat)
    requires
        i > 0,
        s.len() > 0,
        tol >= 0,
    ensures
        row_state(s, tol, i).0 <= row_state(s, tol, (i - 1) as nat).0 + 1,
        row_state(s, tol, i).0 >= row_state(s, tol, (i - 1) as nat).0,
        i == 1 ==> row_state(s, tol, i).0 == 0,
{
}

/// Every row index from 0 up to that of the `j`-th box occurs among the first `j + 1` boxes.
proof fn lemma_with_rows_no_gap(s: Seq<GlyphBbox>, tol: int, j: int, v: int)
    requires
        0 <= j < s.len(),
        s.len() < u32::MAX,
        tol >= 0,
        0 <= v <= with_rows(s, tol)[j].row,
    ensures
        exists|k: int| 0 <= k <= j && (#[trigger] with_rows(s, tol)[k]).row == v,
    decreases j,
{
    let w = with_rows(s, tol);
    lemma_row_state_bounds(s, tol, (j + 1) as nat);
    if w[j].row == v {
        assert(w[j].row == v);
    } else {
        lemma_row_state_step(s, tol, (j + 1) as nat);
        if j == 0 {
            assert(false);
        } else {
            lemma_row_state_bounds(s, tol, j as nat);
            lemma_with_rows_no_gap(s, tol, j - 1, v);
            let k = choose|k: int| 0 <= k <= j - 1 && (#[trigger] w[k]).row == v;
            assert(w[k].row == v);
        }
    }
}

/// Every box of the input occurs somewhere in its stable sort.
proof fn lemma_sorted_has_member<T>(s: Seq<T>, key: spec_fn(T) -> int, j: int)
    requires
        0 <= j < s.len(),
    ensures
        exists|t: int| 0 <= t < sort_by_key(s, key).len() && #[trigger] sort_by_key(s, key)[t] == s[j],
{
    broadcast use vstd::seq_lib::group_to_multiset_ensures;
    lemma_sort_by_key_sorted(s, key);
    assert(s.to_multiset().count(s[j]) > 0);
    assert(sort_by_key(s, key).contains(s[j]));
}

/// Row indices start at 0 and never skip a value: each box is in the row of its predecessor
/// or the next one.
pub proof fn law_reading_order_rows_contiguous(s: Seq<GlyphBbox>)
    requires
        s.len() < u32::MAX,
    ensures
        reading_order(s).len() > 0 ==> reading_order(s)[0].row == 0,
        forall|i: int|
            0 < i < reading_order(s).len() ==> (#[trigger] reading_order(s)[i]).row <= reading_order(
                s,
            )[i - 1].row + 1,
{
    if s.len() > 0 {
        let c = sort_by_key(s, center_key());
        let tol = row_tolerance(c);
        let w = with_rows(c, tol);
        let sorted = sort_by_key(w, row_x_key());
        let r = reading_order(s);
        lemma_sort_by_key_sorted(s, center_key());
        lemma_sort_by_key_sorted(w, row_x_key());
        lemma_tolerance_nonneg(c);
        // the first box of the center order opens row 0, and it sorts first
        lemma_row_state_step(c, tol, 1);
        assert(w[0].row == 0);
        lemma_sorted_has_member(w, row_x_key(), 0);
        let t0 = choose|t: int| 0 <= t < sorted.len() && #[trigger] sorted[t] == w[0];
        assert(row_x_key()(sorted[0]) <= row_x_key()(sorted[t0]));
        assert(r[0].row == sorted[0].row);
        assert forall|i: int| 0 < i < r.len() implies (#[trigger] r[i]).row <= r[i - 1].row + 1 by {
            lemma_sorted_member(w, row_x_key(), i);
            let j = choose|j: int| 0 <= j < w.len() && w[j] == sorted[i];
            if sorted[i].row > sorted[i - 1].row + 1 {
                let v = sorted[i - 1].row + 1;
                lemma_with_rows_no_gap(c, tol, j, v);
                let k = choose|k: int| 0 <= k <= j && (#[trigger] w[k]).row == v;
                lemma_sorted_has_member(w, row_x_key(), k);
                let t = choose|t: int| 0 <= t < sorted.len() && #[trigger] sorted[t] == w[k];
                if t <= i - 1 {
                    assert(row_x_key()(sorted[t]) <= row_x_key()(sorted[i - 1]));
                } else {
                    assert(row_x_key()(sorted[i]) <= row_x_key()(sorted[t]));
                }
            }
        }
    }
}


/// A box with its column cleared.
pub open spec fn without_col() -> spec_fn(GlyphBbox) -> GlyphBbox {
    |g: GlyphBbox| with_col(g, 0)
}

/// The vertical centers of the boxes, in order.
pub open spec fn centers_of(s: Seq<GlyphBbox>) -> Seq<int> {
    s.map_values(|g: GlyphBbox| center(g))
}

/// Integers ordered by themselves.
pub open spec fn int_key() -> spec_fn(int) -> int {
    |i: int| i
}

/// The row walk reads nothing but the centers.
proof fn lemma_row_state_centers(a: Seq<GlyphBbox>, b: Seq<GlyphBbox>, tol: int, i: nat)
    requires
        a.len() == b.len() > 0,
        i <= a.len(),
        centers_of(a) == centers_of(b),
    ensures
        row_state(a, tol, i) == row_state(b, tol, i),
    decreases i,
{
    assert(centers_of(a)[0] == center(a[0]));
    assert(centers_of(b)[0] == center(b[0]));
    if i > 0 {
        lemma_row_state_centers(a, b, tol, (i - 1) as nat);
        let k = i - 1;
        assert(centers_of(a)[k] == center(a[k]));
        assert(centers_of(b)[k] == center(b[k]));
    }
}

/// Columns read nothing but the rows.
proof fn lemma_col_of_rows(a: Seq<GlyphBbox>, b: Seq<GlyphBbox>, i: int)
    requires
        a.len() == b.len(),
        i < a.len(),
        forall|k: int| 0 <= k < a.len() ==> (#[trigger] a[k]).row == b[k].row,
    ensures
        col_of(a, i) == col_of(b, i),
    decreases i,
{
    if i > 0 {
        lemma_col_of_rows(a, b, i - 1);
        assert(a[i].row == b[i].row && a[i - 1].row == b[i - 1].row);
    }
}

/// The centers of the center-sorted boxes are in order, and are those of the boxes.
proof fn lemma_centers_sorted(s: Seq<GlyphBbox>)
    ensures
        sorted_by(centers_of(sort_by_key(s, center_key())), int_key()),
        centers_of(sort_by_key(s, center_key())).to_multiset() == centers_of(unplaced_all(s)).to_multiset(),
{
    let c = sort_by_key(s, center_key());
    lemma_sort_by_key_sorted(s, center_key());
    let cs = centers_of(c);
    assert forall|i: int, j: int| 0 <= i < j < cs.len() implies int_key()(#[trigger] cs[i])
        <= int_key()(#[trigger] cs[j]) by {
        assert(center_key()(c[i]) <= center_key()(c[j]));
    }
    lemma_map_preserves_permutation(c, s, |g: GlyphBbox| center(g));
    assert(centers_of(unplaced_all(s)) =~= centers_of(s));
}

/// The sorted heights of the center-sorted boxes are in order, and are those of the boxes.
proof fn lemma_heights_sorted(s: Seq<GlyphBbox>)
    ensures
        sort_by_key(heights_of(sort_by_key(s, center_key())), height_key()).to_multiset()
            == heights_of(unplaced_all(s)).to_multiset(),
        sorted_by(sort_by_key(heights_of(sort_by_key(s, center_key())), height_key()), height_key()),
{
    let c = sort_by_key(s, center_key());
    lemma_sort_by_key_sorted(s, center_key());
    lemma_sort_by_key_sorted(heights_of(c), height_key());
    lemma_map_preserves_permutation(c, s, |g: GlyphBbox| g.h);
    assert(heights_of(unplaced_all(s)) =~= heights_of(s));
}

/// A second pass leaves the reading order unchanged: the same boxes in the same order, with
/// the same rows and columns.
pub proof fn law_reading_order_idempotent(s: Seq<GlyphBbox>)
    ensures
        reading_order(reading_order(s)) == reading_order(s),
{
    if s.len() > 0 {
        let ck = center_key();
        let rk = row_x_key();
        let c = sort_by_key(s, ck);
        let tol = row_tolerance(c);
        let w = with_rows(c, tol);
        let q = sort_by_key(w, rk);
        let r = with_cols(q);
        law_reading_order_permutes(s);
        assert(r == reading_order(s));
        let c2 = sort_by_key(r, ck);
        lemma_sort_by_key_sorted(s, ck);
        lemma_sort_by_key_sorted(r, ck);
        lemma_sort_by_key_sorted(w, rk);
        // the same centers in the same order, and the same tolerance
        lemma_centers_sorted(s);
        lemma_centers_sorted(r);
        lemma_map_preserves_permutation(unplaced_all(r), unplaced_all(s), |g: GlyphBbox| center(g));
        assert(centers_of(unplaced_all(r)) =~= unplaced_all(r).map_values(|g: GlyphBbox| center(g)));
        assert(centers_of(unplaced_all(s)) =~= unplaced_all(s).map_values(|g: GlyphBbox| center(g)));
        lemma_sorted_permutation_unique(centers_of(c), centers_of(c2), int_key());
        lemma_heights_sorted(s);
        lemma_heights_sorted(r);
        lemma_map_preserves_permutation(unplaced_all(r), unplaced_all(s), |g: GlyphBbox| g.h);
        assert(heights_of(unplaced_all(r)) =~= unplaced_all(r).map_values(|g: GlyphBbox| g.h));
        assert(heights_of(unplaced_all(s)) =~= unplaced_all(s).map_values(|g: GlyphBbox| g.h));
        lemma_sorted_permutation_unique(
            sort_by_key(heights_of(c), height_key()),
            sort_by_key(heights_of(c2), height_key()),
            height_key(),
        );
        assert(row_tolerance(c2) == tol);
        let w2 = with_rows(c2, tol);
        let q2 = sort_by_key(w2, rk);
        assert(reading_order(r) == with_cols(q2));
        lemma_tolerance_nonneg(c);
        // the second walk gives every box the row it already has
        assert forall|i: int| 0 <= i < c2.len() implies (#[trigger] w2[i]) == c2[i] by {
            lemma_row_state_centers(c2, c, tol, (i + 1) as nat);
            lemma_sorted_member(r, ck, i);
            let k = choose|k: int| 0 <= k < r.len() && r[k] == c2[i];
            lemma_sorted_member(w, rk, k);
            let j = choose|j: int| 0 <= j < w.len() && w[j] == q[k];
            assert(centers_of(c)[i] == centers_of(c2)[i]);
            assert(center(c[j]) == center(c[i]));
            let (lo, hi) = if i <= j { (i, j) } else { (j, i) };
            if lo < hi {
                assert forall|m: int| lo <= m < hi + 1 implies center(#[trigger] c[m]) == center(c[lo]) by {
                    assert(ck(c[lo]) <= ck(c[m]));
                    assert(ck(c[m]) <= ck(c[hi]));
                }
                lemma_row_state_same_center(c, tol, lo, hi + 1);
            }
            assert(c2[i].row == w[j].row);
        }
        assert(w2 =~= c2);
        // hence the final sort puts the boxes in the same order
        let f = without_col();
        let nq = q.map_values(f);
        let nq2 = q2.map_values(f);
        lemma_sort_map(w, rk, f);
        lemma_sort_map(w2, rk, f);
        lemma_sort_map(r, ck, f);
        let nw = w.map_values(f);
        let nw2 = w2.map_values(f);
        lemma_sort_by_key_sorted(nw, rk);
        lemma_sort_by_key_sorted(nw2, rk);
        assert(r.map_values(f) =~= nq);
        assert(sorted_by(nw, ck)) by {
            assert forall|i: int, j: int| 0 <= i < j < nw.len() implies ck(#[trigger] nw[i]) <= ck(
                #[trigger] nw[j],
            ) by {
                assert(ck(c[i]) <= ck(c[j]));
            }
        }
        assert(sorted_by(nw2, ck)) by {
            assert forall|i: int, j: int| 0 <= i < j < nw2.len() implies ck(#[trigger] nw2[i]) <= ck(
                #[trigger] nw2[j],
            ) by {
                assert(ck(c2[i]) <= ck(c2[j]));
            }
        }
        assert forall|v: int| #[trigger] key_class(nq2, rk, v) == key_class(nq, rk, v) by {
            let pv = has_key(rk, v);
            lemma_sort_filter(nw2, rk, pv);
            lemma_sort_filter(nw, rk, pv);
            let a = nw2.filter(pv);
            let b = nw.filter(pv);
            lemma_filter_sorted(nw2, ck, pv);
            lemma_filter_sorted(nw, ck, pv);
            assert forall|u: int| #[trigger] key_class(a, ck, u) == key_class(b, ck, u) by {
                let pu = has_key(ck, u);
                let p = both(pv, pu);
                lemma_filter_filter(nw2, pv, pu);
                lemma_filter_filter(nw, pv, pu);
                lemma_sort_filter(r.map_values(f), ck, p);
                lemma_sort_filter(nw, rk, p);
            }
            lemma_sorted_unique(a, b, ck);
        }
        lemma_sorted_unique(nq2, nq, rk);
        // columns depend on the rows alone
        assert forall|k: int| 0 <= k < q2.len() implies (#[trigger] q2[k]).row == q[k].row by {
            assert(nq2[k] == nq[k]);
        }
        assert forall|i: int| 0 <= i < q.len() implies (#[trigger] with_cols(q2)[i]) == with_cols(q)[i] by {
            assert(nq2[i] == nq[i]);
            lemma_col_of_rows(q2, q, i);
        }
        assert(with_cols(q2) =~= with_cols(q));
    }
}


/// Each box of the reading order is a box of the input with its row and column filled in.
pub proof fn law_reading_order_members(s: Seq<GlyphBbox>)
    ensures
        forall|i: int|
            0 <= i < reading_order(s).len() ==> exists|j: int|
                0 <= j < s.len() && unplaced(#[trigger] reading_order(s)[i]) == unplaced(s[j]),
{
    broadcast use vstd::seq_lib::group_to_multiset_ensures;
    law_reading_order_permutes(s);
    let r = reading_order(s);
    assert forall|i: int| 0 <= i < r.len() implies exists|j: int|
        0 <= j < s.len() && unplaced(#[trigger] r[i]) == unplaced(s[j]) by {
        let u = unplaced_all(r);
        assert(u[i] == unplaced(r[i]));
        assert(u.contains(u[i]));
        assert(unplaced_all(s).to_multiset().count(u[i]) > 0);
        assert(unplaced_all(s).contains(u[i]));
        let j = choose|j: int| 0 <= j < unplaced_all(s).len() && unplaced_all(s)[j] == u[i];
        assert(unplaced_all(s)[j] == unplaced(s[j]));
    }
}


/// Row of the `p`-th box of the center order `c`, as the row walk gives it.
pub open spec fn row_of(c: Seq<GlyphBbox>, tol: int, p: int) -> int {
    row_state(c, tol, (p + 1) as nat).0
}

/// The `p`-th box of the center order is the first of its row.
pub open spec fn opens_row(c: Seq<GlyphBbox>, tol: int, p: int) -> bool {
    p == 0 || row_of(c, tol, p - 1) < row_of(c, tol, p)
}

/// What the walk keeps over the first `i` boxes: boxes of one row lie within `tol` of each
/// other, a box of a later row lies more than `tol` below the first box of an earlier row, and
/// the walk's current center is that of the first box of the current row.
spec fn walk_inv(c: Seq<GlyphBbox>, tol: int, i: int) -> bool {
    &&& forall|p: int, q: int|
        #![trigger row_of(c, tol, p), row_of(c, tol, q)]
        0 <= p < q < i && row_of(c, tol, p) == row_of(c, tol, q) ==> center(c[q]) - center(c[p])
            <= tol
    &&& forall|p: int, q: int|
        #![trigger row_of(c, tol, p), row_of(c, tol, q)]
        0 <= p < q < i && row_of(c, tol, p) < row_of(c, tol, q) && opens_row(c, tol, p) ==> center(
            c[q],
        ) - center(c[p]) > tol
    &&& exists|f: int|
        0 <= f < i && #[trigger] row_of(c, tol, f) == row_state(c, tol, i as nat).0 && opens_row(
            c,
            tol,
            f,
        ) && center(c[f]) == row_state(c, tol, i as nat).1
}

proof fn lemma_row_of_monotone(c: Seq<GlyphBbox>, tol: int, p: int, q: int)
    requires
        0 <= p <= q,
    ensures
        row_of(c, tol, p) <= row_of(c, tol, q),
{
    lemma_row_state_monotone(c, tol, (p + 1) as nat, (q + 1) as nat);
}

proof fn lemma_centers_ordered(c: Seq<GlyphBbox>, p: int, q: int)
    requires
        sorted_by(c, center_key()),
        0 <= p <= q < c.len(),
    ensures
        center(c[p]) <= center(c[q]),
{
    if p < q {
        assert(center_key()(c[p]) <= center_key()(c[q]));
    }
}

proof fn lemma_walk(c: Seq<GlyphBbox>, tol: int, i: int)
    requires
        sorted_by(c, center_key()),
        1 <= i <= c.len(),
        tol >= 0,
    ensures
        walk_inv(c, tol, i),
    decreases i,
{
    if i == 1 {
        assert(row_state(c, tol, 0) == (0int, center(c[0])));
        assert(row_state(c, tol, 1) == (0int, center(c[0])));
        assert(row_of(c, tol, 0) == 0);
        assert(opens_row(c, tol, 0));
    } else {
        let k = i - 1;
        lemma_walk(c, tol, k);
        let st = row_state(c, tol, k as nat);
        let f = choose|f: int|
            0 <= f < k && #[trigger] row_of(c, tol, f) == st.0 && opens_row(c, tol, f) && center(
                c[f],
            ) == st.1;
        let cy = center(c[k]);
        lemma_centers_ordered(c, f, k);
        assert(row_of(c, tol, k - 1) == st.0);
        let fresh = abs_diff(cy, st.1) > tol;
        assert(row_of(c, tol, k) == if fresh { st.0 + 1 } else { st.0 });
        assert(row_state(c, tol, i as nat) == if fresh { (st.0 + 1, cy) } else { st });
        assert forall|p: int, q: int|
            #![trigger row_of(c, tol, p), row_of(c, tol, q)]
            0 <= p < q < i && row_of(c, tol, p) == row_of(c, tol, q) implies center(c[q])
            - center(c[p]) <= tol by {
            if q == k {
                lemma_row_of_monotone(c, tol, p, k - 1);
                if p < f {
                    lemma_row_of_monotone(c, tol, p, f - 1);
                }
                lemma_centers_ordered(c, f, p);
            }
        }
        assert forall|p: int, q: int|
            #![trigger row_of(c, tol, p), row_of(c, tol, q)]
            0 <= p < q < i && row_of(c, tol, p) < row_of(c, tol, q) && opens_row(c, tol, p)
            implies center(c[q]) - center(c[p]) > tol by {
            if q == k {
                lemma_row_of_monotone(c, tol, p, k - 1);
                if fresh {
                    if p > f {
                        lemma_row_of_monotone(c, tol, f, p - 1);
                    }
                    lemma_centers_ordered(c, p, f);
                } else {
                    if p >= f {
                        lemma_row_of_monotone(c, tol, f, p);
                    }
                    assert(row_of(c, tol, p) < row_of(c, tol, f));
                }
            }
        }
        if fresh {
            assert(opens_row(c, tol, k));
            assert(row_of(c, tol, k) == row_state(c, tol, i as nat).0);
        } else {
            assert(row_of(c, tol, f) == row_state(c, tol, i as nat).0);
        }
    }
}

/// Every box of the center order has a first box of its row at or before it.
proof fn lemma_row_opener(c: Seq<GlyphBbox>, tol: int, p: int)
    requires
        0 <= p,
    ensures
        exists|f: int| 0 <= f <= p && #[trigger] row_of(c, tol, f) == row_of(c, tol, p) && opens_row(c, tol, f),
    decreases p,
{
    if opens_row(c, tol, p) {
        assert(0 <= p <= p && row_of(c, tol, p) == row_of(c, tol, p) && opens_row(c, tol, p));
    } else {
        lemma_row_of_monotone(c, tol, p - 1, p);
        assert(row_of(c, tol, p - 1) == row_of(c, tol, p));
        lemma_row_opener(c, tol, p - 1);
        let f = choose|f: int|
            0 <= f <= p - 1 && #[trigger] row_of(c, tol, f) == row_of(c, tol, p - 1) && opens_row(
                c,
                tol,
                f,
            );
        assert(0 <= f <= p && row_of(c, tol, f) == row_of(c, tol, p) && opens_row(c, tol, f));
    }
}

/// The median height of the center-sorted boxes is that of the boxes.
proof fn lemma_median_of_center_order(s: Seq<GlyphBbox>)
    requires
        s.len() > 0,
    ensures
        median_height(sort_by_key(s, center_key())) == median_height(s),
{
    let c = sort_by_key(s, center_key());
    lemma_heights_sorted(s);
    lemma_sort_by_key_sorted(heights_of(s), height_key());
    lemma_sort_by_key_sorted(s, center_key());
    assert(heights_of(unplaced_all(s)) =~= heights_of(s));
    lemma_sorted_permutation_unique(
        sort_by_key(heights_of(c), height_key()),
        sort_by_key(heights_of(s), height_key()),
        height_key(),
    );
}

/// Rows by vertical center, with a tolerance of two thirds of the median box height (at least
/// one pixel tall): boxes of one row have centers within the tolerance of each other, and every
/// box of a later row has its center more than the tolerance below the highest center of an
/// earlier row.
pub proof fn law_reading_order_row_tolerance(s: Seq<GlyphBbox>)
    requires
        0 < s.len() < u32::MAX,
    ensures
        forall|i: int, j: int|
            0 <= i < reading_order(s).len() && 0 <= j < reading_order(s).len() && (
            #[trigger] reading_order(s)[i]).row == (#[trigger] reading_order(s)[j]).row ==> (reading_order(s)[j].y
                + reading_order(s)[j].h / 2) - (reading_order(s)[i].y + reading_order(s)[i].h / 2)
                <= median_height(s) * 2 / 3,
        forall|i: int, j: int|
            0 <= i < reading_order(s).len() && 0 <= j < reading_order(s).len() && (
            #[trigger] reading_order(s)[i]).row < (#[trigger] reading_order(s)[j]).row && (forall|
                k: int,
            |
                0 <= k < reading_order(s).len() && (#[trigger] reading_order(s)[k]).row
                    == reading_order(s)[i].row ==> (reading_order(s)[i].y + reading_order(s)[i].h / 2) <= (reading_order(s)[k].y + reading_order(s)[k].h / 2)) ==> (reading_order(s)[j].y + reading_order(s)[j].h / 2) - (reading_order(s)[i].y + reading_order(s)[i].h / 2) > median_height(
                s,
            ) * 2 / 3,
{
    let ck = center_key();
    let rk = row_x_key();
    let c = sort_by_key(s, ck);
    let tol = row_tolerance(c);
    let w = with_rows(c, tol);
    let q = sort_by_key(w, rk);
    let r = reading_order(s);
    let n = s.len() as int;
    assert(r == with_cols(q));
    lemma_sort_by_key_sorted(s, ck);
    lemma_sort_by_key_sorted(w, rk);
    lemma_tolerance_nonneg(c);
    lemma_median_of_center_order(s);
    assert(tol == median_height(s) * 2 / 3);
    lemma_walk(c, tol, n);
    // rows of the walk are exact in u32
    assert forall|p: int| 0 <= p < n implies (#[trigger] w[p]).row == row_of(c, tol, p) && center(w[p])
        == center(c[p]) by {
        lemma_row_state_bounds(c, tol, (p + 1) as nat);
    }
    // each box of the result is a box of the walk, with the same row and center
    assert forall|i: int| 0 <= i < n implies exists|p: int|
        0 <= p < n && (#[trigger] r[i]).row == w[p].row && center(r[i]) == center(w[p]) by {
        lemma_sorted_member(w, rk, i);
        let p = choose|p: int| 0 <= p < w.len() && w[p] == q[i];
        assert(r[i].row == w[p].row && center(r[i]) == center(w[p]));
    }
    assert forall|i: int, j: int|
        0 <= i < r.len() && 0 <= j < r.len() && (#[trigger] r[i]).row == (#[trigger] r[j]).row
        implies center(r[j]) - center(r[i]) <= tol by {
        let p = choose|p: int| 0 <= p < n && r[i].row == w[p].row && center(r[i]) == center(w[p]);
        let pj = choose|p: int| 0 <= p < n && r[j].row == w[p].row && center(r[j]) == center(w[p]);
        assert(w[p].row == row_of(c, tol, p) && w[pj].row == row_of(c, tol, pj));
        if p < pj {
            lemma_centers_ordered(c, p, pj);
        } else if pj < p {
            lemma_centers_ordered(c, pj, p);
        }
    }
    assert forall|i: int, j: int|
        0 <= i < r.len() && 0 <= j < r.len() && (#[trigger] r[i]).row < (#[trigger] r[j]).row && (
        forall|k: int| 0 <= k < r.len() && (#[trigger] r[k]).row == r[i].row ==> center(r[i])
            <= center(r[k])) implies center(r[j]) - center(r[i]) > tol by {
        let p = choose|p: int| 0 <= p < n && r[i].row == w[p].row && center(r[i]) == center(w[p]);
        let pj = choose|p: int| 0 <= p < n && r[j].row == w[p].row && center(r[j]) == center(w[p]);
        assert(w[p].row == row_of(c, tol, p) && w[pj].row == row_of(c, tol, pj));
        lemma_row_opener(c, tol, p);
        let f = choose|f: int| 0 <= f <= p && #[trigger] row_of(c, tol, f) == row_of(c, tol, p) && opens_row(c, tol, f);
        assert(w[f].row == row_of(c, tol, f));
        lemma_sorted_has_member(w, rk, f);
        let t = choose|t: int| 0 <= t < q.len() && #[trigger] q[t] == w[f];
        assert(r[t].row == w[f].row && center(r[t]) == center(w[f]));
        assert(center(r[i]) <= center(r[t]));
        lemma_centers_ordered(c, f, p);
        if pj <= f {
            lemma_row_of_monotone(c, tol, pj, f);
        }
    }
}


/// How many of the heights are below `v` (`strict`), or at most `v`.
pub open spec fn count_heights_below(t: Seq<u32>, v: int, strict: bool) -> nat
    decreases t.len(),
{
    if t.len() == 0 {
        0
    } else {
        count_heights_below(t.drop_last(), v, strict) + if (strict && t.last() < v) || (!strict
            && t.last() <= v) {
            1nat
        } else {
            0nat
        }
    }
}

proof fn lemma_count_heights_add(a: Seq<u32>, b: Seq<u32>, v: int, strict: bool)
    ensures
        count_heights_below(a + b, v, strict) == count_heights_below(a, v, strict)
            + count_heights_below(b, v, strict),
    decreases b.len(),
{
    if b.len() == 0 {
        assert(a + b =~= a);
    } else {
        lemma_count_heights_add(a, b.drop_last(), v, strict);
        assert((a + b).drop_last() =~= a + b.drop_last());
    }
}

proof fn lemma_count_heights_perm(a: Seq<u32>, b: Seq<u32>, v: int, strict: bool)
    requires
        a.to_multiset() == b.to_multiset(),
    ensures
        count_heights_below(a, v, strict) == count_heights_below(b, v, strict),
    decreases a.len(),
{
    broadcast use vstd::seq_lib::group_to_multiset_ensures;
    if a.len() == 0 {
        vstd::seq_lib::to_multiset_len(a);
        vstd::seq_lib::to_multiset_len(b);
        assert(b =~= a);
    } else {
        let x = a.last();
        let a1 = a.drop_last();
        assert(a == a1.push(x));
        assert(a.to_multiset().count(x) > 0);
        assert(b.contains(x));
        let i = choose|i: int| 0 <= i < b.len() && b[i] == x;
        let b1 = b.remove(i);
        assert(b1.to_multiset() == b.to_multiset().remove(x));
        assert(a1.to_multiset() == a.to_multiset().remove(x));
        lemma_count_heights_perm(a1, b1, v, strict);
        assert(b =~= b.take(i) + (seq![x] + b.skip(i + 1)));
        assert(b1 =~= b.take(i) + b.skip(i + 1));
        lemma_count_heights_add(b.take(i), seq![x] + b.skip(i + 1), v, strict);
        lemma_count_heights_add(seq![x], b.skip(i + 1), v, strict);
        lemma_count_heights_add(b.take(i), b.skip(i + 1), v, strict);
        assert(seq![x].drop_last() =~= Seq::<u32>::empty());
        let one: nat = if (strict && x < v) || (!strict && x <= v) { 1 } else { 0 };
        assert(count_heights_below(Seq::<u32>::empty(), v, strict) == 0);
        assert(count_heights_below(seq![x], v, strict) == one);
        assert(count_heights_below(a, v, strict) == count_heights_below(a1, v, strict) + one);
    }
}

proof fn lemma_count_heights_bound(t: Seq<u32>, v: int, strict: bool)
    ensures
        count_heights_below(t, v, strict) <= t.len(),
    decreases t.len(),
{
    if t.len() > 0 {
        lemma_count_heights_bound(t.drop_last(), v, strict);
    }
}

/// In ascending heights, fewer than `k + 1` lie below the `k`-th and at least `k + 1` are at
/// most it.
proof fn lemma_count_heights_sorted(t: Seq<u32>, k: int)
    requires
        sorted_by(t, height_key()),
        0 <= k < t.len(),
    ensures
        count_heights_below(t, t[k] as int, true) <= k,
        count_heights_below(t, t[k] as int, false) >= k + 1,
    decreases t.len(),
{
    let n = t.len() as int;
    let t1 = t.drop_last();
    assert(height_key()(t[k]) <= height_key()(t[n - 1]) || k == n - 1);
    if k == n - 1 {
        lemma_count_heights_bound(t1, t[k] as int, true);
        lemma_count_heights_all(t1, t[k] as int);
    } else {
        assert(sorted_by(t1, height_key())) by {
            assert forall|i: int, j: int| 0 <= i < j < t1.len() implies height_key()(#[trigger] t1[i])
                <= height_key()(#[trigger] t1[j]) by {
                assert(t1[i] == t[i] && t1[j] == t[j]);
            }
        }
        assert(t1[k] == t[k]);
        lemma_count_heights_sorted(t1, k);
    }
}

/// When every height is at most `v`, all of them count.
proof fn lemma_count_heights_all(t: Seq<u32>, v: int)
    requires
        forall|i: int| 0 <= i < t.len() ==> t[i] <= v,
    ensures
        count_heights_below(t, v, false) == t.len(),
    decreases t.len(),
{
    if t.len() > 0 {
        lemma_count_heights_all(t.drop_last(), v);
    }
}

/// The median height is the height of a box with at most half of the boxes (rounded down)
/// lower than it and more than half at most as tall, raised to one pixel if it is zero.
pub proof fn law_median_height(s: Seq<GlyphBbox>)
    requires
        s.len() > 0,
    ensures
        exists|j: int|
            0 <= j < s.len() && median_height(s) == (if (#[trigger] s[j]).h < 1 {
                1
            } else {
                s[j].h as int
            }) && count_heights_below(heights_of(s), s[j].h as int, true) <= s.len() / 2
                && count_heights_below(heights_of(s), s[j].h as int, false) > s.len() / 2,
{
    let h = heights_of(s);
    let t = sort_by_key(h, height_key());
    let k = (s.len() / 2) as int;
    lemma_sort_by_key_sorted(h, height_key());
    lemma_sorted_member(h, height_key(), k);
    let j = choose|j: int| 0 <= j < h.len() && h[j] == t[k];
    assert(h[j] == s[j].h);
    lemma_count_heights_sorted(t, k);
    lemma_count_heights_perm(t, h, t[k] as int, true);
    lemma_count_heights_perm(t, h, t[k] as int, false);
}

} // verus!
