//! Glyph bounding boxes and their reading order.
use vstd::prelude::*;

use crate::raster::{
    adaptive_threshold, adjacent, connected_components, dilate_chessboard, index_of, joined_by,
    pixel_index, Connectivity, GrayImage, LabelImage,
};
use crate::reading_order::{
    assign_reading_order, law_reading_order_members, unplaced, center, center_key, height_key, heights_of, median_height,
    reading_order, reading_order_fits,
};
use crate::sorting::{lemma_sort_by_key_sorted, lemma_sorted_member, sort_by_key};
use std::collections::HashMap;


verus! {

/// Bounding box of a segmented glyph, with reading-order coordinates.
#[derive(Clone, Copy, Debug, PartialEq, Eq, Structural)]
pub struct GlyphBbox {
    /// Left edge in source image pixels
    pub x: u32,
    /// Top edge in source image pixels
    pub y: u32,
    /// Width in pixels
    pub w: u32,
    /// Height in pixels
    pub h: u32,
    /// Number of foreground pixels (ink area)
    pub area: u32,
    /// Row index assigned by reading-order sort
    pub row: u32,
    /// Column index within row, assigned by reading-order sort
    pub col: u32,
    /// Connected-component label in the label image.
    pub label: u32,
}


pub open spec fn min_int(a: int, b: int) -> int {
    if a <= b {
        a
    } else {
        b
    }
}

pub open spec fn max_int(a: int, b: int) -> int {
    if a >= b {
        a
    } else {
        b
    }
}

/// Per-label extent `(x_min, y_min, x_max, y_max, pixel_count)` of the first `n` pixels of a
/// row-major label buffer, visited in raster order; label 0 is background and has none.
pub open spec fn label_stats(width: int, labels: Seq<u32>, n: int) -> Map<
    u32,
    (int, int, int, int, int),
>
    decreases n,
{
    if n <= 0 {
        Map::empty()
    } else {
        let m = label_stats(width, labels, n - 1);
        let l = labels[n - 1];
        let x = (n - 1) % width;
        let y = (n - 1) / width;
        if l == 0 {
            m
        } else if m.contains_key(l) {
            let b = m[l];
            m.insert(
                l,
                (min_int(b.0, x), min_int(b.1, y), max_int(b.2, x), max_int(b.3, y), b.4 + 1),
            )
        } else {
            m.insert(l, (x, y, x, y, 1))
        }
    }
}

/// Extents of every label of the image.
pub open spec fn image_label_stats(labels: LabelImage) -> Map<u32, (int, int, int, int, int)> {
    label_stats(labels.width as int, labels.labels@, labels.labels.len() as int)
}

/// The bounding box of a label with the given extent, before reading order.
pub open spec fn box_of(label: u32, b: (int, int, int, int, int)) -> GlyphBbox {
    GlyphBbox {
        x: b.0 as u32,
        y: b.1 as u32,
        w: (b.2 - b.0 + 1) as u32,
        h: (b.3 - b.1 + 1) as u32,
        area: b.4 as u32,
        row: 0,
        col: 0,
        label: label,
    }
}

pub open spec fn area_in_range(b: (int, int, int, int, int), min_area: u32, max_area: u32) -> bool {
    min_area <= b.4 <= max_area
}

/// `out` holds one box per label whose pixel count lies in `[min_area, max_area]`, in
/// increasing label order.
pub open spec fn boxes_of_labels(
    m: Map<u32, (int, int, int, int, int)>,
    min_area: u32,
    max_area: u32,
    out: Seq<GlyphBbox>,
) -> bool {
    &&& forall|i: int, j: int| 0 <= i < j < out.len() ==> (#[trigger] out[i]).label < (
    #[trigger] out[j]).label
    &&& forall|i: int|
        0 <= i < out.len() ==> m.contains_key((#[trigger] out[i]).label) && area_in_range(
            m[out[i].label],
            min_area,
            max_area,
        ) && out[i] == box_of(out[i].label, m[out[i].label])
    &&& forall|l: u32|
        #[trigger] m.contains_key(l) && area_in_range(m[l], min_area, max_area) ==> exists|i: int|
            0 <= i < out.len() && (#[trigger] out[i]).label == l
}

/// The boxes of the labels whose pixel count lies in `[min_area, max_area]`, in increasing
/// label order (there is exactly one such sequence: see `law_boxes_of_labels_unique`).
pub open spec fn glyph_boxes(m: Map<u32, (int, int, int, int, int)>, min_area: u32, max_area: u32) -> Seq<GlyphBbox> {
    choose|out: Seq<GlyphBbox>| boxes_of_labels(m, min_area, max_area, out)
}

/// One box sequence at most answers the description of `boxes_of_labels`.
pub proof fn law_boxes_of_labels_unique(
    m: Map<u32, (int, int, int, int, int)>,
    min_area: u32,
    max_area: u32,
    a: Seq<GlyphBbox>,
    b: Seq<GlyphBbox>,
)
    requires
        boxes_of_labels(m, min_area, max_area, a),
        boxes_of_labels(m, min_area, max_area, b),
    ensures
        a == b,
{
    assert forall|i: int| 0 <= i < a.len() && 0 <= i < b.len() implies #[trigger] a[i].label == b[i].label by {
        lemma_same_label_at(m, min_area, max_area, a, b, i);
    }
    if a.len() > b.len() {
        let l = a[b.len() as int].label;
        let j = choose|j: int| 0 <= j < b.len() && (#[trigger] b[j]).label == l;
        assert(a[j].label == b[j].label);
        assert(a[j].label < a[b.len() as int].label);
    }
    if b.len() > a.len() {
        let l = b[a.len() as int].label;
        let j = choose|j: int| 0 <= j < a.len() && (#[trigger] a[j]).label == l;
        assert(a[j].label == b[j].label);
        assert(b[j].label < b[a.len() as int].label);
    }
    assert(a =~= b);
}

proof fn lemma_same_label_at(
    m: Map<u32, (int, int, int, int, int)>,
    min_area: u32,
    max_area: u32,
    a: Seq<GlyphBbox>,
    b: Seq<GlyphBbox>,
    i: int,
)
    requires
        boxes_of_labels(m, min_area, max_area, a),
        boxes_of_labels(m, min_area, max_area, b),
        0 <= i < a.len(),
        0 <= i < b.len(),
    ensures
        a[i].label == b[i].label,
    decreases i,
{
    if i > 0 {
        lemma_same_label_at(m, min_area, max_area, a, b, i - 1);
    }
    let la = a[i].label;
    let lb = b[i].label;
    if la < lb {
        assert(m.contains_key(la) && area_in_range(m[la], min_area, max_area));
        let j = choose|j: int| 0 <= j < b.len() && (#[trigger] b[j]).label == la;
        if j < i {
            lemma_same_label_at(m, min_area, max_area, a, b, j);
            assert(a[j].label < a[i].label);
        } else if j > i {
            assert(b[i].label < b[j].label);
        }
    } else if lb < la {
        assert(m.contains_key(lb) && area_in_range(m[lb], min_area, max_area));
        let j = choose|j: int| 0 <= j < a.len() && (#[trigger] a[j]).label == lb;
        if j < i {
            lemma_same_label_at(m, min_area, max_area, a, b, j);
            assert(b[j].label < b[i].label);
        } else if j > i {
            assert(a[i].label < a[j].label);
        }
    }
}

/// Running extent of one label.
#[derive(Clone, Copy)]
struct LabelBounds {
    label: u32,
    x0: u32,
    y0: u32,
    x1: u32,
    y1: u32,
    count: u32,
}

spec fn bounds_view(e: LabelBounds) -> (int, int, int, int, int) {
    (e.x0 as int, e.y0 as int, e.x1 as int, e.y1 as int, e.count as int)
}

spec fn labels_increasing(acc: Seq<LabelBounds>) -> bool {
    forall|i: int, j: int| 0 <= i < j < acc.len() ==> (#[trigger] acc[i]).label < (
    #[trigger] acc[j]).label
}

/// The label-sorted list of extents holds exactly the map.
spec fn acc_matches(acc: Seq<LabelBounds>, m: Map<u32, (int, int, int, int, int)>) -> bool {
    &&& labels_increasing(acc)
    &&& forall|i: int|
        0 <= i < acc.len() ==> m.contains_key((#[trigger] acc[i]).label) && m[acc[i].label]
            == bounds_view(acc[i])
    &&& forall|l: u32| #[trigger] m.contains_key(l) ==> exists|i: int|
        0 <= i < acc.len() && (#[trigger] acc[i]).label == l
}

spec fn boxes_from_acc(acc: Seq<LabelBounds>, min_area: u32, max_area: u32) -> Seq<GlyphBbox>
    decreases acc.len(),
{
    if acc.len() == 0 {
        seq![]
    } else {
        let rest = boxes_from_acc(acc.drop_last(), min_area, max_area);
        let e = acc.last();
        if area_in_range(bounds_view(e), min_area, max_area) {
            rest.push(box_of(e.label, bounds_view(e)))
        } else {
            rest
        }
    }
}

proof fn lemma_labels_increasing_prefix(acc: Seq<LabelBounds>)
    requires
        labels_increasing(acc),
        acc.len() > 0,
    ensures
        labels_increasing(acc.drop_last()),
{
    let t = acc.drop_last();
    assert forall|i: int, j: int| 0 <= i < j < t.len() implies (#[trigger] t[i]).label < (
    #[trigger] t[j]).label by {
        assert(t[i] == acc[i] && t[j] == acc[j]);
    }
}

/// `b` is the box of the `j`-th extent, which passes the area filter.
spec fn kept_box(acc: Seq<LabelBounds>, j: int, min_area: u32, max_area: u32, b: GlyphBbox) -> bool {
    &&& 0 <= j < acc.len()
    &&& b == box_of(acc[j].label, bounds_view(acc[j]))
    &&& area_in_range(bounds_view(acc[j]), min_area, max_area)
}

/// `b` is the box of some extent that passes the area filter.
spec fn has_source(acc: Seq<LabelBounds>, min_area: u32, max_area: u32, b: GlyphBbox) -> bool {
    exists|j: int| #[trigger] kept_box(acc, j, min_area, max_area, b)
}

proof fn lemma_box_source(acc: Seq<LabelBounds>, min_area: u32, max_area: u32, i: int)
    requires
        0 <= i < boxes_from_acc(acc, min_area, max_area).len(),
    ensures
        has_source(acc, min_area, max_area, boxes_from_acc(acc, min_area, max_area)[i]),
    decreases acc.len(),
{
    let t = acc.drop_last();
    let e = acc.last();
    let rest = boxes_from_acc(t, min_area, max_area);
    let out = boxes_from_acc(acc, min_area, max_area);
    if i < rest.len() {
        lemma_box_source(t, min_area, max_area, i);
        let j = choose|j: int| #[trigger] kept_box(t, j, min_area, max_area, rest[i]);
        assert(acc[j] == t[j]);
        assert(out[i] == rest[i]);
        assert(kept_box(acc, j, min_area, max_area, out[i]));
    } else {
        assert(acc[acc.len() - 1] == e);
        assert(kept_box(acc, acc.len() - 1, min_area, max_area, out[i]));
    }
}

/// Each produced box comes from a kept extent.
proof fn lemma_boxes_from_acc_sources(acc: Seq<LabelBounds>, min_area: u32, max_area: u32)
    ensures
        forall|i: int|
            0 <= i < boxes_from_acc(acc, min_area, max_area).len() ==> has_source(
                acc,
                min_area,
                max_area,
                #[trigger] boxes_from_acc(acc, min_area, max_area)[i],
            ),
{
    assert forall|i: int|
        0 <= i < boxes_from_acc(acc, min_area, max_area).len() implies has_source(
        acc,
        min_area,
        max_area,
        #[trigger] boxes_from_acc(acc, min_area, max_area)[i],
    ) by {
        lemma_box_source(acc, min_area, max_area, i);
    }
}

/// Every kept extent produces a box.
proof fn lemma_boxes_from_acc_complete(acc: Seq<LabelBounds>, min_area: u32, max_area: u32)
    ensures
        forall|j: int|
            0 <= j < acc.len() && area_in_range(bounds_view(#[trigger] acc[j]), min_area, max_area)
                ==> exists|i: int|
                0 <= i < boxes_from_acc(acc, min_area, max_area).len() && (#[trigger] boxes_from_acc(
                    acc,
                    min_area,
                    max_area,
                )[i]).label == acc[j].label,
    decreases acc.len(),
{
    if acc.len() > 0 {
        let t = acc.drop_last();
        lemma_boxes_from_acc_complete(t, min_area, max_area);
        let rest = boxes_from_acc(t, min_area, max_area);
        let out = boxes_from_acc(acc, min_area, max_area);
        assert forall|j: int|
            0 <= j < acc.len() && area_in_range(bounds_view(#[trigger] acc[j]), min_area, max_area)
            implies exists|i: int| 0 <= i < out.len() && (#[trigger] out[i]).label == acc[j].label by {
            if j < t.len() {
                assert(t[j] == acc[j]);
                let i = choose|i: int| 0 <= i < rest.len() && (#[trigger] rest[i]).label == t[j].label;
                assert(out[i] == rest[i]);
            } else {
                assert(out[out.len() - 1].label == acc.last().label);
            }
        }
    }
}

/// Boxes come out in increasing label order.
proof fn lemma_boxes_from_acc_increasing(acc: Seq<LabelBounds>, min_area: u32, max_area: u32)
    requires
        labels_increasing(acc),
    ensures
        forall|i: int, j: int|
            0 <= i < j < boxes_from_acc(acc, min_area, max_area).len() ==> (
            #[trigger] boxes_from_acc(acc, min_area, max_area)[i]).label < (
            #[trigger] boxes_from_acc(acc, min_area, max_area)[j]).label,
    decreases acc.len(),
{
    if acc.len() > 0 {
        let t = acc.drop_last();
        let e = acc.last();
        lemma_labels_increasing_prefix(acc);
        lemma_boxes_from_acc_increasing(t, min_area, max_area);
        lemma_boxes_from_acc_sources(t, min_area, max_area);
        let rest = boxes_from_acc(t, min_area, max_area);
        let out = boxes_from_acc(acc, min_area, max_area);
        assert forall|i: int| 0 <= i < rest.len() implies (#[trigger] rest[i]).label < e.label by {
            assert(has_source(t, min_area, max_area, rest[i]));
            let j = choose|j: int| #[trigger] kept_box(t, j, min_area, max_area, rest[i]);
            assert(acc[j] == t[j]);
            assert(acc[j].label < acc[acc.len() - 1].label);
        }
        assert forall|i: int, j: int| 0 <= i < j < out.len() implies (#[trigger] out[i]).label < (
        #[trigger] out[j]).label by {
            if j < rest.len() {
                assert(out[i] == rest[i] && out[j] == rest[j]);
            } else {
                assert(out[i] == rest[i]);
            }
        }
    }
}

/// The running extents held in a hash map keyed by label: exactly the labels of `m`, each
/// with its extent.
spec fn map_matches(b: Map<u32, LabelBounds>, m: Map<u32, (int, int, int, int, int)>) -> bool {
    &&& forall|l: u32| #[trigger] b.contains_key(l) <==> m.contains_key(l)
    &&& forall|l: u32| #[trigger] b.contains_key(l) ==> b[l].label == l && bounds_view(b[l]) == m[l]
}

/// Calls `slice::sort_unstable` on a list of labels. Claimed, as std documents it: afterwards
/// the labels are in ascending order, and they are the same labels, each as often as before.
#[verifier::external_body]
fn sort_labels(v: &mut Vec<u32>)
    ensures
        final(v)@.to_multiset() == old(v)@.to_multiset(),
        forall|i: int, j: int| 0 <= i < j < final(v)@.len() ==> final(v)@[i] <= final(v)@[j],
{
    v.sort_unstable();
}

/// The area filter: every glyph box is that of a component whose pixel count (the box's area)
/// lies in `[min_area, max_area]`, so a component with fewer than `min_area` or more than
/// `max_area` pixels has no box.
pub proof fn law_glyph_boxes_area(
    labels: LabelImage,
    min_area: u32,
    max_area: u32,
    out: Seq<GlyphBbox>,
)
    requires
        labels.wf(),
        labels.width > 0,
        labels.labels.len() < u32::MAX,
        boxes_of_labels(image_label_stats(labels), min_area, max_area, out),
    ensures
        forall|i: int|
            0 <= i < out.len() ==> {
                let count = labels.labels@.to_multiset().count((#[trigger] out[i]).label);
                &&& out[i].area == count
                &&& min_area <= count <= max_area
            },
        forall|l: u32|
            #[trigger] labels.labels@.to_multiset().count(l) > max_area
                || labels.labels@.to_multiset().count(l) < min_area ==> forall|i: int|
                0 <= i < out.len() ==> (#[trigger] out[i]).label != l,
{
    law_glyph_box_is_component_extent(labels, min_area, max_area, out);
    let m = image_label_stats(labels);
    assert forall|i: int| 0 <= i < out.len() implies min_area <= (#[trigger] out[i]).area
        <= max_area by {
        let l = out[i].label;
        assert(area_in_range(m[l], min_area, max_area));
        assert(out[i] == box_of(l, m[l]));
    }
}

/// Bounding boxes of the labelled components whose pixel count lies in
/// `[min_area, max_area]`, in increasing label order, with row and column 0.
pub fn glyphs_from_labels(labels: &LabelImage, min_area: u32, max_area: u32) -> (boxes: Vec<
    GlyphBbox,
>)
    requires
        labels.wf(),
        labels.labels.len() < u32::MAX,
    ensures
        boxes_of_labels(image_label_stats(*labels), min_area, max_area, boxes@),
        boxes.len() <= labels.labels.len(),
        forall|i: int| 0 <= i < boxes.len() ==> min_area <= (#[trigger] boxes@[i]).area <= max_area,
        forall|i: int|
            0 <= i < boxes.len() ==> (#[trigger] boxes@[i]).x + boxes@[i].w <= labels.width
                && boxes@[i].y + boxes@[i].h <= labels.height && boxes@[i].w >= 1 && boxes@[i].h
                >= 1,
{
    let n = labels.labels.len();
    let width = labels.width;
    let ghost w = width as int;
    let ghost lab = labels.labels@;
    let mut bounds: HashMap<u32, LabelBounds> = HashMap::new();
    let mut seen: Vec<u32> = Vec::new();
    assert(n > 0 ==> w > 0) by (nonlinear_arith)
        requires
            n == w * labels.height,
            w >= 0,
            labels.height >= 0,
    ;
    let mut p: usize = 0;
    let mut x: u32 = 0;
    let mut y: u32 = 0;
    while p < n
        invariant
            n == lab.len(),
            n < u32::MAX,
            n == w * labels.height,
            lab == labels.labels@,
            w == width,
            p <= n,
            p == y * w + x,
            p < n ==> x < w,
            n > 0 ==> w > 0,
            map_matches(bounds@, label_stats(w, lab, p as int)),
            seen@.no_duplicates(),
            forall|l: u32| #[trigger] seen@.contains(l) <==> label_stats(w, lab, p as int).contains_key(l),
            seen.len() <= p,
            forall|l: u32|
                #[trigger] bounds@.contains_key(l) ==> bounds@[l].count <= p && bounds@[l].x0
                    <= bounds@[l].x1 < w && bounds@[l].y0 <= bounds@[l].y1 < labels.height,
        decreases n - p,
    {
        assert(y < labels.height) by (nonlinear_arith)
            requires
                p == y * w + x,
                p < n,
                n == w * labels.height,
                0 <= x,
        ;
        proof {
            vstd::arithmetic::div_mod::lemma_fundamental_div_mod_converse_mod(
                p as int,
                w,
                y as int,
                x as int,
            );
            vstd::arithmetic::div_mod::lemma_fundamental_div_mod_converse_div(
                p as int,
                w,
                y as int,
                x as int,
            );
        }
        let l = labels.labels[p];
        let ghost m = label_stats(w, lab, p as int);
        if l != 0 {
            match bounds.get(&l) {
                Some(found) => {
                    let e = *found;
                    let ne = LabelBounds {
                        label: l,
                        x0: if x < e.x0 { x } else { e.x0 },
                        y0: if y < e.y0 { y } else { e.y0 },
                        x1: if x > e.x1 { x } else { e.x1 },
                        y1: if y > e.y1 { y } else { e.y1 },
                        count: e.count + 1,
                    };
                    bounds.insert(l, ne);
                    proof {
                        let m2 = label_stats(w, lab, p + 1);
                        assert(m2 == m.insert(l, bounds_view(ne)));
                    }
                },
                None => {
                    let ne = LabelBounds { label: l, x0: x, y0: y, x1: x, y1: y, count: 1 };
                    bounds.insert(l, ne);
                    let ghost before = seen@;
                    seen.push(l);
                    proof {
                        let m2 = label_stats(w, lab, p + 1);
                        assert(m2 == m.insert(l, bounds_view(ne)));
                        assert(!before.contains(l));
                        assert forall|i: int, j: int| 0 <= i < j < seen.len() implies seen@[i]
                            != seen@[j] by {
                            if j == seen.len() - 1 {
                                assert(before.contains(seen@[i]));
                            } else {
                                assert(seen@[i] == before[i] && seen@[j] == before[j]);
                            }
                        }
                        assert forall|l2: u32| #[trigger] seen@.contains(l2) <==> m2.contains_key(l2) by {
                            if l2 != l && seen@.contains(l2) {
                                let i = choose|i: int| 0 <= i < seen.len() && seen@[i] == l2;
                                assert(before[i] == l2);
                            }
                            if l2 != l && before.contains(l2) {
                                let i = choose|i: int| 0 <= i < before.len() && before[i] == l2;
                                assert(seen@[i] == l2);
                            }
                            assert(seen@[seen.len() - 1] == l);
                        }
                    }
                },
            }
        }
        x = x + 1;
        if x == width {
            x = 0;
            y = y + 1;
        }
        p = p + 1;
        proof {
            assert(p == y * w + x) by (nonlinear_arith)
                requires
                    (x == 0 && p == (y - 1) * w + w) || (x > 0 && p == y * w + x),
            ;
        }
    }
    proof {
        assert(lab.take(n as int) == lab);
    }
    let ghost m = image_label_stats(*labels);
    let ghost unsorted = seen@;
    sort_labels(&mut seen);
    proof {
        broadcast use vstd::seq_lib::group_to_multiset_ensures;
        unsorted.lemma_multiset_has_no_duplicates();
        seen@.lemma_multiset_has_no_duplicates_conv();
        assert forall|l: u32| #[trigger] seen@.contains(l) <==> m.contains_key(l) by {
            assert(seen@.to_multiset().count(l) == unsorted.to_multiset().count(l));
        }
        vstd::seq_lib::to_multiset_len(seen@);
        vstd::seq_lib::to_multiset_len(unsorted);
    }
    // The extents in increasing label order.
    let mut acc: Vec<LabelBounds> = Vec::new();
    let mut k: usize = 0;
    while k < seen.len()
        invariant
            k <= seen.len(),
            seen.len() <= n,
            acc.len() == k,
            seen@.no_duplicates(),
            forall|i: int, j: int| 0 <= i < j < seen.len() ==> seen@[i] <= seen@[j],
            forall|l: u32| #[trigger] seen@.contains(l) <==> m.contains_key(l),
            map_matches(bounds@, m),
            forall|l: u32|
                #[trigger] bounds@.contains_key(l) ==> bounds@[l].x0 <= bounds@[l].x1 < w
                    && bounds@[l].y0 <= bounds@[l].y1 < labels.height,
            forall|i: int| 0 <= i < k ==> #[trigger] acc@[i] == bounds@[seen@[i]],
        decreases seen.len() - k,
    {
        let l = seen[k];
        assert(seen@.contains(l));
        match bounds.get(&l) {
            Some(found) => {
                acc.push(*found);
            },
            None => {
                assert(false);
            },
        }
        k = k + 1;
    }
    proof {
        assert forall|i: int, j: int| 0 <= i < j < acc.len() implies (#[trigger] acc@[i]).label < (
        #[trigger] acc@[j]).label by {
            assert(seen@.contains(seen@[i]) && seen@.contains(seen@[j]));
            assert(bounds@.contains_key(seen@[i]) && bounds@.contains_key(seen@[j]));
            assert(acc@[i] == bounds@[seen@[i]] && acc@[j] == bounds@[seen@[j]]);
            assert(seen@[i] != seen@[j]);
        }
        assert forall|l: u32| #[trigger] m.contains_key(l) implies exists|i: int|
            0 <= i < acc.len() && (#[trigger] acc@[i]).label == l by {
            assert(seen@.contains(l));
            let i = choose|i: int| 0 <= i < seen.len() && seen@[i] == l;
            assert(bounds@.contains_key(l));
            assert(acc@[i] == bounds@[seen@[i]]);
        }
        assert forall|i: int| 0 <= i < acc.len() implies m.contains_key((#[trigger] acc@[i]).label)
            && m[acc@[i].label] == bounds_view(acc@[i]) by {
            assert(seen@.contains(seen@[i]));
            assert(bounds@.contains_key(seen@[i]));
            assert(acc@[i] == bounds@[seen@[i]]);
        }
        assert(acc_matches(acc@, m));
        assert forall|i: int| 0 <= i < acc.len() implies (#[trigger] acc@[i]).x0 <= acc@[i].x1 < w
            && acc@[i].y0 <= acc@[i].y1 < labels.height by {
            assert(seen@.contains(seen@[i]));
            assert(bounds@.contains_key(seen@[i]));
            assert(acc@[i] == bounds@[seen@[i]]);
        }
    }
    let mut boxes: Vec<GlyphBbox> = Vec::new();
    let mut k: usize = 0;
    while k < acc.len()
        invariant
            k <= acc.len(),
            labels_increasing(acc@),
            forall|i: int|
                0 <= i < acc.len() ==> (#[trigger] acc@[i]).x0 <= acc@[i].x1 < w && acc@[i].y0
                    <= acc@[i].y1 < labels.height,
            w == width,
            acc.len() <= n,
            boxes@ == boxes_from_acc(acc@.take(k as int), min_area, max_area),
            boxes.len() <= k,
            forall|i: int|
                0 <= i < boxes.len() ==> (#[trigger] boxes@[i]).x + boxes@[i].w <= w
                    && boxes@[i].y + boxes@[i].h <= labels.height && boxes@[i].w >= 1
                    && boxes@[i].h >= 1,
        decreases acc.len() - k,
    {
        let e = acc[k];
        proof {
            assert(acc@.take(k + 1).drop_last() =~= acc@.take(k as int));
        }
        if min_area <= e.count && e.count <= max_area {
            boxes.push(
                GlyphBbox {
                    x: e.x0,
                    y: e.y0,
                    w: e.x1 - e.x0 + 1,
                    h: e.y1 - e.y0 + 1,
                    area: e.count,
                    row: 0,
                    col: 0,
                    label: e.label,
                },
            );
        }
        k = k + 1;
    }
    proof {
        assert(acc@.take(acc.len() as int) =~= acc@);
        lemma_boxes_from_acc_sources(acc@, min_area, max_area);
        lemma_boxes_from_acc_complete(acc@, min_area, max_area);
        lemma_boxes_from_acc_increasing(acc@, min_area, max_area);
        let m = image_label_stats(*labels);
        let out = boxes@;
        assert forall|i: int|
            0 <= i < out.len() implies m.contains_key((#[trigger] out[i]).label) && area_in_range(
            m[out[i].label],
            min_area,
            max_area,
        ) && out[i] == box_of(out[i].label, m[out[i].label]) by {
            assert(has_source(acc@, min_area, max_area, out[i]));
            let j = choose|j: int| #[trigger] kept_box(acc@, j, min_area, max_area, out[i]);
            assert(m.contains_key(acc@[j].label));
        }
        assert forall|l: u32|
            #[trigger] m.contains_key(l) && area_in_range(m[l], min_area, max_area) implies exists|i: int|
            0 <= i < out.len() && (#[trigger] out[i]).label == l by {
            let j = choose|j: int| 0 <= j < acc.len() && (#[trigger] acc@[j]).label == l;
            assert(area_in_range(bounds_view(acc@[j]), min_area, max_area));
        }
        assert forall|i: int| 0 <= i < out.len() implies min_area <= (#[trigger] out[i]).area
            <= max_area by {
            assert(area_in_range(m[out[i].label], min_area, max_area));
        }
    }
    boxes
}


/// Pixel `p` of the first `n` carries label `l`.
pub open spec fn labelled_at(labels: Seq<u32>, n: int, l: u32, p: int) -> bool {
    0 <= p < n && labels[p] == l
}

/// The extent of a label is the smallest rectangle that holds every pixel carrying it, and
/// its count is the number of those pixels; exactly the nonzero labels that occur have one.
pub proof fn law_label_extent(width: int, labels: Seq<u32>, n: int)
    requires
        width > 0,
        0 <= n <= labels.len(),
    ensures
        forall|l: u32|
            #[trigger] label_stats(width, labels, n).contains_key(l) <==> l != 0 && exists|p: int|
                #[trigger] labelled_at(labels, n, l, p),
        forall|p: int|
            #![trigger labelled_at(labels, n, labels[p], p)]
            labelled_at(labels, n, labels[p], p) && labels[p] != 0 ==> {
                let b = label_stats(width, labels, n)[labels[p]];
                b.0 <= p % width <= b.2 && b.1 <= p / width <= b.3
            },
        forall|l: u32|
            #[trigger] label_stats(width, labels, n).contains_key(l) ==> {
                let b = label_stats(width, labels, n)[l];
                &&& b.4 == labels.take(n).to_multiset().count(l)
                &&& exists|p: int| #[trigger] labelled_at(labels, n, l, p) && p % width == b.0
                &&& exists|p: int| #[trigger] labelled_at(labels, n, l, p) && p / width == b.1
                &&& exists|p: int| #[trigger] labelled_at(labels, n, l, p) && p % width == b.2
                &&& exists|p: int| #[trigger] labelled_at(labels, n, l, p) && p / width == b.3
            },
    decreases n,
{
    broadcast use vstd::seq_lib::group_to_multiset_ensures;
    let m = label_stats(width, labels, n);
    if n == 0 {
        assert(labels.take(0).to_multiset() =~= vstd::multiset::Multiset::empty());
    } else {
        law_label_extent(width, labels, n - 1);
        let m0 = label_stats(width, labels, n - 1);
        let q = n - 1;
        let l = labels[q];
        let x = q % width;
        let y = q / width;
        assert(labels.take(n) == labels.take(n - 1).push(l));
        assert(labelled_at(labels, n, l, q));
        assert forall|l2: u32| #[trigger] m.contains_key(l2) <==> l2 != 0 && exists|p: int|
            #[trigger] labelled_at(labels, n, l2, p) by {
            if l2 != l {
                if exists|p: int| #[trigger] labelled_at(labels, n, l2, p) {
                    let p = choose|p: int| #[trigger] labelled_at(labels, n, l2, p);
                    assert(labelled_at(labels, n - 1, l2, p));
                }
                if exists|p: int| #[trigger] labelled_at(labels, n - 1, l2, p) {
                    let p = choose|p: int| #[trigger] labelled_at(labels, n - 1, l2, p);
                    assert(labelled_at(labels, n, l2, p));
                }
            }
        }
        assert forall|p: int|
            #![trigger labelled_at(labels, n, labels[p], p)]
            labelled_at(labels, n, labels[p], p) && labels[p] != 0 implies {
                let b = m[labels[p]];
                b.0 <= p % width <= b.2 && b.1 <= p / width <= b.3
            } by {
            if p < q {
                assert(labelled_at(labels, n - 1, labels[p], p));
            }
        }
        assert forall|l2: u32| #[trigger] m.contains_key(l2) implies {
            let b = m[l2];
            &&& b.4 == labels.take(n).to_multiset().count(l2)
            &&& exists|p: int| #[trigger] labelled_at(labels, n, l2, p) && p % width == b.0
            &&& exists|p: int| #[trigger] labelled_at(labels, n, l2, p) && p / width == b.1
            &&& exists|p: int| #[trigger] labelled_at(labels, n, l2, p) && p % width == b.2
            &&& exists|p: int| #[trigger] labelled_at(labels, n, l2, p) && p / width == b.3
        } by {
            let b = m[l2];
            if l2 != l || !m0.contains_key(l2) {
                if l2 == l {
                    // a new label: its only pixel so far is q
                    assert(!(exists|p: int| #[trigger] labelled_at(labels, n - 1, l2, p)));
                    assert(labels.take(n - 1).to_multiset().count(l2) == 0) by {
                        if labels.take(n - 1).to_multiset().count(l2) > 0 {
                            assert(labels.take(n - 1).contains(l2));
                            let p = choose|p: int| 0 <= p < labels.take(n - 1).len() && #[trigger] labels.take(n - 1)[p] == l2;
                            assert(labelled_at(labels, n - 1, l2, p));
                        }
                    }
                } else {
                    let b0 = m0[l2];
                    let p0 = choose|p: int| #[trigger] labelled_at(labels, n - 1, l2, p) && p % width == b0.0;
                    let p1 = choose|p: int| #[trigger] labelled_at(labels, n - 1, l2, p) && p / width == b0.1;
                    let p2 = choose|p: int| #[trigger] labelled_at(labels, n - 1, l2, p) && p % width == b0.2;
                    let p3 = choose|p: int| #[trigger] labelled_at(labels, n - 1, l2, p) && p / width == b0.3;
                    assert(labelled_at(labels, n, l2, p0));
                    assert(labelled_at(labels, n, l2, p1));
                    assert(labelled_at(labels, n, l2, p2));
                    assert(labelled_at(labels, n, l2, p3));
                }
            } else {
                let b0 = m0[l2];
                let p0 = choose|p: int| #[trigger] labelled_at(labels, n - 1, l2, p) && p % width == b0.0;
                let p1 = choose|p: int| #[trigger] labelled_at(labels, n - 1, l2, p) && p / width == b0.1;
                let p2 = choose|p: int| #[trigger] labelled_at(labels, n - 1, l2, p) && p % width == b0.2;
                let p3 = choose|p: int| #[trigger] labelled_at(labels, n - 1, l2, p) && p / width == b0.3;
                assert(labelled_at(labels, n, l2, p0));
                assert(labelled_at(labels, n, l2, p1));
                assert(labelled_at(labels, n, l2, p2));
                assert(labelled_at(labels, n, l2, p3));
            }
        }
    }
}


/// The label at `(x0 + fx, y0 + fy)`: the crop-relative view of the label image.
pub open spec fn crop_label(labels: LabelImage, x0: int, y0: int, fx: int, fy: int) -> u32 {
    labels.at(x0 + fx, y0 + fy)
}

/// Left edge of the crop: `padding` pixels left of the box, not past the image edge.
pub open spec fn crop_x0(bbox: GlyphBbox, padding: u32) -> int {
    if bbox.x >= padding {
        bbox.x - padding
    } else {
        0
    }
}

pub open spec fn crop_y0(bbox: GlyphBbox, padding: u32) -> int {
    if bbox.y >= padding {
        bbox.y - padding
    } else {
        0
    }
}

/// Right edge of the crop (exclusive): `padding` pixels right of the box, clipped to the image.
pub open spec fn crop_x1(bbox: GlyphBbox, padding: u32, width: u32) -> int {
    min_int(bbox.x + bbox.w + padding, width as int)
}

pub open spec fn crop_y1(bbox: GlyphBbox, padding: u32, height: u32) -> int {
    min_int(bbox.y + bbox.h + padding, height as int)
}

pub open spec fn crop_width(bbox: GlyphBbox, padding: u32, width: u32) -> int {
    crop_x1(bbox, padding, width) - crop_x0(bbox, padding)
}

pub open spec fn crop_height(bbox: GlyphBbox, padding: u32, height: u32) -> int {
    crop_y1(bbox, padding, height) - crop_y0(bbox, padding)
}

/// Some pixel of the crop carries `label`.
pub open spec fn label_in_crop(labels: LabelImage, label: u32, x0: int, y0: int, cw: int, ch: int) -> bool {
    exists|fx: int, fy: int|
        0 <= fx < cw && 0 <= fy < ch && #[trigger] crop_label(labels, x0, y0, fx, fy) == label
}

/// Some pixel of the crop carrying `label` lies within chessboard distance `k` of `(cx, cy)`.
pub open spec fn label_near(
    labels: LabelImage,
    label: u32,
    x0: int,
    y0: int,
    cw: int,
    ch: int,
    cx: int,
    cy: int,
    k: int,
) -> bool {
    exists|fx: int, fy: int|
        0 <= fx < cw && 0 <= fy < ch && #[trigger] crop_label(labels, x0, y0, fx, fy) == label
            && cx - k <= fx <= cx + k && cy - k <= fy <= cy + k
}

/// Whether the glyph's mask, grown by 8 pixels in the chessboard norm, covers the crop pixel
/// `(cx, cy)`. A crop without any pixel of the glyph is covered
/// everywhere or nowhere, by whether `min(width + height, 255)` is at most 8.
pub open spec fn mask_covers(labels: LabelImage, bbox: GlyphBbox, padding: u32, cx: int, cy: int) -> bool {
    let x0 = crop_x0(bbox, padding);
    let y0 = crop_y0(bbox, padding);
    let cw = crop_width(bbox, padding, labels.width);
    let ch = crop_height(bbox, padding, labels.height);
    if label_in_crop(labels, bbox.label, x0, y0, cw, ch) {
        label_near(labels, bbox.label, x0, y0, cw, ch, cx, cy, 8)
    } else {
        min_int(cw + ch, 255) <= 8
    }
}

/// The crop pixel `(cx, cy)` carries no other component's label: it is paper or the glyph.
pub open spec fn not_other_glyph(labels: LabelImage, bbox: GlyphBbox, padding: u32, cx: int, cy: int) -> bool {
    let l = crop_label(labels, crop_x0(bbox, padding), crop_y0(bbox, padding), cx, cy);
    l == 0 || l == bbox.label
}

/// Whether the crop pixel `(cx, cy)` keeps its gray value: no other component's ink is there,
/// and the grown mask of the glyph covers it.
pub open spec fn keeps_gray(labels: LabelImage, bbox: GlyphBbox, padding: u32, cx: int, cy: int) -> bool {
    not_other_glyph(labels, bbox, padding, cx, cy) && mask_covers(labels, bbox, padding, cx, cy)
}

/// `out` is the crop of the glyph: the box grown by `padding` and clipped to the image, each
/// pixel the source gray value where `keeps_gray`, white (255) elsewhere.
pub open spec fn is_glyph_crop(
    out: GrayImage,
    gray: GrayImage,
    bbox: GlyphBbox,
    padding: u32,
    labels: LabelImage,
) -> bool {
    &&& out.wf()
    &&& out.width == crop_width(bbox, padding, gray.width)
    &&& out.height == crop_height(bbox, padding, gray.height)
    &&& forall|cx: int, cy: int|
        0 <= cx < out.width && 0 <= cy < out.height ==> #[trigger] out.at(cx, cy) == if keeps_gray(
            labels,
            bbox,
            padding,
            cx,
            cy,
        ) {
            gray.at(crop_x0(bbox, padding) + cx, crop_y0(bbox, padding) + cy)
        } else {
            255u8
        }
}

/// At most one image is the crop of a glyph: its size and every pixel are fixed.
pub proof fn law_glyph_crop_unique(
    a: GrayImage,
    b: GrayImage,
    gray: GrayImage,
    bbox: GlyphBbox,
    padding: u32,
    labels: LabelImage,
)
    requires
        is_glyph_crop(a, gray, bbox, padding, labels),
        is_glyph_crop(b, gray, bbox, padding, labels),
    ensures
        a.width == b.width,
        a.height == b.height,
        a.pixels@ == b.pixels@,
{
    let w = a.width as int;
    let h = a.height as int;
    assert forall|i: int| 0 <= i < a.pixels.len() implies a.pixels@[i] == b.pixels@[i] by {
        vstd::arithmetic::div_mod::lemma_fundamental_div_mod(i, w);
        vstd::arithmetic::div_mod::lemma_mod_bound(i, w);
        let x = i % w;
        let y = i / w;
        assert(0 <= y < h) by (nonlinear_arith)
            requires
                i == w * y + x,
                0 <= x < w,
                0 <= i < w * h,
        ;
        assert(pixel_index(w, x, y) == i) by (nonlinear_arith)
            requires
                i == w * y + x,
        ;
        assert(a.at(x, y) == b.at(x, y));
    }
    assert(a.pixels@ =~= b.pixels@);
}

/// What a glyph crop holds, pixel by pixel: a pixel of the glyph keeps its gray value; a pixel
/// of another component is white; a paper pixel within 8 pixels (chessboard distance) of a
/// pixel of the glyph in the crop keeps its gray value; and a pixel more than 8 pixels from
/// every pixel of the glyph in the crop is white.
pub proof fn law_glyph_crop_pixels(
    out: GrayImage,
    gray: GrayImage,
    bbox: GlyphBbox,
    padding: u32,
    labels: LabelImage,
)
    requires
        is_glyph_crop(out, gray, bbox, padding, labels),
        labels.width == gray.width,
        labels.height == gray.height,
    ensures
        forall|cx: int, cy: int|
            0 <= cx < out.width && 0 <= cy < out.height ==> {
                let x0 = crop_x0(bbox, padding);
                let y0 = crop_y0(bbox, padding);
                let l = crop_label(labels, x0, y0, cx, cy);
                let kept = (#[trigger] out.at(cx, cy)) == gray.at(x0 + cx, y0 + cy);
                &&& l == bbox.label ==> kept
                &&& l != 0 && l != bbox.label ==> out.at(cx, cy) == 255
                &&& l == 0 && (exists|fx: int, fy: int|
                    0 <= fx < out.width && 0 <= fy < out.height && #[trigger] crop_label(
                        labels,
                        x0,
                        y0,
                        fx,
                        fy,
                    ) == bbox.label && cx - 8 <= fx <= cx + 8 && cy - 8 <= fy <= cy + 8) ==> kept
                &&& (exists|fx: int, fy: int|
                    0 <= fx < out.width && 0 <= fy < out.height && #[trigger] crop_label(
                        labels,
                        x0,
                        y0,
                        fx,
                        fy,
                    ) == bbox.label) && (forall|fx: int, fy: int|
                    0 <= fx < out.width && 0 <= fy < out.height && #[trigger] crop_label(
                        labels,
                        x0,
                        y0,
                        fx,
                        fy,
                    ) == bbox.label ==> fx < cx - 8 || fx > cx + 8 || fy < cy - 8 || fy > cy + 8)
                    ==> out.at(cx, cy) == 255
            },
{
    assert forall|cx: int, cy: int|
        0 <= cx < out.width && 0 <= cy < out.height implies {
            let x0 = crop_x0(bbox, padding);
            let y0 = crop_y0(bbox, padding);
            let l = crop_label(labels, x0, y0, cx, cy);
            let kept = (#[trigger] out.at(cx, cy)) == gray.at(x0 + cx, y0 + cy);
            &&& l == bbox.label ==> kept
            &&& l != 0 && l != bbox.label ==> out.at(cx, cy) == 255
            &&& l == 0 && (exists|fx: int, fy: int|
                0 <= fx < out.width && 0 <= fy < out.height && #[trigger] crop_label(
                    labels,
                    x0,
                    y0,
                    fx,
                    fy,
                ) == bbox.label && cx - 8 <= fx <= cx + 8 && cy - 8 <= fy <= cy + 8) ==> kept
            &&& (exists|fx: int, fy: int|
                0 <= fx < out.width && 0 <= fy < out.height && #[trigger] crop_label(
                    labels,
                    x0,
                    y0,
                    fx,
                    fy,
                ) == bbox.label) && (forall|fx: int, fy: int|
                0 <= fx < out.width && 0 <= fy < out.height && #[trigger] crop_label(
                    labels,
                    x0,
                    y0,
                    fx,
                    fy,
                ) == bbox.label ==> fx < cx - 8 || fx > cx + 8 || fy < cy - 8 || fy > cy + 8)
                ==> out.at(cx, cy) == 255
        } by {
        let x0 = crop_x0(bbox, padding);
        let y0 = crop_y0(bbox, padding);
        let cw = out.width as int;
        let ch = out.height as int;
        let l = crop_label(labels, x0, y0, cx, cy);
        assert(out.at(cx, cy) == if keeps_gray(labels, bbox, padding, cx, cy) {
            gray.at(x0 + cx, y0 + cy)
        } else {
            255u8
        });
        if l == bbox.label {
            assert(label_in_crop(labels, bbox.label, x0, y0, cw, ch));
            assert(label_near(labels, bbox.label, x0, y0, cw, ch, cx, cy, 8));
        }
        if exists|fx: int, fy: int|
            0 <= fx < cw && 0 <= fy < ch && #[trigger] crop_label(labels, x0, y0, fx, fy)
                == bbox.label && cx - 8 <= fx <= cx + 8 && cy - 8 <= fy <= cy + 8 {
            let (fx, fy) = choose|fx: int, fy: int|
                0 <= fx < cw && 0 <= fy < ch && #[trigger] crop_label(labels, x0, y0, fx, fy)
                    == bbox.label && cx - 8 <= fx <= cx + 8 && cy - 8 <= fy <= cy + 8;
            assert(label_in_crop(labels, bbox.label, x0, y0, cw, ch));
            assert(label_near(labels, bbox.label, x0, y0, cw, ch, cx, cy, 8));
        }
        if label_near(labels, bbox.label, x0, y0, cw, ch, cx, cy, 8) {
            let (fx, fy) = choose|fx: int, fy: int|
                0 <= fx < cw && 0 <= fy < ch && #[trigger] crop_label(labels, x0, y0, fx, fy)
                    == bbox.label && cx - 8 <= fx <= cx + 8 && cy - 8 <= fy <= cy + 8;
            assert(crop_label(labels, x0, y0, fx, fy) == bbox.label);
        }
    }
}

/// The inputs on which the crop stays within the image and within `u32`.
pub open spec fn crop_fits(gray: GrayImage, bbox: GlyphBbox, padding: u32, labels: LabelImage) -> bool {
    &&& gray.wf()
    &&& labels.wf()
    &&& labels.width == gray.width
    &&& labels.height == gray.height
    &&& bbox.x + bbox.w + padding <= u32::MAX
    &&& bbox.y + bbox.h + padding <= u32::MAX
    &&& crop_x0(bbox, padding) <= gray.width
    &&& crop_y0(bbox, padding) <= gray.height
    &&& crop_width(bbox, padding, gray.width) + crop_height(bbox, padding, gray.height) <= u32::MAX
}

proof fn lemma_index_before_row(w: int, fx: int, fy: int, cy: int)
    requires
        0 <= fx < w,
        0 <= fy < cy,
    ensures
        fy * w + fx < cy * w,
{
    assert(fy * w + fx < cy * w) by (nonlinear_arith)
        requires
            0 <= fx < w,
            0 <= fy < cy,
    ;
}

/// Crop a single glyph from the source image, adding `padding` pixels on each side.
///
/// Pixels that belong to other connected components (neighbouring glyphs) are set to white
/// (255) so only the target glyph's ink remains. Around it, the glyph's mask grown by 8
/// pixels keeps the anti-aliased edges that the threshold took for paper; everything
/// outside that grown mask is white too.
pub fn extract_glyph(gray: &GrayImage, bbox: &GlyphBbox, padding: u32, labels: &LabelImage) -> (out:
    GrayImage)
    requires
        crop_fits(*gray, *bbox, padding, *labels),
    ensures
        is_glyph_crop(out, *gray, *bbox, padding, *labels),
{
    let img_w = gray.width;
    let img_h = gray.height;
    let x0 = if bbox.x >= padding { bbox.x - padding } else { 0 };
    let y0 = if bbox.y >= padding { bbox.y - padding } else { 0 };
    let xe = bbox.x + bbox.w + padding;
    let ye = bbox.y + bbox.h + padding;
    let x1 = if xe < img_w { xe } else { img_w };
    let y1 = if ye < img_h { ye } else { img_h };
    let crop_w = x1 - x0;
    let crop_h = y1 - y0;
    let ghost gx0 = x0 as int;
    let ghost gy0 = y0 as int;
    let ghost cw = crop_w as int;
    let ghost ch = crop_h as int;
    proof {
        assert(cw * ch <= img_w * img_h) by (nonlinear_arith)
            requires
                0 <= cw <= img_w,
                0 <= ch <= img_h,
        ;
    }
    // Binary mask of the target component within the crop.
    let mut mask_px: Vec<u8> = Vec::new();
    let mut cy: u32 = 0;
    while cy < crop_h
        invariant
            crop_fits(*gray, *bbox, padding, *labels),
            x0 == crop_x0(*bbox, padding),
            y0 == crop_y0(*bbox, padding),
            crop_w == crop_width(*bbox, padding, gray.width),
            crop_h == crop_height(*bbox, padding, gray.height),
            img_w == gray.width,
            img_h == gray.height,
            cw == crop_w,
            ch == crop_h,
            gx0 == x0,
            gy0 == y0,
            cy <= crop_h,
            mask_px.len() == cy * cw,
            forall|fx: int, fy: int|
                0 <= fx < cw && 0 <= fy < cy ==> #[trigger] mask_px@[pixel_index(cw, fx, fy)] == if crop_label(
                    *labels,
                    gx0,
                    gy0,
                    fx,
                    fy,
                ) == bbox.label {
                    255u8
                } else {
                    0u8
                },
        decreases crop_h - cy,
    {
        let mut cx: u32 = 0;
        while cx < crop_w
            invariant
                crop_fits(*gray, *bbox, padding, *labels),
                x0 == crop_x0(*bbox, padding),
                y0 == crop_y0(*bbox, padding),
                crop_w == crop_width(*bbox, padding, gray.width),
                crop_h == crop_height(*bbox, padding, gray.height),
                img_w == gray.width,
                img_h == gray.height,
                cw == crop_w,
                ch == crop_h,
                gx0 == x0,
                gy0 == y0,
                cy < crop_h,
                cx <= crop_w,
                mask_px.len() == cy * cw + cx,
                forall|fx: int, fy: int|
                    (0 <= fx < cw && 0 <= fy < cy) || (0 <= fx < cx && fy == cy)
                        ==> #[trigger] mask_px@[pixel_index(cw, fx, fy)] == if crop_label(
                        *labels,
                        gx0,
                        gy0,
                        fx,
                        fy,
                    ) == bbox.label {
                        255u8
                    } else {
                        0u8
                    },
            decreases crop_w - cx,
        {
            let v = labels.get_pixel(x0 + cx, y0 + cy);
            let ghost before = mask_px@;
            if v == bbox.label {
                mask_px.push(255u8);
            } else {
                mask_px.push(0u8);
            }
            proof {
                assert forall|fx: int, fy: int|
                    (0 <= fx < cw && 0 <= fy < cy) || (0 <= fx < cx + 1 && fy == cy)
                    implies #[trigger] mask_px@[pixel_index(cw, fx, fy)] == if crop_label(
                    *labels,
                    gx0,
                    gy0,
                    fx,
                    fy,
                ) == bbox.label {
                    255u8
                } else {
                    0u8
                } by {
                    if fy < cy {
                        lemma_index_before_row(cw, fx, fy, cy as int);
                        assert(mask_px@[pixel_index(cw, fx, fy)] == before[pixel_index(cw, fx, fy)]);
                    } else if fx < cx {
                        assert(mask_px@[pixel_index(cw, fx, fy)] == before[pixel_index(cw, fx, fy)]);
                    }
                }
            }
            cx = cx + 1;
        }
        cy = cy + 1;
        proof {
            assert(mask_px.len() == cy * cw) by (nonlinear_arith)
                requires
                    mask_px.len() == (cy - 1) * cw + cw,
            ;
        }
    }
    assert(mask_px.len() == cw * ch) by (nonlinear_arith)
        requires
            mask_px.len() == cy * cw,
            cy == ch,
    ;
    let mask = GrayImage { width: crop_w, height: crop_h, pixels: mask_px };
    // Dilate the mask to capture anti-aliased edges that the threshold missed.
    let grown = dilate_chessboard(&mask, 8);
    proof {
        // the mask is nonzero exactly on the glyph's pixels
        assert forall|fx: int, fy: int| 0 <= fx < cw && 0 <= fy < ch implies
            (#[trigger] mask.pixels@[pixel_index(cw, fx, fy)] != 0) == (crop_label(*labels, gx0, gy0, fx, fy)
            == bbox.label) by {}
        if label_in_crop(*labels, bbox.label, gx0, gy0, cw, ch) {
            let (fx, fy) = choose|fx: int, fy: int|
                0 <= fx < cw && 0 <= fy < ch && #[trigger] crop_label(*labels, gx0, gy0, fx, fy)
                    == bbox.label;
            assert(mask.pixels@[pixel_index(cw, fx, fy)] != 0);
            assert(crate::raster::has_foreground(crop_w, crop_h, mask.pixels@));
        } else {
            if crate::raster::has_foreground(crop_w, crop_h, mask.pixels@) {
                let (fx, fy) = choose|fx: int, fy: int|
                    0 <= fx < cw && 0 <= fy < ch && #[trigger] mask.pixels@[pixel_index(cw, fx, fy)] != 0;
                assert(crop_label(*labels, gx0, gy0, fx, fy) == bbox.label);
            }
        }
    }
    // Original gray where the grown mask covers, white elsewhere.
    let mut out_px: Vec<u8> = Vec::new();
    let mut cy: u32 = 0;
    while cy < crop_h
        invariant
            crop_fits(*gray, *bbox, padding, *labels),
            x0 == crop_x0(*bbox, padding),
            y0 == crop_y0(*bbox, padding),
            crop_w == crop_width(*bbox, padding, gray.width),
            crop_h == crop_height(*bbox, padding, gray.height),
            img_w == gray.width,
            img_h == gray.height,
            cw == crop_w,
            ch == crop_h,
            gx0 == x0,
            gy0 == y0,
            grown.width == crop_w,
            grown.height == crop_h,
            grown.wf(),
            cy <= crop_h,
            out_px.len() == cy * cw,
            forall|fx: int, fy: int|
                0 <= fx < cw && 0 <= fy < cy ==> #[trigger] out_px@[pixel_index(cw, fx, fy)] == if grown.at(fx, fy) > 0
                    && (crop_label(*labels, gx0, gy0, fx, fy) == 0 || crop_label(*labels, gx0, gy0, fx, fy) == bbox.label) {
                    gray.at(gx0 + fx, gy0 + fy)
                } else {
                    255u8
                },
        decreases crop_h - cy,
    {
        let mut cx: u32 = 0;
        while cx < crop_w
            invariant
                crop_fits(*gray, *bbox, padding, *labels),
                x0 == crop_x0(*bbox, padding),
                y0 == crop_y0(*bbox, padding),
                crop_w == crop_width(*bbox, padding, gray.width),
                crop_h == crop_height(*bbox, padding, gray.height),
                img_w == gray.width,
                img_h == gray.height,
                cw == crop_w,
                ch == crop_h,
                gx0 == x0,
                gy0 == y0,
                grown.width == crop_w,
                grown.height == crop_h,
                grown.wf(),
                cy < crop_h,
                cx <= crop_w,
                out_px.len() == cy * cw + cx,
                forall|fx: int, fy: int|
                    (0 <= fx < cw && 0 <= fy < cy) || (0 <= fx < cx && fy == cy)
                        ==> #[trigger] out_px@[pixel_index(cw, fx, fy)] == if grown.at(fx, fy) > 0
                        && (crop_label(*labels, gx0, gy0, fx, fy) == 0 || crop_label(*labels, gx0, gy0, fx, fy) == bbox.label) {
                        gray.at(gx0 + fx, gy0 + fy)
                    } else {
                        255u8
                    },
            decreases crop_w - cx,
        {
            let g = grown.get_pixel(cx, cy);
            let lab = labels.get_pixel(x0 + cx, y0 + cy);
            let ghost before = out_px@;
            if g > 0 && (lab == 0 || lab == bbox.label) {
                let v = gray.get_pixel(x0 + cx, y0 + cy);
                out_px.push(v);
            } else {
                out_px.push(255u8);
            }
            proof {
                assert forall|fx: int, fy: int|
                    (0 <= fx < cw && 0 <= fy < cy) || (0 <= fx < cx + 1 && fy == cy)
                    implies #[trigger] out_px@[pixel_index(cw, fx, fy)] == if grown.at(fx, fy) > 0
                    && (crop_label(*labels, gx0, gy0, fx, fy) == 0 || crop_label(*labels, gx0, gy0, fx, fy) == bbox.label) {
                    gray.at(gx0 + fx, gy0 + fy)
                } else {
                    255u8
                } by {
                    if fy < cy {
                        lemma_index_before_row(cw, fx, fy, cy as int);
                        assert(out_px@[pixel_index(cw, fx, fy)] == before[pixel_index(cw, fx, fy)]);
                    } else if fx < cx {
                        assert(out_px@[pixel_index(cw, fx, fy)] == before[pixel_index(cw, fx, fy)]);
                    }
                }
            }
            cx = cx + 1;
        }
        cy = cy + 1;
        proof {
            assert(out_px.len() == cy * cw) by (nonlinear_arith)
                requires
                    out_px.len() == (cy - 1) * cw + cw,
            ;
        }
    }
    assert(out_px.len() == cw * ch) by (nonlinear_arith)
        requires
            out_px.len() == cy * cw,
            cy == ch,
    ;
    let out = GrayImage { width: crop_w, height: crop_h, pixels: out_px };
    proof {
        assert forall|cx: int, cy: int|
            0 <= cx < cw && 0 <= cy < ch implies (grown.at(cx, cy) > 0) == mask_covers(
            *labels,
            *bbox,
            padding,
            cx,
            cy,
        ) by {
            if label_in_crop(*labels, bbox.label, gx0, gy0, cw, ch) {
                if crate::raster::near_foreground(crop_w, crop_h, mask.pixels@, cx, cy, 8) {
                    let (fx, fy) = choose|fx: int, fy: int|
                        0 <= fx < crop_w && 0 <= fy < crop_h && #[trigger] mask.pixels@[pixel_index(cw, fx, fy)]
                            != 0 && cx - 8 <= fx <= cx + 8 && cy - 8 <= fy <= cy + 8;
                    assert(crop_label(*labels, gx0, gy0, fx, fy) == bbox.label);
                }
                if label_near(*labels, bbox.label, gx0, gy0, cw, ch, cx, cy, 8) {
                    let (fx, fy) = choose|fx: int, fy: int|
                        0 <= fx < cw && 0 <= fy < ch && #[trigger] crop_label(*labels, gx0, gy0, fx, fy)
                            == bbox.label && cx - 8 <= fx <= cx + 8 && cy - 8 <= fy <= cy + 8;
                    assert(mask.pixels@[pixel_index(cw, fx, fy)] != 0);
                }
            }
        }
        assert forall|cx: int, cy: int|
            0 <= cx < out.width && 0 <= cy < out.height implies #[trigger] out.at(cx, cy) == if keeps_gray(
            *labels,
            *bbox,
            padding,
            cx,
            cy,
        ) {
            gray.at(crop_x0(*bbox, padding) + cx, crop_y0(*bbox, padding) + cy)
        } else {
            255u8
        } by {
            assert(out.at(cx, cy) == out_px@[pixel_index(cw, cx, cy)]);
            assert((grown.at(cx, cy) > 0) == mask_covers(*labels, *bbox, padding, cx, cy));
        }
    }
    out
}


proof fn lemma_stats_count_bound(width: int, labels: Seq<u32>, n: int)
    ensures
        forall|l: u32| #[trigger] label_stats(width, labels, n).contains_key(l) ==> 0 <= label_stats(
            width,
            labels,
            n,
        )[l].4 <= n,
    decreases n,
{
    if n > 0 {
        lemma_stats_count_bound(width, labels, n - 1);
        let m0 = label_stats(width, labels, n - 1);
        let m = label_stats(width, labels, n);
        assert forall|l: u32| #[trigger] m.contains_key(l) implies 0 <= m[l].4 <= n by {
            if m0.contains_key(l) {
                assert(0 <= m0[l].4 <= n - 1);
            }
        }
    }
}

/// The crop of a glyph keeps every pixel of the glyph's own ink that lies inside its box:
/// such a pixel falls within the crop and is covered by the grown mask.
pub proof fn law_extract_keeps_own_ink(labels: LabelImage, bbox: GlyphBbox, padding: u32, px: int, py: int)
    requires
        labels.wf(),
        bbox.x + bbox.w <= labels.width,
        bbox.y + bbox.h <= labels.height,
        bbox.x <= px < bbox.x + bbox.w,
        bbox.y <= py < bbox.y + bbox.h,
        labels.at(px, py) == bbox.label,
    ensures
        0 <= px - crop_x0(bbox, padding) < crop_width(bbox, padding, labels.width),
        0 <= py - crop_y0(bbox, padding) < crop_height(bbox, padding, labels.height),
        keeps_gray(labels, bbox, padding, px - crop_x0(bbox, padding), py - crop_y0(bbox, padding)),
{
    let x0 = crop_x0(bbox, padding);
    let y0 = crop_y0(bbox, padding);
    let cw = crop_width(bbox, padding, labels.width);
    let ch = crop_height(bbox, padding, labels.height);
    let fx = px - x0;
    let fy = py - y0;
    assert(crop_label(labels, x0, y0, fx, fy) == bbox.label);
    assert(label_in_crop(labels, bbox.label, x0, y0, cw, ch));
    assert(label_near(labels, bbox.label, x0, y0, cw, ch, fx, fy, 8));
}

/// A glyph box is the smallest rectangle around every pixel of its component, and its area
/// is the component's pixel count.
pub proof fn law_glyph_box_is_component_extent(
    labels: LabelImage,
    min_area: u32,
    max_area: u32,
    out: Seq<GlyphBbox>,
)
    requires
        labels.wf(),
        labels.width > 0,
        labels.labels.len() < u32::MAX,
        boxes_of_labels(image_label_stats(labels), min_area, max_area, out),
    ensures
        forall|i: int, p: int|
            #![trigger out[i], labels.labels@[p]]
            0 <= i < out.len() && 0 <= p < labels.labels.len() && labels.labels@[p] == out[i].label
                ==> out[i].x <= p % (labels.width as int) < out[i].x + out[i].w && out[i].y <= p / (
            labels.width as int) < out[i].y + out[i].h,
        forall|i: int|
            0 <= i < out.len() ==> (#[trigger] out[i]).area == labels.labels@.to_multiset().count(
                out[i].label,
            ),
        forall|i: int| 0 <= i < out.len() ==> (#[trigger] out[i]).label != 0,
{
    let w = labels.width as int;
    let n = labels.labels.len() as int;
    let lab = labels.labels@;
    let m = image_label_stats(labels);
    law_label_extent(w, lab, n);
    assert(lab.take(n) =~= lab);
    assert forall|i: int| 0 <= i < out.len() implies {
        let b = m[(#[trigger] out[i]).label];
        &&& 0 <= b.0 <= b.2 < w
        &&& 0 <= b.4 <= n
        &&& out[i].label != 0
    } by {
        let l = out[i].label;
        let b = m[l];
        let p0 = choose|p: int| #[trigger] labelled_at(lab, n, l, p) && p % w == b.0;
        let p2 = choose|p: int| #[trigger] labelled_at(lab, n, l, p) && p % w == b.2;
        assert(b.0 <= p2 % w <= b.2);
        vstd::arithmetic::div_mod::lemma_mod_bound(p0, w);
        vstd::arithmetic::div_mod::lemma_mod_bound(p2, w);
        lemma_stats_count_bound(w, lab, n);
    }
    assert forall|i: int, p: int|
        #![trigger out[i], labels.labels@[p]]
        0 <= i < out.len() && 0 <= p < labels.labels.len() && labels.labels@[p] == out[i].label
            implies out[i].x <= p % (labels.width as int) < out[i].x + out[i].w && out[i].y <= p / (
        labels.width as int) < out[i].y + out[i].h by {
        let l = out[i].label;
        assert(labelled_at(lab, n, lab[p], p));
        let b = m[l];
        let p1 = choose|q: int| #[trigger] labelled_at(lab, n, l, q) && q / w == b.1;
        let p3 = choose|q: int| #[trigger] labelled_at(lab, n, l, q) && q / w == b.3;
        vstd::arithmetic::div_mod::lemma_div_pos_is_pos(p1, w);
        assert(p3 / w <= n / w) by {
            vstd::arithmetic::div_mod::lemma_div_is_ordered(p3, n, w);
        }
        assert(n / w == labels.height as int) by {
            vstd::arithmetic::div_mod::lemma_div_multiples_vanish(labels.height as int, w);
        }
    }
}

/// The binary image of the adaptive threshold with delta 0: ink black, paper white.
pub open spec fn binarized(gray: GrayImage, block_radius: u32) -> Seq<u8> {
    crate::raster::threshold_pixels(gray.width, gray.height, gray.pixels@, block_radius, 0)
}

/// The eight-connected labelling of the ink of the binary image.
pub open spec fn ink_labels(gray: GrayImage, block_radius: u32) -> Seq<u32> {
    crate::raster::component_labels(
        gray.width,
        gray.height,
        binarized(gray, block_radius),
        Connectivity::Eight,
        255,
    )
}

/// The inputs on which the segmentation stays within the limits of the threshold and
/// labelling calls.
pub open spec fn segment_fits(gray: GrayImage, block_radius: u32) -> bool {
    &&& gray.wf()
    &&& 0 < block_radius <= i32::MAX
    &&& gray.width + block_radius <= u32::MAX
    &&& gray.height + block_radius <= u32::MAX
    &&& 510 * (gray.width as int * gray.height as int) <= u32::MAX
}

/// The segmentation of `gray`: `labels` is the eight-connected labelling of its ink (paper
/// labelled 0, touching ink pixels sharing a label, a shared label only along a path of ink),
/// and `boxes` are the boxes of the labels with an area in `[min_area, max_area]`, in
/// reading order.
pub open spec fn is_segmentation(
    boxes: Seq<GlyphBbox>,
    labels: LabelImage,
    gray: GrayImage,
    min_area: u32,
    max_area: u32,
    block_radius: u32,
) -> bool {
    let ink = binarized(gray, block_radius);
    let n = labels.labels.len() as int;
    let w = gray.width as int;
    &&& labels.width == gray.width
    &&& labels.height == gray.height
    &&& labels.wf()
    &&& labels.labels@ == ink_labels(gray, block_radius)
    &&& forall|i: int| 0 <= i < n ==> (#[trigger] labels.labels@[i] == 0 <==> ink[i] == 255)
    &&& forall|p: int, q: int|
        0 <= p < n && 0 <= q < n && adjacent(w, Connectivity::Eight, p, q) && ink[p] == 0
            && ink[q] == 0 ==> #[trigger] labels.labels@[p] == #[trigger] labels.labels@[q]
    &&& forall|p: int, q: int|
        0 <= p < n && 0 <= q < n && #[trigger] labels.labels@[p] == #[trigger] labels.labels@[q]
            && labels.labels@[p] != 0 ==> exists|path: Seq<int>|
            joined_by(w, n, Connectivity::Eight, ink, path, p, q)
    &&& boxes == reading_order(glyph_boxes(image_label_stats(labels), min_area, max_area))
}

/// An image has one segmentation for given limits: any two results that meet
/// `is_segmentation` (such as those of `find_glyphs` and of the crate-level `segment_image`)
/// hold the same label image and the same boxes in the same order.
pub proof fn law_segmentation_unique(
    boxes_a: Seq<GlyphBbox>,
    labels_a: LabelImage,
    boxes_b: Seq<GlyphBbox>,
    labels_b: LabelImage,
    gray: GrayImage,
    min_area: u32,
    max_area: u32,
    block_radius: u32,
)
    requires
        is_segmentation(boxes_a, labels_a, gray, min_area, max_area, block_radius),
        is_segmentation(boxes_b, labels_b, gray, min_area, max_area, block_radius),
    ensures
        labels_a.width == labels_b.width,
        labels_a.height == labels_b.height,
        labels_a.labels@ == labels_b.labels@,
        boxes_a == boxes_b,
{
    assert(image_label_stats(labels_a) == image_label_stats(labels_b));
}

/// Find all glyph bounding boxes in a grayscale image, dark ink on a light background:
/// adaptive threshold, eight-connected components, area filter, reading order.
/// Returns the boxes and the label image.
pub fn find_glyphs(gray: &GrayImage, min_area: u32, max_area: u32, block_radius: u32) -> (res: (
    Vec<GlyphBbox>,
    LabelImage,
))
    requires
        segment_fits(*gray, block_radius),
    ensures
        is_segmentation(res.0@, res.1, *gray, min_area, max_area, block_radius),
        forall|i: int| 0 <= i < res.0.len() ==> min_area <= (#[trigger] res.0@[i]).area <= max_area,
{
    // Binary image: paper white (255), ink black (0); the threshold is the local mean.
    let binary = adaptive_threshold(gray, block_radius, 0);
    proof {
        if binary.pixels.len() > 0 {
            crate::raster::lemma_threshold_has_white(
                gray.width,
                gray.height,
                gray.pixels@,
                block_radius,
                0,
            );
        }
    }
    // Label connected ink components; white pixels are background.
    let labels = connected_components(&binary, Connectivity::Eight, 255);
    let mut glyphs = glyphs_from_labels(&labels, min_area, max_area);
    proof {
        let m = image_label_stats(labels);
        law_boxes_of_labels_unique(m, min_area, max_area, glyphs@, glyph_boxes(m, min_area, max_area));
        assert(glyphs.len() > 0 ==> 510 * labels.height <= u32::MAX) by (nonlinear_arith)
            requires
                glyphs.len() <= labels.width * labels.height,
                510 * (labels.width * labels.height) <= u32::MAX,
        ;
        lemma_reading_order_fits(glyphs@, labels.height);
    }
    let ghost unordered = glyphs@;
    assign_reading_order(&mut glyphs);
    proof {
        law_reading_order_members(unordered);
        assert forall|i: int| 0 <= i < glyphs.len() implies min_area <= (#[trigger] glyphs@[i]).area
            <= max_area by {
            let j = choose|j: int| 0 <= j < unordered.len() && unplaced(glyphs@[i]) == unplaced(unordered[j]);
            assert(unordered[j].area == unplaced(unordered[j]).area);
        }
        let ink = binarized(*gray, block_radius);
        let n = labels.labels.len() as int;
        assert(binary.pixels@ == ink);
        assert forall|p: int, q: int|
            0 <= p < n && 0 <= q < n && adjacent(gray.width as int, Connectivity::Eight, p, q)
                && ink[p] == 0 && ink[q] == 0 implies #[trigger] labels.labels@[p]
            == #[trigger] labels.labels@[q] by {
            assert(binary.pixels@[p] == binary.pixels@[q] && binary.pixels@[p] != 255);
        }
    }
    (glyphs, labels)
}

proof fn lemma_reading_order_fits(g: Seq<GlyphBbox>, height: u32)
    requires
        510 * g.len() <= u32::MAX,
        g.len() > 0 ==> 510 * height <= u32::MAX,
        forall|i: int|
            0 <= i < g.len() ==> (#[trigger] g[i]).y + g[i].h <= height && g[i].h >= 1,
    ensures
        reading_order_fits(g),
{
    assert forall|i: int| 0 <= i < g.len() implies center(#[trigger] g[i]) <= u32::MAX by {}
    if g.len() > 0 {
        let c = sort_by_key(g, center_key());
        lemma_sort_by_key_sorted(g, center_key());
        let hs = heights_of(c);
        lemma_sort_by_key_sorted(hs, height_key());
        let k = (c.len() / 2) as int;
        lemma_sorted_member(hs, height_key(), k);
        let v = sort_by_key(hs, height_key())[k];
        let j = choose|j: int| 0 <= j < hs.len() && hs[j] == v;
        lemma_sorted_member(g, center_key(), j);
        let t = choose|t: int| 0 <= t < g.len() && g[t] == c[j];
        assert(v == g[t].h);
        assert(median_height(c) <= height);
    }
}

} // verus!
