use vstd::prelude::*;
use crate::error::Error;
use crate::geometry::{
    Point, Rectangle, contains_cell, within, disjoint_rects, all_wf, all_within,
    pairwise_disjoint, covered,
};
use crate::rng::RngSource;
use crate::tiles::TileType;

verus! {

/// A cut is possible on the axis [c0, c1] when both sides of some cut value
/// can keep at least min cells: the extent c1 - c0 + 1 must reach 2*min + 1.
pub open spec fn splittable(c0: u32, c1: u32, min: u32) -> bool {
    c1 - c0 >= 2 * min
}

/// The two boundary coordinates beside the cut value v on the axis [c0, c1]:
/// the side with more remaining room absorbs the shift, and the pair always
/// leaves exactly one coordinate between its members.
pub open spec fn cut_bounds(c0: int, c1: int, v: int) -> (int, int) {
    if v - c0 > c1 - v {
        (v - 1, v + 1)
    } else {
        (v, v + 2)
    }
}

/// The two children of a vertical cut at x = v.
pub open spec fn width_children(rect: Rectangle, v: int) -> (Rectangle, Rectangle) {
    let (a, b) = cut_bounds(rect.bottom_left.x as int, rect.top_right.x as int, v);
    (
        Rectangle {
            bottom_left: rect.bottom_left,
            top_right: Point { x: a as u32, y: rect.top_right.y },
        },
        Rectangle {
            bottom_left: Point { x: b as u32, y: rect.bottom_left.y },
            top_right: rect.top_right,
        },
    )
}

/// The one-cell-wide wall column left between the two children of a vertical
/// cut at x = v.
pub open spec fn width_gap(rect: Rectangle, v: int) -> Rectangle {
    let (a, b) = cut_bounds(rect.bottom_left.x as int, rect.top_right.x as int, v);
    Rectangle {
        bottom_left: Point { x: (a + 1) as u32, y: rect.bottom_left.y },
        top_right: Point { x: (a + 1) as u32, y: rect.top_right.y },
    }
}

/// The two children of a horizontal cut at y = v.
pub open spec fn height_children(rect: Rectangle, v: int) -> (Rectangle, Rectangle) {
    let (a, b) = cut_bounds(rect.bottom_left.y as int, rect.top_right.y as int, v);
    (
        Rectangle {
            bottom_left: rect.bottom_left,
            top_right: Point { x: rect.top_right.x, y: a as u32 },
        },
        Rectangle {
            bottom_left: Point { x: rect.bottom_left.x, y: b as u32 },
            top_right: rect.top_right,
        },
    )
}

/// The one-cell-tall wall row left between the two children of a horizontal
/// cut at y = v.
pub open spec fn height_gap(rect: Rectangle, v: int) -> Rectangle {
    let (a, b) = cut_bounds(rect.bottom_left.y as int, rect.top_right.y as int, v);
    Rectangle {
        bottom_left: Point { x: rect.bottom_left.x, y: (a + 1) as u32 },
        top_right: Point { x: rect.top_right.x, y: (a + 1) as u32 },
    }
}

/// c1 and c2, together with the one-cell gap g, tile rect exactly.
pub open spec fn splits_into(rect: Rectangle, c1: Rectangle, c2: Rectangle, g: Rectangle) -> bool {
    c1.wf() && c2.wf() && g.wf()
        && within(c1, rect) && within(c2, rect) && within(g, rect)
        && disjoint_rects(c1, c2) && disjoint_rects(c1, g) && disjoint_rects(c2, g)
        && (g.spec_width() == 1 || g.spec_height() == 1)
        && (forall|x: int, y: int| #[trigger] contains_cell(rect, x, y) ==>
            contains_cell(c1, x, y) || contains_cell(c2, x, y) || contains_cell(g, x, y))
}

/// A vertical cut inside the admissible range tiles the rectangle into its
/// two children and the gap column, and the left child keeps at least min
/// columns while the right child keeps at least min - 1.
pub proof fn lemma_width_split(rect: Rectangle, v: int, min: u32)
    requires
        rect.wf(),
        min >= 2,
        rect.bottom_left.x + min <= v <= rect.top_right.x - min,
    ensures
        splits_into(rect, width_children(rect, v).0, width_children(rect, v).1, width_gap(rect, v)),
        width_children(rect, v).0.spec_width() >= min,
        width_children(rect, v).1.spec_width() >= min - 1,
        rect.spec_width() != 2 * min + 1 ==> width_children(rect, v).1.spec_width() >= min,
{
}

/// Mirror image of lemma_width_split for a horizontal cut.
pub proof fn lemma_height_split(rect: Rectangle, v: int, min: u32)
    requires
        rect.wf(),
        min >= 2,
        rect.bottom_left.y + min <= v <= rect.top_right.y - min,
    ensures
        splits_into(rect, height_children(rect, v).0, height_children(rect, v).1, height_gap(rect, v)),
        height_children(rect, v).0.spec_height() >= min,
        height_children(rect, v).1.spec_height() >= min - 1,
        rect.spec_height() != 2 * min + 1 ==> height_children(rect, v).1.spec_height() >= min,
{
}

/// Split validity: whenever a cut is made at all, it is made at a value that
/// leaves both children at least min_split_size cells on the cut axis --
/// except for a rectangle whose extent on that axis is exactly
/// 2 * min_split_size + 1, where the second child is left one cell short.
pub proof fn lemma_split_validity(rect: Rectangle, v: int, min: u32, along_width: bool)
    requires
        rect.wf(),
        min >= 2,
        along_width ==> rect.bottom_left.x + min <= v <= rect.top_right.x - min
            && rect.spec_width() != 2 * min + 1,
        !along_width ==> rect.bottom_left.y + min <= v <= rect.top_right.y - min
            && rect.spec_height() != 2 * min + 1,
    ensures
        along_width ==> width_children(rect, v).0.spec_width() >= min
            && width_children(rect, v).1.spec_width() >= min,
        !along_width ==> height_children(rect, v).0.spec_height() >= min
            && height_children(rect, v).1.spec_height() >= min,
{
    if along_width {
        lemma_width_split(rect, v, min);
    } else {
        lemma_height_split(rect, v, min);
    }
}

/// No rectangle of a shares a cell with a rectangle of b.
pub open spec fn cross_disjoint(a: Seq<Rectangle>, b: Seq<Rectangle>) -> bool {
    forall|i: int, j: int| 0 <= i < a.len() && 0 <= j < b.len()
        ==> disjoint_rects(#[trigger] a[i], #[trigger] b[j])
}

/// Every rectangle of s is one cell wide or one cell tall.
pub open spec fn all_thin(s: Seq<Rectangle>) -> bool {
    forall|i: int| 0 <= i < s.len()
        ==> (#[trigger] s[i]).spec_width() == 1 || s[i].spec_height() == 1
}

spec fn all_wf_from(s: Seq<Rectangle>, k: int) -> bool {
    forall|i: int| k <= i < s.len() ==> (#[trigger] s[i]).wf()
}

spec fn all_within_from(s: Seq<Rectangle>, k: int, outer: Rectangle) -> bool {
    forall|i: int| k <= i < s.len() ==> within(#[trigger] s[i], outer)
}

spec fn pairwise_disjoint_from(s: Seq<Rectangle>, k: int) -> bool {
    forall|i: int, j: int| k <= i < j < s.len()
        ==> disjoint_rects(#[trigger] s[i], #[trigger] s[j])
}

spec fn cross_disjoint_from(a: Seq<Rectangle>, s: Seq<Rectangle>, k: int) -> bool {
    forall|i: int, j: int| 0 <= i < a.len() && k <= j < s.len()
        ==> disjoint_rects(#[trigger] a[i], #[trigger] s[j])
}

spec fn covered_from(s: Seq<Rectangle>, k: int, x: int, y: int) -> bool {
    exists|i: int| k <= i < s.len() && contains_cell(#[trigger] s[i], x, y)
}

/// A rectangle inside r cannot reach any cell that r itself misses.
proof fn lemma_shrink_disjoint(c: Rectangle, r: Rectangle, o: Rectangle)
    requires
        within(c, r),
        disjoint_rects(r, o) || disjoint_rects(o, r),
    ensures
        disjoint_rects(c, o),
        disjoint_rects(o, c),
{
}

/// Concatenating two tiling fragments keeps every structural fact, and a cell
/// is covered by the concatenation exactly when one of the parts covers it.
proof fn lemma_concat_parts(a: Seq<Rectangle>, b: Seq<Rectangle>, root: Rectangle, c: Seq<Rectangle>)
    requires
        all_wf(a),
        all_wf(b),
        all_within(a, root),
        all_within(b, root),
        pairwise_disjoint(a),
        pairwise_disjoint(b),
        cross_disjoint(a, b),
        cross_disjoint(a, c),
        cross_disjoint(b, c),
    ensures
        all_wf(a + b),
        all_within(a + b, root),
        pairwise_disjoint(a + b),
        cross_disjoint(a + b, c),
        forall|x: int, y: int| #![auto] covered(a + b, x, y) <==> covered(a, x, y) || covered(b, x, y),
{
    let ab = a + b;
    assert forall|i: int| 0 <= i < ab.len() implies (#[trigger] ab[i]).wf() && within(ab[i], root) by {
        if i < a.len() {
            assert(ab[i] == a[i]);
        } else {
            assert(ab[i] == b[i - a.len()]);
        }
    }
    assert forall|i: int, j: int| 0 <= i < j < ab.len()
        implies disjoint_rects(#[trigger] ab[i], #[trigger] ab[j]) by {
        if j < a.len() {
            assert(ab[i] == a[i] && ab[j] == a[j]);
        } else if i < a.len() {
            assert(ab[i] == a[i] && ab[j] == b[j - a.len()]);
        } else {
            assert(ab[i] == b[i - a.len()] && ab[j] == b[j - a.len()]);
        }
    }
    assert forall|i: int, j: int| 0 <= i < ab.len() && 0 <= j < c.len()
        implies disjoint_rects(#[trigger] ab[i], #[trigger] c[j]) by {
        if i < a.len() {
            assert(ab[i] == a[i]);
        } else {
            assert(ab[i] == b[i - a.len()]);
        }
    }
    assert forall|x: int, y: int| #![auto] covered(ab, x, y) <==> covered(a, x, y) || covered(b, x, y) by {
        if covered(ab, x, y) {
            let i = choose|i: int| 0 <= i < ab.len() && contains_cell(ab[i], x, y);
            if i < a.len() {
                assert(contains_cell(a[i], x, y));
            } else {
                assert(contains_cell(b[i - a.len()], x, y));
            }
        }
        if covered(a, x, y) {
            let i = choose|i: int| 0 <= i < a.len() && contains_cell(a[i], x, y);
            assert(contains_cell(ab[i], x, y));
        }
        if covered(b, x, y) {
            let i = choose|i: int| 0 <= i < b.len() && contains_cell(b[i], x, y);
            assert(contains_cell(ab[a.len() + i], x, y));
        }
    }
}

/// Coverage: the rooms of the final (pre-pruning) set, together with the
/// one-cell gaps that the splitting introduced, tile the root rectangle
/// exactly -- every cell of the root is reached, no cell twice.
pub proof fn lemma_rooms_and_gaps_tile_root(rooms: Seq<Rectangle>, gaps: Seq<Rectangle>, root: Rectangle)
    requires
        all_wf(rooms),
        all_within(rooms, root),
        pairwise_disjoint(rooms),
        all_wf(gaps),
        all_within(gaps, root),
        pairwise_disjoint(gaps),
        cross_disjoint(rooms, gaps),
        forall|x: int, y: int| #[trigger] contains_cell(root, x, y)
            ==> covered(rooms, x, y) || covered(gaps, x, y),
    ensures
        crate::geometry::partition_of(rooms + gaps, root),
{
    lemma_concat_parts(rooms, gaps, root, Seq::<Rectangle>::empty());
}

/// Draw a cut coordinate on the axis [c0, c1], or report that no valid cut
/// exists. A value is drawn exactly when the axis is splittable, and it is
/// always at least min_split_size away from both ends.
fn split(rng: &mut RngSource, min_split_size: u32, c0: u32, c1: u32) -> (r: Option<u32>)
    requires
        min_split_size >= 2,
        c0 <= c1,
    ensures
        r is Some <==> splittable(c0, c1, min_split_size),
        r matches Some(v) ==> c0 + min_split_size <= v <= c1 - min_split_size
            && final(rng).log() == old(rng).log().push(v),
        r is None ==> final(rng).log() == old(rng).log(),
{
    if (c1 - c0) / 2 >= min_split_size {
        Some(rng.next_in_range(c0 + min_split_size, c1 - min_split_size))
    } else {
        None
    }
}

/// Try a vertical cut. On success the two children are appended to splitted
/// and the ghost result names the gap column; otherwise the rectangle is
/// appended unchanged to unsplitted.
fn split_rect_width(
    rng: &mut RngSource,
    min_split_size: u32,
    unsplitted: &mut Vec<Rectangle>,
    splitted: &mut Vec<Rectangle>,
    rectangle: Rectangle,
) -> (gap: Ghost<Option<Rectangle>>)
    requires
        min_split_size >= 2,
        rectangle.wf(),
        rectangle.spec_width() <= u32::MAX,
    ensures
        !splittable(rectangle.bottom_left.x, rectangle.top_right.x, min_split_size) ==> ({
            &&& final(unsplitted)@ == old(unsplitted)@.push(rectangle)
            &&& final(splitted)@ == old(splitted)@
            &&& gap@ is None
            &&& final(rng).log() == old(rng).log()
        }),
        splittable(rectangle.bottom_left.x, rectangle.top_right.x, min_split_size) ==> ({
            &&& final(unsplitted)@ == old(unsplitted)@
            &&& final(splitted)@.len() == old(splitted)@.len() + 2
            &&& (forall|i: int| 0 <= i < old(splitted)@.len()
                ==> final(splitted)@[i] == old(splitted)@[i])
            &&& (gap@ matches Some(g) && splits_into(
                rectangle,
                final(splitted)@[final(splitted)@.len() - 2],
                final(splitted)@[final(splitted)@.len() - 1],
                g,
            ))
            &&& ({
                let v = final(rng).log().last() as int;
                &&& final(rng).log() == old(rng).log().push(final(rng).log().last())
                &&& rectangle.bottom_left.x + min_split_size <= v
                    <= rectangle.top_right.x - min_split_size
                &&& final(splitted)@[final(splitted)@.len() - 2] == width_children(rectangle, v).0
                &&& final(splitted)@[final(splitted)@.len() - 1] == width_children(rectangle, v).1
                &&& gap@ == Some(width_gap(rectangle, v))
            })
        }),
{
    if let Some(value) = split(rng, min_split_size, rectangle.bottom_left.x, rectangle.top_right.x)
    {
        let x: (u32, u32) = if value - rectangle.bottom_left.x > rectangle.top_right.x - value {
            (value - 1, value + 1)
        } else {
            (value, value + 2)
        };
        splitted.push(Rectangle::from_corner(
            rectangle.bottom_left,
            Point::new(x.0, rectangle.top_right.y),
        ));
        splitted.push(Rectangle::from_corner(
            Point::new(x.1, rectangle.bottom_left.y),
            rectangle.top_right,
        ));
        proof {
            lemma_width_split(rectangle, value as int, min_split_size);
        }
        Ghost(Some(width_gap(rectangle, value as int)))
    } else {
        unsplitted.push(rectangle);
        Ghost(None)
    }
}

/// Try a horizontal cut; the mirror image of split_rect_width.
fn split_rect_height(
    rng: &mut RngSource,
    min_split_size: u32,
    unsplitted: &mut Vec<Rectangle>,
    splitted: &mut Vec<Rectangle>,
    rectangle: Rectangle,
) -> (gap: Ghost<Option<Rectangle>>)
    requires
        min_split_size >= 2,
        rectangle.wf(),
        rectangle.spec_height() <= u32::MAX,
    ensures
        !splittable(rectangle.bottom_left.y, rectangle.top_right.y, min_split_size) ==> ({
            &&& final(unsplitted)@ == old(unsplitted)@.push(rectangle)
            &&& final(splitted)@ == old(splitted)@
            &&& gap@ is None
            &&& final(rng).log() == old(rng).log()
        }),
        splittable(rectangle.bottom_left.y, rectangle.top_right.y, min_split_size) ==> ({
            &&& final(unsplitted)@ == old(unsplitted)@
            &&& final(splitted)@.len() == old(splitted)@.len() + 2
            &&& (forall|i: int| 0 <= i < old(splitted)@.len()
                ==> final(splitted)@[i] == old(splitted)@[i])
            &&& (gap@ matches Some(g) && splits_into(
                rectangle,
                final(splitted)@[final(splitted)@.len() - 2],
                final(splitted)@[final(splitted)@.len() - 1],
                g,
            ))
            &&& ({
                let v = final(rng).log().last() as int;
                &&& final(rng).log() == old(rng).log().push(final(rng).log().last())
                &&& rectangle.bottom_left.y + min_split_size <= v
                    <= rectangle.top_right.y - min_split_size
                &&& final(splitted)@[final(splitted)@.len() - 2] == height_children(rectangle, v).0
                &&& final(splitted)@[final(splitted)@.len() - 1] == height_children(rectangle, v).1
                &&& gap@ == Some(height_gap(rectangle, v))
            })
        }),
{
    if let Some(value) = split(rng, min_split_size, rectangle.bottom_left.y, rectangle.top_right.y)
    {
        let y: (u32, u32) = if value - rectangle.bottom_left.y > rectangle.top_right.y - value {
            (value - 1, value + 1)
        } else {
            (value, value + 2)
        };
        splitted.push(Rectangle::from_corner(
            rectangle.bottom_left,
            Point::new(rectangle.top_right.x, y.0),
        ));
        splitted.push(Rectangle::from_corner(
            Point::new(rectangle.bottom_left.x, y.1),
            rectangle.top_right,
        ));
        proof {
            lemma_height_split(rectangle, value as int, min_split_size);
        }
        Ghost(Some(height_gap(rectangle, value as int)))
    } else {
        unsplitted.push(rectangle);
        Ghost(None)
    }
}

/// The round cuts a rectangle on its longer dimension, ties going to
/// height; the rectangle is split at all only when that axis can keep
/// min cells on both sides of a cut.
pub open spec fn rect_splittable(rect: Rectangle, min: u32) -> bool {
    if rect.spec_width() > rect.spec_height() {
        splittable(rect.bottom_left.x, rect.top_right.x, min)
    } else {
        splittable(rect.bottom_left.y, rect.top_right.y, min)
    }
}

/// The two children the round's cut of rect leaves at the drawn value v.
pub open spec fn rect_children(rect: Rectangle, v: int) -> (Rectangle, Rectangle) {
    if rect.spec_width() > rect.spec_height() {
        width_children(rect, v)
    } else {
        height_children(rect, v)
    }
}

/// The one-cell gap the round's cut of rect leaves at the drawn value v.
pub open spec fn rect_gap(rect: Rectangle, v: int) -> Rectangle {
    if rect.spec_width() > rect.spec_height() {
        width_gap(rect, v)
    } else {
        height_gap(rect, v)
    }
}

/// One round of the partition engine over the first k rectangles of s, as a
/// function of the drawn values ds alone: the rectangles the round settles,
/// the children it hands to the next round, the gaps it carves, and how many
/// draws it consumed. Each splittable rectangle consumes the next draw.
pub open spec fn round_model(s: Seq<Rectangle>, k: int, min: u32, ds: Seq<u32>)
    -> (Seq<Rectangle>, Seq<Rectangle>, Seq<Rectangle>, int)
    decreases k,
{
    if k <= 0 {
        (Seq::<Rectangle>::empty(), Seq::<Rectangle>::empty(), Seq::<Rectangle>::empty(), 0)
    } else {
        let (a, b, c, u) = round_model(s, k - 1, min, ds);
        let r = s[k - 1];
        if rect_splittable(r, min) && u < ds.len() {
            let v = ds[u] as int;
            (
                a,
                b.push(rect_children(r, v).0).push(rect_children(r, v).1),
                c.push(rect_gap(r, v)),
                u + 1,
            )
        } else if rect_splittable(r, min) {
            (a, b, c, u)
        } else {
            (a.push(r), b, c, u)
        }
    }
}

/// All the given rounds of the partition engine, as a function of the drawn
/// values alone: the settled rectangles, the still-active rectangles, the
/// gaps, and how many draws were consumed. The final room set is the settled
/// list followed by the active list. This is what determinism under fixed
/// randomness means here: two runs that record the same drawn values yield
/// the same rooms and the same gaps.
pub open spec fn partition_model(root: Rectangle, rounds: int, min: u32, ds: Seq<u32>)
    -> (Seq<Rectangle>, Seq<Rectangle>, Seq<Rectangle>, int)
    decreases rounds,
{
    if rounds <= 0 {
        (Seq::<Rectangle>::empty(), seq![root], Seq::<Rectangle>::empty(), 0)
    } else {
        let (a, b, c, u) = partition_model(root, rounds - 1, min, ds);
        let (a2, b2, c2, u2) = round_model(b, b.len() as int, min, ds.skip(u));
        (a + a2, b2, c + c2, u + u2)
    }
}

/// The record ds holds every draw the round asks for among the first k
/// rectangles: no splittable rectangle runs past its end.
spec fn no_starve(s: Seq<Rectangle>, k: int, min: u32, ds: Seq<u32>) -> bool
    decreases k,
{
    if k <= 0 {
        true
    } else {
        no_starve(s, k - 1, min, ds)
            && (rect_splittable(s[k - 1], min) ==> round_model(s, k - 1, min, ds).3 < ds.len())
    }
}

/// The record ds holds every draw the given rounds ask for.
spec fn no_starve_rounds(root: Rectangle, rounds: int, min: u32, ds: Seq<u32>) -> bool
    decreases rounds,
{
    if rounds <= 0 {
        true
    } else {
        let (a, b, c, u) = partition_model(root, rounds - 1, min, ds);
        no_starve_rounds(root, rounds - 1, min, ds)
            && no_starve(b, b.len() as int, min, ds.skip(u))
    }
}

proof fn lemma_round_model_used(s: Seq<Rectangle>, k: int, min: u32, ds: Seq<u32>)
    ensures
        0 <= round_model(s, k, min, ds).3 <= ds.len(),
    decreases k,
{
    if k > 0 {
        lemma_round_model_used(s, k - 1, min, ds);
    }
}

/// A round reads only the draws it consumes: values recorded after them do
/// not change its outcome.
proof fn lemma_round_model_prefix(s: Seq<Rectangle>, k: int, min: u32, ds1: Seq<u32>, ds2: Seq<u32>)
    requires
        0 <= k,
        ds1.len() <= ds2.len(),
        forall|i: int| 0 <= i < ds1.len() ==> ds1[i] == ds2[i],
        no_starve(s, k, min, ds1),
    ensures
        round_model(s, k, min, ds2) == round_model(s, k, min, ds1),
        no_starve(s, k, min, ds2),
    decreases k,
{
    if k > 0 {
        lemma_round_model_prefix(s, k - 1, min, ds1, ds2);
        lemma_round_model_used(s, k - 1, min, ds1);
    }
}

/// As lemma_round_model_prefix, across whole rounds.
proof fn lemma_partition_model_prefix(
    root: Rectangle,
    rounds: int,
    min: u32,
    ds1: Seq<u32>,
    ds2: Seq<u32>,
)
    requires
        0 <= rounds,
        ds1.len() <= ds2.len(),
        forall|i: int| 0 <= i < ds1.len() ==> ds1[i] == ds2[i],
        no_starve_rounds(root, rounds, min, ds1),
    ensures
        partition_model(root, rounds, min, ds2) == partition_model(root, rounds, min, ds1),
        no_starve_rounds(root, rounds, min, ds2),
    decreases rounds,
{
    if rounds > 0 {
        lemma_partition_model_prefix(root, rounds - 1, min, ds1, ds2);
        let (a, b, c, u) = partition_model(root, rounds - 1, min, ds1);
        lemma_round_model_used(b, b.len() as int, min, ds1.skip(u));
        assert(0 <= u <= ds1.len()) by {
            lemma_partition_model_used(root, rounds - 1, min, ds1);
        }
        assert forall|i: int| 0 <= i < ds1.skip(u).len()
            implies ds1.skip(u)[i] == ds2.skip(u)[i] by {
            assert(ds1.skip(u)[i] == ds1[i + u]);
            assert(ds2.skip(u)[i] == ds2[i + u]);
        }
        lemma_round_model_prefix(b, b.len() as int, min, ds1.skip(u), ds2.skip(u));
    }
}

proof fn lemma_partition_model_used(root: Rectangle, rounds: int, min: u32, ds: Seq<u32>)
    ensures
        0 <= partition_model(root, rounds, min, ds).3 <= ds.len(),
    decreases rounds,
{
    if rounds > 0 {
        lemma_partition_model_used(root, rounds - 1, min, ds);
        let (a, b, c, u) = partition_model(root, rounds - 1, min, ds);
        lemma_round_model_used(b, b.len() as int, min, ds.skip(u));
    }
}

/// Partition engine: split the root rectangle for nb_iteration rounds and
/// return the final room set together with (in ghost state) the one-cell
/// gaps that were carved out between siblings. The rooms are pairwise
/// disjoint and, with the gaps, tile the root exactly; and both are the
/// functions of the drawn values that partition_model names, so two runs
/// whose sources produce the same values build the same rooms and gaps.
#[verifier::loop_isolation(false)]
#[verifier::rlimit(100)]
fn generate_rooms(
    rng: &mut RngSource,
    nb_iteration: u32,
    min_split_size: u32,
    root: Rectangle,
) -> (r: (Vec<Rectangle>, Ghost<Seq<Rectangle>>))
    requires
        min_split_size >= 2,
        root.wf(),
        root.spec_width() <= u32::MAX,
        root.spec_height() <= u32::MAX,
    ensures
        ({
            let rooms = r.0@;
            let gaps = r.1@;
            &&& all_wf(rooms)
            &&& all_within(rooms, root)
            &&& pairwise_disjoint(rooms)
            &&& all_wf(gaps)
            &&& all_within(gaps, root)
            &&& pairwise_disjoint(gaps)
            &&& cross_disjoint(rooms, gaps)
            &&& all_thin(gaps)
            &&& forall|x: int, y: int| #[trigger] contains_cell(root, x, y)
                ==> covered(rooms, x, y) || covered(gaps, x, y)
        }),
        old(rng).log().len() <= final(rng).log().len(),
        final(rng).log().take(old(rng).log().len() as int) == old(rng).log(),
        ({
            let cs = final(rng).log().skip(old(rng).log().len() as int);
            let pm = partition_model(root, nb_iteration as int, min_split_size, cs);
            &&& r.0@ == pm.0 + pm.1
            &&& r.1@ == pm.2
            &&& pm.3 == cs.len()
            &&& no_starve_rounds(root, nb_iteration as int, min_split_size, cs)
        }),
{
    let ghost log0 = rng.log();
    let mut splitted_rect: Vec<Rectangle> = Vec::new();
    splitted_rect.push(root);
    let mut result: Vec<Rectangle> = Vec::new();
    let ghost mut gaps: Seq<Rectangle> = Seq::<Rectangle>::empty();
    proof {
        assert forall|x: int, y: int| #[trigger] contains_cell(root, x, y)
            implies covered(splitted_rect@, x, y) by {
            assert(contains_cell(splitted_rect@[0], x, y));
        }
        assert(rng.log().skip(log0.len() as int) =~= Seq::<u32>::empty());
        assert(rng.log().take(log0.len() as int) =~= log0);
        assert(splitted_rect@ =~= seq![root]);
    }
    let mut round: u32 = 0;
    while round < nb_iteration
        invariant
            round <= nb_iteration,
            all_wf(result@),
            all_within(result@, root),
            pairwise_disjoint(result@),
            all_wf(splitted_rect@),
            all_within(splitted_rect@, root),
            pairwise_disjoint(splitted_rect@),
            all_wf(gaps),
            all_within(gaps, root),
            pairwise_disjoint(gaps),
            all_thin(gaps),
            cross_disjoint(result@, splitted_rect@),
            cross_disjoint(result@, gaps),
            cross_disjoint(splitted_rect@, gaps),
            forall|x: int, y: int| #[trigger] contains_cell(root, x, y)
                ==> covered(result@, x, y) || covered(splitted_rect@, x, y) || covered(gaps, x, y),
            log0.len() <= rng.log().len(),
            rng.log().take(log0.len() as int) == log0,
            ({
                let cs = rng.log().skip(log0.len() as int);
                &&& partition_model(root, round as int, min_split_size, cs)
                    == (result@, splitted_rect@, gaps, cs.len() as int)
                &&& no_starve_rounds(root, round as int, min_split_size, cs)
            }),
        decreases nb_iteration - round,
    {
        let mut new_splitted: Vec<Rectangle> = Vec::new();
        let ghost pending = splitted_rect@;
        let ghost log_r0 = rng.log();
        let ghost settled0 = result@;
        let ghost gaps0 = gaps;
        let mut k: usize = 0;
        while k < splitted_rect.len()
            invariant
                splitted_rect@ == pending,
                k <= pending.len(),
                all_wf(result@),
                all_within(result@, root),
                pairwise_disjoint(result@),
                all_wf(new_splitted@),
                all_within(new_splitted@, root),
                pairwise_disjoint(new_splitted@),
                all_wf_from(pending, k as int),
                all_within_from(pending, k as int, root),
                pairwise_disjoint_from(pending, k as int),
                all_wf(gaps),
                all_within(gaps, root),
                pairwise_disjoint(gaps),
                all_thin(gaps),
                cross_disjoint(result@, new_splitted@),
                cross_disjoint_from(result@, pending, k as int),
                cross_disjoint(result@, gaps),
                cross_disjoint_from(new_splitted@, pending, k as int),
                cross_disjoint(new_splitted@, gaps),
                cross_disjoint_from(gaps, pending, k as int),
                forall|x: int, y: int| #[trigger] contains_cell(root, x, y)
                    ==> covered(result@, x, y) || covered(new_splitted@, x, y)
                        || covered_from(pending, k as int, x, y) || covered(gaps, x, y),
                log_r0.len() <= rng.log().len(),
                rng.log().take(log_r0.len() as int) == log_r0,
                settled0.len() <= result@.len(),
                result@.take(settled0.len() as int) == settled0,
                gaps0.len() <= gaps.len(),
                gaps.take(gaps0.len() as int) == gaps0,
                ({
                    let cs = rng.log().skip(log_r0.len() as int);
                    &&& round_model(pending, k as int, min_split_size, cs)
                        == (result@.skip(settled0.len() as int), new_splitted@,
                            gaps.skip(gaps0.len() as int), cs.len() as int)
                    &&& no_starve(pending, k as int, min_split_size, cs)
                }),
            decreases pending.len() - k,
        {
            let rectangle = splitted_rect[k];
            let ghost old_result = result@;
            let ghost old_new = new_splitted@;
            let ghost old_gaps = gaps;
            let ghost old_log = rng.log();
            let ghost cs = rng.log().skip(log_r0.len() as int);
            assert(rectangle.spec_width() <= root.spec_width());
            assert(rectangle.spec_height() <= root.spec_height());
            let along_width = rectangle.width() > rectangle.height();
            let gap: Ghost<Option<Rectangle>> =
                if along_width {
                    split_rect_width(rng, min_split_size, &mut result, &mut new_splitted, rectangle)
                } else {
                    split_rect_height(rng, min_split_size, &mut result, &mut new_splitted, rectangle)
                };
            proof {
                if let Some(g) = gap@ {
                    gaps = gaps.push(g);
                }
                let ki = k as int;
                if new_splitted@.len() == old_new.len() {
                    // the rectangle was settled unchanged
                    assert(!rect_splittable(rectangle, min_split_size));
                    assert(result@ == old_result.push(rectangle));
                    assert(result@.take(settled0.len() as int) =~= settled0);
                    assert(result@.skip(settled0.len() as int)
                        =~= old_result.skip(settled0.len() as int).push(rectangle));
                    assert(round_model(pending, ki + 1, min_split_size, cs)
                        == (result@.skip(settled0.len() as int), new_splitted@,
                            gaps.skip(gaps0.len() as int), cs.len() as int));
                    assert forall|i: int, j: int| 0 <= i < j < result@.len()
                        implies disjoint_rects(#[trigger] result@[i], #[trigger] result@[j]) by {
                        if j == result@.len() - 1 {
                            assert(result@[i] == old_result[i]);
                            assert(disjoint_rects(old_result[i], pending[ki]));
                        }
                    }
                    assert forall|x: int, y: int| #[trigger] contains_cell(root, x, y)
                        implies covered(result@, x, y) || covered(new_splitted@, x, y)
                            || covered_from(pending, ki + 1, x, y) || covered(gaps, x, y) by {
                        if covered_from(pending, ki, x, y) {
                            let i = choose|i: int| ki <= i < pending.len()
                                && contains_cell(pending[i], x, y);
                            if i == ki {
                                assert(contains_cell(result@[result@.len() - 1], x, y));
                            } else {
                                assert(ki + 1 <= i < pending.len()
                                    && contains_cell(pending[i], x, y));
                            }
                        } else if covered(old_result, x, y) {
                            let i = choose|i: int| 0 <= i < old_result.len()
                                && contains_cell(old_result[i], x, y);
                            assert(contains_cell(result@[i], x, y));
                        }
                    }
                } else {
                    // the rectangle was split into two children and a gap
                    let c1 = new_splitted@[new_splitted@.len() - 2];
                    let c2 = new_splitted@[new_splitted@.len() - 1];
                    let g = gap@->Some_0;
                    let v = rng.log().last();
                    assert(rect_splittable(rectangle, min_split_size));
                    assert(rng.log() == old_log.push(v));
                    assert(c1 == rect_children(rectangle, v as int).0);
                    assert(c2 == rect_children(rectangle, v as int).1);
                    assert(g == rect_gap(rectangle, v as int));
                    let cs2 = rng.log().skip(log_r0.len() as int);
                    assert(cs2 =~= cs.push(v));
                    lemma_round_model_prefix(pending, ki, min_split_size, cs, cs2);
                    assert(rng.log().take(log_r0.len() as int) =~= log_r0);
                    assert(gaps.take(gaps0.len() as int) =~= gaps0);
                    assert(gaps.skip(gaps0.len() as int)
                        =~= old_gaps.skip(gaps0.len() as int).push(g));
                    assert(cs2[cs.len() as int] == v);
                    assert(round_model(pending, ki + 1, min_split_size, cs2)
                        == (result@.skip(settled0.len() as int), new_splitted@,
                            gaps.skip(gaps0.len() as int), cs2.len() as int));
                    assert(splits_into(rectangle, c1, c2, g));
                    assert(gaps == old_gaps.push(g));
                    assert forall|o: Rectangle|
                        disjoint_rects(rectangle, o) || disjoint_rects(o, rectangle)
                        implies #[trigger] disjoint_rects(c1, o) && disjoint_rects(o, c1)
                            && disjoint_rects(c2, o) && disjoint_rects(o, c2)
                            && disjoint_rects(g, o) && disjoint_rects(o, g) by {
                        lemma_shrink_disjoint(c1, rectangle, o);
                        lemma_shrink_disjoint(c2, rectangle, o);
                        lemma_shrink_disjoint(g, rectangle, o);
                    }
                    assert forall|i: int, j: int| 0 <= i < j < new_splitted@.len()
                        implies disjoint_rects(#[trigger] new_splitted@[i], #[trigger] new_splitted@[j]) by {
                        if j < old_new.len() {
                            assert(new_splitted@[i] == old_new[i] && new_splitted@[j] == old_new[j]);
                        } else if i < old_new.len() {
                            assert(new_splitted@[i] == old_new[i]);
                            assert(disjoint_rects(old_new[i], pending[ki]));
                        }
                    }
                    assert forall|x: int, y: int| #[trigger] contains_cell(root, x, y)
                        implies covered(result@, x, y) || covered(new_splitted@, x, y)
                            || covered_from(pending, ki + 1, x, y) || covered(gaps, x, y) by {
                        if covered_from(pending, ki, x, y) {
                            let i = choose|i: int| ki <= i < pending.len()
                                && contains_cell(pending[i], x, y);
                            if i == ki {
                                if contains_cell(c1, x, y) {
                                    assert(contains_cell(new_splitted@[new_splitted@.len() - 2], x, y));
                                } else if contains_cell(c2, x, y) {
                                    assert(contains_cell(new_splitted@[new_splitted@.len() - 1], x, y));
                                } else {
                                    assert(contains_cell(g, x, y));
                                    assert(contains_cell(gaps[gaps.len() - 1], x, y));
                                }
                            } else {
                                assert(ki + 1 <= i < pending.len()
                                    && contains_cell(pending[i], x, y));
                            }
                        } else if covered(old_new, x, y) {
                            let i = choose|i: int| 0 <= i < old_new.len()
                                && contains_cell(old_new[i], x, y);
                            assert(contains_cell(new_splitted@[i], x, y));
                        } else if covered(old_gaps, x, y) {
                            let i = choose|i: int| 0 <= i < old_gaps.len()
                                && contains_cell(old_gaps[i], x, y);
                            assert(contains_cell(gaps[i], x, y));
                        }
                    }
                }
            }
            k += 1;
        }
        proof {
            let cs0 = log_r0.skip(log0.len() as int);
            let cs_round = rng.log().skip(log_r0.len() as int);
            let cs_new = rng.log().skip(log0.len() as int);
            assert(cs_new =~= cs0 + cs_round);
            lemma_partition_model_prefix(root, round as int, min_split_size, cs0, cs_new);
            assert(partition_model(root, round as int, min_split_size, cs_new)
                == (settled0, pending, gaps0, cs0.len() as int));
            assert(cs_new.skip(cs0.len() as int) =~= cs_round);
            assert(settled0 + result@.skip(settled0.len() as int) =~= result@);
            assert(gaps0 + gaps.skip(gaps0.len() as int) =~= gaps);
            assert(partition_model(root, round as int + 1, min_split_size, cs_new)
                == (result@, new_splitted@, gaps, cs_new.len() as int));
            assert(rng.log().take(log0.len() as int) =~= log0);
        }
        splitted_rect = new_splitted;
        round += 1;
    }
    let ghost settled = result@;
    let ghost active = splitted_rect@;
    result.append(&mut splitted_rect);
    proof {
        lemma_concat_parts(settled, active, root, gaps);
        assert(result@ == settled + active);
    }
    (result, Ghost(gaps))
}

/// Clearance predicate, over mathematical coordinates: the cell (x, y) is a
/// valid door for the room iff it sits one cell outside one of the room's
/// edges, inside that edge's span, and at least dist cells away from both
/// ends of the edge.
pub open spec fn door_ok_at(room: Rectangle, x: int, y: int, dist: u32) -> bool {
    if room.bottom_left.y == y + 1 || room.top_right.y + 1 == y {
        room.bottom_left.x <= x <= room.top_right.x
            && room.top_right.x - x >= dist && x - room.bottom_left.x >= dist
    } else if room.bottom_left.x == x + 1 || room.top_right.x + 1 == x {
        room.bottom_left.y <= y <= room.top_right.y
            && room.top_right.y - y >= dist && y - room.bottom_left.y >= dist
    } else {
        false
    }
}

pub open spec fn door_ok(room: Rectangle, door: Point, dist: u32) -> bool {
    door_ok_at(room, door.x as int, door.y as int, dist)
}

/// The clearance predicate, executable.
pub fn check_door(min_distance_from_vertex: u32, room: &Rectangle, door: &Point) -> (r: bool)
    ensures
        r == door_ok(*room, *door, min_distance_from_vertex),
{
    let d = min_distance_from_vertex;
    if (room.bottom_left.y > 0 && room.bottom_left.y - 1 == door.y)
        || (door.y > 0 && door.y - 1 == room.top_right.y)
    {
        room.bottom_left.x <= door.x && door.x <= room.top_right.x
            && room.top_right.x - door.x >= d
            && door.x - room.bottom_left.x >= d
    } else if (room.bottom_left.x > 0 && room.bottom_left.x - 1 == door.x)
        || (door.x > 0 && door.x - 1 == room.top_right.x)
    {
        room.bottom_left.y <= door.y && door.y <= room.top_right.y
            && room.top_right.y - door.y >= d
            && door.y - room.bottom_left.y >= d
    } else {
        false
    }
}

/// Offset i of the scan along the room's top edge is kept when the cell just
/// above the edge clears both rooms.
pub open spec fn h_keep(room: Rectangle, other: Rectangle, dist: u32, i: int) -> bool {
    door_ok_at(other, room.bottom_left.x + i, room.top_right.y + 1, dist)
        && door_ok_at(room, room.bottom_left.x + i, room.top_right.y + 1, dist)
}

/// The door candidates of the horizontal-adjacency scan among offsets [0, n).
pub open spec fn h_cands(room: Rectangle, other: Rectangle, dist: u32, n: nat) -> Seq<Point>
    decreases n,
{
    if n == 0 {
        Seq::<Point>::empty()
    } else {
        let rest = h_cands(room, other, dist, (n - 1) as nat);
        if h_keep(room, other, dist, n - 1) {
            rest.push(
                Point { x: (room.bottom_left.x + n - 1) as u32, y: (room.top_right.y + 1) as u32 },
            )
        } else {
            rest
        }
    }
}

/// Offset i of the scan along the room's right edge.
pub open spec fn v_keep(room: Rectangle, other: Rectangle, dist: u32, i: int) -> bool {
    door_ok_at(other, room.top_right.x + 1, room.bottom_left.y + i, dist)
        && door_ok_at(room, room.top_right.x + 1, room.bottom_left.y + i, dist)
}

/// The door candidates of the vertical-adjacency scan among offsets [0, n).
pub open spec fn v_cands(room: Rectangle, other: Rectangle, dist: u32, n: nat) -> Seq<Point>
    decreases n,
{
    if n == 0 {
        Seq::<Point>::empty()
    } else {
        let rest = v_cands(room, other, dist, (n - 1) as nat);
        if v_keep(room, other, dist, n - 1) {
            rest.push(
                Point { x: (room.top_right.x + 1) as u32, y: (room.bottom_left.y + n - 1) as u32 },
            )
        } else {
            rest
        }
    }
}

proof fn lemma_h_cands_props(room: Rectangle, other: Rectangle, dist: u32, n: nat)
    requires
        room.wf(),
        room.top_right.x < u32::MAX,
        room.top_right.y < u32::MAX,
        n <= room.spec_width(),
    ensures
        h_cands(room, other, dist, n).len() <= n,
        forall|k: int| 0 <= k < h_cands(room, other, dist, n).len()
            ==> door_ok(room, #[trigger] h_cands(room, other, dist, n)[k], dist)
                && door_ok(other, h_cands(room, other, dist, n)[k], dist),
    decreases n,
{
    if n > 0 {
        lemma_h_cands_props(room, other, dist, (n - 1) as nat);
    }
}

proof fn lemma_v_cands_props(room: Rectangle, other: Rectangle, dist: u32, n: nat)
    requires
        room.wf(),
        room.top_right.x < u32::MAX,
        room.top_right.y < u32::MAX,
    ensures
        v_cands(room, other, dist, n).len() <= n,
        forall|k: int| 0 <= k < v_cands(room, other, dist, n).len()
            ==> door_ok(room, #[trigger] v_cands(room, other, dist, n)[k], dist)
                && door_ok(other, v_cands(room, other, dist, n)[k], dist),
    decreases n,
{
    if n > 0 {
        lemma_v_cands_props(room, other, dist, (n - 1) as nat);
    }
}

/// One scan along the room's top edge: gather the clearing candidates, then
/// draw from [0, len]; 0 places no door, k > 0 places candidate k - 1. Any
/// door appended clears both rooms.
#[verifier::loop_isolation(false)]
fn h_scan(
    rng: &mut RngSource,
    min_distance_from_vertex: u32,
    room: &Rectangle,
    other: &Rectangle,
    result: &mut Vec<Point>,
)
    requires
        room.wf(),
        room.top_right.x < u32::MAX,
        room.top_right.y < u32::MAX,
    ensures
        final(result)@.len() >= old(result)@.len(),
        forall|i: int| 0 <= i < old(result)@.len() ==> final(result)@[i] == old(result)@[i],
        forall|i: int| old(result)@.len() <= i < final(result)@.len()
            ==> door_ok(*room, #[trigger] final(result)@[i], min_distance_from_vertex)
                && door_ok(*other, final(result)@[i], min_distance_from_vertex),
        old(rng).log().len() <= final(rng).log().len(),
        final(rng).log().take(old(rng).log().len() as int) == old(rng).log(),
        ({
            let cands = h_cands(*room, *other, min_distance_from_vertex,
                room.spec_width() as nat);
            if cands.len() == 0 {
                final(result)@ == old(result)@ && final(rng).log() == old(rng).log()
            } else {
                final(rng).log() == old(rng).log().push(final(rng).log().last())
                    && ({
                        let idx = final(rng).log().last() as int;
                        final(result)@ == (
                            if idx > 0 && idx - 1 < cands.len() {
                                old(result)@.push(cands[idx - 1])
                            } else {
                                old(result)@
                            })
                    })
            }
        }),
{
    let mut cands: Vec<Point> = Vec::new();
    let w = room.width();
    let mut i: u32 = 0;
    while i < w
        invariant
            i <= w,
            cands@ == h_cands(*room, *other, min_distance_from_vertex, i as nat),
            cands@.len() <= i,
        decreases w - i,
    {
        let p = Point::new(room.bottom_left.x + i, room.top_right.y + 1);
        if check_door(min_distance_from_vertex, other, &p)
            && check_door(min_distance_from_vertex, room, &p) {
            cands.push(p);
        }
        i += 1;
    }
    proof {
        lemma_h_cands_props(*room, *other, min_distance_from_vertex, w as nat);
    }
    if cands.len() > 0 {
        let doors_idx = rng.next_in_range(0, cands.len() as u32);
        proof {
            assert(rng.log().take(old(rng).log().len() as int) =~= old(rng).log());
        }
        if doors_idx > 0 {
            let chosen = cands[(doors_idx - 1) as usize];
            result.push(chosen);
        }
    }
}

/// One scan along the room's right edge; the mirror image of h_scan. The
/// scan walks width() offsets, as the room set's producer does: offsets past
/// the room's height never clear and are skipped.
#[verifier::loop_isolation(false)]
fn v_scan(
    rng: &mut RngSource,
    min_distance_from_vertex: u32,
    room: &Rectangle,
    other: &Rectangle,
    result: &mut Vec<Point>,
)
    requires
        room.wf(),
        room.top_right.x < u32::MAX,
        room.top_right.y < u32::MAX,
    ensures
        final(result)@.len() >= old(result)@.len(),
        forall|i: int| 0 <= i < old(result)@.len() ==> final(result)@[i] == old(result)@[i],
        forall|i: int| old(result)@.len() <= i < final(result)@.len()
            ==> door_ok(*room, #[trigger] final(result)@[i], min_distance_from_vertex)
                && door_ok(*other, final(result)@[i], min_distance_from_vertex),
        old(rng).log().len() <= final(rng).log().len(),
        final(rng).log().take(old(rng).log().len() as int) == old(rng).log(),
        ({
            let cands = v_cands(*room, *other, min_distance_from_vertex,
                room.spec_width() as nat);
            if cands.len() == 0 {
                final(result)@ == old(result)@ && final(rng).log() == old(rng).log()
            } else {
                final(rng).log() == old(rng).log().push(final(rng).log().last())
                    && ({
                        let idx = final(rng).log().last() as int;
                        final(result)@ == (
                            if idx > 0 && idx - 1 < cands.len() {
                                old(result)@.push(cands[idx - 1])
                            } else {
                                old(result)@
                            })
                    })
            }
        }),
{
    let mut cands: Vec<Point> = Vec::new();
    let w = room.width();
    let mut i: u32 = 0;
    while i < w
        invariant
            i <= w,
            cands@ == v_cands(*room, *other, min_distance_from_vertex, i as nat),
            cands@.len() <= i,
        decreases w - i,
    {
        if i <= room.top_right.y - room.bottom_left.y {
            let p = Point::new(room.top_right.x + 1, room.bottom_left.y + i);
            if check_door(min_distance_from_vertex, other, &p)
                && check_door(min_distance_from_vertex, room, &p) {
                cands.push(p);
            }
        }
        i += 1;
    }
    proof {
        lemma_v_cands_props(*room, *other, min_distance_from_vertex, w as nat);
    }
    if cands.len() > 0 {
        let doors_idx = rng.next_in_range(0, cands.len() as u32);
        proof {
            assert(rng.log().take(old(rng).log().len() as int) =~= old(rng).log());
        }
        if doors_idx > 0 {
            let chosen = cands[(doors_idx - 1) as usize];
            result.push(chosen);
        }
    }
}

/// One scan's outcome as a function of the drawn values: a non-empty
/// candidate list consumes the draw at cursor u; a draw of 0 places no door,
/// a draw of idx > 0 places candidate idx - 1. Returns the doors added and
/// the new cursor.
pub open spec fn scan_add(cands: Seq<Point>, ds: Seq<u32>, u: int) -> (Seq<Point>, int) {
    if cands.len() == 0 {
        (Seq::<Point>::empty(), u)
    } else if 0 <= u < ds.len() {
        let idx = ds[u] as int;
        if idx > 0 && idx - 1 < cands.len() {
            (seq![cands[idx - 1]], u + 1)
        } else {
            (Seq::<Point>::empty(), u + 1)
        }
    } else {
        (Seq::<Point>::empty(), u)
    }
}

/// The doors of the ordered pair (a, b): the horizontal scan, then the
/// vertical scan; a pair of equal rooms is skipped.
pub open spec fn pair_add(rooms: Seq<Rectangle>, a: int, b: int, dist: u32, ds: Seq<u32>, u: int)
    -> (Seq<Point>, int)
{
    if rooms[b] == rooms[a] {
        (Seq::<Point>::empty(), u)
    } else {
        let h = scan_add(h_cands(rooms[a], rooms[b], dist, rooms[a].spec_width() as nat), ds, u);
        let v = scan_add(
            v_cands(rooms[a], rooms[b], dist, rooms[a].spec_width() as nat), ds, h.1);
        (h.0 + v.0, v.1)
    }
}

/// The doors of room a paired with the first b rooms of the set.
pub open spec fn row_add(rooms: Seq<Rectangle>, a: int, b: int, dist: u32, ds: Seq<u32>, u: int)
    -> (Seq<Point>, int)
    decreases b,
{
    if b <= 0 {
        (Seq::<Point>::empty(), u)
    } else {
        let p = row_add(rooms, a, b - 1, dist, ds, u);
        let q = pair_add(rooms, a, b - 1, dist, ds, p.1);
        (p.0 + q.0, q.1)
    }
}

/// Door placement over the first a rooms, as a function of the drawn values
/// alone: the door set in order, and how many draws were consumed. Together
/// with partition_model this pins the whole run: two runs that record the
/// same drawn values place the same doors.
pub open spec fn doors_model(rooms: Seq<Rectangle>, a: int, dist: u32, ds: Seq<u32>)
    -> (Seq<Point>, int)
    decreases a,
{
    if a <= 0 {
        (Seq::<Point>::empty(), 0)
    } else {
        let p = doors_model(rooms, a - 1, dist, ds);
        let q = row_add(rooms, a - 1, rooms.len() as int, dist, ds, p.1);
        (p.0 + q.0, q.1)
    }
}

/// The record ds holds every draw the pair's two scans ask for.
spec fn pair_ok(rooms: Seq<Rectangle>, a: int, b: int, dist: u32, ds: Seq<u32>, u: int) -> bool {
    if rooms[b] == rooms[a] {
        true
    } else {
        let hc = h_cands(rooms[a], rooms[b], dist, rooms[a].spec_width() as nat);
        let vc = v_cands(rooms[a], rooms[b], dist, rooms[a].spec_width() as nat);
        (hc.len() > 0 ==> u < ds.len()) && (vc.len() > 0 ==> scan_add(hc, ds, u).1 < ds.len())
    }
}

spec fn row_ok(rooms: Seq<Rectangle>, a: int, b: int, dist: u32, ds: Seq<u32>, u: int) -> bool
    decreases b,
{
    if b <= 0 {
        true
    } else {
        row_ok(rooms, a, b - 1, dist, ds, u)
            && pair_ok(rooms, a, b - 1, dist, ds, row_add(rooms, a, b - 1, dist, ds, u).1)
    }
}

spec fn doors_ok(rooms: Seq<Rectangle>, a: int, dist: u32, ds: Seq<u32>) -> bool
    decreases a,
{
    if a <= 0 {
        true
    } else {
        doors_ok(rooms, a - 1, dist, ds)
            && row_ok(rooms, a - 1, rooms.len() as int, dist, ds,
                doors_model(rooms, a - 1, dist, ds).1)
    }
}

proof fn lemma_row_add_cursor(rooms: Seq<Rectangle>, a: int, b: int, dist: u32, ds: Seq<u32>, u: int)
    requires
        0 <= u <= ds.len(),
    ensures
        u <= row_add(rooms, a, b, dist, ds, u).1 <= ds.len(),
    decreases b,
{
    if b > 0 {
        lemma_row_add_cursor(rooms, a, b - 1, dist, ds, u);
    }
}

proof fn lemma_doors_model_cursor(rooms: Seq<Rectangle>, a: int, dist: u32, ds: Seq<u32>)
    ensures
        0 <= doors_model(rooms, a, dist, ds).1 <= ds.len(),
    decreases a,
{
    if a > 0 {
        lemma_doors_model_cursor(rooms, a - 1, dist, ds);
        lemma_row_add_cursor(rooms, a - 1, rooms.len() as int, dist, ds,
            doors_model(rooms, a - 1, dist, ds).1);
    }
}

/// A pair reads only the draws it consumes.
proof fn lemma_pair_add_prefix(
    rooms: Seq<Rectangle>, a: int, b: int, dist: u32, ds1: Seq<u32>, ds2: Seq<u32>, u: int,
)
    requires
        0 <= u <= ds1.len(),
        ds1.len() <= ds2.len(),
        forall|i: int| 0 <= i < ds1.len() ==> ds1[i] == ds2[i],
        pair_ok(rooms, a, b, dist, ds1, u),
    ensures
        pair_add(rooms, a, b, dist, ds2, u) == pair_add(rooms, a, b, dist, ds1, u),
        pair_ok(rooms, a, b, dist, ds2, u),
{
}

proof fn lemma_row_add_prefix(
    rooms: Seq<Rectangle>, a: int, b: int, dist: u32, ds1: Seq<u32>, ds2: Seq<u32>, u: int,
)
    requires
        0 <= u <= ds1.len(),
        ds1.len() <= ds2.len(),
        forall|i: int| 0 <= i < ds1.len() ==> ds1[i] == ds2[i],
        row_ok(rooms, a, b, dist, ds1, u),
    ensures
        row_add(rooms, a, b, dist, ds2, u) == row_add(rooms, a, b, dist, ds1, u),
        row_ok(rooms, a, b, dist, ds2, u),
    decreases b,
{
    if b > 0 {
        lemma_row_add_prefix(rooms, a, b - 1, dist, ds1, ds2, u);
        lemma_row_add_cursor(rooms, a, b - 1, dist, ds1, u);
        lemma_pair_add_prefix(rooms, a, b - 1, dist, ds1, ds2,
            row_add(rooms, a, b - 1, dist, ds1, u).1);
    }
}

proof fn lemma_doors_model_prefix(
    rooms: Seq<Rectangle>, a: int, dist: u32, ds1: Seq<u32>, ds2: Seq<u32>,
)
    requires
        ds1.len() <= ds2.len(),
        forall|i: int| 0 <= i < ds1.len() ==> ds1[i] == ds2[i],
        doors_ok(rooms, a, dist, ds1),
    ensures
        doors_model(rooms, a, dist, ds2) == doors_model(rooms, a, dist, ds1),
        doors_ok(rooms, a, dist, ds2),
    decreases a,
{
    if a > 0 {
        lemma_doors_model_prefix(rooms, a - 1, dist, ds1, ds2);
        lemma_doors_model_cursor(rooms, a - 1, dist, ds1);
        lemma_row_add_prefix(rooms, a - 1, rooms.len() as int, dist, ds1, ds2,
            doors_model(rooms, a - 1, dist, ds1).1);
    }
}

/// The door clears two distinct rooms of the set.
pub open spec fn door_paired(rooms: Seq<Rectangle>, door: Point, dist: u32) -> bool {
    exists|i: int, j: int|
        0 <= i < rooms.len() && 0 <= j < rooms.len() && rooms[i] != rooms[j]
            && door_ok(#[trigger] rooms[i], door, dist) && door_ok(#[trigger] rooms[j], door, dist)
}

/// Door placement engine: for every ordered pair of distinct rooms, scan the
/// two adjacency lines and place at most one door per scan. Every placed
/// door clears both rooms of its pair (the clearance invariant), and the
/// door set is the function of the drawn values that doors_model names.
#[verifier::loop_isolation(false)]
#[verifier::rlimit(100)]
fn generate_doors(
    rng: &mut RngSource,
    min_distance_from_vertex: u32,
    rooms: &Vec<Rectangle>,
) -> (r: Vec<Point>)
    requires
        all_wf(rooms@),
        forall|i: int| 0 <= i < rooms@.len()
            ==> (#[trigger] rooms@[i]).top_right.x < u32::MAX
                && rooms@[i].top_right.y < u32::MAX,
    ensures
        forall|k: int| 0 <= k < r@.len()
            ==> door_paired(rooms@, #[trigger] r@[k], min_distance_from_vertex),
        old(rng).log().len() <= final(rng).log().len(),
        final(rng).log().take(old(rng).log().len() as int) == old(rng).log(),
        ({
            let cs = final(rng).log().skip(old(rng).log().len() as int);
            let dm = doors_model(rooms@, rooms@.len() as int, min_distance_from_vertex, cs);
            &&& r@ == dm.0
            &&& dm.1 == cs.len()
            &&& doors_ok(rooms@, rooms@.len() as int, min_distance_from_vertex, cs)
        }),
{
    let ghost log0 = rng.log();
    let mut result: Vec<Point> = Vec::new();
    proof {
        assert(rng.log().skip(log0.len() as int) =~= Seq::<u32>::empty());
        assert(rng.log().take(log0.len() as int) =~= log0);
    }
    let mut a: usize = 0;
    while a < rooms.len()
        invariant
            a <= rooms.len(),
            forall|k: int| 0 <= k < result@.len()
                ==> door_paired(rooms@, #[trigger] result@[k], min_distance_from_vertex),
            log0.len() <= rng.log().len(),
            rng.log().take(log0.len() as int) == log0,
            ({
                let cs = rng.log().skip(log0.len() as int);
                &&& doors_model(rooms@, a as int, min_distance_from_vertex, cs)
                    == (result@, cs.len() as int)
                &&& doors_ok(rooms@, a as int, min_distance_from_vertex, cs)
            }),
        decreases rooms.len() - a,
    {
        let mut b: usize = 0;
        proof {
            let cs = rng.log().skip(log0.len() as int);
            assert(result@ =~= result@
                + row_add(rooms@, a as int, 0, min_distance_from_vertex, cs, cs.len() as int).0);
        }
        while b < rooms.len()
            invariant
                b <= rooms.len(),
                a < rooms.len(),
                forall|k: int| 0 <= k < result@.len()
                    ==> door_paired(rooms@, #[trigger] result@[k], min_distance_from_vertex),
                log0.len() <= rng.log().len(),
                rng.log().take(log0.len() as int) == log0,
                ({
                    let cs = rng.log().skip(log0.len() as int);
                    let prev = doors_model(rooms@, a as int, min_distance_from_vertex, cs);
                    let cur = row_add(rooms@, a as int, b as int, min_distance_from_vertex,
                        cs, prev.1);
                    &&& result@ == prev.0 + cur.0
                    &&& cur.1 == cs.len()
                    &&& doors_ok(rooms@, a as int, min_distance_from_vertex, cs)
                    &&& row_ok(rooms@, a as int, b as int, min_distance_from_vertex, cs, prev.1)
                }),
            decreases rooms.len() - b,
        {
            let room = rooms[a];
            let other = rooms[b];
            let ghost cs0 = rng.log().skip(log0.len() as int);
            let ghost prev0 = doors_model(rooms@, a as int, min_distance_from_vertex, cs0);
            let ghost cur0 = row_add(rooms@, a as int, b as int, min_distance_from_vertex,
                cs0, prev0.1);
            proof {
                lemma_doors_model_cursor(rooms@, a as int, min_distance_from_vertex, cs0);
                lemma_row_add_cursor(rooms@, a as int, b as int, min_distance_from_vertex,
                    cs0, prev0.1);
            }
            if !(other == room) {
                let ghost hc = h_cands(rooms@[a as int], rooms@[b as int],
                    min_distance_from_vertex, rooms@[a as int].spec_width() as nat);
                let ghost vc = v_cands(rooms@[a as int], rooms@[b as int],
                    min_distance_from_vertex, rooms@[a as int].spec_width() as nat);
                let ghost pre = result@;
                h_scan(rng, min_distance_from_vertex, &room, &other, &mut result);
                proof {
                    assert(rng.log().take(old(rng).log().len() as int) =~= old(rng).log());
                    assert forall|k: int| 0 <= k < result@.len()
                        implies door_paired(rooms@, #[trigger] result@[k], min_distance_from_vertex) by {
                        if k >= pre.len() {
                            assert(door_ok(rooms@[a as int], result@[k], min_distance_from_vertex)
                                && door_ok(rooms@[b as int], result@[k], min_distance_from_vertex));
                        }
                    }
                    let cs1 = rng.log().skip(log0.len() as int);
                    if hc.len() == 0 {
                        assert(cs1 =~= cs0);
                    } else {
                        assert(cs1 =~= cs0.push(rng.log().last()));
                        lemma_doors_model_prefix(rooms@, a as int, min_distance_from_vertex,
                            cs0, cs1);
                        lemma_row_add_prefix(rooms@, a as int, b as int,
                            min_distance_from_vertex, cs0, cs1, prev0.1);
                        assert(cs1[cs0.len() as int] == rng.log().last());
                    }
                }
                let ghost cs1 = rng.log().skip(log0.len() as int);
                let ghost h_step = scan_add(hc, cs1, cs0.len() as int);
                proof {
                    assert(result@ == pre + h_step.0);
                    assert(h_step.1 == cs1.len());
                }
                let ghost pre2 = result@;
                v_scan(rng, min_distance_from_vertex, &room, &other, &mut result);
                proof {
                    assert(rng.log().take(old(rng).log().len() as int) =~= old(rng).log());
                    assert forall|k: int| 0 <= k < result@.len()
                        implies door_paired(rooms@, #[trigger] result@[k], min_distance_from_vertex) by {
                        if k >= pre2.len() {
                            assert(door_ok(rooms@[a as int], result@[k], min_distance_from_vertex)
                                && door_ok(rooms@[b as int], result@[k], min_distance_from_vertex));
                        }
                    }
                    let cs2 = rng.log().skip(log0.len() as int);
                    if vc.len() == 0 {
                        assert(cs2 =~= cs1);
                    } else {
                        assert(cs2 =~= cs1.push(rng.log().last()));
                        lemma_doors_model_prefix(rooms@, a as int, min_distance_from_vertex,
                            cs1, cs2);
                        lemma_row_add_prefix(rooms@, a as int, b as int,
                            min_distance_from_vertex, cs1, cs2, prev0.1);
                        assert(cs2[cs1.len() as int] == rng.log().last());
                    }
                    let v_step = scan_add(vc, cs2, h_step.1);
                    assert(result@ == pre + h_step.0 + v_step.0);
                    assert(v_step.1 == cs2.len());
                    // assemble the pair and the extended row
                    let prev2 = doors_model(rooms@, a as int, min_distance_from_vertex, cs2);
                    let p = row_add(rooms@, a as int, b as int, min_distance_from_vertex,
                        cs2, prev2.1);
                    assert(prev2 == prev0 && p == cur0);
                    assert(pair_add(rooms@, a as int, b as int, min_distance_from_vertex,
                        cs2, p.1) == (h_step.0 + v_step.0, v_step.1));
                    assert(row_add(rooms@, a as int, b as int + 1, min_distance_from_vertex,
                        cs2, prev2.1)
                        == (cur0.0 + (h_step.0 + v_step.0), v_step.1));
                    assert(result@ =~= prev2.0 + (cur0.0 + (h_step.0 + v_step.0)));
                }
            } else {
                proof {
                    let cs = rng.log().skip(log0.len() as int);
                    assert(pair_add(rooms@, a as int, b as int, min_distance_from_vertex,
                        cs, cur0.1) == (Seq::<Point>::empty(), cur0.1));
                    assert(row_add(rooms@, a as int, b as int + 1, min_distance_from_vertex,
                        cs, prev0.1) == (cur0.0 + Seq::<Point>::empty(), cur0.1));
                    assert(cur0.0 + Seq::<Point>::empty() =~= cur0.0);
                }
            }
            b += 1;
        }
        a += 1;
    }
    result
}

/// Some door of the set clears the room.
pub open spec fn has_door(room: Rectangle, doors: Seq<Point>, dist: u32) -> bool {
    exists|i: int| 0 <= i < doors.len() && door_ok(room, #[trigger] doors[i], dist)
}

/// The rooms that survive pruning: exactly those with at least one clearing
/// door, kept in order.
pub open spec fn prune_rooms(rooms: Seq<Rectangle>, doors: Seq<Point>, dist: u32) -> Seq<Rectangle>
    decreases rooms.len(),
{
    if rooms.len() == 0 {
        Seq::<Rectangle>::empty()
    } else {
        let rest = prune_rooms(rooms.drop_last(), doors, dist);
        if has_door(rooms.last(), doors, dist) {
            rest.push(rooms.last())
        } else {
            rest
        }
    }
}

/// Pruning invariant: no surviving room has zero doors satisfying the
/// clearance predicate against it, and every survivor is a room of the
/// original set.
pub proof fn lemma_pruning_invariant(rooms: Seq<Rectangle>, doors: Seq<Point>, dist: u32)
    ensures
        forall|i: int| 0 <= i < prune_rooms(rooms, doors, dist).len()
            ==> has_door(#[trigger] prune_rooms(rooms, doors, dist)[i], doors, dist),
        forall|i: int| 0 <= i < prune_rooms(rooms, doors, dist).len()
            ==> exists|j: int| 0 <= j < rooms.len()
                && #[trigger] prune_rooms(rooms, doors, dist)[i] == rooms[j],
    decreases rooms.len(),
{
    if rooms.len() > 0 {
        lemma_pruning_invariant(rooms.drop_last(), doors, dist);
        let kept = prune_rooms(rooms, doors, dist);
        let rest = prune_rooms(rooms.drop_last(), doors, dist);
        assert forall|i: int| 0 <= i < kept.len()
            implies has_door(#[trigger] kept[i], doors, dist)
                && exists|j: int| 0 <= j < rooms.len() && kept[i] == rooms[j] by {
            if i < rest.len() {
                assert(kept[i] == rest[i]);
                let j = choose|j: int| 0 <= j < rooms.drop_last().len() && rest[i] == rooms.drop_last()[j];
                assert(rooms.drop_last()[j] == rooms[j]);
                assert(kept[i] == rooms[j]);
            } else {
                assert(kept[i] == rooms.last());
                assert(kept[i] == rooms[rooms.len() - 1]);
            }
        }
    }
}

/// Does any door of the set clear the room? Executable.
fn room_has_door(min_distance_from_vertex: u32, room: &Rectangle, doors: &Vec<Point>) -> (r: bool)
    ensures
        r == has_door(*room, doors@, min_distance_from_vertex),
{
    let mut i: usize = 0;
    while i < doors.len()
        invariant
            i <= doors.len(),
            forall|j: int| 0 <= j < i ==> !door_ok(*room, #[trigger] doors@[j], min_distance_from_vertex),
        decreases doors.len() - i,
    {
        if check_door(min_distance_from_vertex, room, &doors[i]) {
            assert(door_ok(*room, doors@[i as int], min_distance_from_vertex));
            return true;
        }
        i += 1;
    }
    false
}

/// Remove rooms without a clearing door.
#[verifier::loop_isolation(false)]
fn prune(min_distance_from_vertex: u32, rooms: Vec<Rectangle>, doors: &Vec<Point>) -> (r: Vec<Rectangle>)
    ensures
        r@ == prune_rooms(rooms@, doors@, min_distance_from_vertex),
{
    let mut result: Vec<Rectangle> = Vec::new();
    let mut i: usize = 0;
    while i < rooms.len()
        invariant
            i <= rooms.len(),
            result@ == prune_rooms(rooms@.subrange(0, i as int), doors@, min_distance_from_vertex),
        decreases rooms.len() - i,
    {
        let ghost pre = rooms@.subrange(0, i as int);
        let room = rooms[i];
        if room_has_door(min_distance_from_vertex, &room, doors) {
            result.push(room);
        }
        proof {
            let cur = rooms@.subrange(0, i as int + 1);
            assert(cur.drop_last() =~= pre);
            assert(cur.last() == rooms@[i as int]);
        }
        i += 1;
    }
    proof {
        assert(rooms@.subrange(0, rooms@.len() as int) =~= rooms@);
    }
    result
}

/// Candidate index i clears both rooms, so the candidate list of the first n
/// offsets is non-empty whenever i < n.
proof fn lemma_h_cands_keep_nonempty(room: Rectangle, other: Rectangle, dist: u32, n: nat, i: int)
    requires
        0 <= i < n,
        h_keep(room, other, dist, i),
    ensures
        h_cands(room, other, dist, n).len() > 0,
    decreases n,
{
    if i < n - 1 {
        lemma_h_cands_keep_nonempty(room, other, dist, (n - 1) as nat, i);
    }
}

/// Two rooms sharing a full common edge of length at least 2*dist + 1,
/// separated by the one-cell wall gap, yield a non-empty door candidate list
/// on the horizontal-adjacency scan of the lower room.
pub proof fn lemma_shared_edge_has_candidate(room: Rectangle, other: Rectangle, dist: u32)
    requires
        room.wf(),
        other.wf(),
        other.bottom_left.y == room.top_right.y + 2,
        other.bottom_left.x == room.bottom_left.x,
        other.top_right.x == room.top_right.x,
        room.spec_width() >= 2 * dist + 1,
    ensures
        h_cands(room, other, dist, room.spec_width() as nat).len() > 0,
{
    assert(h_keep(room, other, dist, dist as int));
    lemma_h_cands_keep_nonempty(room, other, dist, room.spec_width() as nat, dist as int);
}

/// Some room of the first k holds the cell (x, y).
spec fn covered_to(s: Seq<Rectangle>, k: int, x: int, y: int) -> bool {
    exists|i: int| 0 <= i < k && contains_cell(#[trigger] s[i], x, y)
}

/// Some door of the set sits on the cell (x, y).
pub open spec fn door_at(doors: Seq<Point>, x: int, y: int) -> bool {
    exists|i: int| 0 <= i < doors.len() && (#[trigger] doors[i]).x == x && doors[i].y == y
}

spec fn door_at_to(doors: Seq<Point>, k: int, x: int, y: int) -> bool {
    exists|i: int| 0 <= i < k && (#[trigger] doors[i]).x == x && doors[i].y == y
}

/// A door that clears a room sits at most one cell outside it.
proof fn lemma_door_bound(room: Rectangle, d: Point, dist: u32)
    requires
        room.wf(),
        door_ok(room, d, dist),
    ensures
        d.x <= room.top_right.x + 1,
        d.y <= room.top_right.y + 1,
{
}

/// The root rectangle of generation: the full grid inset by one cell on
/// every side, so that an outer wall always remains.
pub open spec fn inset_root(width: u32, height: u32) -> Rectangle {
    Rectangle {
        bottom_left: Point { x: 1, y: 1 },
        top_right: Point { x: (width - 2) as u32, y: (height - 2) as u32 },
    }
}

/// Everything the generation run guarantees of its room set, gap set and
/// door set: rooms and gaps tile the inset root without overlap, the gaps
/// are the one-cell walls, and every door clears both rooms of some pair of
/// distinct rooms.
pub open spec fn valid_layout(
    width: u32,
    height: u32,
    dist: u32,
    rooms: Seq<Rectangle>,
    gaps: Seq<Rectangle>,
    doors: Seq<Point>,
) -> bool {
    let root = inset_root(width, height);
    &&& all_wf(rooms)
    &&& all_within(rooms, root)
    &&& pairwise_disjoint(rooms)
    &&& all_wf(gaps)
    &&& all_within(gaps, root)
    &&& pairwise_disjoint(gaps)
    &&& cross_disjoint(rooms, gaps)
    &&& all_thin(gaps)
    &&& (forall|x: int, y: int| #[trigger] contains_cell(root, x, y)
        ==> covered(rooms, x, y) || covered(gaps, x, y))
    &&& (forall|k: int| 0 <= k < doors.len() ==> door_paired(rooms, #[trigger] doors[k], dist))
}

/// The recursive space-partitioning generator: splits the inset root into
/// rooms, carves doors between adjacent rooms, prunes door-less rooms and
/// rasterizes the survivors and the doors into its grid.
pub struct BspMapGenerator {
    pub width: u32,
    pub height: u32,
    pub nb_iteration: u32,
    pub min_split_size: u32,
    pub min_distance_from_vertex: u32,
    pub data: Vec<Vec<TileType>>,
    pub rng: RngSource,
}

impl BspMapGenerator {
    pub open spec fn grid_wf(self) -> bool {
        self.data@.len() == self.width
            && forall|i: int| 0 <= i < self.data@.len()
                ==> (#[trigger] self.data@[i])@.len() == self.height
    }

    /// The grid always has width columns of height cells, and the minimum
    /// split size always leaves well-formed children to a cut.
    pub open spec fn wf(self) -> bool {
        self.grid_wf() && self.min_split_size >= 2
    }

    pub open spec fn tile(self, x: int, y: int) -> TileType {
        self.data@[x]@[y]
    }

    fn make_grid(width: u32, height: u32) -> (r: Vec<Vec<TileType>>)
        ensures
            r@.len() == width,
            forall|i: int| 0 <= i < width ==> (#[trigger] r@[i])@.len() == height,
            forall|i: int, j: int| 0 <= i < width && 0 <= j < height
                ==> #[trigger] r@[i]@[j] == TileType::Wall,
    {
        let mut data: Vec<Vec<TileType>> = Vec::new();
        let mut i: u32 = 0;
        while i < width
            invariant
                i <= width,
                data@.len() == i,
                forall|a: int| 0 <= a < i ==> (#[trigger] data@[a])@.len() == height,
                forall|a: int, b: int| 0 <= a < i && 0 <= b < height
                    ==> #[trigger] data@[a]@[b] == TileType::Wall,
            decreases width - i,
        {
            let mut line: Vec<TileType> = Vec::new();
            let mut j: u32 = 0;
            while j < height
                invariant
                    j <= height,
                    line@.len() == j,
                    forall|b: int| 0 <= b < j ==> #[trigger] line@[b] == TileType::Wall,
                decreases height - j,
            {
                line.push(TileType::Wall);
                j += 1;
            }
            data.push(line);
            i += 1;
        }
        data
    }

    /// A generator over a width x height grid of walls, with the default
    /// configuration and a random stream seeded from the thread-local
    /// generator.
    pub fn new(width: u32, height: u32) -> (r: BspMapGenerator)
        ensures
            r.wf(),
            r.width == width,
            r.height == height,
            r.nb_iteration == 7,
            r.min_split_size == 5,
            r.min_distance_from_vertex == 1,
            forall|x: int, y: int| 0 <= x < width && 0 <= y < height
                ==> r.tile(x, y) == TileType::Wall,
    {
        BspMapGenerator {
            width,
            height,
            nb_iteration: 7,
            min_split_size: 5,
            min_distance_from_vertex: 1,
            data: Self::make_grid(width, height),
            rng: RngSource::from_entropy(),
        }
    }

    /// As new, but with the random stream seeded from the given value: two
    /// generators built from one seed and one configuration run identically.
    pub fn with_seed(width: u32, height: u32, seed: u64) -> (r: BspMapGenerator)
        ensures
            r.wf(),
            r.width == width,
            r.height == height,
            r.nb_iteration == 7,
            r.min_split_size == 5,
            r.min_distance_from_vertex == 1,
            forall|x: int, y: int| 0 <= x < width && 0 <= y < height
                ==> r.tile(x, y) == TileType::Wall,
    {
        BspMapGenerator {
            width,
            height,
            nb_iteration: 7,
            min_split_size: 5,
            min_distance_from_vertex: 1,
            data: Self::make_grid(width, height),
            rng: RngSource::from_seed(seed),
        }
    }

    pub fn set_nb_iteration(&mut self, nb: u32)
        ensures
            final(self).nb_iteration == nb,
            final(self).width == old(self).width,
            final(self).height == old(self).height,
            final(self).min_split_size == old(self).min_split_size,
            final(self).min_distance_from_vertex == old(self).min_distance_from_vertex,
            final(self).wf() == old(self).wf(),
            forall|x: int, y: int| final(self).tile(x, y) == old(self).tile(x, y),
    {
        self.nb_iteration = nb;
    }

    /// Sizes below 2 would let a cut produce an empty child, so they are
    /// not accepted.
    pub fn set_min_split_size(&mut self, size: u32)
        requires
            size >= 2,
        ensures
            final(self).min_split_size == size,
            final(self).width == old(self).width,
            final(self).height == old(self).height,
            final(self).nb_iteration == old(self).nb_iteration,
            final(self).min_distance_from_vertex == old(self).min_distance_from_vertex,
            old(self).wf() ==> final(self).wf(),
            forall|x: int, y: int| final(self).tile(x, y) == old(self).tile(x, y),
    {
        self.min_split_size = size;
    }

    pub fn set_min_distnace_from_vertex(&mut self, value: u32)
        ensures
            final(self).min_distance_from_vertex == value,
            final(self).width == old(self).width,
            final(self).height == old(self).height,
            final(self).nb_iteration == old(self).nb_iteration,
            final(self).min_split_size == old(self).min_split_size,
            final(self).wf() == old(self).wf(),
            forall|x: int, y: int| final(self).tile(x, y) == old(self).tile(x, y),
    {
        self.min_distance_from_vertex = value;
    }

    pub fn get_title(&self, x: u32, y: u32) -> (r: TileType)
        requires
            self.wf(),
            x < self.width,
            y < self.height,
        ensures
            r == self.tile(x as int, y as int),
    {
        self.data[x as usize][y as usize]
    }

    fn set_title(&mut self, point: Point, value: TileType)
        requires
            old(self).wf(),
            point.x < old(self).width,
            point.y < old(self).height,
        ensures
            final(self).wf(),
            final(self).width == old(self).width,
            final(self).height == old(self).height,
            final(self).nb_iteration == old(self).nb_iteration,
            final(self).min_split_size == old(self).min_split_size,
            final(self).min_distance_from_vertex == old(self).min_distance_from_vertex,
            final(self).rng == old(self).rng,
            final(self).tile(point.x as int, point.y as int) == value,
            forall|x: int, y: int|
                0 <= x < old(self).width && 0 <= y < old(self).height
                    && !(x == point.x as int && y == point.y as int)
                    ==> final(self).tile(x, y) == old(self).tile(x, y),
    {
        self.data[point.x as usize][point.y as usize] = value;
    }

    /// Write Floor over every cell of the room.
    #[verifier::loop_isolation(false)]
    #[verifier::rlimit(60)]
    fn draw_one_room(&mut self, room: &Rectangle)
        requires
            old(self).wf(),
            room.wf(),
            room.top_right.x < old(self).width,
            room.top_right.y < old(self).height,
        ensures
            final(self).wf(),
            final(self).width == old(self).width,
            final(self).height == old(self).height,
            final(self).nb_iteration == old(self).nb_iteration,
            final(self).min_split_size == old(self).min_split_size,
            final(self).min_distance_from_vertex == old(self).min_distance_from_vertex,
            final(self).rng == old(self).rng,
            forall|x: int, y: int|
                0 <= x < old(self).width && 0 <= y < old(self).height
                    ==> #[trigger] final(self).tile(x, y) == (
                        if contains_cell(*room, x, y) { TileType::Floor }
                        else { old(self).tile(x, y) }),
    {
        let ghost orig = *self;
        let mut x: u32 = room.bottom_left.x;
        while x <= room.top_right.x
            invariant
                room.bottom_left.x <= x <= room.top_right.x + 1,
                self.wf(),
                self.width == orig.width,
                self.height == orig.height,
                self.nb_iteration == orig.nb_iteration,
                self.min_split_size == orig.min_split_size,
                self.min_distance_from_vertex == orig.min_distance_from_vertex,
                self.rng == orig.rng,
                forall|a: int, b: int|
                    0 <= a < orig.width && 0 <= b < orig.height
                        ==> #[trigger] self.tile(a, b) == (
                            if contains_cell(*room, a, b) && a < x { TileType::Floor }
                            else { orig.tile(a, b) }),
            decreases room.top_right.x + 1 - x,
        {
            let mut y: u32 = room.bottom_left.y;
            while y <= room.top_right.y
                invariant
                    room.bottom_left.x <= x <= room.top_right.x,
                    room.bottom_left.y <= y <= room.top_right.y + 1,
                    self.wf(),
                    self.width == orig.width,
                    self.height == orig.height,
                    self.nb_iteration == orig.nb_iteration,
                    self.min_split_size == orig.min_split_size,
                    self.min_distance_from_vertex == orig.min_distance_from_vertex,
                    self.rng == orig.rng,
                    forall|a: int, b: int|
                        0 <= a < orig.width && 0 <= b < orig.height
                            ==> #[trigger] self.tile(a, b) == (
                                if contains_cell(*room, a, b) && (a < x || (a == x && b < y)) {
                                    TileType::Floor
                                } else { orig.tile(a, b) }),
                decreases room.top_right.y + 1 - y,
            {
                let ghost mid = *self;
                self.set_title(Point::new(x, y), TileType::Floor);
                proof {
                    assert forall|a: int, b: int|
                        0 <= a < orig.width && 0 <= b < orig.height
                            implies #[trigger] self.tile(a, b) == (
                                if contains_cell(*room, a, b) && (a < x || (a == x && b < y + 1)) {
                                    TileType::Floor
                                } else { orig.tile(a, b) }) by {
                        if a == x as int && b == y as int {
                            assert(contains_cell(*room, a, b));
                            assert(self.tile(a, b) == TileType::Floor);
                        } else {
                            assert(self.tile(a, b) == mid.tile(a, b));
                            assert(mid.tile(a, b) == (
                                if contains_cell(*room, a, b) && (a < x || (a == x && b < y)) {
                                    TileType::Floor
                                } else { orig.tile(a, b) }));
                        }
                    }
                }
                y += 1;
            }
            x += 1;
        }
    }

    /// Rasterize the rooms: every cell of every room becomes Floor.
    #[verifier::loop_isolation(false)]
    fn draw_room_floor(&mut self, rooms: &Vec<Rectangle>)
        requires
            old(self).wf(),
            all_wf(rooms@),
            forall|i: int| 0 <= i < rooms@.len()
                ==> (#[trigger] rooms@[i]).top_right.x < old(self).width
                    && rooms@[i].top_right.y < old(self).height,
        ensures
            final(self).wf(),
            final(self).width == old(self).width,
            final(self).height == old(self).height,
            final(self).nb_iteration == old(self).nb_iteration,
            final(self).min_split_size == old(self).min_split_size,
            final(self).min_distance_from_vertex == old(self).min_distance_from_vertex,
            final(self).rng == old(self).rng,
            forall|x: int, y: int|
                0 <= x < old(self).width && 0 <= y < old(self).height
                    ==> final(self).tile(x, y) == (
                        if covered(rooms@, x, y) { TileType::Floor }
                        else { old(self).tile(x, y) }),
    {
        let mut k: usize = 0;
        while k < rooms.len()
            invariant
                k <= rooms.len(),
                self.wf(),
                self.width == old(self).width,
                self.height == old(self).height,
                self.nb_iteration == old(self).nb_iteration,
                self.min_split_size == old(self).min_split_size,
                self.min_distance_from_vertex == old(self).min_distance_from_vertex,
                self.rng == old(self).rng,
                forall|x: int, y: int|
                    0 <= x < old(self).width && 0 <= y < old(self).height
                        ==> self.tile(x, y) == (
                            if covered_to(rooms@, k as int, x, y) { TileType::Floor }
                            else { old(self).tile(x, y) }),
            decreases rooms.len() - k,
        {
            let room = rooms[k];
            self.draw_one_room(&room);
            proof {
                assert forall|x: int, y: int|
                    0 <= x < old(self).width && 0 <= y < old(self).height
                        implies self.tile(x, y) == (
                            if covered_to(rooms@, k as int + 1, x, y) { TileType::Floor }
                            else { old(self).tile(x, y) }) by {
                    if contains_cell(rooms@[k as int], x, y) {
                        assert(covered_to(rooms@, k as int + 1, x, y));
                    } else if covered_to(rooms@, k as int, x, y) {
                        let i = choose|i: int| 0 <= i < k as int
                            && contains_cell(rooms@[i], x, y);
                        assert(covered_to(rooms@, k as int + 1, x, y));
                    } else {
                        assert(!covered_to(rooms@, k as int + 1, x, y)) by {
                            if covered_to(rooms@, k as int + 1, x, y) {
                                let i = choose|i: int| 0 <= i < k as int + 1
                                    && contains_cell(rooms@[i], x, y);
                                assert(false);
                            }
                        }
                    }
                }
            }
            k += 1;
        }
        proof {
            assert forall|x: int, y: int|
                covered_to(rooms@, rooms@.len() as int, x, y) == covered(rooms@, x, y) by {
                if covered_to(rooms@, rooms@.len() as int, x, y) {
                    let i = choose|i: int| 0 <= i < rooms@.len()
                        && contains_cell(rooms@[i], x, y);
                    assert(covered(rooms@, x, y));
                }
                if covered(rooms@, x, y) {
                    let i = choose|i: int| 0 <= i < rooms@.len()
                        && contains_cell(rooms@[i], x, y);
                    assert(covered_to(rooms@, rooms@.len() as int, x, y));
                }
            }
        }
    }

    /// Rasterize the doors: every door cell becomes Door, whatever was there.
    #[verifier::loop_isolation(false)]
    fn draw_door(&mut self, doors: &Vec<Point>)
        requires
            old(self).wf(),
            forall|i: int| 0 <= i < doors@.len()
                ==> (#[trigger] doors@[i]).x < old(self).width
                    && doors@[i].y < old(self).height,
        ensures
            final(self).wf(),
            final(self).width == old(self).width,
            final(self).height == old(self).height,
            final(self).nb_iteration == old(self).nb_iteration,
            final(self).min_split_size == old(self).min_split_size,
            final(self).min_distance_from_vertex == old(self).min_distance_from_vertex,
            final(self).rng == old(self).rng,
            forall|x: int, y: int|
                0 <= x < old(self).width && 0 <= y < old(self).height
                    ==> final(self).tile(x, y) == (
                        if door_at(doors@, x, y) { TileType::Door }
                        else { old(self).tile(x, y) }),
    {
        let mut k: usize = 0;
        while k < doors.len()
            invariant
                k <= doors.len(),
                self.wf(),
                self.width == old(self).width,
                self.height == old(self).height,
                self.nb_iteration == old(self).nb_iteration,
                self.min_split_size == old(self).min_split_size,
                self.min_distance_from_vertex == old(self).min_distance_from_vertex,
                self.rng == old(self).rng,
                forall|x: int, y: int|
                    0 <= x < old(self).width && 0 <= y < old(self).height
                        ==> self.tile(x, y) == (
                            if door_at_to(doors@, k as int, x, y) { TileType::Door }
                            else { old(self).tile(x, y) }),
            decreases doors.len() - k,
        {
            let door = doors[k];
            self.set_title(door, TileType::Door);
            proof {
                assert forall|x: int, y: int|
                    0 <= x < old(self).width && 0 <= y < old(self).height
                        implies self.tile(x, y) == (
                            if door_at_to(doors@, k as int + 1, x, y) { TileType::Door }
                            else { old(self).tile(x, y) }) by {
                    if doors@[k as int].x == x && doors@[k as int].y == y {
                        assert(door_at_to(doors@, k as int + 1, x, y));
                    } else if door_at_to(doors@, k as int, x, y) {
                        let i = choose|i: int| 0 <= i < k as int
                            && (#[trigger] doors@[i]).x == x && doors@[i].y == y;
                        assert(door_at_to(doors@, k as int + 1, x, y));
                    } else {
                        assert(!door_at_to(doors@, k as int + 1, x, y)) by {
                            if door_at_to(doors@, k as int + 1, x, y) {
                                let i = choose|i: int| 0 <= i < k as int + 1
                                    && (#[trigger] doors@[i]).x == x && doors@[i].y == y;
                                assert(false);
                            }
                        }
                    }
                }
            }
            k += 1;
        }
        proof {
            assert forall|x: int, y: int|
                door_at_to(doors@, doors@.len() as int, x, y) == door_at(doors@, x, y) by {
                if door_at_to(doors@, doors@.len() as int, x, y) {
                    let i = choose|i: int| 0 <= i < doors@.len()
                        && (#[trigger] doors@[i]).x == x && doors@[i].y == y;
                    assert(door_at(doors@, x, y));
                }
                if door_at(doors@, x, y) {
                    let i = choose|i: int| 0 <= i < doors@.len()
                        && (#[trigger] doors@[i]).x == x && doors@[i].y == y;
                    assert(door_at_to(doors@, doors@.len() as int, x, y));
                }
            }
        }
    }

    /// Run partitioning, door placement, pruning and rasterization once.
    /// Always succeeds; the grid afterwards shows Door on every door cell,
    /// Floor on every cell of a surviving room, and is untouched elsewhere.
    /// The room set, gap set and door set are the functions of the recorded
    /// draws that partition_model and doors_model name: runs that draw the
    /// same values lay out the same map.
    pub fn generate(&mut self) -> (r: Result<(), Error>)
        requires
            old(self).wf(),
            old(self).width >= 3,
            old(self).height >= 3,
        ensures
            r is Ok,
            final(self).wf(),
            final(self).width == old(self).width,
            final(self).height == old(self).height,
            final(self).nb_iteration == old(self).nb_iteration,
            final(self).min_split_size == old(self).min_split_size,
            final(self).min_distance_from_vertex == old(self).min_distance_from_vertex,
            old(self).rng.log().len() <= final(self).rng.log().len(),
            final(self).rng.log().take(old(self).rng.log().len() as int) == old(self).rng.log(),
            exists|rooms: Seq<Rectangle>, gaps: Seq<Rectangle>, doors: Seq<Point>|
                {
                    &&& #[trigger] valid_layout(
                        old(self).width, old(self).height,
                        old(self).min_distance_from_vertex, rooms, gaps, doors)
                    &&& ({
                        let cs = final(self).rng.log().skip(old(self).rng.log().len() as int);
                        let pm = partition_model(
                            inset_root(old(self).width, old(self).height),
                            old(self).nb_iteration as int, old(self).min_split_size, cs);
                        rooms == pm.0 + pm.1 && gaps == pm.2
                            && doors == doors_model(rooms, rooms.len() as int,
                                old(self).min_distance_from_vertex,
                                final(self).rng.log().skip(
                                    old(self).rng.log().len() as int + pm.3)).0
                    })
                    &&& forall|x: int, y: int|
                        0 <= x < old(self).width && 0 <= y < old(self).height
                            ==> final(self).tile(x, y) == (
                                if door_at(doors, x, y) { TileType::Door }
                                else if covered(prune_rooms(rooms, doors,
                                        old(self).min_distance_from_vertex), x, y) {
                                    TileType::Floor
                                } else { old(self).tile(x, y) })
                },
    {
        let ghost log_entry = self.rng.log();
        let root = Rectangle::from_corner(
            Point::new(1, 1),
            Point::new(self.width - 2, self.height - 2),
        );
        proof {
            assert(root == inset_root(self.width, self.height));
        }
        let nb_iteration = self.nb_iteration;
        let min_split_size = self.min_split_size;
        let min_distance_from_vertex = self.min_distance_from_vertex;
        let (rooms, gaps) = generate_rooms(&mut self.rng, nb_iteration, min_split_size, root);
        let ghost log_rooms = self.rng.log();
        proof {
            assert forall|i: int| 0 <= i < rooms@.len()
                implies (#[trigger] rooms@[i]).top_right.x < u32::MAX
                    && rooms@[i].top_right.y < u32::MAX by {
                assert(within(rooms@[i], root));
            }
        }
        let doors = generate_doors(&mut self.rng, min_distance_from_vertex, &rooms);
        let ghost rooms0 = rooms@;
        let surviving = prune(min_distance_from_vertex, rooms, &doors);
        proof {
            lemma_pruning_invariant(rooms0, doors@, min_distance_from_vertex);
            assert forall|i: int| 0 <= i < surviving@.len()
                implies (#[trigger] surviving@[i]).wf()
                    && surviving@[i].top_right.x < self.width
                    && surviving@[i].top_right.y < self.height by {
                let j = choose|j: int| 0 <= j < rooms0.len() && surviving@[i] == rooms0[j];
                assert(within(rooms0[j], root));
            }
            assert forall|i: int| 0 <= i < doors@.len()
                implies (#[trigger] doors@[i]).x < self.width && doors@[i].y < self.height by {
                assert(door_paired(rooms0, doors@[i], min_distance_from_vertex));
                let (a, b) = choose|a: int, b: int|
                    0 <= a < rooms0.len() && 0 <= b < rooms0.len() && rooms0[a] != rooms0[b]
                        && door_ok(#[trigger] rooms0[a], doors@[i], min_distance_from_vertex)
                        && door_ok(#[trigger] rooms0[b], doors@[i], min_distance_from_vertex);
                lemma_door_bound(rooms0[a], doors@[i], min_distance_from_vertex);
                assert(within(rooms0[a], root));
            }
        }
        self.draw_room_floor(&surviving);
        self.draw_door(&doors);
        proof {
            let dist = old(self).min_distance_from_vertex;
            assert(valid_layout(old(self).width, old(self).height, dist, rooms0, gaps@, doors@));
            let cs_rooms = log_rooms.skip(log_entry.len() as int);
            let cs_all = self.rng.log().skip(log_entry.len() as int);
            assert(self.rng.log().take(log_rooms.len() as int) == log_rooms);
            assert forall|i: int| 0 <= i < cs_rooms.len()
                implies cs_rooms[i] == cs_all[i] by {
                assert(cs_rooms[i] == log_rooms[i + log_entry.len()]);
                assert(cs_all[i] == self.rng.log()[i + log_entry.len()]);
                assert(self.rng.log().take(log_rooms.len() as int)[i + log_entry.len()]
                    == self.rng.log()[i + log_entry.len()]);
            }
            lemma_partition_model_prefix(
                root, old(self).nb_iteration as int, old(self).min_split_size,
                cs_rooms, cs_all);
            assert(self.rng.log().take(log_entry.len() as int) =~= log_entry);
            let cs_doors = self.rng.log().skip(log_rooms.len() as int);
            let pm_all = partition_model(root, old(self).nb_iteration as int,
                old(self).min_split_size, cs_all);
            assert(pm_all.3 == cs_rooms.len());
            assert(self.rng.log().skip(log_entry.len() as int + pm_all.3) =~= cs_doors);
            assert(surviving@ == prune_rooms(rooms0, doors@, dist));
            assert forall|x: int, y: int|
                0 <= x < old(self).width && 0 <= y < old(self).height
                    implies self.tile(x, y) == (
                        if door_at(doors@, x, y) { TileType::Door }
                        else if covered(prune_rooms(rooms0, doors@, dist), x, y) {
                            TileType::Floor
                        } else { old(self).tile(x, y) }) by {
            }
        }
        Ok(())
    }
}

} // verus!
