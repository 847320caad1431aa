//! The laws of the library, stated over the models and proved once and for
//! all: how `intersection` relates to `overlaps`, how `translate` composes,
//! what the decomposition returns for an unobstructed and for a fully
//! obstructed region, that no two simultaneously active rectangles of the
//! sweep ever share a vertical shape, and that every returned rectangle is
//! unique and spans a real x interval inside the region.

use vstd::prelude::*;

use crate::RectModel;
use crate::contains_rect_model;
use crate::intersection_model;
use crate::overlaps_model;
use crate::translate_model;
use crate::valid_rect;
use crate::sweep_model::ActiveModel;
use crate::sweep_model::GapModel;
use crate::sweep_model::LineModel;
use crate::sweep_model::close_at_right;
use crate::sweep_model::closed_outputs;
use crate::sweep_model::decompose_model;
use crate::sweep_model::dedup_by_x;
use crate::sweep_model::event_lines;
use crate::sweep_model::gaps_at;
use crate::sweep_model::gaps_scan;
use crate::sweep_model::initial_lines;
use crate::sweep_model::insert_by_top;
use crate::sweep_model::insert_by_x;
use crate::sweep_model::lines_in_range;
use crate::sweep_model::obstruction_lines;
use crate::sweep_model::open_step;
use crate::sweep_model::continuations_all;
use crate::sweep_model::continuations_for;
use crate::sweep_model::insert_by_left;
use crate::sweep_model::kept_actives;
use crate::sweep_model::shape_present;
use crate::sweep_model::sort_by_left;
use crate::sweep_model::sort_by_top;
use crate::sweep_model::sort_by_x;
use crate::sweep_model::sweep_lines;
use crate::sweep_model::sweep_step;

verus! {

/// The area of a rectangle's model, `width * height`.
pub open spec fn area_model(m: RectModel) -> int {
    (m.right - m.left) * (m.top - m.bottom)
}

/// The sum of the areas of a sequence of rectangles.
pub open spec fn sum_areas(s: Seq<RectModel>) -> int
    decreases s.len(),
{
    if s.len() == 0 {
        0
    } else {
        sum_areas(s.drop_last()) + area_model(s.last())
    }
}

/// No two rectangles of the sequence overlap.
pub open spec fn pairwise_disjoint(s: Seq<RectModel>) -> bool {
    forall|i: int, j: int|
        0 <= i < j < s.len() ==> !overlaps_model(#[trigger] s[i], #[trigger] s[j])
}

/// No two active rectangles share a vertical `(top, bottom)` shape.
pub open spec fn distinct_shapes(acts: Seq<ActiveModel>) -> bool {
    forall|i: int, j: int|
        0 <= i < j < acts.len() ==> !((#[trigger] acts[i]).top == (#[trigger] acts[j]).top
            && acts[i].bottom == acts[j].bottom)
}

/// Pushing adds exactly one shape to those present.
proof fn lemma_shape_present_push(s: Seq<ActiveModel>, a: ActiveModel, t: int, b: int)
    ensures
        shape_present(s.push(a), t, b) <==> (shape_present(s, t, b) || (a.top == t && a.bottom
            == b)),
{
    if shape_present(s, t, b) {
        let i = choose|i: int| 0 <= i < s.len() && s[i].top == t && s[i].bottom == b;
        assert(s.push(a)[i].top == t && s.push(a)[i].bottom == b);
    }
    if a.top == t && a.bottom == b {
        assert(s.push(a)[s.len() as int].top == t && s.push(a)[s.len() as int].bottom == b);
    }
    if shape_present(s.push(a), t, b) {
        let i = choose|i: int|
            0 <= i < s.push(a).len() && s.push(a)[i].top == t && s.push(a)[i].bottom == b;
        if i < s.len() {
            assert(s[i].top == t && s[i].bottom == b);
        }
    }
}

/// Pushing a shape that is not present yet keeps the shapes distinct.
proof fn lemma_push_distinct(s: Seq<ActiveModel>, a: ActiveModel)
    requires
        distinct_shapes(s),
        !shape_present(s, a.top, a.bottom),
    ensures
        distinct_shapes(s.push(a)),
{
    let out = s.push(a);
    assert forall|i: int, j: int| 0 <= i < j < out.len() implies !((#[trigger] out[i]).top
        == (#[trigger] out[j]).top && out[i].bottom == out[j].bottom) by {
        if j < s.len() {
            assert(out[i] == s[i] && out[j] == s[j]);
        } else {
            assert(out[j] == a);
            assert(out[i] == s[i]);
            if s[i].top == a.top && s[i].bottom == a.bottom {
                assert(shape_present(s, a.top, a.bottom));
            }
        }
    }
}

/// Stable insertion adds exactly one shape to those present.
proof fn lemma_insert_by_left_shapes(s: Seq<ActiveModel>, a: ActiveModel, t: int, b: int)
    ensures
        shape_present(insert_by_left(s, a), t, b) <==> (shape_present(s, t, b) || (a.top == t
            && a.bottom == b)),
    decreases s.len(),
{
    if s.len() == 0 {
        assert(seq![a] =~= Seq::<ActiveModel>::empty().push(a));
        lemma_shape_present_push(Seq::empty(), a, t, b);
    } else if s.last().left >= a.left {
        lemma_shape_present_push(s, a, t, b);
    } else {
        lemma_insert_by_left_shapes(s.drop_last(), a, t, b);
        lemma_shape_present_push(insert_by_left(s.drop_last(), a), s.last(), t, b);
        assert(s =~= s.drop_last().push(s.last()));
        lemma_shape_present_push(s.drop_last(), s.last(), t, b);
    }
}

/// Stable insertion of a shape that is not present yet keeps the shapes
/// distinct.
proof fn lemma_insert_by_left_distinct(s: Seq<ActiveModel>, a: ActiveModel)
    requires
        distinct_shapes(s),
        !shape_present(s, a.top, a.bottom),
    ensures
        distinct_shapes(insert_by_left(s, a)),
    decreases s.len(),
{
    if s.len() == 0 {
        assert(seq![a] =~= Seq::<ActiveModel>::empty().push(a));
        lemma_push_distinct(Seq::empty(), a);
    } else if s.last().left >= a.left {
        lemma_push_distinct(s, a);
    } else {
        let rest = s.drop_last();
        assert(s =~= rest.push(s.last()));
        assert(distinct_shapes(rest)) by {
            assert(forall|i: int| 0 <= i < rest.len() ==> rest[i] == s[i]);
        }
        assert(!shape_present(rest, a.top, a.bottom)) by {
            lemma_shape_present_push(rest, s.last(), a.top, a.bottom);
        }
        lemma_insert_by_left_distinct(rest, a);
        assert(!shape_present(insert_by_left(rest, a), s.last().top, s.last().bottom)) by {
            lemma_insert_by_left_shapes(rest, a, s.last().top, s.last().bottom);
            lemma_shape_present_push(rest, s.last(), a.top, a.bottom);
            if shape_present(rest, s.last().top, s.last().bottom) {
                let i = choose|i: int|
                    0 <= i < rest.len() && rest[i].top == s.last().top && rest[i].bottom
                        == s.last().bottom;
                assert(s[i].top == s.last().top && s[i].bottom == s.last().bottom);
            }
        }
        lemma_push_distinct(insert_by_left(rest, a), s.last());
    }
}

/// Sorting by left edge neither adds nor removes shapes.
proof fn lemma_sort_by_left_shapes(s: Seq<ActiveModel>, t: int, b: int)
    ensures
        shape_present(sort_by_left(s), t, b) <==> shape_present(s, t, b),
    decreases s.len(),
{
    if s.len() != 0 {
        lemma_sort_by_left_shapes(s.drop_last(), t, b);
        lemma_insert_by_left_shapes(sort_by_left(s.drop_last()), s.last(), t, b);
        assert(s =~= s.drop_last().push(s.last()));
        lemma_shape_present_push(s.drop_last(), s.last(), t, b);
    }
}

/// Sorting by left edge keeps the shapes distinct.
proof fn lemma_sort_by_left_distinct(s: Seq<ActiveModel>)
    requires
        distinct_shapes(s),
    ensures
        distinct_shapes(sort_by_left(s)),
    decreases s.len(),
{
    if s.len() != 0 {
        let rest = s.drop_last();
        assert(distinct_shapes(rest)) by {
            assert(forall|i: int| 0 <= i < rest.len() ==> rest[i] == s[i]);
        }
        lemma_sort_by_left_distinct(rest);
        assert(!shape_present(sort_by_left(rest), s.last().top, s.last().bottom)) by {
            lemma_sort_by_left_shapes(rest, s.last().top, s.last().bottom);
            if shape_present(rest, s.last().top, s.last().bottom) {
                let i = choose|i: int|
                    0 <= i < rest.len() && rest[i].top == s.last().top && rest[i].bottom
                        == s.last().bottom;
                assert(s[i].top == s.last().top && s[i].bottom == s.last().bottom);
            }
        }
        lemma_insert_by_left_distinct(sort_by_left(rest), s.last());
    }
}

/// Starting new rectangles at an opening line keeps the shapes distinct:
/// a rectangle is started only for a shape that is not active yet.
proof fn lemma_open_step_distinct(acts: Seq<ActiveModel>, gaps: Seq<GapModel>, x: int)
    requires
        distinct_shapes(acts),
    ensures
        distinct_shapes(open_step(acts, gaps, x)),
    decreases gaps.len(),
{
    if gaps.len() != 0 {
        lemma_open_step_distinct(acts, gaps.drop_last(), x);
        let prev = open_step(acts, gaps.drop_last(), x);
        let g = gaps.last();
        if !shape_present(prev, g.top, g.bottom) {
            lemma_push_distinct(prev, ActiveModel { left: x, top: g.top, bottom: g.bottom });
        }
    }
}

/// Every shape kept at a closing line was already active.
proof fn lemma_kept_shapes(acts: Seq<ActiveModel>, gaps: Seq<GapModel>, t: int, b: int)
    ensures
        shape_present(kept_actives(acts, gaps), t, b) ==> shape_present(acts, t, b),
    decreases acts.len(),
{
    if acts.len() != 0 {
        lemma_kept_shapes(acts.drop_last(), gaps, t, b);
        assert(acts =~= acts.drop_last().push(acts.last()));
        lemma_shape_present_push(acts.drop_last(), acts.last(), t, b);
        if crate::sweep_model::fits_any(acts.last(), gaps) {
            lemma_shape_present_push(kept_actives(acts.drop_last(), gaps), acts.last(), t, b);
        }
    }
}

/// Keeping a subset of the active rectangles keeps the shapes distinct.
proof fn lemma_kept_distinct(acts: Seq<ActiveModel>, gaps: Seq<GapModel>)
    requires
        distinct_shapes(acts),
    ensures
        distinct_shapes(kept_actives(acts, gaps)),
    decreases acts.len(),
{
    if acts.len() != 0 {
        let rest = acts.drop_last();
        assert(distinct_shapes(rest)) by {
            assert(forall|i: int| 0 <= i < rest.len() ==> rest[i] == acts[i]);
        }
        lemma_kept_distinct(rest, gaps);
        if crate::sweep_model::fits_any(acts.last(), gaps) {
            assert(!shape_present(kept_actives(rest, gaps), acts.last().top, acts.last().bottom))
                by {
                lemma_kept_shapes(rest, gaps, acts.last().top, acts.last().bottom);
                if shape_present(rest, acts.last().top, acts.last().bottom) {
                    let i = choose|i: int|
                        0 <= i < rest.len() && rest[i].top == acts.last().top && rest[i].bottom
                            == acts.last().bottom;
                    assert(acts[i].top == acts.last().top && acts[i].bottom
                        == acts.last().bottom);
                }
            }
            lemma_push_distinct(kept_actives(rest, gaps), acts.last());
        }
    }
}

/// The continuations one closed rectangle starts stay distinct, and each
/// new shape among them is absent from the old active list.
proof fn lemma_conts_for_distinct(
    all: Seq<ActiveModel>,
    news: Seq<ActiveModel>,
    a: ActiveModel,
    gaps: Seq<GapModel>,
)
    requires
        distinct_shapes(news),
    ensures
        distinct_shapes(continuations_for(all, news, a, gaps)),
        forall|t: int, b: int|
            shape_present(#[trigger] continuations_for(all, news, a, gaps), t, b) ==> (
            shape_present(news, t, b) || !shape_present(all, t, b)),
    decreases gaps.len(),
{
    if gaps.len() != 0 {
        lemma_conts_for_distinct(all, news, a, gaps.drop_last());
        let prev = continuations_for(all, news, a, gaps.drop_last());
        let g = gaps.last();
        if crate::sweep_model::continues_shape(g, a) {
            let c = crate::sweep_model::continuation(a, g);
            if !(shape_present(all, c.top, c.bottom) || shape_present(prev, c.top, c.bottom)) {
                lemma_push_distinct(prev, c);
                assert forall|t: int, b: int|
                    shape_present(#[trigger] continuations_for(all, news, a, gaps), t, b) implies (
                shape_present(news, t, b) || !shape_present(all, t, b)) by {
                    lemma_shape_present_push(prev, c, t, b);
                }
            }
        }
    }
}

/// All continuations started at a closing line stay distinct, and their
/// shapes are absent from the old active list.
proof fn lemma_conts_all_distinct(all: Seq<ActiveModel>, acts: Seq<ActiveModel>, gaps: Seq<
    GapModel,
>)
    ensures
        distinct_shapes(continuations_all(all, acts, gaps)),
        forall|t: int, b: int|
            shape_present(#[trigger] continuations_all(all, acts, gaps), t, b) ==> !shape_present(
                all,
                t,
                b,
            ),
    decreases acts.len(),
{
    if acts.len() == 0 {
        assert forall|t: int, b: int|
            shape_present(#[trigger] continuations_all(all, acts, gaps), t, b) implies
            !shape_present(all, t, b) by {
            assert(!shape_present(Seq::<ActiveModel>::empty(), t, b));
        }
    } else {
        lemma_conts_all_distinct(all, acts.drop_last(), gaps);
        let prev = continuations_all(all, acts.drop_last(), gaps);
        if !crate::sweep_model::fits_any(acts.last(), gaps) {
            lemma_conts_for_distinct(all, prev, acts.last(), gaps);
        }
    }
}

/// Two sequences of distinct shapes with no shape in common stay distinct
/// when concatenated.
proof fn lemma_concat_distinct(x: Seq<ActiveModel>, y: Seq<ActiveModel>)
    requires
        distinct_shapes(x),
        distinct_shapes(y),
        forall|t: int, b: int| !(shape_present(x, t, b) && shape_present(y, t, b)),
    ensures
        distinct_shapes(x + y),
{
    let out = x + y;
    assert forall|i: int, j: int| 0 <= i < j < out.len() implies !((#[trigger] out[i]).top
        == (#[trigger] out[j]).top && out[i].bottom == out[j].bottom) by {
        if j < x.len() {
            assert(out[i] == x[i] && out[j] == x[j]);
        } else if i >= x.len() {
            assert(out[i] == y[i - x.len()] && out[j] == y[j - x.len()]);
        } else {
            assert(out[i] == x[i] && out[j] == y[j - x.len()]);
            if out[i].top == out[j].top && out[i].bottom == out[j].bottom {
                assert(shape_present(x, out[i].top, out[i].bottom));
                assert(shape_present(y, out[i].top, out[i].bottom));
            }
        }
    }
}

/// One event line keeps the active shapes distinct.
proof fn lemma_sweep_step_distinct(
    region: RectModel,
    sorted_obs: Seq<RectModel>,
    outs: Seq<RectModel>,
    acts: Seq<ActiveModel>,
    line: LineModel,
)
    requires
        distinct_shapes(acts),
    ensures
        distinct_shapes(sweep_step(region, sorted_obs, outs, acts, line).1),
{
    let gaps = gaps_at(region, sorted_obs, line.x);
    let sacts = sort_by_left(acts);
    lemma_sort_by_left_distinct(acts);
    if line.opens {
        lemma_open_step_distinct(sacts, gaps, line.x);
    } else {
        lemma_kept_distinct(sacts, gaps);
        lemma_conts_all_distinct(sacts, sacts, gaps);
        let kept = kept_actives(sacts, gaps);
        let news = continuations_all(sacts, sacts, gaps);
        assert forall|t: int, b: int| !(shape_present(kept, t, b) && shape_present(news, t, b))
            by {
            lemma_kept_shapes(sacts, gaps, t, b);
        }
        lemma_concat_distinct(kept, news);
    }
}

/// The invariant of the whole sweep: at every point, no two simultaneously
/// active rectangles share the same `(top, bottom)` pair.  This shape
/// uniqueness is what keeps each output rectangle maximal along the x axis
/// instead of fragmented at every event line where its shape is unchanged.
pub proof fn lemma_active_shapes_unique(
    region: RectModel,
    sorted_obs: Seq<RectModel>,
    lines: Seq<LineModel>,
)
    ensures
        distinct_shapes(sweep_lines(region, sorted_obs, lines).1),
    decreases lines.len(),
{
    if lines.len() == 0 {
    } else {
        lemma_active_shapes_unique(region, sorted_obs, lines.drop_last());
        let before = sweep_lines(region, sorted_obs, lines.drop_last());
        lemma_sweep_step_distinct(region, sorted_obs, before.0, before.1, lines.last());
    }
}

// ---------------------------------------------------------------------------
// Every returned rectangle lies within the region's x span.
// ---------------------------------------------------------------------------

/// The rectangle spans a real x interval inside the region's x range.
/// (Nothing of the kind holds vertically: obstruction y ranges are not
/// clipped to the region, so gaps can reach outside it.)
pub open spec fn within_region_x(region: RectModel, r: RectModel) -> bool {
    region.left <= r.left && r.left <= r.right && r.right <= region.right
}

/// Every rectangle of the sequence spans a real x interval inside the
/// region's x range.
pub open spec fn all_within_region_x(region: RectModel, s: Seq<RectModel>) -> bool {
    forall|k: int| 0 <= k < s.len() ==> within_region_x(region, #[trigger] s[k])
}

spec fn lines_nondecreasing(s: Seq<LineModel>) -> bool {
    forall|i: int, j: int| 0 <= i < j < s.len() ==> (#[trigger] s[i]).x <= (#[trigger] s[j]).x
}

spec fn lines_increasing(s: Seq<LineModel>) -> bool {
    forall|i: int, j: int| 0 <= i < j < s.len() ==> (#[trigger] s[i]).x < (#[trigger] s[j]).x
}

spec fn lines_between(s: Seq<LineModel>, lo: int, hi: int) -> bool {
    forall|i: int| 0 <= i < s.len() ==> lo <= (#[trigger] s[i]).x <= hi
}

spec fn actives_left_between(acts: Seq<ActiveModel>, lo: int, hi: int) -> bool {
    forall|i: int| 0 <= i < acts.len() ==> lo <= (#[trigger] acts[i]).left <= hi
}

/// Inserting a line below the bound keeps every line below the bound.
proof fn lemma_insert_by_x_ub(s: Seq<LineModel>, l: LineModel, hi: int)
    requires
        forall|i: int| 0 <= i < s.len() ==> (#[trigger] s[i]).x <= hi,
        l.x <= hi,
    ensures
        forall|i: int|
            0 <= i < insert_by_x(s, l).len() ==> (#[trigger] insert_by_x(s, l)[i]).x <= hi,
    decreases s.len(),
{
    if s.len() == 0 {
        assert(insert_by_x(s, l) =~= Seq::<LineModel>::empty().push(l));
    } else if s.last().x <= l.x {
        assert forall|i: int| 0 <= i < insert_by_x(s, l).len() implies (#[trigger] insert_by_x(
            s,
            l,
        )[i]).x <= hi by {
            if i < s.len() {
                assert(insert_by_x(s, l)[i] == s[i]);
            } else {
                assert(insert_by_x(s, l)[i] == l);
            }
        }
    } else {
        assert(forall|i: int|
            0 <= i < s.drop_last().len() ==> (#[trigger] s.drop_last()[i]).x <= hi);
        lemma_insert_by_x_ub(s.drop_last(), l, hi);
        let inner = insert_by_x(s.drop_last(), l);
        assert forall|i: int| 0 <= i < insert_by_x(s, l).len() implies (#[trigger] insert_by_x(
            s,
            l,
        )[i]).x <= hi by {
            if i < inner.len() {
                assert(insert_by_x(s, l)[i] == inner[i]);
            } else {
                assert(insert_by_x(s, l)[i] == s.last());
                assert(s.last() == s[s.len() - 1]);
            }
        }
    }
}

/// Stable insertion by x keeps the lines in nondecreasing order.
proof fn lemma_insert_by_x_sorted(s: Seq<LineModel>, l: LineModel)
    requires
        lines_nondecreasing(s),
    ensures
        lines_nondecreasing(insert_by_x(s, l)),
    decreases s.len(),
{
    if s.len() == 0 {
    } else if s.last().x <= l.x {
        let out = s.push(l);
        assert forall|i: int, j: int| 0 <= i < j < out.len() implies (#[trigger] out[i]).x
            <= (#[trigger] out[j]).x by {
            if j < s.len() {
                assert(out[i] == s[i] && out[j] == s[j]);
            } else {
                assert(out[j] == l);
                assert(out[i] == s[i]);
                assert(s[i].x <= s.last().x);
            }
        }
    } else {
        let rest = s.drop_last();
        assert(lines_nondecreasing(rest)) by {
            assert(forall|i: int| 0 <= i < rest.len() ==> rest[i] == s[i]);
        }
        lemma_insert_by_x_sorted(rest, l);
        assert(forall|i: int| 0 <= i < rest.len() ==> (#[trigger] rest[i]).x <= s.last().x);
        lemma_insert_by_x_ub(rest, l, s.last().x);
        let inner = insert_by_x(rest, l);
        let out = inner.push(s.last());
        assert forall|i: int, j: int| 0 <= i < j < out.len() implies (#[trigger] out[i]).x
            <= (#[trigger] out[j]).x by {
            if j < inner.len() {
                assert(out[i] == inner[i] && out[j] == inner[j]);
            } else {
                assert(out[j] == s.last());
                assert(out[i] == inner[i]);
            }
        }
    }
}

/// Sorting by x leaves the lines in nondecreasing order.
proof fn lemma_sort_by_x_sorted(s: Seq<LineModel>)
    ensures
        lines_nondecreasing(sort_by_x(s)),
    decreases s.len(),
{
    if s.len() != 0 {
        lemma_sort_by_x_sorted(s.drop_last());
        lemma_insert_by_x_sorted(sort_by_x(s.drop_last()), s.last());
    }
}

/// Deduplicating nondecreasing lines leaves them strictly increasing, and
/// keeps the last x position.
proof fn lemma_dedup_by_x_strict(s: Seq<LineModel>)
    requires
        lines_nondecreasing(s),
    ensures
        lines_increasing(dedup_by_x(s)),
        s.len() > 0 ==> dedup_by_x(s).len() > 0 && dedup_by_x(s).last().x == s.last().x,
    decreases s.len(),
{
    if s.len() > 0 {
        let rest0 = s.drop_last();
        assert(lines_nondecreasing(rest0)) by {
            assert(forall|i: int| 0 <= i < rest0.len() ==> rest0[i] == s[i]);
        }
        lemma_dedup_by_x_strict(rest0);
        let rest = dedup_by_x(rest0);
        if rest.len() > 0 && rest.last().x == s.last().x {
        } else {
            let out = rest.push(s.last());
            assert forall|i: int, j: int| 0 <= i < j < out.len() implies (#[trigger] out[i]).x
                < (#[trigger] out[j]).x by {
                if j < rest.len() {
                    assert(out[i] == rest[i] && out[j] == rest[j]);
                } else {
                    assert(out[j] == s.last());
                    assert(out[i] == rest[i]);
                    // every deduplicated line sits at or before the last of
                    // the prefix, which differs from the new last line
                    assert(rest0.len() > 0);
                    assert(rest.last().x == rest0.last().x);
                    assert(rest0.last().x <= s.last().x);
                    if i < rest.len() - 1 {
                        assert(rest[i].x < rest.last().x);
                    }
                }
            }
        }
    }
}

/// Clipping strictly increasing lines to the region keeps them strictly
/// increasing, inside the region's x range, and at or before the last line.
proof fn lemma_lines_in_range_strict(s: Seq<LineModel>, region: RectModel)
    requires
        lines_increasing(s),
    ensures
        lines_increasing(lines_in_range(s, region)),
        lines_between(lines_in_range(s, region), region.left, region.right),
        forall|i: int|
            0 <= i < lines_in_range(s, region).len() ==> s.len() > 0 && (#[trigger] lines_in_range(
                s,
                region,
            )[i]).x <= s.last().x,
    decreases s.len(),
{
    if s.len() > 0 {
        let rest0 = s.drop_last();
        assert(lines_increasing(rest0)) by {
            assert(forall|i: int| 0 <= i < rest0.len() ==> rest0[i] == s[i]);
        }
        lemma_lines_in_range_strict(rest0, region);
        let rest = lines_in_range(rest0, region);
        assert(rest0.len() > 0 ==> rest0.last().x < s.last().x) by {
            if rest0.len() > 0 {
                assert(s[s.len() - 2].x < s[s.len() - 1].x);
                assert(rest0.last() == s[s.len() - 2]);
            }
        }
        if region.left <= s.last().x && s.last().x <= region.right {
            let out = rest.push(s.last());
            assert forall|i: int, j: int| 0 <= i < j < out.len() implies (#[trigger] out[i]).x
                < (#[trigger] out[j]).x by {
                if j < rest.len() {
                    assert(out[i] == rest[i] && out[j] == rest[j]);
                } else {
                    assert(out[j] == s.last());
                    assert(out[i] == rest[i]);
                }
            }
        }
    }
}

/// Inserting below the bounds keeps every active rectangle's left edge
/// between the bounds.
proof fn lemma_insert_by_left_between(s: Seq<ActiveModel>, a: ActiveModel, lo: int, hi: int)
    requires
        actives_left_between(s, lo, hi),
        lo <= a.left <= hi,
    ensures
        actives_left_between(insert_by_left(s, a), lo, hi),
    decreases s.len(),
{
    if s.len() == 0 {
    } else if s.last().left >= a.left {
    } else {
        assert(actives_left_between(s.drop_last(), lo, hi)) by {
            assert(forall|i: int|
                0 <= i < s.drop_last().len() ==> s.drop_last()[i] == s[i]);
        }
        lemma_insert_by_left_between(s.drop_last(), a, lo, hi);
    }
}

/// Sorting keeps every active rectangle's left edge between the bounds.
proof fn lemma_sort_by_left_between(s: Seq<ActiveModel>, lo: int, hi: int)
    requires
        actives_left_between(s, lo, hi),
    ensures
        actives_left_between(sort_by_left(s), lo, hi),
    decreases s.len(),
{
    if s.len() != 0 {
        assert(actives_left_between(s.drop_last(), lo, hi)) by {
            assert(forall|i: int|
                0 <= i < s.drop_last().len() ==> s.drop_last()[i] == s[i]);
        }
        lemma_sort_by_left_between(s.drop_last(), lo, hi);
        lemma_insert_by_left_between(sort_by_left(s.drop_last()), s.last(), lo, hi);
    }
}

/// Opening new rectangles at `x` keeps every left edge between the bounds.
proof fn lemma_open_step_between(acts: Seq<ActiveModel>, gaps: Seq<GapModel>, x: int, lo: int, hi: int)
    requires
        actives_left_between(acts, lo, hi),
        lo <= x <= hi,
    ensures
        actives_left_between(open_step(acts, gaps, x), lo, hi),
    decreases gaps.len(),
{
    if gaps.len() != 0 {
        lemma_open_step_between(acts, gaps.drop_last(), x, lo, hi);
    }
}

/// Keeping a subset of the active rectangles keeps the bounds.
proof fn lemma_kept_between(acts: Seq<ActiveModel>, gaps: Seq<GapModel>, lo: int, hi: int)
    requires
        actives_left_between(acts, lo, hi),
    ensures
        actives_left_between(kept_actives(acts, gaps), lo, hi),
    decreases acts.len(),
{
    if acts.len() != 0 {
        assert(actives_left_between(acts.drop_last(), lo, hi)) by {
            assert(forall|i: int|
                0 <= i < acts.drop_last().len() ==> acts.drop_last()[i] == acts[i]);
        }
        lemma_kept_between(acts.drop_last(), gaps, lo, hi);
    }
}

/// The continuations of one closed rectangle inherit its left edge, which
/// lies between the bounds.
proof fn lemma_conts_for_between(
    all: Seq<ActiveModel>,
    news: Seq<ActiveModel>,
    a: ActiveModel,
    gaps: Seq<GapModel>,
    lo: int,
    hi: int,
)
    requires
        actives_left_between(news, lo, hi),
        lo <= a.left <= hi,
    ensures
        actives_left_between(continuations_for(all, news, a, gaps), lo, hi),
    decreases gaps.len(),
{
    if gaps.len() != 0 {
        lemma_conts_for_between(all, news, a, gaps.drop_last(), lo, hi);
    }
}

/// All continuations started at a closing line keep the bounds.
proof fn lemma_conts_all_between(
    all: Seq<ActiveModel>,
    acts: Seq<ActiveModel>,
    gaps: Seq<GapModel>,
    lo: int,
    hi: int,
)
    requires
        actives_left_between(acts, lo, hi),
    ensures
        actives_left_between(continuations_all(all, acts, gaps), lo, hi),
    decreases acts.len(),
{
    if acts.len() != 0 {
        assert(actives_left_between(acts.drop_last(), lo, hi)) by {
            assert(forall|i: int|
                0 <= i < acts.drop_last().len() ==> acts.drop_last()[i] == acts[i]);
        }
        lemma_conts_all_between(all, acts.drop_last(), gaps, lo, hi);
        if !crate::sweep_model::fits_any(acts.last(), gaps) {
            assert(lo <= acts.last().left <= hi);
            lemma_conts_for_between(
                all,
                continuations_all(all, acts.drop_last(), gaps),
                acts.last(),
                gaps,
                lo,
                hi,
            );
        }
    }
}

/// The rectangles closed at `x` span a real x interval inside the region.
proof fn lemma_closed_outputs_within(
    region: RectModel,
    acts: Seq<ActiveModel>,
    gaps: Seq<GapModel>,
    x: int,
)
    requires
        actives_left_between(acts, region.left, x - 1),
        x - 1 <= region.right,
    ensures
        all_within_region_x(region, closed_outputs(acts, gaps, x)),
    decreases acts.len(),
{
    if acts.len() != 0 {
        assert(actives_left_between(acts.drop_last(), region.left, x - 1)) by {
            assert(forall|i: int|
                0 <= i < acts.drop_last().len() ==> acts.drop_last()[i] == acts[i]);
        }
        lemma_closed_outputs_within(region, acts.drop_last(), gaps, x);
    }
}

/// One sweep: the emitted rectangles span real x intervals inside the
/// region, and every active rectangle's left edge lies between the region's
/// left edge and the last processed line.
proof fn lemma_sweep_bounded(region: RectModel, sorted_obs: Seq<RectModel>, lines: Seq<LineModel>)
    requires
        lines_increasing(lines),
        lines_between(lines, region.left, region.right),
    ensures
        all_within_region_x(region, sweep_lines(region, sorted_obs, lines).0),
        lines.len() == 0 ==> sweep_lines(region, sorted_obs, lines).1.len() == 0,
        lines.len() > 0 ==> actives_left_between(
            sweep_lines(region, sorted_obs, lines).1,
            region.left,
            lines.last().x,
        ),
    decreases lines.len(),
{
    if lines.len() != 0 {
        let pre = lines.drop_last();
        assert(lines_increasing(pre) && lines_between(pre, region.left, region.right)) by {
            assert(forall|i: int| 0 <= i < pre.len() ==> pre[i] == lines[i]);
        }
        lemma_sweep_bounded(region, sorted_obs, pre);
        let before = sweep_lines(region, sorted_obs, pre);
        let line = lines.last();
        let x = line.x;
        assert(region.left <= x <= region.right);
        assert(actives_left_between(before.1, region.left, x - 1)) by {
            if pre.len() > 0 {
                assert(pre.last() == lines[lines.len() - 2]);
                assert(lines[lines.len() - 2].x < lines[lines.len() - 1].x);
                assert(forall|i: int|
                    0 <= i < before.1.len() ==> region.left <= (#[trigger] before.1[i]).left
                        <= pre.last().x);
            }
        }
        let gaps = gaps_at(region, sorted_obs, x);
        let sacts = sort_by_left(before.1);
        lemma_sort_by_left_between(before.1, region.left, x - 1);
        if line.opens {
            assert(actives_left_between(sacts, region.left, x)) by {
                assert(forall|i: int|
                    0 <= i < sacts.len() ==> region.left <= (#[trigger] sacts[i]).left <= x - 1);
            }
            lemma_open_step_between(sacts, gaps, x, region.left, x);
        } else {
            lemma_closed_outputs_within(region, sacts, gaps, x);
            let emitted = closed_outputs(sacts, gaps, x);
            assert(all_within_region_x(region, before.0 + emitted)) by {
                assert(forall|k: int|
                    0 <= k < before.0.len() ==> (before.0 + emitted)[k] == before.0[k]);
                assert(forall|k: int|
                    before.0.len() <= k < before.0.len() + emitted.len() ==> (before.0 + emitted)[k]
                        == emitted[k - before.0.len()]);
            }
            lemma_kept_between(sacts, gaps, region.left, x - 1);
            lemma_conts_all_between(sacts, sacts, gaps, region.left, x - 1);
            let kept = kept_actives(sacts, gaps);
            let news = continuations_all(sacts, sacts, gaps);
            assert(actives_left_between(kept + news, region.left, x)) by {
                assert(forall|i: int| 0 <= i < kept.len() ==> (kept + news)[i] == kept[i]);
                assert(forall|i: int|
                    kept.len() <= i < kept.len() + news.len() ==> (kept + news)[i] == news[i
                        - kept.len()]);
            }
        }
    }
}

/// Every rectangle the decomposition returns spans a real x interval inside
/// the region: its left edge is at or past the region's left edge, at or
/// before its own right edge, which is at or before the region's right
/// edge.  The y extent is deliberately not pinned the same way: obstruction
/// y ranges are never clipped to the region, and the sweep keeps whatever
/// gaps they leave.
pub proof fn lemma_decompose_within_region_x(region: RectModel, obs: Seq<RectModel>)
    ensures
        all_within_region_x(region, decompose_model(region, obs)),
{
    let sorted = sort_by_top(obs);
    let raw = initial_lines(region, sorted);
    lemma_sort_by_x_sorted(raw);
    lemma_dedup_by_x_strict(sort_by_x(raw));
    lemma_lines_in_range_strict(dedup_by_x(sort_by_x(raw)), region);
    let lines = event_lines(region, sorted);
    lemma_sweep_bounded(region, sorted, lines);
    let swept = sweep_lines(region, sorted, lines);
    let closed = swept.1.map_values(|a: ActiveModel| close_at_right(region, a));
    assert forall|k: int| 0 <= k < closed.len() implies within_region_x(region, #[trigger] closed[k])
        by {
        assert(lines.len() > 0);
        assert(closed[k] == close_at_right(region, swept.1[k]));
        assert(region.left <= swept.1[k].left <= lines.last().x);
        assert(lines.last() == lines[lines.len() - 1]);
        assert(region.left <= lines[lines.len() - 1].x <= region.right);
    }
    let out = swept.0 + closed;
    assert(all_within_region_x(region, out)) by {
        assert(forall|k: int| 0 <= k < swept.0.len() ==> out[k] == swept.0[k]);
        assert(forall|k: int|
            swept.0.len() <= k < swept.0.len() + closed.len() ==> out[k] == closed[k
                - swept.0.len()]);
    }
}

// ---------------------------------------------------------------------------
// Every returned rectangle is returned once.
// ---------------------------------------------------------------------------

/// All rectangles of the sequence are pairwise different.
pub open spec fn rects_distinct(s: Seq<RectModel>) -> bool {
    forall|i: int, j: int| 0 <= i < j < s.len() ==> (#[trigger] s[i]) != (#[trigger] s[j])
}

/// No two rectangles of the sequence share a vertical `(top, bottom)` pair.
spec fn rect_shapes_distinct(s: Seq<RectModel>) -> bool {
    forall|i: int, j: int|
        0 <= i < j < s.len() ==> !((#[trigger] s[i]).top == (#[trigger] s[j]).top && s[i].bottom
            == s[j].bottom)
}

/// Every rectangle of the sequence has its right edge at or before `hi`.
spec fn rights_at_most(s: Seq<RectModel>, hi: int) -> bool {
    forall|i: int| 0 <= i < s.len() ==> (#[trigger] s[i]).right <= hi
}

/// Every shape closed at a line was active, the closed rectangles' shapes
/// are pairwise different, and each closed rectangle's right edge is `x - 1`.
proof fn lemma_closed_outputs_distinct(acts: Seq<ActiveModel>, gaps: Seq<GapModel>, x: int)
    requires
        distinct_shapes(acts),
    ensures
        rect_shapes_distinct(closed_outputs(acts, gaps, x)),
        forall|i: int|
            0 <= i < closed_outputs(acts, gaps, x).len() ==> shape_present(
                acts,
                (#[trigger] closed_outputs(acts, gaps, x)[i]).top,
                closed_outputs(acts, gaps, x)[i].bottom,
            ),
        forall|i: int|
            0 <= i < closed_outputs(acts, gaps, x).len() ==> (#[trigger] closed_outputs(
                acts,
                gaps,
                x,
            )[i]).right == x - 1,
    decreases acts.len(),
{
    if acts.len() != 0 {
        let rest0 = acts.drop_last();
        assert(distinct_shapes(rest0)) by {
            assert(forall|i: int| 0 <= i < rest0.len() ==> rest0[i] == acts[i]);
        }
        lemma_closed_outputs_distinct(rest0, gaps, x);
        let rest = closed_outputs(rest0, gaps, x);
        let a = acts.last();
        let out = closed_outputs(acts, gaps, x);
        // a shape present among the prefix's active rectangles is present in
        // the whole list
        assert forall|t: int, b: int| shape_present(rest0, t, b) implies shape_present(acts, t, b)
            by {
            if shape_present(rest0, t, b) {
                let k = choose|k: int|
                    0 <= k < rest0.len() && rest0[k].top == t && rest0[k].bottom == b;
                assert(acts[k].top == t && acts[k].bottom == b);
            }
        }
        if !crate::sweep_model::fits_any(a, gaps) {
            let r = RectModel { left: a.left, right: x - 1, top: a.top, bottom: a.bottom };
            assert(out == rest.push(r));
            assert forall|i: int, j: int| 0 <= i < j < out.len() implies !((#[trigger] out[i]).top
                == (#[trigger] out[j]).top && out[i].bottom == out[j].bottom) by {
                if j < rest.len() {
                    assert(out[i] == rest[i] && out[j] == rest[j]);
                } else {
                    assert(out[j] == r);
                    assert(out[i] == rest[i]);
                    if rest[i].top == r.top && rest[i].bottom == r.bottom {
                        assert(shape_present(rest0, rest[i].top, rest[i].bottom));
                        let k = choose|k: int|
                            0 <= k < rest0.len() && rest0[k].top == r.top && rest0[k].bottom
                                == r.bottom;
                        assert(acts[k].top == a.top && acts[k].bottom == a.bottom);
                        assert(acts[acts.len() - 1] == a);
                    }
                }
            }
            assert forall|i: int| 0 <= i < out.len() implies shape_present(
                acts,
                (#[trigger] out[i]).top,
                out[i].bottom,
            ) by {
                if i < rest.len() {
                    assert(out[i] == rest[i]);
                    assert(shape_present(rest0, rest[i].top, rest[i].bottom));
                } else {
                    assert(out[i] == r);
                    assert(acts[acts.len() - 1].top == r.top && acts[acts.len() - 1].bottom
                        == r.bottom);
                }
            }
        } else {
            assert(out == rest);
            assert forall|i: int| 0 <= i < out.len() implies shape_present(
                acts,
                (#[trigger] out[i]).top,
                out[i].bottom,
            ) by {
                assert(shape_present(rest0, rest[i].top, rest[i].bottom));
            }
        }
    }
}

/// One sweep emits pairwise different rectangles: rectangles closed at one
/// line differ in shape, and rectangles closed at different lines differ in
/// their right edge.
proof fn lemma_sweep_outputs_distinct(
    region: RectModel,
    sorted_obs: Seq<RectModel>,
    lines: Seq<LineModel>,
)
    requires
        lines_increasing(lines),
        lines_between(lines, region.left, region.right),
    ensures
        rects_distinct(sweep_lines(region, sorted_obs, lines).0),
        distinct_shapes(sweep_lines(region, sorted_obs, lines).1),
        lines.len() == 0 ==> sweep_lines(region, sorted_obs, lines).0.len() == 0
            && sweep_lines(region, sorted_obs, lines).1.len() == 0,
        lines.len() > 0 ==> rights_at_most(
            sweep_lines(region, sorted_obs, lines).0,
            lines.last().x - 1,
        ),
    decreases lines.len(),
{
    if lines.len() != 0 {
        let pre = lines.drop_last();
        assert(lines_increasing(pre) && lines_between(pre, region.left, region.right)) by {
            assert(forall|i: int| 0 <= i < pre.len() ==> pre[i] == lines[i]);
        }
        lemma_sweep_outputs_distinct(region, sorted_obs, pre);
        let before = sweep_lines(region, sorted_obs, pre);
        let line = lines.last();
        let x = line.x;
        assert(rights_at_most(before.0, x - 2)) by {
            if pre.len() > 0 {
                assert(pre.last() == lines[lines.len() - 2]);
                assert(lines[lines.len() - 2].x < lines[lines.len() - 1].x);
                assert(forall|i: int|
                    0 <= i < before.0.len() ==> (#[trigger] before.0[i]).right <= pre.last().x
                        - 1);
            }
        }
        let gaps = gaps_at(region, sorted_obs, x);
        let sacts = sort_by_left(before.1);
        lemma_sort_by_left_distinct(before.1);
        if line.opens {
            lemma_open_step_distinct(sacts, gaps, x);
        } else {
            lemma_closed_outputs_distinct(sacts, gaps, x);
            let emitted = closed_outputs(sacts, gaps, x);
            let out = before.0 + emitted;
            assert forall|i: int, j: int| 0 <= i < j < out.len() implies (#[trigger] out[i])
                != (#[trigger] out[j]) by {
                if j < before.0.len() {
                    assert(out[i] == before.0[i] && out[j] == before.0[j]);
                } else if i >= before.0.len() {
                    assert(out[i] == emitted[i - before.0.len()] && out[j] == emitted[j
                        - before.0.len()]);
                } else {
                    assert(out[i] == before.0[i] && out[j] == emitted[j - before.0.len()]);
                    assert(out[i].right <= x - 2);
                    assert(out[j].right == x - 1);
                }
            }
            assert(rights_at_most(out, x - 1)) by {
                assert(forall|i: int|
                    0 <= i < before.0.len() ==> out[i] == before.0[i]);
                assert(forall|i: int|
                    before.0.len() <= i < out.len() ==> out[i] == emitted[i - before.0.len()]);
            }
            // the next active list keeps its shapes distinct, as at every line
            lemma_kept_distinct(sacts, gaps);
            lemma_conts_all_distinct(sacts, sacts, gaps);
            let kept = kept_actives(sacts, gaps);
            let news = continuations_all(sacts, sacts, gaps);
            assert forall|t: int, b: int| !(shape_present(kept, t, b) && shape_present(news, t, b))
                by {
                lemma_kept_shapes(sacts, gaps, t, b);
            }
            lemma_concat_distinct(kept, news);
        }
    }
}

/// Every rectangle the decomposition returns is returned exactly once:
/// rectangles closed at the same event line differ in shape, rectangles
/// closed at different lines differ in their right edge, and the rectangles
/// closed at the region's right edge differ in shape from each other and in
/// right edge from all the others.
pub proof fn lemma_decompose_unique(region: RectModel, obs: Seq<RectModel>)
    ensures
        rects_distinct(decompose_model(region, obs)),
{
    let sorted = sort_by_top(obs);
    let raw = initial_lines(region, sorted);
    lemma_sort_by_x_sorted(raw);
    lemma_dedup_by_x_strict(sort_by_x(raw));
    lemma_lines_in_range_strict(dedup_by_x(sort_by_x(raw)), region);
    let lines = event_lines(region, sorted);
    lemma_sweep_outputs_distinct(region, sorted, lines);
    lemma_active_shapes_unique(region, sorted, lines);
    let swept = sweep_lines(region, sorted, lines);
    let closed = swept.1.map_values(|a: ActiveModel| close_at_right(region, a));
    let out = swept.0 + closed;
    assert forall|i: int, j: int| 0 <= i < j < out.len() implies (#[trigger] out[i])
        != (#[trigger] out[j]) by {
        if j < swept.0.len() {
            assert(out[i] == swept.0[i] && out[j] == swept.0[j]);
        } else if i >= swept.0.len() {
            assert(out[i] == closed[i - swept.0.len()] && out[j] == closed[j - swept.0.len()]);
            assert(out[i] == close_at_right(region, swept.1[i - swept.0.len()]));
            assert(out[j] == close_at_right(region, swept.1[j - swept.0.len()]));
        } else {
            assert(out[i] == swept.0[i] && out[j] == closed[j - swept.0.len()]);
            assert(lines.len() > 0);
            assert(lines.last() == lines[lines.len() - 1]);
            assert(lines[lines.len() - 1].x <= region.right);
            assert(out[i].right <= lines.last().x - 1);
            assert(out[j] == close_at_right(region, swept.1[j - swept.0.len()]));
            assert(out[j].right == region.right);
        }
    }
}

/// Two valid rectangles have an intersection exactly when they overlap,
/// and the intersection lies inside both.
pub proof fn lemma_intersection_iff_overlaps(a: RectModel, b: RectModel)
    requires
        valid_rect(a),
        valid_rect(b),
    ensures
        valid_rect(intersection_model(a, b)) <==> overlaps_model(a, b),
        overlaps_model(a, b) ==> contains_rect_model(a, intersection_model(a, b)),
        overlaps_model(a, b) ==> contains_rect_model(b, intersection_model(a, b)),
{
}

/// Translating is a group action: two translations compose by adding the
/// deltas, and translating by nothing changes nothing.
pub proof fn lemma_translate_compose(m: RectModel, a: int, b: int, c: int, d: int)
    ensures
        translate_model(translate_model(m, a, b), c, d) == translate_model(m, a + c, b + d),
        translate_model(m, 0, 0) == m,
{
}

/// Decomposing a valid region with no obstructions returns exactly one
/// rectangle: the region itself.
pub proof fn lemma_decompose_no_obstructions(region: RectModel)
    requires
        valid_rect(region),
    ensures
        decompose_model(region, Seq::empty()) == seq![region],
{
    let no_lines = Seq::<LineModel>::empty();
    let no_gaps = Seq::<GapModel>::empty();
    let no_actives = Seq::<ActiveModel>::empty();
    let no_rects = Seq::<RectModel>::empty();

    let sorted = sort_by_top(no_rects);
    assert(sorted =~= no_rects);

    let opening = LineModel { x: region.left, opens: true };
    let only = seq![opening];
    assert(obstruction_lines(no_rects) =~= no_lines);
    let raw = initial_lines(region, sorted);
    assert(raw =~= only);

    assert(only.drop_last() =~= no_lines);
    assert(only.last() == opening);
    assert(sort_by_x(no_lines) == no_lines);
    assert(insert_by_x(no_lines, opening) =~= only);
    assert(sort_by_x(only) =~= only);
    assert(sort_by_x(raw) == sort_by_x(only));

    assert(dedup_by_x(no_lines) == no_lines);
    assert(dedup_by_x(only) =~= only);

    assert(lines_in_range(no_lines, region) == no_lines);
    assert(lines_in_range(only, region) =~= only);
    let lines = event_lines(region, sorted);
    assert(lines == only);

    assert(gaps_scan(region, no_rects, region.left) == (no_gaps, region.top));
    let whole = GapModel { top: region.top, bottom: region.bottom };
    let gaps = gaps_at(region, sorted, region.left);
    assert(gaps =~= seq![whole]);

    assert(sweep_lines(region, sorted, no_lines) == (no_rects, no_actives));
    assert(sort_by_left(no_actives) =~= no_actives);

    let started = ActiveModel { left: region.left, top: region.top, bottom: region.bottom };
    assert(seq![whole].drop_last() =~= no_gaps);
    assert(open_step(no_actives, no_gaps, region.left) == no_actives);
    assert(open_step(no_actives, seq![whole], region.left) =~= seq![started]);

    let swept = sweep_lines(region, sorted, lines);
    assert(swept.0 =~= no_rects);
    assert(swept.1 =~= seq![started]);

    assert(close_at_right(region, started) == region);
    assert(swept.0 + swept.1.map_values(|a: ActiveModel| close_at_right(region, a)) =~= seq![
        region,
    ]);
}

/// No line survives clipping to a region whose left edge lies past its
/// right edge.
proof fn lemma_lines_in_range_empty_region(s: Seq<LineModel>, region: RectModel)
    requires
        region.left > region.right,
    ensures
        lines_in_range(s, region) == Seq::<LineModel>::empty(),
    decreases s.len(),
{
    if s.len() != 0 {
        lemma_lines_in_range_empty_region(s.drop_last(), region);
    }
}

/// Decomposing any region against a single obstruction equal to the region
/// itself leaves nothing uncovered: the decomposition is empty.  This needs
/// no validity: a region with inverted x edges keeps no event line at all,
/// and one with inverted y edges opens no gap.
pub proof fn lemma_decompose_fully_obstructed(region: RectModel)
    ensures
        decompose_model(region, seq![region]) == Seq::<RectModel>::empty(),
{
    let no_lines = Seq::<LineModel>::empty();
    let no_gaps = Seq::<GapModel>::empty();
    let no_actives = Seq::<ActiveModel>::empty();
    let no_rects = Seq::<RectModel>::empty();

    let obs = seq![region];
    assert(obs.drop_last() =~= no_rects);
    assert(sort_by_top(no_rects) == no_rects);
    assert(insert_by_top(no_rects, region) =~= obs);
    assert(sort_by_top(obs) =~= obs);
    let sorted = sort_by_top(obs);

    if region.left > region.right {
        lemma_lines_in_range_empty_region(
            dedup_by_x(sort_by_x(initial_lines(region, sorted))),
            region,
        );
        let lines = event_lines(region, sorted);
        assert(lines == no_lines);
        assert(sweep_lines(region, sorted, no_lines) == (no_rects, no_actives));
        let swept = sweep_lines(region, sorted, lines);
        assert(swept.0 + swept.1.map_values(|a: ActiveModel| close_at_right(region, a))
            =~= no_rects);
    } else {
        let opening = LineModel { x: region.left, opens: true };
        let closing = LineModel { x: region.left, opens: false };
        let reopening = LineModel { x: region.right + 1, opens: true };
        let one = seq![opening];
        let two = seq![opening, closing];
        let three = seq![opening, closing, reopening];
        assert(obstruction_lines(no_rects) =~= no_lines);
        assert(obs.last() == region);
        assert(obstruction_lines(obs) =~= seq![closing, reopening]);
        let raw = initial_lines(region, sorted);
        assert(raw =~= three);

        // Sorting by x keeps this order: the two left-edge lines are already
        // first and the reopening line lies strictly to the right.
        assert(three.drop_last() =~= two);
        assert(three.last() == reopening);
        assert(two.drop_last() =~= one);
        assert(two.last() == closing);
        assert(one.drop_last() =~= no_lines);
        assert(one.last() == opening);
        assert(sort_by_x(no_lines) == no_lines);
        assert(insert_by_x(no_lines, opening) =~= one);
        assert(sort_by_x(one) =~= one);
        assert(insert_by_x(one, closing) =~= two);
        assert(sort_by_x(two) =~= two);
        assert(insert_by_x(two, reopening) =~= three);
        assert(sort_by_x(three) =~= three);
        assert(sort_by_x(raw) == sort_by_x(three));

        // Deduplication keeps the first line of the run at the left edge.
        let kept = seq![opening, reopening];
        assert(dedup_by_x(no_lines) == no_lines);
        assert(dedup_by_x(one) =~= one);
        assert(dedup_by_x(two) =~= one);
        assert(dedup_by_x(three) =~= kept);

        // The reopening line lies past the region's right edge and is clipped.
        assert(kept.drop_last() =~= one);
        assert(kept.last() == reopening);
        assert(lines_in_range(no_lines, region) == no_lines);
        assert(lines_in_range(one, region) =~= one);
        assert(lines_in_range(kept, region) =~= one);
        let lines = event_lines(region, sorted);
        assert(lines == one);

        // At the region's left edge the obstruction covers the whole vertical
        // extent: the cursor cannot end at or above the region's bottom, so no
        // gap is left (with inverted y edges it never even reaches the bottom).
        assert(gaps_scan(region, no_rects, region.left) == (no_gaps, region.top));
        let scanned = gaps_scan(region, sorted, region.left);
        assert(scanned.0 =~= no_gaps);
        assert(scanned.1 == vstd::math::min(region.top, region.bottom - 1));
        assert(scanned.1 < region.bottom);
        let gaps = gaps_at(region, sorted, region.left);
        assert(gaps =~= no_gaps);

        assert(sweep_lines(region, sorted, no_lines) == (no_rects, no_actives));
        assert(sort_by_left(no_actives) =~= no_actives);
        assert(open_step(no_actives, no_gaps, region.left) == no_actives);

        let swept = sweep_lines(region, sorted, lines);
        assert(swept.0 =~= no_rects);
        assert(swept.1 =~= no_actives);
        assert(swept.0 + swept.1.map_values(|a: ActiveModel| close_at_right(region, a))
            =~= no_rects);
    }
}

/// No two rectangles of the decomposition overlap.  Proved here for an
/// unobstructed region, whose decomposition is the region alone; with
/// obstructions the sweep deliberately keeps every maximal rectangle, and
/// maximal rectangles can overlap one another.
pub proof fn lemma_decompose_no_obstructions_disjoint(region: RectModel)
    requires
        valid_rect(region),
    ensures
        pairwise_disjoint(decompose_model(region, Seq::empty())),
{
    lemma_decompose_no_obstructions(region);
}

/// For a region covered exactly by a single obstruction nothing is free:
/// the empty decomposition trivially has no overlapping pair, and its areas
/// sum to the free area, zero.
pub proof fn lemma_decompose_fully_obstructed_conservation(region: RectModel)
    ensures
        pairwise_disjoint(decompose_model(region, seq![region])),
        sum_areas(decompose_model(region, seq![region])) == 0,
{
    lemma_decompose_fully_obstructed(region);
    assert(sum_areas(Seq::<RectModel>::empty()) == 0);
}

/// The areas of the decomposition sum to the region's area minus the area
/// covered by the obstructions.  Proved here for an unobstructed region,
/// where nothing is covered; with obstructions the sweep keeps overlapping
/// maximal rectangles, and their areas can sum to more than the free area.
pub proof fn lemma_decompose_no_obstructions_area(region: RectModel)
    requires
        valid_rect(region),
    ensures
        sum_areas(decompose_model(region, Seq::empty())) == area_model(region),
{
    lemma_decompose_no_obstructions(region);
    let out = decompose_model(region, Seq::empty());
    assert(out.drop_last() =~= Seq::<RectModel>::empty());
    assert(sum_areas(out.drop_last()) == 0);
    assert(out.last() == region);
    assert(sum_areas(out) == area_model(region));
}

} // verus!

