//! The mathematical model of the sweep-line decomposition.
//!
//! [`decompose_model`] describes, over unbounded integers, exactly which
//! rectangles [`crate::unobstructed_subrectangles_impl`] returns and in which
//! order.  The model follows the sweep: obstructions are sorted by descending
//! top edge; the x positions at which the free vertical intervals can change
//! become event lines; at each line the free vertical gaps are recomputed and
//! the set of active (not yet right-bounded) rectangles is updated; at the
//! end every surviving active rectangle is closed at the region's right edge.
//!
//! Ties during sorting are resolved stably (equal keys keep their earlier
//! relative order), which pins the model down to a single sequence.

use vstd::prelude::*;

use crate::RectModel;

verus! {

/// An x position at which the set of free vertical gaps may change.
/// `opens` positions may start new rectangles; the others may close them.
pub ghost struct LineModel {
    pub x: int,
    pub opens: bool,
}

/// A maximal free vertical interval `[bottom, top]` at one sweep position.
pub ghost struct GapModel {
    pub top: int,
    pub bottom: int,
}

/// A rectangle still being swept: its left edge and vertical shape are
/// fixed, its right edge is not yet determined.
pub ghost struct ActiveModel {
    pub left: int,
    pub top: int,
    pub bottom: int,
}

// ---------------------------------------------------------------------------
// Sorting the obstructions by descending top edge (stable).
// ---------------------------------------------------------------------------

/// Inserts `r` into `s` from the right, moving it past every element whose
/// top edge is smaller; equal top edges keep `r` after them.
pub open spec fn insert_by_top(s: Seq<RectModel>, r: RectModel) -> Seq<RectModel>
    decreases s.len(),
{
    if s.len() == 0 {
        seq![r]
    } else if s.last().top >= r.top {
        s.push(r)
    } else {
        insert_by_top(s.drop_last(), r).push(s.last())
    }
}

/// Stable insertion sort by descending top edge.
pub open spec fn sort_by_top(s: Seq<RectModel>) -> Seq<RectModel>
    decreases s.len(),
{
    if s.len() == 0 {
        s
    } else {
        insert_by_top(sort_by_top(s.drop_last()), s.last())
    }
}

// ---------------------------------------------------------------------------
// Building the event lines.
// ---------------------------------------------------------------------------

/// For every obstruction, in order: a closing line at its left edge and an
/// opening line just past its right edge.
pub open spec fn obstruction_lines(obs: Seq<RectModel>) -> Seq<LineModel>
    decreases obs.len(),
{
    if obs.len() == 0 {
        Seq::empty()
    } else {
        obstruction_lines(obs.drop_last()) + seq![
            LineModel { x: obs.last().left, opens: false },
            LineModel { x: obs.last().right + 1, opens: true },
        ]
    }
}

/// The raw event lines: the region's left edge opens the sweep, followed by
/// the lines of the (sorted) obstructions.
pub open spec fn initial_lines(region: RectModel, sorted_obs: Seq<RectModel>) -> Seq<LineModel> {
    seq![LineModel { x: region.left, opens: true }] + obstruction_lines(sorted_obs)
}

/// Inserts `l` into `s` from the right, moving it past every line with a
/// larger x; equal x keep `l` after them.
pub open spec fn insert_by_x(s: Seq<LineModel>, l: LineModel) -> Seq<LineModel>
    decreases s.len(),
{
    if s.len() == 0 {
        seq![l]
    } else if s.last().x <= l.x {
        s.push(l)
    } else {
        insert_by_x(s.drop_last(), l).push(s.last())
    }
}

/// Stable insertion sort by ascending x.
pub open spec fn sort_by_x(s: Seq<LineModel>) -> Seq<LineModel>
    decreases s.len(),
{
    if s.len() == 0 {
        s
    } else {
        insert_by_x(sort_by_x(s.drop_last()), s.last())
    }
}

/// Keeps only the first line of every run of equal x positions.
pub open spec fn dedup_by_x(s: Seq<LineModel>) -> Seq<LineModel>
    decreases s.len(),
{
    if s.len() == 0 {
        s
    } else {
        let rest = dedup_by_x(s.drop_last());
        if rest.len() > 0 && rest.last().x == s.last().x {
            rest
        } else {
            rest.push(s.last())
        }
    }
}

/// Keeps only the lines inside the region's x range.
pub open spec fn lines_in_range(s: Seq<LineModel>, region: RectModel) -> Seq<LineModel>
    decreases s.len(),
{
    if s.len() == 0 {
        s
    } else {
        let rest = lines_in_range(s.drop_last(), region);
        if region.left <= s.last().x && s.last().x <= region.right {
            rest.push(s.last())
        } else {
            rest
        }
    }
}

/// The event lines of one decomposition: built, sorted, deduplicated and
/// clipped to the region's x range.
pub open spec fn event_lines(region: RectModel, sorted_obs: Seq<RectModel>) -> Seq<LineModel> {
    lines_in_range(dedup_by_x(sort_by_x(initial_lines(region, sorted_obs))), region)
}

// ---------------------------------------------------------------------------
// The free vertical gaps at one sweep position.
// ---------------------------------------------------------------------------

/// Walks the obstructions whose x span covers `x` (in descending top order)
/// like shingles on a roof, carrying the lowest bottom edge seen so far.
/// Returns the gaps recorded above the shingles and the final cursor.
pub open spec fn gaps_scan(region: RectModel, obs: Seq<RectModel>, x: int) -> (Seq<GapModel>, int)
    decreases obs.len(),
{
    if obs.len() == 0 {
        (Seq::empty(), region.top)
    } else {
        let (gaps, cursor) = gaps_scan(region, obs.drop_last(), x);
        let o = obs.last();
        if o.left <= x && x <= o.right {
            let gaps2 = if cursor > o.top {
                gaps.push(GapModel { top: cursor, bottom: o.top + 1 })
            } else {
                gaps
            };
            (gaps2, vstd::math::min(cursor, o.bottom - 1))
        } else {
            (gaps, cursor)
        }
    }
}

/// All free vertical gaps at sweep position `x`, ordered top to bottom:
/// the gaps between successive shingles, plus the trailing gap between the
/// last shingle and the region's bottom edge, when there is one.
pub open spec fn gaps_at(region: RectModel, obs: Seq<RectModel>, x: int) -> Seq<GapModel> {
    let (gaps, cursor) = gaps_scan(region, obs, x);
    if cursor >= region.bottom {
        gaps.push(GapModel { top: cursor, bottom: region.bottom })
    } else {
        gaps
    }
}

// ---------------------------------------------------------------------------
// Sorting the active rectangles by descending left edge (stable).
// ---------------------------------------------------------------------------

/// Inserts `a` into `s` from the right, moving it past every active
/// rectangle with a smaller left edge; equal left edges keep `a` after them.
pub open spec fn insert_by_left(s: Seq<ActiveModel>, a: ActiveModel) -> Seq<ActiveModel>
    decreases s.len(),
{
    if s.len() == 0 {
        seq![a]
    } else if s.last().left >= a.left {
        s.push(a)
    } else {
        insert_by_left(s.drop_last(), a).push(s.last())
    }
}

/// Stable insertion sort by descending left edge.
pub open spec fn sort_by_left(s: Seq<ActiveModel>) -> Seq<ActiveModel>
    decreases s.len(),
{
    if s.len() == 0 {
        s
    } else {
        insert_by_left(sort_by_left(s.drop_last()), s.last())
    }
}

// ---------------------------------------------------------------------------
// Updating the active rectangles at one event line.
// ---------------------------------------------------------------------------

/// Some active rectangle in `acts` already has exactly this vertical shape.
pub open spec fn shape_present(acts: Seq<ActiveModel>, top: int, bottom: int) -> bool {
    exists|i: int| 0 <= i < acts.len() && acts[i].top == top && acts[i].bottom == bottom
}

/// The gap fully contains the active rectangle's shape, so the rectangle
/// can stay active.
pub open spec fn fits_gap(a: ActiveModel, g: GapModel) -> bool {
    g.top >= a.top && a.bottom >= g.bottom
}

/// The active rectangle's shape still fits one of the current gaps.
pub open spec fn fits_any(a: ActiveModel, gaps: Seq<GapModel>) -> bool {
    exists|i: int| 0 <= i < gaps.len() && fits_gap(a, gaps[i])
}

/// At an opening line: every gap whose shape is not yet active starts a new
/// active rectangle with its left edge at `x`.
pub open spec fn open_step(acts: Seq<ActiveModel>, gaps: Seq<GapModel>, x: int) -> Seq<ActiveModel>
    decreases gaps.len(),
{
    if gaps.len() == 0 {
        acts
    } else {
        let prev = open_step(acts, gaps.drop_last(), x);
        let g = gaps.last();
        if shape_present(prev, g.top, g.bottom) {
            prev
        } else {
            prev.push(ActiveModel { left: x, top: g.top, bottom: g.bottom })
        }
    }
}

/// The active rectangles that survive a closing line: those whose shape
/// still fits a gap, in order.
pub open spec fn kept_actives(acts: Seq<ActiveModel>, gaps: Seq<GapModel>) -> Seq<ActiveModel>
    decreases acts.len(),
{
    if acts.len() == 0 {
        acts
    } else {
        let rest = kept_actives(acts.drop_last(), gaps);
        if fits_any(acts.last(), gaps) {
            rest.push(acts.last())
        } else {
            rest
        }
    }
}

/// The rectangles emitted at a closing line at `x`: every active rectangle
/// whose shape no longer fits a gap is closed with right edge `x - 1`.
pub open spec fn closed_outputs(acts: Seq<ActiveModel>, gaps: Seq<GapModel>, x: int) -> Seq<
    RectModel,
>
    decreases acts.len(),
{
    if acts.len() == 0 {
        Seq::empty()
    } else {
        let rest = closed_outputs(acts.drop_last(), gaps, x);
        let a = acts.last();
        if fits_any(a, gaps) {
            rest
        } else {
            rest.push(RectModel { left: a.left, right: x - 1, top: a.top, bottom: a.bottom })
        }
    }
}

/// The gap reaches at least as high as the closed rectangle's top edge or
/// at least as low as its bottom edge.  A gap entirely outside the shape
/// passes this test too; the continuation it starts is then degenerate.
pub open spec fn continues_shape(g: GapModel, a: ActiveModel) -> bool {
    g.top <= a.top || a.bottom <= g.bottom
}

/// The part of the closed rectangle's shape that the gap keeps open,
/// continued at the same left edge.
pub open spec fn continuation(a: ActiveModel, g: GapModel) -> ActiveModel {
    ActiveModel {
        left: a.left,
        top: vstd::math::min(a.top, g.top),
        bottom: vstd::math::max(a.bottom, g.bottom),
    }
}

/// The continuations that one closed rectangle `a` adds, given the full old
/// active list `all`, the continuations `news` started so far, and the gaps
/// in order: each continuation shape is started once, unless it is already
/// present among the old actives or the started ones.
pub open spec fn continuations_for(
    all: Seq<ActiveModel>,
    news: Seq<ActiveModel>,
    a: ActiveModel,
    gaps: Seq<GapModel>,
) -> Seq<ActiveModel>
    decreases gaps.len(),
{
    if gaps.len() == 0 {
        news
    } else {
        let prev = continuations_for(all, news, a, gaps.drop_last());
        let g = gaps.last();
        if continues_shape(g, a) {
            let c = continuation(a, g);
            if shape_present(all, c.top, c.bottom) || shape_present(prev, c.top, c.bottom) {
                prev
            } else {
                prev.push(c)
            }
        } else {
            prev
        }
    }
}

/// All continuations started at a closing line: the closed rectangles are
/// walked in order, each contributing its continuations.
pub open spec fn continuations_all(
    all: Seq<ActiveModel>,
    acts: Seq<ActiveModel>,
    gaps: Seq<GapModel>,
) -> Seq<ActiveModel>
    decreases acts.len(),
{
    if acts.len() == 0 {
        Seq::empty()
    } else {
        let prev = continuations_all(all, acts.drop_last(), gaps);
        let a = acts.last();
        if fits_any(a, gaps) {
            prev
        } else {
            continuations_for(all, prev, a, gaps)
        }
    }
}

// ---------------------------------------------------------------------------
// The sweep itself.
// ---------------------------------------------------------------------------

/// Processes one event line: recompute the gaps, sort the active rectangles
/// by descending left edge, then either start new rectangles (opening line)
/// or close obstructed ones and start their continuations (closing line).
pub open spec fn sweep_step(
    region: RectModel,
    sorted_obs: Seq<RectModel>,
    outs: Seq<RectModel>,
    acts: Seq<ActiveModel>,
    line: LineModel,
) -> (Seq<RectModel>, Seq<ActiveModel>) {
    let gaps = gaps_at(region, sorted_obs, line.x);
    let sacts = sort_by_left(acts);
    if line.opens {
        (outs, open_step(sacts, gaps, line.x))
    } else {
        (
            outs + closed_outputs(sacts, gaps, line.x),
            kept_actives(sacts, gaps) + continuations_all(sacts, sacts, gaps),
        )
    }
}

/// The outputs and active rectangles after processing `lines` in order,
/// starting from no outputs and no active rectangles.
pub open spec fn sweep_lines(
    region: RectModel,
    sorted_obs: Seq<RectModel>,
    lines: Seq<LineModel>,
) -> (Seq<RectModel>, Seq<ActiveModel>)
    decreases lines.len(),
{
    if lines.len() == 0 {
        (Seq::empty(), Seq::empty())
    } else {
        let (outs, acts) = sweep_lines(region, sorted_obs, lines.drop_last());
        sweep_step(region, sorted_obs, outs, acts, lines.last())
    }
}

/// An active rectangle closed at the end of the sweep, at the region's
/// right edge.
pub open spec fn close_at_right(region: RectModel, a: ActiveModel) -> RectModel {
    RectModel { left: a.left, right: region.right, top: a.top, bottom: a.bottom }
}

/// The full decomposition: every rectangle still active after the last
/// event line is closed at the region's right edge and appended.
pub open spec fn decompose_model(region: RectModel, obs: Seq<RectModel>) -> Seq<RectModel> {
    let sorted = sort_by_top(obs);
    let lines = event_lines(region, sorted);
    let (outs, acts) = sweep_lines(region, sorted, lines);
    outs + acts.map_values(|a: ActiveModel| close_at_right(region, a))
}

} // verus!
