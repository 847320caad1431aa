//! The executable sweep-line decomposition, verified against
//! [`crate::sweep_model::decompose_model`].

use vstd::prelude::*;

use crate::Rectangle;
use crate::RectModel;
use crate::sweep_model::ActiveModel;
use crate::sweep_model::GapModel;
use crate::sweep_model::LineModel;
use crate::sweep_model::insert_by_left;
use crate::sweep_model::insert_by_top;
use crate::sweep_model::insert_by_x;
use crate::sweep_model::sort_by_left;
use crate::sweep_model::sort_by_top;
use crate::sweep_model::sort_by_x;

verus! {

/// A sweep position that has to be checked for gaps.
#[derive(Clone, Copy)]
struct SweepLine {
    x: i32,
    opens: bool,
}

/// A free vertical interval between two obstructions.
#[derive(Clone, Copy)]
struct FreeGap {
    top: i32,
    bottom: i32,
}

/// A rectangle that has not been obstructed yet.
#[derive(Clone, Copy)]
struct UnfinishedRect {
    left: i32,
    top: i32,
    bottom: i32,
}

/// The models of a sequence of borrowed rectangles.
pub open spec fn obs_models<O: View<V = RectModel>>(s: Seq<&O>) -> Seq<RectModel> {
    s.map_values(|o: &O| o@)
}

/// The models of a sequence of owned rectangles.
pub open spec fn rect_models<P: View<V = RectModel>>(s: Seq<P>) -> Seq<RectModel> {
    s.map_values(|p: P| p@)
}

spec fn line_model(l: SweepLine) -> LineModel {
    LineModel { x: l.x as int, opens: l.opens }
}

spec fn line_models(s: Seq<SweepLine>) -> Seq<LineModel> {
    s.map_values(|l: SweepLine| line_model(l))
}

spec fn gap_model(g: FreeGap) -> GapModel {
    GapModel { top: g.top as int, bottom: g.bottom as int }
}

spec fn gap_models(s: Seq<FreeGap>) -> Seq<GapModel> {
    s.map_values(|g: FreeGap| gap_model(g))
}

spec fn active_model(a: UnfinishedRect) -> ActiveModel {
    ActiveModel { left: a.left as int, top: a.top as int, bottom: a.bottom as int }
}

spec fn active_models(s: Seq<UnfinishedRect>) -> Seq<ActiveModel> {
    s.map_values(|a: UnfinishedRect| active_model(a))
}

/// The machine limits the sweep needs of one obstruction: room in `i32`
/// for `right + 1`, `top + 1` and `bottom - 1`.
pub open spec fn rect_in_range(m: RectModel) -> bool {
    m.right < i32::MAX && m.top < i32::MAX && m.bottom > i32::MIN
}

/// The machine limits the sweep needs of its obstructions.
pub open spec fn obstructions_in_range(obs: Seq<RectModel>) -> bool {
    forall|i: int| 0 <= i < obs.len() ==> rect_in_range(#[trigger] obs[i])
}

/// Stable insertion keeps every element within the machine limits.
proof fn lemma_insert_by_top_in_range(s: Seq<RectModel>, r: RectModel)
    requires
        obstructions_in_range(s),
        rect_in_range(r),
    ensures
        obstructions_in_range(insert_by_top(s, r)),
    decreases s.len(),
{
    if s.len() == 0 {
    } else if s.last().top >= r.top {
    } else {
        assert(obstructions_in_range(s.drop_last()));
        lemma_insert_by_top_in_range(s.drop_last(), r);
    }
}

/// Sorting keeps every obstruction within the machine limits.
proof fn lemma_sort_by_top_in_range(s: Seq<RectModel>)
    requires
        obstructions_in_range(s),
    ensures
        obstructions_in_range(sort_by_top(s)),
    decreases s.len(),
{
    if s.len() != 0 {
        assert(obstructions_in_range(s.drop_last()));
        lemma_sort_by_top_in_range(s.drop_last());
        lemma_insert_by_top_in_range(sort_by_top(s.drop_last()), s.last());
    }
}

// ---------------------------------------------------------------------------
// Where a stable insertion lands.
// ---------------------------------------------------------------------------

/// Inserting from the right by descending top edge lands exactly at the
/// first position (from the right) whose element's top edge is not smaller.
proof fn lemma_insert_by_top_at(s: Seq<RectModel>, r: RectModel, k: int)
    requires
        0 <= k <= s.len(),
        forall|j: int| k <= j < s.len() ==> (#[trigger] s[j]).top < r.top,
        k > 0 ==> s[k - 1].top >= r.top,
    ensures
        insert_by_top(s, r) == s.insert(k, r),
    decreases s.len(),
{
    if s.len() == 0 {
        assert(insert_by_top(s, r) =~= s.insert(0, r));
    } else if s.last().top >= r.top {
        assert(k == s.len());
        assert(insert_by_top(s, r) =~= s.insert(k, r));
    } else {
        assert(k < s.len());
        lemma_insert_by_top_at(s.drop_last(), r, k);
        assert(insert_by_top(s, r) =~= s.insert(k, r));
    }
}

/// The matching fact for the event lines, sorted by ascending x.
proof fn lemma_insert_by_x_at(s: Seq<LineModel>, l: LineModel, k: int)
    requires
        0 <= k <= s.len(),
        forall|j: int| k <= j < s.len() ==> (#[trigger] s[j]).x > l.x,
        k > 0 ==> s[k - 1].x <= l.x,
    ensures
        insert_by_x(s, l) == s.insert(k, l),
    decreases s.len(),
{
    if s.len() == 0 {
        assert(insert_by_x(s, l) =~= s.insert(0, l));
    } else if s.last().x <= l.x {
        assert(k == s.len());
        assert(insert_by_x(s, l) =~= s.insert(k, l));
    } else {
        assert(k < s.len());
        lemma_insert_by_x_at(s.drop_last(), l, k);
        assert(insert_by_x(s, l) =~= s.insert(k, l));
    }
}

/// The matching fact for the active rectangles, sorted by descending left
/// edge.
proof fn lemma_insert_by_left_at(s: Seq<ActiveModel>, a: ActiveModel, k: int)
    requires
        0 <= k <= s.len(),
        forall|j: int| k <= j < s.len() ==> (#[trigger] s[j]).left < a.left,
        k > 0 ==> s[k - 1].left >= a.left,
    ensures
        insert_by_left(s, a) == s.insert(k, a),
    decreases s.len(),
{
    if s.len() == 0 {
        assert(insert_by_left(s, a) =~= s.insert(0, a));
    } else if s.last().left >= a.left {
        assert(k == s.len());
        assert(insert_by_left(s, a) =~= s.insert(k, a));
    } else {
        assert(k < s.len());
        lemma_insert_by_left_at(s.drop_last(), a, k);
        assert(insert_by_left(s, a) =~= s.insert(k, a));
    }
}

// ---------------------------------------------------------------------------
// Sorting the obstructions.
// ---------------------------------------------------------------------------

/// Stable insertion sort of the obstructions by descending top edge.
fn sort_obstructions<'a, O: Rectangle>(obstructions: &[&'a O]) -> (sorted: Vec<&'a O>)
    ensures
        obs_models(sorted@) == sort_by_top(obs_models(obstructions@)),
{
    let mut sorted: Vec<&'a O> = Vec::new();
    let mut i: usize = 0;
    while i < obstructions.len()
        invariant
            i <= obstructions@.len(),
            obs_models(sorted@) == sort_by_top(obs_models(obstructions@).take(i as int)),
        decreases obstructions@.len() - i,
    {
        let cur = obstructions[i];
        let ghost pre = obs_models(sorted@);
        let mut k: usize = sorted.len();
        loop
            invariant_except_break
                k <= sorted@.len(),
                pre == obs_models(sorted@),
                forall|j: int| k <= j < pre.len() ==> (#[trigger] pre[j]).top < cur@.top,
            ensures
                0 <= k <= pre.len(),
                forall|j: int| k <= j < pre.len() ==> (#[trigger] pre[j]).top < cur@.top,
                k > 0 ==> pre[k - 1].top >= cur@.top,
            decreases k,
        {
            if k == 0 {
                break;
            }
            if sorted[k - 1].top() >= cur.top() {
                break;
            }
            k = k - 1;
        }
        proof {
            lemma_insert_by_top_at(pre, cur@, k as int);
        }
        sorted.insert(k, cur);
        proof {
            assert(obs_models(sorted@) =~= pre.insert(k as int, cur@));
            assert(obs_models(obstructions@).take(i + 1).drop_last() =~= obs_models(
                obstructions@,
            ).take(i as int));
            assert(obs_models(obstructions@).take(i + 1).last() == cur@);
        }
        i = i + 1;
    }
    proof {
        assert(obs_models(obstructions@).take(obstructions@.len() as int) =~= obs_models(
            obstructions@,
        ));
    }
    sorted
}

// ---------------------------------------------------------------------------
// Building the event lines.
// ---------------------------------------------------------------------------

/// Collects the raw event lines: the region's left edge opens the sweep;
/// each obstruction closes gaps at its left edge and may open them again
/// just past its right edge.
fn collect_lines<P: Rectangle, O: Rectangle>(parent: &P, sorted_obs: &Vec<&O>) -> (lines: Vec<
    SweepLine,
>)
    requires
        obstructions_in_range(obs_models(sorted_obs@)),
    ensures
        line_models(lines@) == crate::sweep_model::initial_lines(
            parent@,
            obs_models(sorted_obs@),
        ),
{
    let mut lines: Vec<SweepLine> = Vec::new();
    lines.push(SweepLine { x: parent.left(), opens: true });
    let ghost first = seq![LineModel { x: parent@.left, opens: true }];
    assert(line_models(lines@) =~= first + crate::sweep_model::obstruction_lines(
        obs_models(sorted_obs@).take(0),
    ));
    let mut i: usize = 0;
    while i < sorted_obs.len()
        invariant
            i <= sorted_obs@.len(),
            obstructions_in_range(obs_models(sorted_obs@)),
            first == seq![LineModel { x: parent@.left, opens: true }],
            line_models(lines@) == first + crate::sweep_model::obstruction_lines(
                obs_models(sorted_obs@).take(i as int),
            ),
        decreases sorted_obs@.len() - i,
    {
        let rect = sorted_obs[i];
        assert(obs_models(sorted_obs@)[i as int] == rect@);
        let ghost lines0 = lines@;
        lines.push(SweepLine { x: rect.left(), opens: false });
        lines.push(SweepLine { x: rect.right() + 1, opens: true });
        proof {
            let prefix = obs_models(sorted_obs@).take(i as int);
            let step = obs_models(sorted_obs@).take(i + 1);
            assert(step.drop_last() =~= prefix);
            assert(step.last() == rect@);
            let close_open = seq![
                LineModel { x: rect@.left, opens: false },
                LineModel { x: rect@.right + 1, opens: true },
            ];
            assert(crate::sweep_model::obstruction_lines(step)
                == crate::sweep_model::obstruction_lines(prefix) + close_open);
            assert(line_models(lines0) == first + crate::sweep_model::obstruction_lines(prefix));
            assert(line_models(lines@) =~= line_models(lines0) + close_open);
            assert((first + crate::sweep_model::obstruction_lines(prefix)) + close_open =~= first
                + (crate::sweep_model::obstruction_lines(prefix) + close_open));
        }
        i = i + 1;
    }
    proof {
        assert(obs_models(sorted_obs@).take(sorted_obs@.len() as int) =~= obs_models(sorted_obs@));
    }
    lines
}

/// Stable insertion sort of the event lines by ascending x.
fn sort_lines(lines: Vec<SweepLine>) -> (sorted: Vec<SweepLine>)
    ensures
        line_models(sorted@) == sort_by_x(line_models(lines@)),
{
    let mut sorted: Vec<SweepLine> = Vec::new();
    let mut i: usize = 0;
    while i < lines.len()
        invariant
            i <= lines@.len(),
            line_models(sorted@) == sort_by_x(line_models(lines@).take(i as int)),
        decreases lines@.len() - i,
    {
        let cur = lines[i];
        let ghost pre = line_models(sorted@);
        let mut k: usize = sorted.len();
        loop
            invariant_except_break
                k <= sorted@.len(),
                pre == line_models(sorted@),
                cur == lines@[i as int],
                forall|j: int| k <= j < pre.len() ==> (#[trigger] pre[j]).x > cur.x as int,
            ensures
                0 <= k <= pre.len(),
                forall|j: int| k <= j < pre.len() ==> (#[trigger] pre[j]).x > cur.x as int,
                k > 0 ==> pre[k - 1].x <= cur.x as int,
            decreases k,
        {
            if k == 0 {
                break;
            }
            if sorted[k - 1].x <= cur.x {
                break;
            }
            k = k - 1;
        }
        proof {
            lemma_insert_by_x_at(pre, line_model(cur), k as int);
        }
        sorted.insert(k, cur);
        proof {
            assert(line_models(sorted@) =~= pre.insert(k as int, line_model(cur)));
            assert(line_models(lines@).take(i + 1).drop_last() =~= line_models(lines@).take(
                i as int,
            ));
            assert(line_models(lines@).take(i + 1).last() == line_model(cur));
        }
        i = i + 1;
    }
    proof {
        assert(line_models(lines@).take(lines@.len() as int) =~= line_models(lines@));
    }
    sorted
}

/// Keeps the first line of every run of equal x positions.
fn dedup_lines(lines: &Vec<SweepLine>) -> (deduped: Vec<SweepLine>)
    ensures
        line_models(deduped@) == crate::sweep_model::dedup_by_x(line_models(lines@)),
{
    let mut deduped: Vec<SweepLine> = Vec::new();
    let mut i: usize = 0;
    while i < lines.len()
        invariant
            i <= lines@.len(),
            line_models(deduped@) == crate::sweep_model::dedup_by_x(
                line_models(lines@).take(i as int),
            ),
        decreases lines@.len() - i,
    {
        let cur = lines[i];
        let keep = if deduped.len() > 0 {
            deduped[deduped.len() - 1].x != cur.x
        } else {
            true
        };
        proof {
            assert(line_models(lines@).take(i + 1).drop_last() =~= line_models(lines@).take(
                i as int,
            ));
            assert(line_models(lines@).take(i + 1).last() == line_model(cur));
        }
        if keep {
            deduped.push(cur);
            assert(line_models(deduped@) =~= crate::sweep_model::dedup_by_x(
                line_models(lines@).take(i as int),
            ).push(line_model(cur)));
        }
        i = i + 1;
    }
    proof {
        assert(line_models(lines@).take(lines@.len() as int) =~= line_models(lines@));
    }
    deduped
}

/// Keeps only the lines inside the region's x range.
fn clip_lines<P: Rectangle>(lines: &Vec<SweepLine>, parent: &P) -> (clipped: Vec<SweepLine>)
    ensures
        line_models(clipped@) == crate::sweep_model::lines_in_range(
            line_models(lines@),
            parent@,
        ),
        forall|j: int|
            0 <= j < clipped@.len() ==> parent@.left <= (#[trigger] clipped@[j]).x as int
                <= parent@.right,
{
    let mut clipped: Vec<SweepLine> = Vec::new();
    let mut i: usize = 0;
    while i < lines.len()
        invariant
            i <= lines@.len(),
            line_models(clipped@) == crate::sweep_model::lines_in_range(
                line_models(lines@).take(i as int),
                parent@,
            ),
            forall|j: int|
                0 <= j < clipped@.len() ==> parent@.left <= (#[trigger] clipped@[j]).x
                    as int <= parent@.right,
        decreases lines@.len() - i,
    {
        let cur = lines[i];
        proof {
            assert(line_models(lines@).take(i + 1).drop_last() =~= line_models(lines@).take(
                i as int,
            ));
            assert(line_models(lines@).take(i + 1).last() == line_model(cur));
        }
        if parent.left() <= cur.x && cur.x <= parent.right() {
            clipped.push(cur);
            assert(line_models(clipped@) =~= crate::sweep_model::lines_in_range(
                line_models(lines@).take(i as int),
                parent@,
            ).push(line_model(cur)));
        }
        i = i + 1;
    }
    proof {
        assert(line_models(lines@).take(lines@.len() as int) =~= line_models(lines@));
    }
    clipped
}

// ---------------------------------------------------------------------------
// The gaps at one sweep position.
// ---------------------------------------------------------------------------

/// Computes the free vertical gaps at sweep position `x`: walks the
/// obstructions covering `x` like shingles on a roof, recording a gap
/// wherever the lowest bottom edge seen so far lies above the next shingle,
/// and a trailing gap down to the region's bottom edge when one is left.
fn compute_gaps<P: Rectangle, O: Rectangle>(parent: &P, sorted_obs: &Vec<&O>, x: i32) -> (gaps:
    Vec<FreeGap>)
    requires
        obstructions_in_range(obs_models(sorted_obs@)),
    ensures
        gap_models(gaps@) == crate::sweep_model::gaps_at(
            parent@,
            obs_models(sorted_obs@),
            x as int,
        ),
{
    let mut gaps: Vec<FreeGap> = Vec::new();
    let mut cursor: i32 = parent.top();
    let mut i: usize = 0;
    while i < sorted_obs.len()
        invariant
            i <= sorted_obs@.len(),
            obstructions_in_range(obs_models(sorted_obs@)),
            (gap_models(gaps@), cursor as int) == crate::sweep_model::gaps_scan(
                parent@,
                obs_models(sorted_obs@).take(i as int),
                x as int,
            ),
        decreases sorted_obs@.len() - i,
    {
        let o = sorted_obs[i];
        assert(obs_models(sorted_obs@)[i as int] == o@);
        proof {
            let prefix = obs_models(sorted_obs@).take(i as int);
            let step = obs_models(sorted_obs@).take(i + 1);
            assert(step.drop_last() =~= prefix);
            assert(step.last() == o@);
        }
        if o.left() <= x && x <= o.right() {
            if cursor > o.top() {
                let ghost gaps0 = gap_models(gaps@);
                gaps.push(FreeGap { top: cursor, bottom: o.top() + 1 });
                assert(gap_models(gaps@) =~= gaps0.push(
                    GapModel { top: cursor as int, bottom: o@.top + 1 },
                ));
            }
            let ob = o.bottom() - 1;
            if ob < cursor {
                cursor = ob;
            }
        }
        i = i + 1;
    }
    proof {
        assert(obs_models(sorted_obs@).take(sorted_obs@.len() as int) =~= obs_models(sorted_obs@));
    }
    if cursor >= parent.bottom() {
        let ghost gaps0 = gap_models(gaps@);
        gaps.push(FreeGap { top: cursor, bottom: parent.bottom() });
        assert(gap_models(gaps@) =~= gaps0.push(
            GapModel { top: cursor as int, bottom: parent@.bottom },
        ));
    }
    gaps
}

// ---------------------------------------------------------------------------
// The active rectangles.
// ---------------------------------------------------------------------------

/// Stable insertion sort of the active rectangles by descending left edge.
fn sort_actives(acts: Vec<UnfinishedRect>) -> (sorted: Vec<UnfinishedRect>)
    ensures
        active_models(sorted@) == sort_by_left(active_models(acts@)),
{
    let mut sorted: Vec<UnfinishedRect> = Vec::new();
    let mut i: usize = 0;
    while i < acts.len()
        invariant
            i <= acts@.len(),
            active_models(sorted@) == sort_by_left(active_models(acts@).take(i as int)),
        decreases acts@.len() - i,
    {
        let cur = acts[i];
        let ghost pre = active_models(sorted@);
        let mut k: usize = sorted.len();
        loop
            invariant_except_break
                k <= sorted@.len(),
                pre == active_models(sorted@),
                cur == acts@[i as int],
                forall|j: int| k <= j < pre.len() ==> (#[trigger] pre[j]).left < cur.left as int,
            ensures
                0 <= k <= pre.len(),
                forall|j: int| k <= j < pre.len() ==> (#[trigger] pre[j]).left < cur.left as int,
                k > 0 ==> pre[k - 1].left >= cur.left as int,
            decreases k,
        {
            if k == 0 {
                break;
            }
            if sorted[k - 1].left >= cur.left {
                break;
            }
            k = k - 1;
        }
        proof {
            lemma_insert_by_left_at(pre, active_model(cur), k as int);
        }
        sorted.insert(k, cur);
        proof {
            assert(active_models(sorted@) =~= pre.insert(k as int, active_model(cur)));
            assert(active_models(acts@).take(i + 1).drop_last() =~= active_models(acts@).take(
                i as int,
            ));
            assert(active_models(acts@).take(i + 1).last() == active_model(cur));
        }
        i = i + 1;
    }
    proof {
        assert(active_models(acts@).take(acts@.len() as int) =~= active_models(acts@));
    }
    sorted
}

/// Whether some active rectangle already has exactly this vertical shape.
fn shape_in(acts: &Vec<UnfinishedRect>, top: i32, bottom: i32) -> (r: bool)
    ensures
        r == crate::sweep_model::shape_present(active_models(acts@), top as int, bottom as int),
{
    let mut i: usize = 0;
    while i < acts.len()
        invariant
            i <= acts@.len(),
            forall|j: int|
                0 <= j < i ==> !((#[trigger] active_models(acts@)[j]).top == top as int
                    && active_models(acts@)[j].bottom == bottom as int),
        decreases acts@.len() - i,
    {
        if acts[i].top == top && acts[i].bottom == bottom {
            assert(active_models(acts@)[i as int].top == top as int && active_models(
                acts@,
            )[i as int].bottom == bottom as int);
            return true;
        }
        i = i + 1;
    }
    false
}

/// Whether the active rectangle's shape still fits one of the gaps.
fn fits_some(a: UnfinishedRect, gaps: &Vec<FreeGap>) -> (r: bool)
    ensures
        r == crate::sweep_model::fits_any(active_model(a), gap_models(gaps@)),
{
    let mut i: usize = 0;
    while i < gaps.len()
        invariant
            i <= gaps@.len(),
            forall|j: int|
                0 <= j < i ==> !crate::sweep_model::fits_gap(
                    active_model(a),
                    #[trigger] gap_models(gaps@)[j],
                ),
        decreases gaps@.len() - i,
    {
        if gaps[i].top >= a.top && a.bottom >= gaps[i].bottom {
            assert(crate::sweep_model::fits_gap(active_model(a), gap_models(gaps@)[i as int]));
            return true;
        }
        i = i + 1;
    }
    false
}

/// At an opening line: starts a new active rectangle at `x` for every gap
/// whose shape is not active yet.
fn open_new_actives(acts: &mut Vec<UnfinishedRect>, gaps: &Vec<FreeGap>, x: i32)
    ensures
        active_models(final(acts)@) == crate::sweep_model::open_step(
            active_models(old(acts)@),
            gap_models(gaps@),
            x as int,
        ),
{
    let ghost acts0 = active_models(acts@);
    let mut i: usize = 0;
    while i < gaps.len()
        invariant
            i <= gaps@.len(),
            active_models(acts@) == crate::sweep_model::open_step(
                acts0,
                gap_models(gaps@).take(i as int),
                x as int,
            ),
        decreases gaps@.len() - i,
    {
        let g = gaps[i];
        proof {
            assert(gap_models(gaps@).take(i + 1).drop_last() =~= gap_models(gaps@).take(i as int));
            assert(gap_models(gaps@).take(i + 1).last() == gap_model(g));
        }
        if !shape_in(acts, g.top, g.bottom) {
            let ghost pre = active_models(acts@);
            acts.push(UnfinishedRect { left: x, top: g.top, bottom: g.bottom });
            assert(active_models(acts@) =~= pre.push(
                ActiveModel { left: x as int, top: g.top as int, bottom: g.bottom as int },
            ));
        }
        i = i + 1;
    }
    proof {
        assert(gap_models(gaps@).take(gaps@.len() as int) =~= gap_models(gaps@));
    }
}

/// At a closing line at `x`: every active rectangle whose shape no longer
/// fits a gap is emitted with right edge `x - 1`, and each part of its shape
/// that some gap keeps open is restarted at the same left edge, once per
/// shape.  Returns the active rectangles for the rest of the sweep.
fn close_actives<P: Rectangle>(
    sacts: &Vec<UnfinishedRect>,
    gaps: &Vec<FreeGap>,
    x: i32,
    outs: &mut Vec<P>,
) -> (next: Vec<UnfinishedRect>)
    requires
        x > i32::MIN,
    ensures
        rect_models(final(outs)@) == rect_models(old(outs)@) + crate::sweep_model::closed_outputs(
            active_models(sacts@),
            gap_models(gaps@),
            x as int,
        ),
        active_models(next@) == crate::sweep_model::kept_actives(
            active_models(sacts@),
            gap_models(gaps@),
        ) + crate::sweep_model::continuations_all(
            active_models(sacts@),
            active_models(sacts@),
            gap_models(gaps@),
        ),
{
    let ghost sm = active_models(sacts@);
    let ghost gm = gap_models(gaps@);
    let ghost outs0 = rect_models(outs@);
    let mut kept: Vec<UnfinishedRect> = Vec::new();
    let mut news: Vec<UnfinishedRect> = Vec::new();
    let mut i: usize = 0;
    while i < sacts.len()
        invariant
            i <= sacts@.len(),
            x > i32::MIN,
            sm == active_models(sacts@),
            gm == gap_models(gaps@),
            active_models(kept@) == crate::sweep_model::kept_actives(sm.take(i as int), gm),
            rect_models(outs@) == outs0 + crate::sweep_model::closed_outputs(
                sm.take(i as int),
                gm,
                x as int,
            ),
            active_models(news@) == crate::sweep_model::continuations_all(
                sm,
                sm.take(i as int),
                gm,
            ),
        decreases sacts@.len() - i,
    {
        let a = sacts[i];
        proof {
            assert(sm.take(i + 1).drop_last() =~= sm.take(i as int));
            assert(sm.take(i + 1).last() == active_model(a));
        }
        if fits_some(a, gaps) {
            let ghost pre = active_models(kept@);
            kept.push(a);
            assert(active_models(kept@) =~= pre.push(active_model(a)));
        } else {
            let ghost pre = rect_models(outs@);
            outs.push(P::new_from_sides(a.left, x - 1, a.top, a.bottom));
            proof {
                assert(rect_models(outs@) =~= pre.push(
                    RectModel {
                        left: a.left as int,
                        right: x - 1,
                        top: a.top as int,
                        bottom: a.bottom as int,
                    },
                ));
                assert(outs0 + crate::sweep_model::closed_outputs(sm.take(i as int), gm, x as int)
                    + seq![
                    RectModel {
                        left: a.left as int,
                        right: x - 1,
                        top: a.top as int,
                        bottom: a.bottom as int,
                    },
                ] =~= outs0 + crate::sweep_model::closed_outputs(sm.take(i + 1), gm, x as int));
            }
            let ghost news0 = active_models(news@);
            let mut k: usize = 0;
            while k < gaps.len()
                invariant
                    k <= gaps@.len(),
                    sm == active_models(sacts@),
                    gm == gap_models(gaps@),
                    news0 == crate::sweep_model::continuations_all(sm, sm.take(i as int), gm),
                    a == sacts@[i as int],
                    0 <= i < sacts@.len(),
                    active_models(news@) == crate::sweep_model::continuations_for(
                        sm,
                        news0,
                        active_model(a),
                        gm.take(k as int),
                    ),
                decreases gaps@.len() - k,
            {
                let g = gaps[k];
                proof {
                    assert(gm.take(k + 1).drop_last() =~= gm.take(k as int));
                    assert(gm.take(k + 1).last() == gap_model(g));
                }
                if g.top <= a.top || a.bottom <= g.bottom {
                    let top_limit = if a.top <= g.top {
                        a.top
                    } else {
                        g.top
                    };
                    let bottom_limit = if a.bottom >= g.bottom {
                        a.bottom
                    } else {
                        g.bottom
                    };
                    assert(top_limit as int == crate::sweep_model::continuation(
                        active_model(a),
                        gap_model(g),
                    ).top);
                    assert(bottom_limit as int == crate::sweep_model::continuation(
                        active_model(a),
                        gap_model(g),
                    ).bottom);
                    if !shape_in(sacts, top_limit, bottom_limit) && !shape_in(
                        &news,
                        top_limit,
                        bottom_limit,
                    ) {
                        let ghost pre = active_models(news@);
                        news.push(
                            UnfinishedRect { left: a.left, top: top_limit, bottom: bottom_limit },
                        );
                        assert(active_models(news@) =~= pre.push(
                            crate::sweep_model::continuation(active_model(a), gap_model(g)),
                        ));
                    }
                }
                k = k + 1;
            }
            proof {
                assert(gm.take(gaps@.len() as int) =~= gm);
            }
        }
        i = i + 1;
    }
    proof {
        assert(sm.take(sacts@.len() as int) =~= sm);
    }
    let mut next = kept;
    let ghost kept_m = active_models(next@);
    let ghost news_m = active_models(news@);
    next.append(&mut news);
    assert(active_models(next@) =~= kept_m + news_m);
    next
}

/// This algorithm identifies all unique unobstructed sub-rectangles within
/// a given rectangle by comparing it against a list of obstructions.
///
/// The result is exactly [`crate::sweep_model::decompose_model`] of the
/// region's and the obstructions' models: the obstructions are sorted by
/// descending top edge, the event lines are swept left to right, and every
/// rectangle still active at the end is closed at the region's right edge.
pub fn unobstructed_subrectangles_impl<P: Rectangle, O: Rectangle>(
    parent: &P,
    obstructions: &[&O],
) -> (result: Vec<P>)
    requires
        parent@.left > i32::MIN,
        obstructions_in_range(obs_models(obstructions@)),
    ensures
        rect_models(result@) == crate::sweep_model::decompose_model(
            parent@,
            obs_models(obstructions@),
        ),
{
    let ghost region = parent@;
    let sorted_obs = sort_obstructions(obstructions);
    proof {
        lemma_sort_by_top_in_range(obs_models(obstructions@));
    }
    let ghost sm = obs_models(sorted_obs@);

    let lines_raw = collect_lines(parent, &sorted_obs);
    let lines_sorted = sort_lines(lines_raw);
    let lines_deduped = dedup_lines(&lines_sorted);
    let lines = clip_lines(&lines_deduped, parent);
    let ghost lm = line_models(lines@);
    assert(lm == crate::sweep_model::event_lines(region, sm));

    let mut unique_rectangles: Vec<P> = Vec::new();
    let mut active_rectangles: Vec<UnfinishedRect> = Vec::new();
    let mut i: usize = 0;
    while i < lines.len()
        invariant
            i <= lines@.len(),
            region == parent@,
            region.left > i32::MIN,
            sm == obs_models(sorted_obs@),
            obstructions_in_range(sm),
            lm == line_models(lines@),
            forall|j: int|
                0 <= j < lines@.len() ==> region.left <= (#[trigger] lines@[j]).x as int
                    <= region.right,
            rect_models(unique_rectangles@) == crate::sweep_model::sweep_lines(
                region,
                sm,
                lm.take(i as int),
            ).0,
            active_models(active_rectangles@) == crate::sweep_model::sweep_lines(
                region,
                sm,
                lm.take(i as int),
            ).1,
        decreases lines@.len() - i,
    {
        let line = lines[i];
        proof {
            assert(lm.take(i + 1).drop_last() =~= lm.take(i as int));
            assert(lm.take(i + 1).last() == line_model(line));
        }
        let gaps = compute_gaps(parent, &sorted_obs, line.x);
        active_rectangles = sort_actives(active_rectangles);
        if line.opens {
            open_new_actives(&mut active_rectangles, &gaps, line.x);
        } else {
            active_rectangles = close_actives(
                &active_rectangles,
                &gaps,
                line.x,
                &mut unique_rectangles,
            );
        }
        i = i + 1;
    }
    proof {
        assert(lm.take(lines@.len() as int) =~= lm);
    }
    let ghost sweep_outs = crate::sweep_model::sweep_lines(region, sm, lm).0;
    let ghost sweep_acts = crate::sweep_model::sweep_lines(region, sm, lm).1;

    let mut j: usize = 0;
    while j < active_rectangles.len()
        invariant
            j <= active_rectangles@.len(),
            region == parent@,
            sweep_acts == active_models(active_rectangles@),
            rect_models(unique_rectangles@) == sweep_outs + sweep_acts.take(j as int).map_values(
                |a: ActiveModel| crate::sweep_model::close_at_right(region, a),
            ),
        decreases active_rectangles@.len() - j,
    {
        let a = active_rectangles[j];
        let ghost pre = rect_models(unique_rectangles@);
        unique_rectangles.push(P::new_from_sides(a.left, parent.right(), a.top, a.bottom));
        proof {
            assert(rect_models(unique_rectangles@) =~= pre.push(
                crate::sweep_model::close_at_right(region, active_model(a)),
            ));
            assert(sweep_acts.take(j + 1).map_values(
                |a: ActiveModel| crate::sweep_model::close_at_right(region, a),
            ) =~= sweep_acts.take(j as int).map_values(
                |a: ActiveModel| crate::sweep_model::close_at_right(region, a),
            ).push(crate::sweep_model::close_at_right(region, active_model(a))));
            assert(sweep_outs + sweep_acts.take(j as int).map_values(
                |a: ActiveModel| crate::sweep_model::close_at_right(region, a),
            ) + seq![crate::sweep_model::close_at_right(region, active_model(a))] =~= sweep_outs
                + sweep_acts.take(j + 1).map_values(
                |a: ActiveModel| crate::sweep_model::close_at_right(region, a),
            ));
        }
        j = j + 1;
    }
    proof {
        assert(sweep_acts.take(active_rectangles@.len() as int) =~= sweep_acts);
        assert(rect_models(unique_rectangles@) == crate::sweep_model::decompose_model(
            region,
            obs_models(obstructions@),
        ));
    }
    unique_rectangles
}

} // verus!
