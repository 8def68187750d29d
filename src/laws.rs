use vstd::prelude::*;

use crate::coord::Coord;
use crate::direction::{card_vec, ord_vec, CardinalDirection};
use crate::shadowcast::{
    abs, attenuate, axis_part, children_trace, clamp, clamp_slope, slope_le, coord_vec, corner_slope, dist2, extent,
    eye_sighting, frame_trace, frames_at, half_centre, half_corner, lemma_row_fold_frames, frames_below,
    octant_coord, octant_table, octants_trace, round_ratio, row_coord, row_fold, row_len,
    row_result, row_start, row_step, seed_frame, spec_limits, spec_octant, spec_scan,
    spec_sightings, world_fits, Frame, NUM_OCTANTS, Octant, RoundType, RowState, Scan, Sighting,
    Slope, VISIBILITY_MAX,
};
use crate::static_grid::StaticGrid;

verus! {

// ---------------------------------------------------------------------------
// The view distance, and visibility in a transparent world
// ---------------------------------------------------------------------------

/// Every sighting of `s` lies within `distance` of `eye`.
pub open spec fn sightings_within(s: Seq<Sighting>, eye: Coord, distance: int) -> bool {
    forall|k: int| 0 <= k < s.len() ==> dist2((#[trigger] s[k]).coord, eye) <= distance * distance
}

/// Every sighting of `s` has full visibility.
pub open spec fn all_full(s: Seq<Sighting>) -> bool {
    forall|k: int| 0 <= k < s.len() ==> (#[trigger] s[k]).visibility == VISIBILITY_MAX
}

/// Every frame of `fs` is in full visibility.
pub open spec fn frames_full(fs: Seq<Frame>) -> bool {
    forall|j: int| 0 <= j < fs.len() ==> (#[trigger] fs[j]).visibility == VISIBILITY_MAX
}

/// No cell of `world` has any opacity.
pub open spec fn transparent(world: StaticGrid<u32>) -> bool {
    forall|x: int, y: int| #[trigger] world.cell(x, y) matches Some(o) ==> o == 0
}

proof fn lemma_row_fold_laws(
    oct: Octant,
    eye: Coord,
    world: StaticGrid<u32>,
    distance: int,
    f: Frame,
    scan: Scan,
    n: int,
)
    ensures
        sightings_within(row_fold(oct, eye, world, distance, f, scan, n).sightings, eye, distance),
        transparent(world) && f.visibility == VISIBILITY_MAX ==> {
            let st = row_fold(oct, eye, world, distance, f, scan, n);
            &&& all_full(st.sightings)
            &&& frames_full(st.pushed)
            &&& (!st.first ==> st.prev_visibility == VISIBILITY_MAX)
        },
    decreases n,
{
    if n > 0 {
        lemma_row_fold_laws(oct, eye, world, distance, f, scan, n - 1);
        let st = row_fold(oct, eye, world, distance, f, scan, n - 1);
        let st2 = row_fold(oct, eye, world, distance, f, scan, n);
        let c = row_coord(oct, scan, n - 1);
        assert(st2 == row_step(oct, eye, world, distance, f, scan, st, n - 1));
        match world.cell(c.x as int, c.y as int) {
            None => {},
            Some(opacity) => {
                assert(forall|k: int| 0 <= k < st.sightings.len() ==> st2.sightings[k] == st.sightings[k]);
                if transparent(world) && f.visibility == VISIBILITY_MAX {
                    assert(opacity == 0);
                    assert(all_full(st2.sightings));
                    assert(frames_full(st2.pushed));
                }
            },
        }
    }
}

proof fn lemma_frame_trace_laws(
    oct: Octant,
    eye: Coord,
    world: StaticGrid<u32>,
    distance: int,
    f: Frame,
)
    ensures
        sightings_within(frame_trace(oct, eye, world, distance, f).0, eye, distance),
        transparent(world) && f.visibility == VISIBILITY_MAX ==> all_full(
            frame_trace(oct, eye, world, distance, f).0,
        ),
    decreases distance + 1 - f.depth, 1int, 0int,
{
    if f.depth <= distance {
        match spec_scan(spec_limits(oct, eye, world), oct, f, distance) {
            None => {},
            Some(scan) => {
                let row = row_result(oct, eye, world, distance, f, scan);
                lemma_row_fold_laws(oct, eye, world, distance, f, scan, row_len(oct, scan));
                lemma_children_trace_laws(oct, eye, world, distance, f.depth as int, row.pushed);
            },
        }
    }
}

proof fn lemma_children_trace_laws(
    oct: Octant,
    eye: Coord,
    world: StaticGrid<u32>,
    distance: int,
    depth: int,
    fs: Seq<Frame>,
)
    ensures
        sightings_within(children_trace(oct, eye, world, distance, depth, fs).0, eye, distance),
        transparent(world) && frames_full(fs) ==> all_full(
            children_trace(oct, eye, world, distance, depth, fs).0,
        ),
    decreases distance + 1 - depth, 0int, fs.len(),
{
    if !(depth < 0 || depth > distance || depth >= u64::MAX || fs.len() == 0) {
        let g = fs.last();
        let child = Frame {
            depth: (depth + 1) as u64,
            min_slope: g.min_slope,
            max_slope: g.max_slope,
            visibility: g.visibility,
        };
        lemma_frame_trace_laws(oct, eye, world, distance, child);
        lemma_children_trace_laws(oct, eye, world, distance, depth, fs.drop_last());
        if frames_full(fs) {
            assert(fs[fs.len() - 1].visibility == VISIBILITY_MAX);
            assert(frames_full(fs.drop_last())) by {
                assert forall|j: int| 0 <= j < fs.drop_last().len() implies (
                #[trigger] fs.drop_last()[j]).visibility == VISIBILITY_MAX by {
                    assert(fs.drop_last()[j] == fs[j]);
                }
            }
        }
    }
}

proof fn lemma_octants_trace_laws(eye: Coord, world: StaticGrid<u32>, distance: int, n: int)
    ensures
        sightings_within(octants_trace(eye, world, distance, n), eye, distance),
        transparent(world) ==> all_full(octants_trace(eye, world, distance, n)),
    decreases n,
{
    if n > 0 {
        lemma_octants_trace_laws(eye, world, distance, n - 1);
        lemma_frame_trace_laws(octant_table()[n - 1], eye, world, distance, seed_frame());
    }
}

/// Only the eye's own cell may be reported beyond the view distance: every
/// other sighting lies at a squared Euclidean distance from the eye of at
/// most the square of `distance`, whatever its row.
pub proof fn lemma_sightings_within_distance(eye: Coord, world: StaticGrid<u32>, distance: u32)
    ensures
        forall|k: int|
            0 <= k < spec_sightings(eye, world, distance as int).len() ==> {
                let s = #[trigger] spec_sightings(eye, world, distance as int)[k];
                s.coord == eye || dist2(s.coord, eye) <= distance * distance
            },
{
    lemma_octants_trace_laws(eye, world, distance as int, NUM_OCTANTS as int);
    let e = eye_sighting(eye, world);
    let o = octants_trace(eye, world, distance as int, NUM_OCTANTS as int);
    assert forall|k: int| 0 <= k < (e + o).len() implies {
        let s = #[trigger] (e + o)[k];
        s.coord == eye || dist2(s.coord, eye) <= distance * distance
    } by {
        if k >= e.len() {
            assert((e + o)[k] == o[k - e.len()]);
        }
    }
}

/// In a world without opacity, no cell is ever reported at less than full
/// visibility, so in particular never at visibility zero.
pub proof fn lemma_transparent_world_full_visibility(
    eye: Coord,
    world: StaticGrid<u32>,
    distance: u32,
)
    requires
        transparent(world),
    ensures
        all_full(spec_sightings(eye, world, distance as int)),
{
    lemma_octants_trace_laws(eye, world, distance as int, NUM_OCTANTS as int);
    let e = eye_sighting(eye, world);
    let o = octants_trace(eye, world, distance as int, NUM_OCTANTS as int);
    assert forall|k: int| 0 <= k < (e + o).len() implies (#[trigger] (e + o)[k]).visibility
        == VISIBILITY_MAX by {
        if k >= e.len() {
            assert((e + o)[k] == o[k - e.len()]);
        }
    }
}

/// The view distance decides only which cells of a row are reported: every
/// cell is still scanned, and the wedges handed on to the next row, with
/// the visibility they carry, are the same whatever the distance.
pub proof fn lemma_row_wedges_ignore_distance(
    oct: Octant,
    eye: Coord,
    world: StaticGrid<u32>,
    d1: int,
    d2: int,
    f: Frame,
    scan: Scan,
    n: int,
)
    ensures
        ({
            let a = row_fold(oct, eye, world, d1, f, scan, n);
            let b = row_fold(oct, eye, world, d2, f, scan, n);
            &&& a.pushed == b.pushed
            &&& a.first == b.first
            &&& a.prev_opaque == b.prev_opaque
            &&& a.prev_visibility == b.prev_visibility
            &&& a.min_slope == b.min_slope
        }),
    decreases n,
{
    if n > 0 {
        lemma_row_wedges_ignore_distance(oct, eye, world, d1, d2, f, scan, n - 1);
        let a = row_fold(oct, eye, world, d1, f, scan, n - 1);
        let b = row_fold(oct, eye, world, d2, f, scan, n - 1);
        assert(row_fold(oct, eye, world, d1, f, scan, n) == row_step(
            oct,
            eye,
            world,
            d1,
            f,
            scan,
            a,
            n - 1,
        ));
        assert(row_fold(oct, eye, world, d2, f, scan, n) == row_step(
            oct,
            eye,
            world,
            d2,
            f,
            scan,
            b,
            n - 1,
        ));
    }
}

// ---------------------------------------------------------------------------
// A transparent world is seen in full within the view distance
// ---------------------------------------------------------------------------

/// Some sighting of `s` is of cell `c`.
pub open spec fn seen(s: Seq<Sighting>, c: Coord) -> bool {
    exists|k: int| 0 <= k < s.len() && (#[trigger] s[k]).coord == c
}

/// The wedge covering the whole octant at row `depth`, in full visibility.
pub open spec fn full_frame(depth: int) -> Frame {
    Frame {
        depth: depth as u64,
        min_slope: Slope { num: 0, den: 1 },
        max_slope: Slope { num: 1, den: 1 },
        visibility: VISIBILITY_MAX,
    }
}

/// An octant of the table: well formed, and rounding towards the eye's
/// axis at the start of a row and away from it at the end.
pub open spec fn octant_ok(oct: Octant) -> bool {
    &&& oct.wf()
    &&& oct.lateral_step == 1 ==> oct.round_start == RoundType::Floor && oct.round_end
        == RoundType::ExclusiveFloor
    &&& oct.lateral_step == -1 ==> oct.round_start == RoundType::ExclusiveFloor && oct.round_end
        == RoundType::Floor
}

pub(crate) proof fn lemma_seen_append(a: Seq<Sighting>, b: Seq<Sighting>, c: Coord)
    ensures
        seen(a, c) ==> seen(a + b, c),
        seen(b, c) ==> seen(a + b, c),
{
    if seen(a, c) {
        let k = choose|k: int| 0 <= k < a.len() && (#[trigger] a[k]).coord == c;
        assert((a + b)[k] == a[k]);
    }
    if seen(b, c) {
        let k = choose|k: int| 0 <= k < b.len() && (#[trigger] b[k]).coord == c;
        assert((a + b)[a.len() + k] == b[k]);
    }
}

/// A row whose cells have no opacity reports every cell within the view
/// distance, and hands on exactly one wedge: the whole frame, one row
/// further out, with its visibility unchanged.
pub proof fn lemma_row_fold_clear(
    oct: Octant,
    eye: Coord,
    world: StaticGrid<u32>,
    distance: int,
    f: Frame,
    scan: Scan,
    n: int,
)
    requires
        f.visibility > 0,
        0 <= n <= row_len(oct, scan),
        forall|i: int|
            0 <= i < row_len(oct, scan) ==> (#[trigger] world.cell(
                row_coord(oct, scan, i).x as int,
                row_coord(oct, scan, i).y as int,
            )) == Some(0u32),
    ensures
        ({
            let st = row_fold(oct, eye, world, distance, f, scan, n);
            &&& st.first == (n == 0)
            &&& st.min_slope == f.min_slope
            &&& n > 0 ==> st.prev_visibility == f.visibility
            &&& st.pushed == if n == row_len(oct, scan) && n > 0 {
                seq![
                    Frame {
                        depth: (f.depth + 1) as u64,
                        min_slope: f.min_slope,
                        max_slope: f.max_slope,
                        visibility: f.visibility,
                    },
                ]
            } else {
                Seq::<Frame>::empty()
            }
            &&& forall|i: int|
                0 <= i < n && dist2(row_coord(oct, scan, i), eye) <= distance * distance ==> seen(
                    st.sightings,
                    #[trigger] row_coord(oct, scan, i),
                )
        }),
    decreases n,
{
    if n > 0 {
        lemma_row_fold_clear(oct, eye, world, distance, f, scan, n - 1);
        let st = row_fold(oct, eye, world, distance, f, scan, n - 1);
        let st2 = row_fold(oct, eye, world, distance, f, scan, n);
        let c = row_coord(oct, scan, n - 1);
        assert(st2 == row_step(oct, eye, world, distance, f, scan, st, n - 1));
        assert(world.cell(c.x as int, c.y as int) == Some(0u32));
        assert forall|i: int|
            0 <= i < n && dist2(row_coord(oct, scan, i), eye) <= distance * distance implies seen(
            st2.sightings,
            #[trigger] row_coord(oct, scan, i),
        ) by {
            if i < n - 1 {
                let k = choose|k: int|
                    0 <= k < st.sightings.len() && (#[trigger] st.sightings[k]).coord == row_coord(
                        oct,
                        scan,
                        i,
                    );
                assert(st2.sightings[k] == st.sightings[k]);
            } else {
                assert(st2.sightings[st2.sightings.len() - 1].coord == c);
            }
        }
    }
}

/// The eye lies within the world.
pub open spec fn eye_inside(eye: Coord, world: StaticGrid<u32>) -> bool {
    world.in_bounds(eye.x as int, eye.y as int)
}

/// The cell `k` rows out from the eye and `j` cells along the row, in
/// octant `oct`.
pub open spec fn octant_cell(oct: Octant, eye: Coord, k: int, j: int) -> Coord {
    octant_coord(
        oct,
        axis_part(oct.depth_axis, coord_vec(eye)) + k * oct.depth_step,
        axis_part(oct.lateral_axis, coord_vec(eye)) + j * oct.lateral_step,
    )
}

proof fn lemma_full_frame_scan(oct: Octant, eye: Coord, world: StaticGrid<u32>, distance: int, k0: int)
    requires
        octant_ok(oct),
        world_fits(world),
        0 <= axis_part(oct.lateral_axis, coord_vec(eye)) < extent(world, oct.lateral_axis),
        1 <= k0 <= distance <= u32::MAX,
        0 <= axis_part(oct.depth_axis, coord_vec(eye)) + k0 * oct.depth_step < extent(
            world,
            oct.depth_axis,
        ),
    ensures
        ({
            let el = axis_part(oct.lateral_axis, coord_vec(eye));
            spec_scan(spec_limits(oct, eye, world), oct, full_frame(k0), distance) == Some(
                Scan {
                    depth_idx: (axis_part(oct.depth_axis, coord_vec(eye)) + k0
                        * oct.depth_step) as i32,
                    start_lateral_idx: el as i32,
                    end_lateral_idx: clamp(
                        el + k0 * oct.lateral_step,
                        0,
                        extent(world, oct.lateral_axis) - 1,
                    ) as i32,
                },
            )
        }),
{
    let f = full_frame(k0);
    let lim = spec_limits(oct, eye, world);
    let ed = axis_part(oct.depth_axis, coord_vec(eye));
    let el = axis_part(oct.lateral_axis, coord_vec(eye));
    let ls = oct.lateral_step as int;
    assert(f.depth == k0);
    assert(lim.eye_depth_idx == ed && lim.eye_lateral_idx == el);
    assert(lim.depth_extent == extent(world, oct.depth_axis));
    assert(lim.lateral_extent == extent(world, oct.lateral_axis));
    assert(f.min_slope.num == 0 && f.min_slope.den == 1);
    assert(f.max_slope.num == 1 && f.max_slope.den == 1);
    let p_start = f.min_slope.den + ls * f.min_slope.num * (2 * k0 - 1);
    let p_end = f.max_slope.den + ls * f.max_slope.num * (2 * k0 + 1);
    assert(p_start == 1) by (nonlinear_arith)
        requires
            p_start == f.min_slope.den + ls * f.min_slope.num * (2 * k0 - 1),
            f.min_slope.num == 0,
            f.min_slope.den == 1,
    ;
    assert(round_ratio(oct.round_start, p_start, 2) == 0);
    if ls == 1 {
        assert(p_end == 2 * (k0 + 1)) by (nonlinear_arith)
            requires
                p_end == f.max_slope.den + ls * f.max_slope.num * (2 * k0 + 1),
                f.max_slope.num == 1,
                f.max_slope.den == 1,
                ls == 1,
        ;
        assert(p_end % 2 == 0 && p_end / 2 == k0 + 1) by (nonlinear_arith)
            requires
                p_end == 2 * (k0 + 1),
        ;
        assert(round_ratio(oct.round_end, p_end, 2) == k0 * ls);
    } else {
        assert(p_end == 2 * (-k0)) by (nonlinear_arith)
            requires
                p_end == f.max_slope.den + ls * f.max_slope.num * (2 * k0 + 1),
                f.max_slope.num == 1,
                f.max_slope.den == 1,
                ls == -1,
        ;
        assert(p_end / 2 == -k0) by (nonlinear_arith)
            requires
                p_end == 2 * (-k0),
        ;
        assert(round_ratio(oct.round_end, p_end, 2) == k0 * ls);
    }
    assert(ed + k0 * oct.depth_step == lim.eye_depth_idx + (f.depth as int) * oct.depth_step);
}

proof fn lemma_full_frame_sees(
    oct: Octant,
    eye: Coord,
    world: StaticGrid<u32>,
    distance: int,
    k0: int,
    k: int,
    j: int,
)
    requires
        octant_ok(oct),
        world_fits(world),
        transparent(world),
        eye_inside(eye, world),
        1 <= k0 <= k <= distance <= u32::MAX,
        0 <= j <= k,
        0 <= axis_part(oct.depth_axis, coord_vec(eye)) + k * oct.depth_step < extent(
            world,
            oct.depth_axis,
        ),
        0 <= axis_part(oct.lateral_axis, coord_vec(eye)) + j * oct.lateral_step < extent(
            world,
            oct.lateral_axis,
        ),
        dist2(octant_cell(oct, eye, k, j), eye) <= distance * distance,
    ensures
        seen(frame_trace(oct, eye, world, distance, full_frame(k0)).0, octant_cell(oct, eye, k, j)),
    decreases k - k0,
{
    let ed = axis_part(oct.depth_axis, coord_vec(eye));
    let el = axis_part(oct.lateral_axis, coord_vec(eye));
    let ds = oct.depth_step as int;
    let ls = oct.lateral_step as int;
    let dext = extent(world, oct.depth_axis);
    let lext = extent(world, oct.lateral_axis);
    let c = octant_cell(oct, eye, k, j);
    assert(0 <= ed < dext && 0 <= el < lext);
    assert(0 <= ed + k0 * ds < dext) by (nonlinear_arith)
        requires
            0 <= ed < dext,
            0 <= ed + k * ds < dext,
            1 <= k0 <= k,
            ds == 1 || ds == -1,
    ;
    lemma_full_frame_scan(oct, eye, world, distance, k0);
    let f = full_frame(k0);
    let scan = spec_scan(spec_limits(oct, eye, world), oct, f, distance).unwrap();
    let end = clamp(el + k0 * ls, 0, lext - 1);
    let len = row_len(oct, scan);
    assert(len == (end - el) * ls + 1 && len >= 1) by (nonlinear_arith)
        requires
            len == (if (end - el) * ls >= 0 { (end - el) * ls + 1 } else { 0 }),
            ls == 1 || ls == -1,
            end == clamp(el + k0 * ls, 0, lext - 1),
            0 <= el < lext,
            k0 >= 1,
    ;
    assert forall|i: int| 0 <= i < len implies (#[trigger] world.cell(
        row_coord(oct, scan, i).x as int,
        row_coord(oct, scan, i).y as int,
    )) == Some(0u32) by {
        assert(0 <= el + i * ls < lext) by (nonlinear_arith)
            requires
                0 <= i < len,
                len == (end - el) * ls + 1,
                ls == 1 || ls == -1,
                0 <= el < lext,
                0 <= end < lext,
        ;
        assert(world.cell(row_coord(oct, scan, i).x as int, row_coord(oct, scan, i).y as int) is Some);
    }
    lemma_row_fold_clear(oct, eye, world, distance, f, scan, len);
    let row = row_result(oct, eye, world, distance, f, scan);
    assert(row.pushed == seq![full_frame(k0 + 1)]);
    if k0 == k {
        assert(j < len) by (nonlinear_arith)
            requires
                0 <= j <= k,
                k == k0,
                0 <= el + j * ls < lext,
                len == (end - el) * ls + 1,
                end == clamp(el + k0 * ls, 0, lext - 1),
                ls == 1 || ls == -1,
        ;
        assert(row_coord(oct, scan, j) == c);
        assert(seen(row.sightings, row_coord(oct, scan, j)));
        lemma_seen_append(
            row.sightings,
            children_trace(oct, eye, world, distance, k0, row.pushed).0,
            c,
        );
    } else {
        lemma_full_frame_sees(oct, eye, world, distance, k0 + 1, k, j);
        let g = row.pushed.last();
        let child = Frame {
            depth: (k0 + 1) as u64,
            min_slope: g.min_slope,
            max_slope: g.max_slope,
            visibility: g.visibility,
        };
        assert(child == full_frame(k0 + 1));
        let t = frame_trace(oct, eye, world, distance, child);
        let rest = children_trace(oct, eye, world, distance, k0, row.pushed.drop_last());
        lemma_seen_append(t.0, rest.0, c);
        lemma_seen_append(
            row.sightings,
            children_trace(oct, eye, world, distance, k0, row.pushed).0,
            c,
        );
    }
}

proof fn lemma_octants_trace_contains(
    eye: Coord,
    world: StaticGrid<u32>,
    distance: int,
    n: int,
    o: int,
    c: Coord,
)
    requires
        0 <= o < n,
        seen(frame_trace(octant_table()[o], eye, world, distance, seed_frame()).0, c),
    ensures
        seen(octants_trace(eye, world, distance, n), c),
    decreases n,
{
    let before = octants_trace(eye, world, distance, n - 1);
    let last = frame_trace(octant_table()[n - 1], eye, world, distance, seed_frame()).0;
    if o < n - 1 {
        lemma_octants_trace_contains(eye, world, distance, n - 1, o, c);
    }
    lemma_seen_append(before, last, c);
}

/// `v` moved by `step`, which is `1` or `-1`.
pub open spec fn signed(v: int, step: int) -> int {
    if step == 1 {
        v
    } else {
        -v
    }
}

proof fn lemma_seen_in_octant(
    eye: Coord,
    world: StaticGrid<u32>,
    distance: u32,
    o: int,
    k: int,
    j: int,
    c: Coord,
)
    requires
        0 <= o < NUM_OCTANTS,
        world_fits(world),
        transparent(world),
        eye_inside(eye, world),
        1 <= k <= distance,
        0 <= j <= k,
        axis_part(octant_table()[o].depth_axis, coord_vec(c)) == axis_part(
            octant_table()[o].depth_axis,
            coord_vec(eye),
        ) + signed(k, octant_table()[o].depth_step as int),
        axis_part(octant_table()[o].lateral_axis, coord_vec(c)) == axis_part(
            octant_table()[o].lateral_axis,
            coord_vec(eye),
        ) + signed(j, octant_table()[o].lateral_step as int),
        world.in_bounds(c.x as int, c.y as int),
        dist2(c, eye) <= distance * distance,
    ensures
        seen(octants_trace(eye, world, distance as int, NUM_OCTANTS as int), c),
{
    let oct = octant_table()[o];
    assert(octant_ok(oct));
    let ds = oct.depth_step as int;
    let ls = oct.lateral_step as int;
    assert(k * ds == signed(k, ds)) by (nonlinear_arith)
        requires
            ds == 1 || ds == -1,
    ;
    assert(j * ls == signed(j, ls)) by (nonlinear_arith)
        requires
            ls == 1 || ls == -1,
    ;
    assert(octant_cell(oct, eye, k, j) == c);
    assert(seed_frame() == full_frame(1));
    lemma_full_frame_sees(oct, eye, world, distance as int, 1, k, j);
    lemma_octants_trace_contains(eye, world, distance as int, NUM_OCTANTS as int, o, c);
}

/// In a world without opacity, an eye inside the world sees every cell of
/// the world that lies within the view distance.
pub proof fn lemma_transparent_world_sees_all_in_range(
    eye: Coord,
    world: StaticGrid<u32>,
    distance: u32,
    c: Coord,
)
    requires
        world_fits(world),
        transparent(world),
        eye_inside(eye, world),
        world.in_bounds(c.x as int, c.y as int),
        dist2(c, eye) <= distance * distance,
    ensures
        seen(spec_sightings(eye, world, distance as int), c),
{
    let e = eye_sighting(eye, world);
    let o = octants_trace(eye, world, distance as int, NUM_OCTANTS as int);
    if c == eye {
        assert(e[0].coord == c);
        lemma_seen_append(e, o, c);
    } else {
        let dx = c.x - eye.x;
        let dy = c.y - eye.y;
        assert(dist2(c, eye) == dx * dx + dy * dy);
        assert(dx <= distance && -dx <= distance) by (nonlinear_arith)
            requires
                dx * dx + dy * dy <= distance * distance,
                distance >= 0,
        ;
        assert(dy <= distance && -dy <= distance) by (nonlinear_arith)
            requires
                dx * dx + dy * dy <= distance * distance,
                distance >= 0,
        ;
        let adx = abs(dx);
        let ady = abs(dy);
        let t = octant_table();
        assert(t[0] == spec_octant(CardinalDirection::West, CardinalDirection::South));
        assert(t[1] == spec_octant(CardinalDirection::South, CardinalDirection::West));
        assert(t[2] == spec_octant(CardinalDirection::South, CardinalDirection::East));
        assert(t[3] == spec_octant(CardinalDirection::East, CardinalDirection::South));
        assert(t[4] == spec_octant(CardinalDirection::East, CardinalDirection::North));
        assert(t[5] == spec_octant(CardinalDirection::North, CardinalDirection::East));
        assert(t[6] == spec_octant(CardinalDirection::North, CardinalDirection::West));
        assert(t[7] == spec_octant(CardinalDirection::West, CardinalDirection::North));
        if adx >= ady && dx > 0 {
            if dy >= 0 {
                lemma_seen_in_octant(eye, world, distance, 3, dx, dy, c);
            } else {
                lemma_seen_in_octant(eye, world, distance, 4, dx, -dy, c);
            }
        } else if adx >= ady {
            if dy >= 0 {
                lemma_seen_in_octant(eye, world, distance, 0, -dx, dy, c);
            } else {
                lemma_seen_in_octant(eye, world, distance, 7, -dx, -dy, c);
            }
        } else if dy > 0 {
            if dx >= 0 {
                lemma_seen_in_octant(eye, world, distance, 2, dy, dx, c);
            } else {
                lemma_seen_in_octant(eye, world, distance, 1, dy, -dx, c);
            }
        } else {
            if dx >= 0 {
                lemma_seen_in_octant(eye, world, distance, 5, -dy, dx, c);
            } else {
                lemma_seen_in_octant(eye, world, distance, 6, -dy, -dx, c);
            }
        }
        lemma_seen_append(e, o, c);
    }
}

// ---------------------------------------------------------------------------
// An opaque neighbour hides the ray behind it
// ---------------------------------------------------------------------------

/// Every sighting of `s` lies at least one row out from the eye along the
/// octant's depth direction.
pub open spec fn ahead_of_eye(oct: Octant, eye: Coord, s: Seq<Sighting>) -> bool {
    forall|k: int|
        0 <= k < s.len() ==> signed(
            axis_part(oct.depth_axis, coord_vec((#[trigger] s[k]).coord)) - axis_part(
                oct.depth_axis,
                coord_vec(eye),
            ),
            oct.depth_step as int,
        ) >= 1
}

proof fn lemma_row_fold_ahead(
    oct: Octant,
    eye: Coord,
    world: StaticGrid<u32>,
    distance: int,
    f: Frame,
    scan: Scan,
    n: int,
)
    requires
        oct.wf(),
        f.depth >= 1,
        scan.depth_idx == axis_part(oct.depth_axis, coord_vec(eye)) + f.depth * oct.depth_step,
    ensures
        ahead_of_eye(oct, eye, row_fold(oct, eye, world, distance, f, scan, n).sightings),
    decreases n,
{
    if n > 0 {
        lemma_row_fold_ahead(oct, eye, world, distance, f, scan, n - 1);
        let st = row_fold(oct, eye, world, distance, f, scan, n - 1);
        let c = row_coord(oct, scan, n - 1);
        let ed = axis_part(oct.depth_axis, coord_vec(eye));
        assert(axis_part(oct.depth_axis, coord_vec(c)) == scan.depth_idx);
        assert(signed(scan.depth_idx - ed, oct.depth_step as int) == f.depth) by (nonlinear_arith)
            requires
                scan.depth_idx == ed + f.depth * oct.depth_step,
                oct.depth_step == 1 || oct.depth_step == -1,
        ;
    }
}

proof fn lemma_frame_trace_ahead(
    oct: Octant,
    eye: Coord,
    world: StaticGrid<u32>,
    distance: int,
    f: Frame,
)
    requires
        oct.wf(),
        world_fits(world),
        f.depth >= 1,
    ensures
        ahead_of_eye(oct, eye, frame_trace(oct, eye, world, distance, f).0),
    decreases distance + 1 - f.depth, 1int, 0int,
{
    if f.depth <= distance {
        match spec_scan(spec_limits(oct, eye, world), oct, f, distance) {
            None => {},
            Some(scan) => {
                let row = row_result(oct, eye, world, distance, f, scan);
                let lim = spec_limits(oct, eye, world);
                assert(lim.eye_depth_idx == axis_part(oct.depth_axis, coord_vec(eye)));
                assert(lim.depth_extent == extent(world, oct.depth_axis));
                lemma_row_fold_ahead(oct, eye, world, distance, f, scan, row_len(oct, scan));
                lemma_children_trace_ahead(oct, eye, world, distance, f.depth as int, row.pushed);
                let rest = children_trace(oct, eye, world, distance, f.depth as int, row.pushed).0;
                assert forall|k: int| 0 <= k < (row.sightings + rest).len() implies signed(
                    axis_part(oct.depth_axis, coord_vec((#[trigger] (row.sightings + rest)[k]).coord))
                        - axis_part(oct.depth_axis, coord_vec(eye)),
                    oct.depth_step as int,
                ) >= 1 by {
                    if k >= row.sightings.len() {
                        assert((row.sightings + rest)[k] == rest[k - row.sightings.len()]);
                    }
                }
            },
        }
    }
}

proof fn lemma_children_trace_ahead(
    oct: Octant,
    eye: Coord,
    world: StaticGrid<u32>,
    distance: int,
    depth: int,
    fs: Seq<Frame>,
)
    requires
        oct.wf(),
        world_fits(world),
        depth >= 0,
    ensures
        ahead_of_eye(oct, eye, children_trace(oct, eye, world, distance, depth, fs).0),
    decreases distance + 1 - depth, 0int, fs.len(),
{
    if !(depth < 0 || depth > distance || depth >= u64::MAX || fs.len() == 0) {
        let g = fs.last();
        let child = Frame {
            depth: (depth + 1) as u64,
            min_slope: g.min_slope,
            max_slope: g.max_slope,
            visibility: g.visibility,
        };
        lemma_frame_trace_ahead(oct, eye, world, distance, child);
        lemma_children_trace_ahead(oct, eye, world, distance, depth, fs.drop_last());
        let a = frame_trace(oct, eye, world, distance, child).0;
        let b = children_trace(oct, eye, world, distance, depth, fs.drop_last()).0;
        assert forall|k: int| 0 <= k < (a + b).len() implies signed(
            axis_part(oct.depth_axis, coord_vec((#[trigger] (a + b)[k]).coord)) - axis_part(
                oct.depth_axis,
                coord_vec(eye),
            ),
            oct.depth_step as int,
        ) >= 1 by {
            if k >= a.len() {
                assert((a + b)[k] == b[k - a.len()]);
            }
        }
    }
}

/// A slope of at least one: the wedge lies on the diagonal side.
pub open spec fn steep(sl: Slope) -> bool {
    sl.num >= sl.den
}

pub open spec fn frames_steep(fs: Seq<Frame>) -> bool {
    forall|j: int| 0 <= j < fs.len() ==> steep((#[trigger] fs[j]).min_slope)
}

proof fn lemma_steep_le(a: Slope, b: Slope)
    requires
        a.bounded(),
        b.bounded(),
        steep(a),
        slope_le(a, b),
    ensures
        steep(b),
{
    assert(b.num >= b.den) by (nonlinear_arith)
        requires
            a.num * b.den <= b.num * a.den,
            a.num >= a.den,
            a.den > 0,
            b.den > 0,
    ;
}

/// Clamping a steep slope below a steep bound keeps it steep.
proof fn lemma_clamp_steep(s: Slope, lo: Slope, hi: Slope)
    requires
        s.bounded(),
        lo.bounded(),
        hi.bounded(),
        steep(hi),
    ensures
        steep(s) ==> steep(clamp_slope(s, lo, hi)),
{
    if steep(s) && slope_le(s, lo) {
        lemma_steep_le(s, lo);
    }
}

/// The corners of each cell are those of the octant's geometry: the
/// opacity-increase corner lies on the far side in depth and the near side
/// laterally; the opacity-decrease corner on the near side of both.
pub open spec fn corners_ok(oct: Octant) -> bool {
    &&& axis_part(oct.depth_axis, ord_vec(oct.opacity_increase_corner)) == oct.depth_step
    &&& axis_part(oct.lateral_axis, ord_vec(oct.opacity_increase_corner)) == -oct.lateral_step
    &&& axis_part(oct.depth_axis, ord_vec(oct.opacity_decrease_corner)) == -oct.depth_step
    &&& axis_part(oct.lateral_axis, ord_vec(oct.opacity_decrease_corner)) == -oct.lateral_step
}

proof fn lemma_steep_start(rule: RoundType, ls: int, a: int, b: int, k: int)
    requires
        a >= b > 0,
        k >= 1,
        (ls == 1 && rule == RoundType::Floor) || (ls == -1 && rule == RoundType::ExclusiveFloor),
    ensures
        signed(round_ratio(rule, b + ls * a * (2 * k - 1), 2 * b), ls) >= k,
{
    let p = b + ls * a * (2 * k - 1);
    let m = 2 * b;
    vstd::arithmetic::div_mod::lemma_fundamental_div_mod(p, m);
    let q = p / m;
    let r = p % m;
    assert(a * (2 * k - 1) >= b * (2 * k - 1)) by (nonlinear_arith)
        requires
            a >= b,
            k >= 1,
    ;
    if ls == 1 {
        assert(p >= m * k) by (nonlinear_arith)
            requires
                p == b + 1 * a * (2 * k - 1),
                a * (2 * k - 1) >= b * (2 * k - 1),
                m == 2 * b,
        ;
        assert(q >= k) by (nonlinear_arith)
            requires
                p == m * q + r,
                0 <= r < m,
                p >= m * k,
        ;
    } else {
        assert(p <= m * (1 - k)) by (nonlinear_arith)
            requires
                p == b + (-1) * a * (2 * k - 1),
                a * (2 * k - 1) >= b * (2 * k - 1),
                m == 2 * b,
        ;
        if r == 0 {
            assert(q <= 1 - k) by (nonlinear_arith)
                requires
                    p == m * q,
                    m > 0,
                    p <= m * (1 - k),
            ;
        } else {
            assert(q <= -k) by (nonlinear_arith)
                requires
                    p == m * q + r,
                    0 < r < m,
                    p <= m * (1 - k),
            ;
        }
    }
}

/// The lateral offset, counted along the octant's lateral step, of cell `c`
/// from the eye.
pub open spec fn lateral_offset(oct: Octant, eye: Coord, c: Coord) -> int {
    signed(
        axis_part(oct.lateral_axis, coord_vec(c)) - axis_part(oct.lateral_axis, coord_vec(eye)),
        oct.lateral_step as int,
    )
}

pub(crate) proof fn lemma_row_cells(oct: Octant, eye: Coord, world: StaticGrid<u32>, distance: int, f: Frame, scan: Scan)
    requires
        oct.wf(),
        world_fits(world),
        spec_scan(spec_limits(oct, eye, world), oct, f, distance) == Some(scan),
    ensures
        forall|i: int|
            0 <= i < row_len(oct, scan) ==> {
                &&& (#[trigger] world.cell(
                    row_coord(oct, scan, i).x as int,
                    row_coord(oct, scan, i).y as int,
                )) is Some
                &&& axis_part(oct.lateral_axis, coord_vec(row_coord(oct, scan, i)))
                    == scan.start_lateral_idx + i * oct.lateral_step
                &&& axis_part(oct.depth_axis, coord_vec(row_coord(oct, scan, i))) == scan.depth_idx
                &&& lateral_offset(oct, eye, row_coord(oct, scan, i)) == lateral_offset(
                    oct,
                    eye,
                    row_coord(oct, scan, 0),
                ) + i
            },
{
    let lim = spec_limits(oct, eye, world);
    let ls = oct.lateral_step as int;
    let start = scan.start_lateral_idx as int;
    let end = scan.end_lateral_idx as int;
    let lext = extent(world, oct.lateral_axis);
    let el = axis_part(oct.lateral_axis, coord_vec(eye));
    assert(lim.lateral_extent == lext && lim.depth_extent == extent(world, oct.depth_axis));
    assert(0 <= start < lext && 0 <= end < lext);
    let len = row_len(oct, scan);
    assert forall|i: int| 0 <= i < len implies {
        &&& (#[trigger] world.cell(
            row_coord(oct, scan, i).x as int,
            row_coord(oct, scan, i).y as int,
        )) is Some
        &&& axis_part(oct.lateral_axis, coord_vec(row_coord(oct, scan, i))) == start + i * ls
        &&& axis_part(oct.depth_axis, coord_vec(row_coord(oct, scan, i))) == scan.depth_idx
        &&& lateral_offset(oct, eye, row_coord(oct, scan, i)) == lateral_offset(
            oct,
            eye,
            row_coord(oct, scan, 0),
        ) + i
    } by {
        assert(0 <= start + i * ls < lext) by (nonlinear_arith)
            requires
                0 <= i < len,
                len == (if (end - start) * ls >= 0 { (end - start) * ls + 1 } else { 0 }),
                ls == 1 || ls == -1,
                0 <= start < lext,
                0 <= end < lext,
        ;
        assert(signed(start + i * ls - el, ls) == signed(start - el, ls) + i) by (nonlinear_arith)
            requires
                ls == 1 || ls == -1,
        ;
    }
}

/// The state of a row scan whose wedges all end up steep: either the wedge
/// was steep to begin with, or it is the first row and its first cell
/// blocks all sight.
pub open spec fn row_steep_inv(f: Frame, row_one: bool, st: RowState, n: int) -> bool {
    &&& frames_steep(st.pushed)
    &&& steep(st.min_slope) || (row_one && (st.first || st.prev_visibility == 0))
    &&& n <= 1 ==> st.min_slope == f.min_slope
    &&& st.first == (n == 0)
}

#[verifier::rlimit(60)]
proof fn lemma_row_fold_steep(
    oct: Octant,
    eye: Coord,
    world: StaticGrid<u32>,
    distance: int,
    f: Frame,
    scan: Scan,
    row_one: bool,
    n: int,
)
    requires
        octant_ok(oct),
        corners_ok(oct),
        world_fits(world),
        f.wf(),
        f.depth <= distance,
        spec_scan(spec_limits(oct, eye, world), oct, f, distance) == Some(scan),
        0 <= n <= row_len(oct, scan),
        row_one ==> f.depth == 1 && lateral_offset(oct, eye, row_coord(oct, scan, 0)) == 0 && (
        world.cell(row_coord(oct, scan, 0).x as int, row_coord(oct, scan, 0).y as int) matches Some(
            o,
        ) && attenuate(f.visibility, o) == 0),
        !row_one ==> steep(f.min_slope) && lateral_offset(oct, eye, row_coord(oct, scan, 0))
            >= f.depth,
        steep(f.max_slope),
        distance <= u32::MAX,
    ensures
        row_steep_inv(f, row_one, row_fold(oct, eye, world, distance, f, scan, n), n),
        !row_one ==> forall|j: int|
            0 <= j < row_fold(oct, eye, world, distance, f, scan, n).sightings.len()
                ==> lateral_offset(
                oct,
                eye,
                (#[trigger] row_fold(oct, eye, world, distance, f, scan, n).sightings[j]).coord,
            ) >= 1,
    decreases n,
{
    if n > 0 {
        lemma_row_fold_steep(oct, eye, world, distance, f, scan, row_one, n - 1);
        lemma_row_cells(oct, eye, world, distance, f, scan);
        let i = n - 1;
        lemma_row_fold_frames(oct, eye, world, distance, f, scan, i);
        let st = row_fold(oct, eye, world, distance, f, scan, i);
        let st2 = row_fold(oct, eye, world, distance, f, scan, n);
        assert(st2 == row_step(oct, eye, world, distance, f, scan, st, i));
        let c = row_coord(oct, scan, i);
        let k = f.depth as int;
        let ds = oct.depth_step as int;
        let ls = oct.lateral_step as int;
        let m = lateral_offset(oct, eye, c);
        let ed = axis_part(oct.depth_axis, coord_vec(eye));
        let el = axis_part(oct.lateral_axis, coord_vec(eye));
        let lim = spec_limits(oct, eye, world);
        assert(lim.eye_depth_idx == ed && lim.eye_lateral_idx == el);
        assert(lim.depth_extent == extent(world, oct.depth_axis));
        assert(scan.depth_idx == ed + k * ds);
        assert(world.cell(c.x as int, c.y as int) is Some);
        let opacity = world.cell(c.x as int, c.y as int).unwrap();
        let cur = attenuate(f.visibility, opacity);
        // Offsets of the cell from the eye, in half cells.
        assert(axis_part(oct.lateral_axis, coord_vec(c)) - el == m * ls) by (nonlinear_arith)
            requires
                m == signed(axis_part(oct.lateral_axis, coord_vec(c)) - el, ls),
                ls == 1 || ls == -1,
        ;
        assert(axis_part(oct.depth_axis, coord_vec(c)) - ed == k * ds);
        let inc = corner_slope(oct, eye, c, oct.opacity_increase_corner);
        let dec = corner_slope(oct, eye, c, oct.opacity_decrease_corner);
        assert(m >= 1 ==> inc.num == 2 * m - 1 && inc.den == 2 * k + 1) by {
            let d = (
                half_corner(c, oct.opacity_increase_corner).0 - half_centre(eye).0,
                half_corner(c, oct.opacity_increase_corner).1 - half_centre(eye).1,
            );
            assert(axis_part(oct.lateral_axis, d) == 2 * (m * ls) - ls);
            assert(axis_part(oct.depth_axis, d) == 2 * (k * ds) + ds);
            assert(abs(2 * (m * ls) - ls) == 2 * m - 1 || m < 1) by (nonlinear_arith)
                requires
                    ls == 1 || ls == -1,
            ;
            assert(abs(2 * (k * ds) + ds) == 2 * k + 1) by (nonlinear_arith)
                requires
                    ds == 1 || ds == -1,
                    k >= 1,
            ;
        }
        assert(m >= 1 ==> dec.num == 2 * m - 1 && dec.den == 2 * k - 1) by {
            let d = (
                half_corner(c, oct.opacity_decrease_corner).0 - half_centre(eye).0,
                half_corner(c, oct.opacity_decrease_corner).1 - half_centre(eye).1,
            );
            assert(axis_part(oct.lateral_axis, d) == 2 * (m * ls) - ls);
            assert(axis_part(oct.depth_axis, d) == 2 * (k * ds) - ds);
            assert(abs(2 * (m * ls) - ls) == 2 * m - 1 || m < 1) by (nonlinear_arith)
                requires
                    ls == 1 || ls == -1,
            ;
            assert(abs(2 * (k * ds) - ds) == 2 * k - 1) by (nonlinear_arith)
                requires
                    ds == 1 || ds == -1,
                    k >= 1,
            ;
        }
        assert(inc.bounded() && dec.bounded());
        lemma_clamp_steep(inc, st.min_slope, f.max_slope);
        lemma_clamp_steep(dec, st.min_slope, f.max_slope);
        if row_one && i == 1 {
            let st1 = row_fold(oct, eye, world, distance, f, scan, 1);
            assert(row_fold(oct, eye, world, distance, f, scan, 0) == row_start(f));
            assert(st1 == row_step(
                oct,
                eye,
                world,
                distance,
                f,
                scan,
                row_fold(oct, eye, world, distance, f, scan, 0),
                0,
            ));
            assert(st.prev_visibility == 0);
        }
        if !row_one {
            assert forall|j: int| 0 <= j < st2.sightings.len() implies lateral_offset(
                oct,
                eye,
                (#[trigger] st2.sightings[j]).coord,
            ) >= 1 by {
                if j < st.sightings.len() {
                    assert(st2.sightings[j] == st.sightings[j]);
                }
            }
        }
        if row_one && i == 0 {
            assert(cur == 0);
        }
    }
}

/// Every sighting of `s` lies off the octant's axis through the eye.
pub open spec fn off_axis(oct: Octant, eye: Coord, s: Seq<Sighting>) -> bool {
    forall|j: int| 0 <= j < s.len() ==> lateral_offset(oct, eye, (#[trigger] s[j]).coord) >= 1
}

proof fn lemma_off_axis_append(oct: Octant, eye: Coord, a: Seq<Sighting>, b: Seq<Sighting>)
    requires
        off_axis(oct, eye, a),
        off_axis(oct, eye, b),
    ensures
        off_axis(oct, eye, a + b),
{
    assert forall|j: int| 0 <= j < (a + b).len() implies lateral_offset(
        oct,
        eye,
        (#[trigger] (a + b)[j]).coord,
    ) >= 1 by {
        if j >= a.len() {
            assert((a + b)[j] == b[j - a.len()]);
        }
    }
}

proof fn lemma_frame_trace_steep(oct: Octant, eye: Coord, world: StaticGrid<u32>, distance: int, f: Frame)
    requires
        octant_ok(oct),
        corners_ok(oct),
        world_fits(world),
        f.wf(),
        steep(f.min_slope),
        distance <= u32::MAX,
    ensures
        off_axis(oct, eye, frame_trace(oct, eye, world, distance, f).0),
    decreases distance + 1 - f.depth, 1int, 0int,
{
    if f.depth <= distance {
        match spec_scan(spec_limits(oct, eye, world), oct, f, distance) {
            None => {},
            Some(scan) => {
                let lim = spec_limits(oct, eye, world);
                let k = f.depth as int;
                let ls = oct.lateral_step as int;
                lemma_steep_le(f.min_slope, f.max_slope);
                assert(lim.eye_lateral_idx == axis_part(oct.lateral_axis, coord_vec(eye)));
                lemma_steep_start(
                    oct.round_start,
                    ls,
                    f.min_slope.num as int,
                    f.min_slope.den as int,
                    k,
                );
                lemma_row_cells(oct, eye, world, distance, f, scan);
                if row_len(oct, scan) > 0 {
                    assert(lateral_offset(oct, eye, row_coord(oct, scan, 0)) >= k);
                }
                let len = row_len(oct, scan);
                let row = row_result(oct, eye, world, distance, f, scan);
                lemma_row_fold_steep(oct, eye, world, distance, f, scan, false, len);
                lemma_row_fold_frames(oct, eye, world, distance, f, scan, len);
                lemma_children_trace_steep(oct, eye, world, distance, k, row.pushed);
                lemma_off_axis_append(
                    oct,
                    eye,
                    row.sightings,
                    children_trace(oct, eye, world, distance, k, row.pushed).0,
                );
            },
        }
    }
}

proof fn lemma_children_trace_steep(
    oct: Octant,
    eye: Coord,
    world: StaticGrid<u32>,
    distance: int,
    depth: int,
    fs: Seq<Frame>,
)
    requires
        octant_ok(oct),
        corners_ok(oct),
        world_fits(world),
        frames_at(fs, depth + 1),
        frames_steep(fs),
        distance <= u32::MAX,
    ensures
        off_axis(oct, eye, children_trace(oct, eye, world, distance, depth, fs).0),
    decreases distance + 1 - depth, 0int, fs.len(),
{
    if !(depth < 0 || depth > distance || depth >= u64::MAX || fs.len() == 0) {
        let g = fs.last();
        assert(g == fs[fs.len() - 1]);
        let child = Frame {
            depth: (depth + 1) as u64,
            min_slope: g.min_slope,
            max_slope: g.max_slope,
            visibility: g.visibility,
        };
        lemma_frame_trace_steep(oct, eye, world, distance, child);
        assert(frames_at(fs.drop_last(), depth + 1)) by {
            assert forall|j: int| 0 <= j < fs.drop_last().len() implies (#[trigger] fs.drop_last()[j]).wf()
                && fs.drop_last()[j].depth == depth + 1 by {
                assert(fs.drop_last()[j] == fs[j]);
            }
        }
        assert(frames_steep(fs.drop_last())) by {
            assert forall|j: int| 0 <= j < fs.drop_last().len() implies steep(
                (#[trigger] fs.drop_last()[j]).min_slope,
            ) by {
                assert(fs.drop_last()[j] == fs[j]);
            }
        }
        lemma_children_trace_steep(oct, eye, world, distance, depth, fs.drop_last());
        lemma_off_axis_append(
            oct,
            eye,
            frame_trace(oct, eye, world, distance, child).0,
            children_trace(oct, eye, world, distance, depth, fs.drop_last()).0,
        );
    }
}

/// The depth offset, counted along the octant's depth step, of cell `c`
/// from the eye.
pub open spec fn depth_offset(oct: Octant, eye: Coord, c: Coord) -> int {
    signed(
        axis_part(oct.depth_axis, coord_vec(c)) - axis_part(oct.depth_axis, coord_vec(eye)),
        oct.depth_step as int,
    )
}

/// Behind a first cell that blocks all sight, an octant reports only cells
/// of its first row and cells off its axis.
proof fn lemma_seed_behind_opaque(oct: Octant, eye: Coord, world: StaticGrid<u32>, distance: int)
    requires
        octant_ok(oct),
        corners_ok(oct),
        world_fits(world),
        distance <= u32::MAX,
        world.cell(
            octant_cell(oct, eye, 1, 0).x as int,
            octant_cell(oct, eye, 1, 0).y as int,
        ) matches Some(o) && o >= VISIBILITY_MAX,
        0 <= axis_part(oct.depth_axis, coord_vec(eye)) + oct.depth_step < extent(world, oct.depth_axis),
        0 <= axis_part(oct.lateral_axis, coord_vec(eye)) < extent(world, oct.lateral_axis),
    ensures
        forall|j: int|
            0 <= j < frame_trace(oct, eye, world, distance, seed_frame()).0.len() ==> {
                let c = (#[trigger] frame_trace(oct, eye, world, distance, seed_frame()).0[j]).coord;
                depth_offset(oct, eye, c) == 1 || lateral_offset(oct, eye, c) >= 1
            },
{
    let f = seed_frame();
    assert(f == full_frame(1));
    if 1 <= distance {
        lemma_full_frame_scan(oct, eye, world, distance, 1);
        let scan = spec_scan(spec_limits(oct, eye, world), oct, f, distance).unwrap();
        lemma_row_cells(oct, eye, world, distance, f, scan);
        let len = row_len(oct, scan);
        let ed = axis_part(oct.depth_axis, coord_vec(eye));
        let el = axis_part(oct.lateral_axis, coord_vec(eye));
        assert(len >= 1) by (nonlinear_arith)
            requires
                len == (if (scan.end_lateral_idx - scan.start_lateral_idx) * oct.lateral_step >= 0 {
                    (scan.end_lateral_idx - scan.start_lateral_idx) * oct.lateral_step + 1
                } else {
                    0
                }),
                scan.start_lateral_idx == el,
                scan.end_lateral_idx == clamp(
                    el + 1 * oct.lateral_step,
                    0,
                    extent(world, oct.lateral_axis) - 1,
                ),
                oct.lateral_step == 1 || oct.lateral_step == -1,
                0 <= el < extent(world, oct.lateral_axis),
        ;
        assert(row_coord(oct, scan, 0) == octant_cell(oct, eye, 1, 0));
        let row = row_result(oct, eye, world, distance, f, scan);
        lemma_row_fold_steep(oct, eye, world, distance, f, scan, true, len);
        lemma_row_fold_frames(oct, eye, world, distance, f, scan, len);
        lemma_row_fold_ahead(oct, eye, world, distance, f, scan, len);
        lemma_children_trace_steep(oct, eye, world, distance, 1, row.pushed);
        let rest = children_trace(oct, eye, world, distance, 1, row.pushed).0;
        assert(scan.depth_idx == ed + oct.depth_step);
        assert forall|j: int| 0 <= j < (row.sightings + rest).len() implies {
            let c = (#[trigger] (row.sightings + rest)[j]).coord;
            depth_offset(oct, eye, c) == 1 || lateral_offset(oct, eye, c) >= 1
        } by {
            if j >= row.sightings.len() {
                assert((row.sightings + rest)[j] == rest[j - row.sightings.len()]);
            } else {
                lemma_row_sightings_in_row(oct, eye, world, distance, f, scan, len, j);
            }
        }
    }
}

pub(crate) proof fn lemma_row_sightings_in_row(
    oct: Octant,
    eye: Coord,
    world: StaticGrid<u32>,
    distance: int,
    f: Frame,
    scan: Scan,
    n: int,
    j: int,
)
    requires
        oct.wf(),
        0 <= j < row_fold(oct, eye, world, distance, f, scan, n).sightings.len(),
    ensures
        exists|i: int|
            0 <= i < n && row_fold(oct, eye, world, distance, f, scan, n).sightings[j].coord
                == #[trigger] row_coord(oct, scan, i),
    decreases n,
{
    if n > 0 {
        let st = row_fold(oct, eye, world, distance, f, scan, n - 1);
        let st2 = row_fold(oct, eye, world, distance, f, scan, n);
        assert(st2 == row_step(oct, eye, world, distance, f, scan, st, n - 1));
        if j < st.sightings.len() {
            assert(st2.sightings[j] == st.sightings[j]);
            lemma_row_sightings_in_row(oct, eye, world, distance, f, scan, n - 1, j);
        } else {
            assert(st2.sightings[j].coord == row_coord(oct, scan, n - 1));
        }
    }
}

pub(crate) proof fn lemma_table_ok(o: int)
    requires
        0 <= o < NUM_OCTANTS,
    ensures
        octant_ok(octant_table()[o]),
        corners_ok(octant_table()[o]),
{
    let t = octant_table();
    assert(t[0] == spec_octant(CardinalDirection::West, CardinalDirection::South));
    assert(t[1] == spec_octant(CardinalDirection::South, CardinalDirection::West));
    assert(t[2] == spec_octant(CardinalDirection::South, CardinalDirection::East));
    assert(t[3] == spec_octant(CardinalDirection::East, CardinalDirection::South));
    assert(t[4] == spec_octant(CardinalDirection::East, CardinalDirection::North));
    assert(t[5] == spec_octant(CardinalDirection::North, CardinalDirection::East));
    assert(t[6] == spec_octant(CardinalDirection::North, CardinalDirection::West));
    assert(t[7] == spec_octant(CardinalDirection::West, CardinalDirection::North));
}

pub(crate) proof fn lemma_seen_split(a: Seq<Sighting>, b: Seq<Sighting>, c: Coord)
    ensures
        seen(a + b, c) ==> seen(a, c) || seen(b, c),
{
    if seen(a + b, c) {
        let k = choose|k: int| 0 <= k < (a + b).len() && (#[trigger] (a + b)[k]).coord == c;
        if k < a.len() {
            assert(a[k] == (a + b)[k]);
        } else {
            assert(b[k - a.len()] == (a + b)[k]);
        }
    }
}

proof fn lemma_octant_misses_ray(
    eye: Coord,
    world: StaticGrid<u32>,
    distance: int,
    o: int,
    d: CardinalDirection,
    t: int,
    c: Coord,
)
    requires
        0 <= o < NUM_OCTANTS,
        world_fits(world),
        distance <= u32::MAX,
        world.cell(eye.x + card_vec(d).0, eye.y + card_vec(d).1) matches Some(op) && op
            >= VISIBILITY_MAX,
        t >= 2,
        c.x == eye.x + t * card_vec(d).0,
        c.y == eye.y + t * card_vec(d).1,
    ensures
        !seen(frame_trace(octant_table()[o], eye, world, distance, seed_frame()).0, c),
{
    let oct = octant_table()[o];
    lemma_table_ok(o);
    let trace = frame_trace(oct, eye, world, distance, seed_frame()).0;
    let dv = card_vec(d);
    assert(dv == (0int, -1int) || dv == (1int, 0int) || dv == (0int, 1int) || dv == (-1int, 0int));
    assert(coord_vec(c) == (eye.x + t * dv.0, eye.y + t * dv.1));
    if axis_part(oct.depth_axis, dv) == oct.depth_step {
        // The octant looks along the ray.
        assert(axis_part(oct.lateral_axis, dv) == 0);
        let n = octant_cell(oct, eye, 1, 0);
        assert(n.x == eye.x + dv.0 && n.y == eye.y + dv.1);
        assert(axis_part(oct.depth_axis, coord_vec(c)) - axis_part(oct.depth_axis, coord_vec(eye))
            == t * oct.depth_step) by (nonlinear_arith)
            requires
                axis_part(oct.depth_axis, coord_vec(c)) == axis_part(oct.depth_axis, coord_vec(eye))
                    + t * axis_part(oct.depth_axis, dv),
                axis_part(oct.depth_axis, dv) == oct.depth_step,
        ;
        assert(depth_offset(oct, eye, c) == t) by (nonlinear_arith)
            requires
                depth_offset(oct, eye, c) == signed(t * oct.depth_step, oct.depth_step as int),
                oct.depth_step == 1 || oct.depth_step == -1,
        ;
        assert(axis_part(oct.lateral_axis, coord_vec(c)) == axis_part(
            oct.lateral_axis,
            coord_vec(eye),
        )) by (nonlinear_arith)
            requires
                axis_part(oct.lateral_axis, coord_vec(c)) == axis_part(
                    oct.lateral_axis,
                    coord_vec(eye),
                ) + t * axis_part(oct.lateral_axis, dv),
                axis_part(oct.lateral_axis, dv) == 0,
        ;
        assert(lateral_offset(oct, eye, c) == 0);
        lemma_seed_behind_opaque(oct, eye, world, distance);
        if seen(trace, c) {
            let k = choose|k: int| 0 <= k < trace.len() && (#[trigger] trace[k]).coord == c;
        }
    } else {
        // The ray lies behind the octant, or on its side boundary through the eye.
        assert(depth_offset(oct, eye, c) <= 0) by (nonlinear_arith)
            requires
                depth_offset(oct, eye, c) == signed(
                    t * axis_part(oct.depth_axis, dv),
                    oct.depth_step as int,
                ),
                axis_part(oct.depth_axis, dv) != oct.depth_step,
                axis_part(oct.depth_axis, dv) == 0 || axis_part(oct.depth_axis, dv) == 1
                    || axis_part(oct.depth_axis, dv) == -1,
                oct.depth_step == 1 || oct.depth_step == -1,
                t >= 2,
        ;
        lemma_frame_trace_ahead(oct, eye, world, distance, seed_frame());
        if seen(trace, c) {
            let k = choose|k: int| 0 <= k < trace.len() && (#[trigger] trace[k]).coord == c;
        }
    }
}

proof fn lemma_octants_miss_ray(
    eye: Coord,
    world: StaticGrid<u32>,
    distance: int,
    n: int,
    d: CardinalDirection,
    t: int,
    c: Coord,
)
    requires
        0 <= n <= NUM_OCTANTS,
        world_fits(world),
        distance <= u32::MAX,
        world.cell(eye.x + card_vec(d).0, eye.y + card_vec(d).1) matches Some(op) && op
            >= VISIBILITY_MAX,
        t >= 2,
        c.x == eye.x + t * card_vec(d).0,
        c.y == eye.y + t * card_vec(d).1,
    ensures
        !seen(octants_trace(eye, world, distance, n), c),
    decreases n,
{
    if n > 0 {
        lemma_octants_miss_ray(eye, world, distance, n - 1, d, t, c);
        lemma_octant_misses_ray(eye, world, distance, n - 1, d, t, c);
        lemma_seen_split(
            octants_trace(eye, world, distance, n - 1),
            frame_trace(octant_table()[n - 1], eye, world, distance, seed_frame()).0,
            c,
        );
    }
}

/// When the eye's neighbour in direction `d` blocks all sight, no cell
/// farther out along the ray from the eye through that neighbour is
/// reported.
pub proof fn lemma_opaque_neighbour_hides_ray(
    eye: Coord,
    world: StaticGrid<u32>,
    distance: u32,
    d: CardinalDirection,
    t: int,
    c: Coord,
)
    requires
        world_fits(world),
        world.cell(eye.x + card_vec(d).0, eye.y + card_vec(d).1) matches Some(opacity) && opacity
            >= VISIBILITY_MAX,
        t >= 2,
        c.x == eye.x + t * card_vec(d).0,
        c.y == eye.y + t * card_vec(d).1,
    ensures
        !seen(spec_sightings(eye, world, distance as int), c),
{
    lemma_octants_miss_ray(eye, world, distance as int, NUM_OCTANTS as int, d, t, c);
    let e = eye_sighting(eye, world);
    lemma_seen_split(e, octants_trace(eye, world, distance as int, NUM_OCTANTS as int), c);
    if seen(e, c) {
        let k = choose|k: int| 0 <= k < e.len() && (#[trigger] e[k]).coord == c;
        assert(e[k].coord == eye);
        assert(c != eye) by (nonlinear_arith)
            requires
                c.x == eye.x + t * card_vec(d).0,
                c.y == eye.y + t * card_vec(d).1,
                card_vec(d).0 != 0 || card_vec(d).1 != 0,
                t >= 2,
        ;
    }
}

// ---------------------------------------------------------------------------
// An opaque diagonal neighbour hides the diagonal behind it
// ---------------------------------------------------------------------------

/// A slope of at most one third.
pub open spec fn shallow(sl: Slope) -> bool {
    3 * sl.num <= sl.den
}

pub open spec fn frames_shallow(fs: Seq<Frame>) -> bool {
    forall|j: int| 0 <= j < fs.len() ==> shallow((#[trigger] fs[j]).max_slope)
}

/// No sighting of `s` lies on the far side of the octant's axis.
pub open spec fn not_behind(oct: Octant, eye: Coord, s: Seq<Sighting>) -> bool {
    forall|j: int| 0 <= j < s.len() ==> lateral_offset(oct, eye, (#[trigger] s[j]).coord) >= 0
}

/// Every sighting of `s` lies strictly between the octant's axis side and
/// its diagonal.
pub open spec fn below_diagonal(oct: Octant, eye: Coord, s: Seq<Sighting>) -> bool {
    forall|j: int|
        0 <= j < s.len() ==> lateral_offset(oct, eye, (#[trigger] s[j]).coord) < depth_offset(
            oct,
            eye,
            s[j].coord,
        )
}

proof fn lemma_start_not_behind(rule: RoundType, ls: int, a: int, b: int, k: int)
    requires
        0 <= a <= b,
        b > 0,
        k >= 1,
        (ls == 1 && rule == RoundType::Floor) || (ls == -1 && rule == RoundType::ExclusiveFloor),
    ensures
        signed(round_ratio(rule, b + ls * a * (2 * k - 1), 2 * b), ls) >= 0,
{
    let p = b + ls * a * (2 * k - 1);
    let m = 2 * b;
    vstd::arithmetic::div_mod::lemma_fundamental_div_mod(p, m);
    let q = p / m;
    let r = p % m;
    assert(0 <= a * (2 * k - 1)) by (nonlinear_arith)
        requires
            0 <= a,
            k >= 1,
    ;
    if ls == 1 {
        assert(p >= 0) by (nonlinear_arith)
            requires
                p == b + 1 * a * (2 * k - 1),
                0 <= a * (2 * k - 1),
                b > 0,
        ;
        assert(q >= 0) by (nonlinear_arith)
            requires
                p == m * q + r,
                0 <= r < m,
                p >= 0,
        ;
    } else {
        assert(p < m) by (nonlinear_arith)
            requires
                p == b + (-1) * a * (2 * k - 1),
                0 <= a * (2 * k - 1),
                m == 2 * b,
                b > 0,
        ;
        assert(q <= 0) by (nonlinear_arith)
            requires
                p == m * q + r,
                0 <= r < m,
                p < m,
        ;
    }
}

proof fn lemma_shallow_row_bounds(rs: RoundType, re: RoundType, ls: int, a0: int, b0: int, a1: int, b1: int, k: int)
    requires
        0 <= 3 * a0 <= b0,
        0 <= 3 * a1 <= b1,
        b0 > 0,
        b1 > 0,
        k >= 1,
        (ls == 1 && rs == RoundType::Floor && re == RoundType::ExclusiveFloor) || (ls == -1 && rs
            == RoundType::ExclusiveFloor && re == RoundType::Floor),
    ensures
        signed(round_ratio(rs, b0 + ls * a0 * (2 * k - 1), 2 * b0), ls) <= k - 1,
        signed(round_ratio(re, b1 + ls * a1 * (2 * k + 1), 2 * b1), ls) <= k - 1,
{
    let p0 = b0 + ls * a0 * (2 * k - 1);
    let p1 = b1 + ls * a1 * (2 * k + 1);
    let m0 = 2 * b0;
    let m1 = 2 * b1;
    vstd::arithmetic::div_mod::lemma_fundamental_div_mod(p0, m0);
    vstd::arithmetic::div_mod::lemma_fundamental_div_mod(p1, m1);
    let q0 = p0 / m0;
    let r0 = p0 % m0;
    let q1 = p1 / m1;
    let r1 = p1 % m1;
    assert(a0 * (2 * k - 1) < b0 * (2 * k - 1)) by (nonlinear_arith)
        requires
            0 <= 3 * a0 <= b0,
            b0 > 0,
            k >= 1,
    ;
    assert(a1 * (2 * k + 1) <= b1 * (2 * k - 1)) by (nonlinear_arith)
        requires
            0 <= 3 * a1 <= b1,
            k >= 1,
    ;
    if ls == 1 {
        assert(p0 < m0 * k) by (nonlinear_arith)
            requires
                p0 == b0 + 1 * a0 * (2 * k - 1),
                a0 * (2 * k - 1) < b0 * (2 * k - 1),
                m0 == 2 * b0,
        ;
        assert(q0 <= k - 1) by (nonlinear_arith)
            requires
                p0 == m0 * q0 + r0,
                0 <= r0 < m0,
                p0 < m0 * k,
        ;
        assert(p1 <= m1 * k) by (nonlinear_arith)
            requires
                p1 == b1 + 1 * a1 * (2 * k + 1),
                a1 * (2 * k + 1) <= b1 * (2 * k - 1),
                m1 == 2 * b1,
        ;
        if r1 == 0 {
            assert(q1 <= k) by (nonlinear_arith)
                requires
                    p1 == m1 * q1,
                    m1 > 0,
                    p1 <= m1 * k,
            ;
        } else {
            assert(q1 <= k - 1) by (nonlinear_arith)
                requires
                    p1 == m1 * q1 + r1,
                    0 < r1 < m1,
                    p1 <= m1 * k,
            ;
        }
    } else {
        assert(p0 > m0 * (1 - k)) by (nonlinear_arith)
            requires
                p0 == b0 + (-1) * a0 * (2 * k - 1),
                a0 * (2 * k - 1) < b0 * (2 * k - 1),
                m0 == 2 * b0,
        ;
        if r0 == 0 {
            assert(q0 >= 2 - k) by (nonlinear_arith)
                requires
                    p0 == m0 * q0,
                    m0 > 0,
                    p0 > m0 * (1 - k),
            ;
        } else {
            assert(q0 >= 1 - k) by (nonlinear_arith)
                requires
                    p0 == m0 * q0 + r0,
                    0 < r0 < m0,
                    p0 > m0 * (1 - k),
            ;
        }
        assert(p1 >= m1 * (1 - k)) by (nonlinear_arith)
            requires
                p1 == b1 + (-1) * a1 * (2 * k + 1),
                a1 * (2 * k + 1) <= b1 * (2 * k - 1),
                m1 == 2 * b1,
        ;
        assert(q1 >= 1 - k) by (nonlinear_arith)
            requires
                p1 == m1 * q1 + r1,
                0 <= r1 < m1,
                p1 >= m1 * (1 - k),
        ;
    }
}

/// How far along its row, counted from the eye's axis, the scan of frame `f`
/// starts.
pub open spec fn start_offset(oct: Octant, f: Frame) -> int {
    signed(
        round_ratio(
            oct.round_start,
            f.min_slope.den + oct.lateral_step * f.min_slope.num * (2 * f.depth - 1),
            2 * f.min_slope.den,
        ),
        oct.lateral_step as int,
    )
}

/// How far along its row, counted from the eye's axis, the scan of frame `f`
/// ends, before it is kept within the world.
pub open spec fn end_offset(oct: Octant, f: Frame) -> int {
    signed(
        round_ratio(
            oct.round_end,
            f.max_slope.den + oct.lateral_step * f.max_slope.num * (2 * f.depth + 1),
            2 * f.max_slope.den,
        ),
        oct.lateral_step as int,
    )
}

proof fn lemma_row_sighting_offsets(
    oct: Octant,
    eye: Coord,
    world: StaticGrid<u32>,
    distance: int,
    f: Frame,
    scan: Scan,
    j: int,
)
    requires
        octant_ok(oct),
        world_fits(world),
        f.wf(),
        spec_scan(spec_limits(oct, eye, world), oct, f, distance) == Some(scan),
        0 <= j < row_result(oct, eye, world, distance, f, scan).sightings.len(),
    ensures
        ({
            let c = row_result(oct, eye, world, distance, f, scan).sightings[j].coord;
            &&& depth_offset(oct, eye, c) == f.depth
            &&& start_offset(oct, f) <= lateral_offset(oct, eye, c)
            &&& lateral_offset(oct, eye, c) <= start_offset(oct, f) || lateral_offset(oct, eye, c)
                <= end_offset(oct, f)
        }),
{
    let len = row_len(oct, scan);
    lemma_row_sightings_in_row(oct, eye, world, distance, f, scan, len, j);
    lemma_row_cells(oct, eye, world, distance, f, scan);
    let c = row_result(oct, eye, world, distance, f, scan).sightings[j].coord;
    let i = choose|i: int| 0 <= i < len && c == #[trigger] row_coord(oct, scan, i);
    assert(world.cell(row_coord(oct, scan, i).x as int, row_coord(oct, scan, i).y as int) is Some);
    let lim = spec_limits(oct, eye, world);
    let ed = axis_part(oct.depth_axis, coord_vec(eye));
    let el = axis_part(oct.lateral_axis, coord_vec(eye));
    let ls = oct.lateral_step as int;
    let ds = oct.depth_step as int;
    let k = f.depth as int;
    assert(lim.eye_depth_idx == ed && lim.eye_lateral_idx == el);
    assert(lim.lateral_extent == extent(world, oct.lateral_axis));
    assert(lim.depth_extent == extent(world, oct.depth_axis));
    let lext = extent(world, oct.lateral_axis);
    let start = scan.start_lateral_idx as int;
    let end = scan.end_lateral_idx as int;
    let rs = round_ratio(
        oct.round_start,
        f.min_slope.den + ls * f.min_slope.num * (2 * k - 1),
        2 * f.min_slope.den,
    );
    let re = round_ratio(
        oct.round_end,
        f.max_slope.den + ls * f.max_slope.num * (2 * k + 1),
        2 * f.max_slope.den,
    );
    assert(start == el + rs);
    assert(end == clamp(el + re, 0, lext - 1));
    assert(0 <= start < lext);
    assert(scan.depth_idx == ed + k * ds);
    assert(depth_offset(oct, eye, c) == k) by (nonlinear_arith)
        requires
            depth_offset(oct, eye, c) == signed(scan.depth_idx - ed, ds),
            scan.depth_idx == ed + k * ds,
            ds == 1 || ds == -1,
    ;
    let o = lateral_offset(oct, eye, c);
    assert(o == signed(start + i * ls - el, ls));
    assert(start_offset(oct, f) == signed(rs, ls));
    assert(end_offset(oct, f) == signed(re, ls));
    assert(o == signed(rs, ls) + i) by (nonlinear_arith)
        requires
            o == signed(start + i * ls - el, ls),
            start == el + rs,
            ls == 1 || ls == -1,
    ;
    assert(o <= signed(rs, ls) || o <= signed(re, ls)) by (nonlinear_arith)
        requires
            o == signed(rs, ls) + i,
            0 <= i < len,
            len == (if (end - start) * ls >= 0 { (end - start) * ls + 1 } else { 0 }),
            end == clamp(el + re, 0, lext - 1),
            start == el + rs,
            0 <= start < lext,
            ls == 1 || ls == -1,
    ;
}

proof fn lemma_shallow_le(a: Slope, b: Slope)
    requires
        a.bounded(),
        b.bounded(),
        slope_le(a, b),
        shallow(b),
    ensures
        shallow(a),
{
    assert(3 * a.num <= a.den) by (nonlinear_arith)
        requires
            a.num * b.den <= b.num * a.den,
            3 * b.num <= b.den,
            a.den > 0,
            b.den > 0,
            a.num >= 0,
    ;
}

proof fn lemma_frame_trace_not_behind(
    oct: Octant,
    eye: Coord,
    world: StaticGrid<u32>,
    distance: int,
    f: Frame,
)
    requires
        octant_ok(oct),
        world_fits(world),
        f.wf(),
        distance <= u32::MAX,
    ensures
        not_behind(oct, eye, frame_trace(oct, eye, world, distance, f).0),
    decreases distance + 1 - f.depth, 1int, 0int,
{
    if f.depth <= distance {
        match spec_scan(spec_limits(oct, eye, world), oct, f, distance) {
            None => {},
            Some(scan) => {
                let len = row_len(oct, scan);
                let row = row_result(oct, eye, world, distance, f, scan);
                lemma_start_not_behind(
                    oct.round_start,
                    oct.lateral_step as int,
                    f.min_slope.num as int,
                    f.min_slope.den as int,
                    f.depth as int,
                );
                assert forall|j: int| 0 <= j < row.sightings.len() implies lateral_offset(
                    oct,
                    eye,
                    (#[trigger] row.sightings[j]).coord,
                ) >= 0 by {
                    lemma_row_sighting_offsets(oct, eye, world, distance, f, scan, j);
                }
                lemma_row_fold_frames(oct, eye, world, distance, f, scan, len);
                lemma_children_trace_not_behind(oct, eye, world, distance, f.depth as int, row.pushed);
                let rest = children_trace(oct, eye, world, distance, f.depth as int, row.pushed).0;
                assert forall|j: int| 0 <= j < (row.sightings + rest).len() implies lateral_offset(
                    oct,
                    eye,
                    (#[trigger] (row.sightings + rest)[j]).coord,
                ) >= 0 by {
                    if j >= row.sightings.len() {
                        assert((row.sightings + rest)[j] == rest[j - row.sightings.len()]);
                    }
                }
            },
        }
    }
}

proof fn lemma_children_trace_not_behind(
    oct: Octant,
    eye: Coord,
    world: StaticGrid<u32>,
    distance: int,
    depth: int,
    fs: Seq<Frame>,
)
    requires
        octant_ok(oct),
        world_fits(world),
        frames_at(fs, depth + 1),
        distance <= u32::MAX,
    ensures
        not_behind(oct, eye, children_trace(oct, eye, world, distance, depth, fs).0),
    decreases distance + 1 - depth, 0int, fs.len(),
{
    if !(depth < 0 || depth > distance || depth >= u64::MAX || fs.len() == 0) {
        let g = fs.last();
        assert(g == fs[fs.len() - 1]);
        let child = Frame {
            depth: (depth + 1) as u64,
            min_slope: g.min_slope,
            max_slope: g.max_slope,
            visibility: g.visibility,
        };
        lemma_frame_trace_not_behind(oct, eye, world, distance, child);
        assert(frames_at(fs.drop_last(), depth + 1)) by {
            assert forall|j: int| 0 <= j < fs.drop_last().len() implies (#[trigger] fs.drop_last()[j]).wf()
                && fs.drop_last()[j].depth == depth + 1 by {
                assert(fs.drop_last()[j] == fs[j]);
            }
        }
        lemma_children_trace_not_behind(oct, eye, world, distance, depth, fs.drop_last());
        let a = frame_trace(oct, eye, world, distance, child).0;
        let b = children_trace(oct, eye, world, distance, depth, fs.drop_last()).0;
        assert forall|j: int| 0 <= j < (a + b).len() implies lateral_offset(
            oct,
            eye,
            (#[trigger] (a + b)[j]).coord,
        ) >= 0 by {
            if j >= a.len() {
                assert((a + b)[j] == b[j - a.len()]);
            }
        }
    }
}

proof fn lemma_frame_trace_below_diagonal(
    oct: Octant,
    eye: Coord,
    world: StaticGrid<u32>,
    distance: int,
    f: Frame,
)
    requires
        octant_ok(oct),
        world_fits(world),
        f.wf(),
        shallow(f.max_slope),
        distance <= u32::MAX,
    ensures
        below_diagonal(oct, eye, frame_trace(oct, eye, world, distance, f).0),
    decreases distance + 1 - f.depth, 1int, 0int,
{
    if f.depth <= distance {
        match spec_scan(spec_limits(oct, eye, world), oct, f, distance) {
            None => {},
            Some(scan) => {
                let len = row_len(oct, scan);
                let row = row_result(oct, eye, world, distance, f, scan);
                lemma_shallow_le(f.min_slope, f.max_slope);
                lemma_shallow_row_bounds(
                    oct.round_start,
                    oct.round_end,
                    oct.lateral_step as int,
                    f.min_slope.num as int,
                    f.min_slope.den as int,
                    f.max_slope.num as int,
                    f.max_slope.den as int,
                    f.depth as int,
                );
                assert forall|j: int| 0 <= j < row.sightings.len() implies lateral_offset(
                    oct,
                    eye,
                    (#[trigger] row.sightings[j]).coord,
                ) < depth_offset(oct, eye, row.sightings[j].coord) by {
                    lemma_row_sighting_offsets(oct, eye, world, distance, f, scan, j);
                }
                lemma_row_fold_frames(oct, eye, world, distance, f, scan, len);
                assert(frames_shallow(row.pushed)) by {
                    assert forall|j: int| 0 <= j < row.pushed.len() implies shallow(
                        (#[trigger] row.pushed[j]).max_slope,
                    ) by {
                        lemma_shallow_le(row.pushed[j].max_slope, f.max_slope);
                    }
                }
                lemma_children_trace_below_diagonal(
                    oct,
                    eye,
                    world,
                    distance,
                    f.depth as int,
                    row.pushed,
                );
                let rest = children_trace(oct, eye, world, distance, f.depth as int, row.pushed).0;
                assert forall|j: int| 0 <= j < (row.sightings + rest).len() implies lateral_offset(
                    oct,
                    eye,
                    (#[trigger] (row.sightings + rest)[j]).coord,
                ) < depth_offset(oct, eye, (row.sightings + rest)[j].coord) by {
                    if j >= row.sightings.len() {
                        assert((row.sightings + rest)[j] == rest[j - row.sightings.len()]);
                    }
                }
            },
        }
    }
}

proof fn lemma_children_trace_below_diagonal(
    oct: Octant,
    eye: Coord,
    world: StaticGrid<u32>,
    distance: int,
    depth: int,
    fs: Seq<Frame>,
)
    requires
        octant_ok(oct),
        world_fits(world),
        frames_at(fs, depth + 1),
        frames_shallow(fs),
        distance <= u32::MAX,
    ensures
        below_diagonal(oct, eye, children_trace(oct, eye, world, distance, depth, fs).0),
    decreases distance + 1 - depth, 0int, fs.len(),
{
    if !(depth < 0 || depth > distance || depth >= u64::MAX || fs.len() == 0) {
        let g = fs.last();
        assert(g == fs[fs.len() - 1]);
        let child = Frame {
            depth: (depth + 1) as u64,
            min_slope: g.min_slope,
            max_slope: g.max_slope,
            visibility: g.visibility,
        };
        lemma_frame_trace_below_diagonal(oct, eye, world, distance, child);
        assert(frames_at(fs.drop_last(), depth + 1) && frames_shallow(fs.drop_last())) by {
            assert forall|j: int| 0 <= j < fs.drop_last().len() implies (#[trigger] fs.drop_last()[j]).wf()
                && fs.drop_last()[j].depth == depth + 1 && shallow(fs.drop_last()[j].max_slope) by {
                assert(fs.drop_last()[j] == fs[j]);
            }
        }
        lemma_children_trace_below_diagonal(oct, eye, world, distance, depth, fs.drop_last());
        let a = frame_trace(oct, eye, world, distance, child).0;
        let b = children_trace(oct, eye, world, distance, depth, fs.drop_last()).0;
        assert forall|j: int| 0 <= j < (a + b).len() implies lateral_offset(
            oct,
            eye,
            (#[trigger] (a + b)[j]).coord,
        ) < depth_offset(oct, eye, (a + b)[j].coord) by {
            if j >= a.len() {
                assert((a + b)[j] == b[j - a.len()]);
            }
        }
    }
}

#[verifier::rlimit(60)]
proof fn lemma_first_row_behind_diagonal(
    oct: Octant,
    eye: Coord,
    world: StaticGrid<u32>,
    distance: int,
    scan: Scan,
)
    requires
        octant_ok(oct),
        corners_ok(oct),
        world_fits(world),
        1 <= distance <= u32::MAX,
        world.cell(
            octant_cell(oct, eye, 1, 1).x as int,
            octant_cell(oct, eye, 1, 1).y as int,
        ) matches Some(o) && o >= VISIBILITY_MAX,
        0 <= axis_part(oct.depth_axis, coord_vec(eye)) + oct.depth_step < extent(world, oct.depth_axis),
        0 <= axis_part(oct.lateral_axis, coord_vec(eye)) < extent(world, oct.lateral_axis),
        0 <= axis_part(oct.lateral_axis, coord_vec(eye)) + oct.lateral_step < extent(
            world,
            oct.lateral_axis,
        ),
        spec_scan(spec_limits(oct, eye, world), oct, seed_frame(), distance) == Some(scan),
        scan.start_lateral_idx == axis_part(oct.lateral_axis, coord_vec(eye)),
        scan.end_lateral_idx == axis_part(oct.lateral_axis, coord_vec(eye)) + oct.lateral_step,
    ensures
        frames_shallow(row_result(oct, eye, world, distance, seed_frame(), scan).pushed),
{
    let f = seed_frame();
    let ed = axis_part(oct.depth_axis, coord_vec(eye));
    let el = axis_part(oct.lateral_axis, coord_vec(eye));
    let ls = oct.lateral_step as int;
    let ds = oct.depth_step as int;
    lemma_row_cells(oct, eye, world, distance, f, scan);
    let len = row_len(oct, scan);
    assert(len == 2) by (nonlinear_arith)
        requires
            len == (if (scan.end_lateral_idx - scan.start_lateral_idx) * ls >= 0 {
                (scan.end_lateral_idx - scan.start_lateral_idx) * ls + 1
            } else {
                0
            }),
            scan.end_lateral_idx - scan.start_lateral_idx == ls,
            ls == 1 || ls == -1,
    ;
    let c1 = row_coord(oct, scan, 1);
    assert(world.cell(c1.x as int, c1.y as int) is Some);
    assert(c1 == octant_cell(oct, eye, 1, 1));
    let st0 = row_fold(oct, eye, world, distance, f, scan, 0);
    let st1 = row_fold(oct, eye, world, distance, f, scan, 1);
    let st2 = row_fold(oct, eye, world, distance, f, scan, 2);
    assert(st0 == row_start(f));
    assert(st1 == row_step(oct, eye, world, distance, f, scan, st0, 0));
    assert(st2 == row_step(oct, eye, world, distance, f, scan, st1, 1));
    assert(st1.pushed.len() == 0);
    assert(st1.min_slope == f.min_slope);
    let o1 = world.cell(c1.x as int, c1.y as int).unwrap();
    assert(attenuate(f.visibility, o1) == 0);
    // The opacity-increase corner of the neighbour lies one half cell off
    // the axis and three half cells out.
    let inc = corner_slope(oct, eye, c1, oct.opacity_increase_corner);
    assert(axis_part(oct.lateral_axis, coord_vec(c1)) == el + ls);
    assert(axis_part(oct.depth_axis, coord_vec(c1)) == ed + ds);
    let d = (
        half_corner(c1, oct.opacity_increase_corner).0 - half_centre(eye).0,
        half_corner(c1, oct.opacity_increase_corner).1 - half_centre(eye).1,
    );
    assert(axis_part(oct.lateral_axis, d) == ls);
    assert(axis_part(oct.depth_axis, d) == 3 * ds);
    assert(inc == Slope { num: 1, den: 3 });
    assert(f.min_slope == Slope { num: 0, den: 1 } && f.max_slope == Slope { num: 1, den: 1 });
    assert(!slope_le(inc, f.min_slope)) by (nonlinear_arith)
        requires
            inc.num == 1,
            inc.den == 3,
            f.min_slope.num == 0,
            f.min_slope.den == 1,
    ;
    assert(!slope_le(f.max_slope, inc)) by (nonlinear_arith)
        requires
            inc.num == 1,
            inc.den == 3,
            f.max_slope.num == 1,
            f.max_slope.den == 1,
    ;
    assert(clamp_slope(inc, st1.min_slope, f.max_slope) == Slope { num: 1, den: 3 });
    assert(st2.pushed.len() <= 1);
    assert forall|j: int| 0 <= j < st2.pushed.len() implies shallow(
        (#[trigger] st2.pushed[j]).max_slope,
    ) by {
        assert(st2.pushed[j].max_slope == Slope { num: 1, den: 3 });
    }
}

/// Behind a diagonal neighbour that blocks all sight, an octant looking
/// past it reports only cells of its first row and cells strictly on the
/// axis side of its diagonal.
proof fn lemma_seed_behind_diagonal(oct: Octant, eye: Coord, world: StaticGrid<u32>, distance: int)
    requires
        octant_ok(oct),
        corners_ok(oct),
        world_fits(world),
        distance <= u32::MAX,
        world.cell(
            octant_cell(oct, eye, 1, 1).x as int,
            octant_cell(oct, eye, 1, 1).y as int,
        ) matches Some(o) && o >= VISIBILITY_MAX,
        0 <= axis_part(oct.depth_axis, coord_vec(eye)) + oct.depth_step < extent(world, oct.depth_axis),
        0 <= axis_part(oct.lateral_axis, coord_vec(eye)) + oct.lateral_step < extent(
            world,
            oct.lateral_axis,
        ),
    ensures
        forall|j: int|
            0 <= j < frame_trace(oct, eye, world, distance, seed_frame()).0.len() ==> {
                let c = (#[trigger] frame_trace(oct, eye, world, distance, seed_frame()).0[j]).coord;
                depth_offset(oct, eye, c) == 1 || lateral_offset(oct, eye, c) < depth_offset(
                    oct,
                    eye,
                    c,
                )
            },
{
    let f = seed_frame();
    let el = axis_part(oct.lateral_axis, coord_vec(eye));
    let ls = oct.lateral_step as int;
    let lext = extent(world, oct.lateral_axis);
    assert(f == full_frame(1));
    assert(f.wf());
    if 1 <= distance {
        if !(0 <= el < lext) {
            let lim = spec_limits(oct, eye, world);
            assert(lim.eye_lateral_idx == el && lim.lateral_extent == lext);
            let p_start = f.min_slope.den + ls * f.min_slope.num * (2 * 1 - 1);
            assert(p_start == 1) by (nonlinear_arith)
                requires
                    p_start == f.min_slope.den + ls * f.min_slope.num * (2 * 1 - 1),
                    f.min_slope.num == 0,
                    f.min_slope.den == 1,
            ;
            assert(round_ratio(oct.round_start, p_start, 2) == 0);
            assert(spec_scan(lim, oct, f, distance) is None);
        } else {
            lemma_full_frame_scan(oct, eye, world, distance, 1);
            let scan = spec_scan(spec_limits(oct, eye, world), oct, f, distance).unwrap();
            assert(scan.end_lateral_idx == el + ls);
            lemma_first_row_behind_diagonal(oct, eye, world, distance, scan);
            let len = row_len(oct, scan);
            let row = row_result(oct, eye, world, distance, f, scan);
            lemma_row_fold_frames(oct, eye, world, distance, f, scan, len);
            lemma_children_trace_below_diagonal(oct, eye, world, distance, 1, row.pushed);
            let rest = children_trace(oct, eye, world, distance, 1, row.pushed).0;
            assert forall|j: int| 0 <= j < (row.sightings + rest).len() implies {
                let c = (#[trigger] (row.sightings + rest)[j]).coord;
                depth_offset(oct, eye, c) == 1 || lateral_offset(oct, eye, c) < depth_offset(
                    oct,
                    eye,
                    c,
                )
            } by {
                if j >= row.sightings.len() {
                    assert((row.sightings + rest)[j] == rest[j - row.sightings.len()]);
                } else {
                    lemma_row_sighting_offsets(oct, eye, world, distance, f, scan, j);
                }
            }
        }
    }
}

proof fn lemma_octant_misses_diagonal(
    eye: Coord,
    world: StaticGrid<u32>,
    distance: int,
    o: int,
    sx: int,
    sy: int,
    t: int,
    c: Coord,
)
    requires
        0 <= o < NUM_OCTANTS,
        world_fits(world),
        distance <= u32::MAX,
        sx == 1 || sx == -1,
        sy == 1 || sy == -1,
        world.cell(eye.x + sx, eye.y + sy) matches Some(op) && op >= VISIBILITY_MAX,
        t >= 2,
        c.x == eye.x + t * sx,
        c.y == eye.y + t * sy,
    ensures
        !seen(frame_trace(octant_table()[o], eye, world, distance, seed_frame()).0, c),
{
    let oct = octant_table()[o];
    lemma_table_ok(o);
    let trace = frame_trace(oct, eye, world, distance, seed_frame()).0;
    let v = (sx, sy);
    let dv = axis_part(oct.depth_axis, v);
    let lv = axis_part(oct.lateral_axis, v);
    let ds = oct.depth_step as int;
    let ls = oct.lateral_step as int;
    let ed = axis_part(oct.depth_axis, coord_vec(eye));
    let el = axis_part(oct.lateral_axis, coord_vec(eye));
    assert(axis_part(oct.depth_axis, coord_vec(c)) == ed + t * dv);
    assert(axis_part(oct.lateral_axis, coord_vec(c)) == el + t * lv);
    assert(depth_offset(oct, eye, c) == signed(t * dv, ds));
    assert(lateral_offset(oct, eye, c) == signed(t * lv, ls));
    assert(seed_frame().wf());
    if dv == ds && lv == ls {
        // The octant looks past the neighbour.
        assert(depth_offset(oct, eye, c) == t && lateral_offset(oct, eye, c) == t)
            by (nonlinear_arith)
            requires
                depth_offset(oct, eye, c) == signed(t * dv, ds),
                lateral_offset(oct, eye, c) == signed(t * lv, ls),
                dv == ds,
                lv == ls,
                ds == 1 || ds == -1,
                ls == 1 || ls == -1,
        ;
        let n = octant_cell(oct, eye, 1, 1);
        assert(n.x == eye.x + sx && n.y == eye.y + sy);
        lemma_seed_behind_diagonal(oct, eye, world, distance);
        if seen(trace, c) {
            let k = choose|k: int| 0 <= k < trace.len() && (#[trigger] trace[k]).coord == c;
        }
    } else if dv != ds {
        assert(depth_offset(oct, eye, c) < 1) by (nonlinear_arith)
            requires
                depth_offset(oct, eye, c) == signed(t * dv, ds),
                dv != ds,
                dv == 1 || dv == -1,
                ds == 1 || ds == -1,
                t >= 2,
        ;
        lemma_frame_trace_ahead(oct, eye, world, distance, seed_frame());
        if seen(trace, c) {
            let k = choose|k: int| 0 <= k < trace.len() && (#[trigger] trace[k]).coord == c;
        }
    } else {
        assert(lateral_offset(oct, eye, c) < 0) by (nonlinear_arith)
            requires
                lateral_offset(oct, eye, c) == signed(t * lv, ls),
                lv != ls,
                lv == 1 || lv == -1,
                ls == 1 || ls == -1,
                t >= 2,
        ;
        lemma_frame_trace_not_behind(oct, eye, world, distance, seed_frame());
        if seen(trace, c) {
            let k = choose|k: int| 0 <= k < trace.len() && (#[trigger] trace[k]).coord == c;
        }
    }
}

proof fn lemma_octants_miss_diagonal(
    eye: Coord,
    world: StaticGrid<u32>,
    distance: int,
    n: int,
    sx: int,
    sy: int,
    t: int,
    c: Coord,
)
    requires
        0 <= n <= NUM_OCTANTS,
        world_fits(world),
        distance <= u32::MAX,
        sx == 1 || sx == -1,
        sy == 1 || sy == -1,
        world.cell(eye.x + sx, eye.y + sy) matches Some(op) && op >= VISIBILITY_MAX,
        t >= 2,
        c.x == eye.x + t * sx,
        c.y == eye.y + t * sy,
    ensures
        !seen(octants_trace(eye, world, distance, n), c),
    decreases n,
{
    if n > 0 {
        lemma_octants_miss_diagonal(eye, world, distance, n - 1, sx, sy, t, c);
        lemma_octant_misses_diagonal(eye, world, distance, n - 1, sx, sy, t, c);
        lemma_seen_split(
            octants_trace(eye, world, distance, n - 1),
            frame_trace(octant_table()[n - 1], eye, world, distance, seed_frame()).0,
            c,
        );
    }
}

/// When the eye's diagonal neighbour at offset `(sx, sy)` blocks all sight,
/// no cell farther out along the diagonal from the eye through that
/// neighbour is reported.
pub proof fn lemma_opaque_diagonal_neighbour_hides_ray(
    eye: Coord,
    world: StaticGrid<u32>,
    distance: u32,
    sx: int,
    sy: int,
    t: int,
    c: Coord,
)
    requires
        world_fits(world),
        sx == 1 || sx == -1,
        sy == 1 || sy == -1,
        world.cell(eye.x + sx, eye.y + sy) matches Some(opacity) && opacity >= VISIBILITY_MAX,
        t >= 2,
        c.x == eye.x + t * sx,
        c.y == eye.y + t * sy,
    ensures
        !seen(spec_sightings(eye, world, distance as int), c),
{
    lemma_octants_miss_diagonal(eye, world, distance as int, NUM_OCTANTS as int, sx, sy, t, c);
    let e = eye_sighting(eye, world);
    lemma_seen_split(e, octants_trace(eye, world, distance as int, NUM_OCTANTS as int), c);
    if seen(e, c) {
        let k = choose|k: int| 0 <= k < e.len() && (#[trigger] e[k]).coord == c;
        assert(e[k].coord == eye);
        assert(c.x != eye.x) by (nonlinear_arith)
            requires
                c.x == eye.x + t * sx,
                sx == 1 || sx == -1,
                t >= 2,
        ;
    }
}

} // verus!
