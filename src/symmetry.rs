use vstd::prelude::*;

use crate::coord::Coord;
use crate::direction::CardinalDirection;
use crate::laws::{
    corners_ok, lemma_row_cells, lemma_row_sightings_in_row, lemma_seen_append, lemma_seen_split,
    lemma_table_ok, octant_ok, seen,
};
use crate::shadowcast::{
    children_trace, clamp, corner_slope, dist2, eye_sighting, frame_trace, frames_at,
    lemma_row_fold_frames, limits_fit, octant_table, octants_trace, round_ratio, row_coord, row_fold,
    row_len, row_result, row_step, seed_frame, spec_limits, spec_octant, spec_scan, spec_sightings,
    world_fits, Axis, Frame, Limits, Octant, RoundType, Scan, Sighting, NUM_OCTANTS,
};
use crate::static_grid::StaticGrid;

verus! {

/// `1` along the x axis, `-1` along the y axis: how a quarter turn carries
/// each axis onto the other.
pub open spec fn axis_sign(a: Axis) -> int {
    match a {
        Axis::X => 1,
        Axis::Y => -1,
    }
}

/// What a quarter turn adds, along the image of axis `a`, in a world `h`
/// rows high.
pub open spec fn axis_shift(a: Axis, h: int) -> int {
    match a {
        Axis::X => 0,
        Axis::Y => h - 1,
    }
}

/// `oct2` is octant `oct` turned a quarter turn.
pub open spec fn turned_octant(oct: Octant, oct2: Octant) -> bool {
    &&& oct2.depth_axis != oct.depth_axis
    &&& oct2.lateral_axis != oct.lateral_axis
    &&& oct2.depth_step == axis_sign(oct.depth_axis) * oct.depth_step
    &&& oct2.lateral_step == axis_sign(oct.lateral_axis) * oct.lateral_step
}

/// Along the other axis of a quarter-turned world, a coordinate `v` along
/// axis `a` becomes this.
pub open spec fn turned_part(a: Axis, h: int, v: int) -> int {
    axis_shift(a, h) + axis_sign(a) * v
}

/// `c2` is cell `c` of a world `h` rows high, turned a quarter turn.
pub open spec fn turned_cell(h: int, c: Coord, c2: Coord) -> bool {
    c2.x == h - 1 - c.y && c2.y == c.x
}

/// `world2` is `world` turned a quarter turn: cell `(x, y)` goes to
/// `(h - 1 - y, x)`, where `h` is the height of `world`.
pub open spec fn turned_world(world: StaticGrid<u32>, world2: StaticGrid<u32>) -> bool {
    &&& world2.spec_width() == world.spec_height()
    &&& world2.spec_height() == world.spec_width()
    &&& forall|x: int, y: int|
        #[trigger] world.cell(x, y) == world2.cell(world.spec_height() - 1 - y, x)
}

pub open spec fn turn_sighting(h: int, s: Sighting) -> Sighting {
    Sighting {
        coord: Coord { x: (h - 1 - s.coord.y) as i32, y: s.coord.x },
        opacity: s.opacity,
        visibility: s.visibility,
    }
}

proof fn lemma_round_flip(p: int, m: int)
    requires
        m > 0,
    ensures
        round_ratio(RoundType::Floor, p, m) == -round_ratio(RoundType::ExclusiveFloor, m - p, m),
        round_ratio(RoundType::ExclusiveFloor, p, m) == -round_ratio(RoundType::Floor, m - p, m),
{
    vstd::arithmetic::div_mod::lemma_fundamental_div_mod(p, m);
    vstd::arithmetic::div_mod::lemma_fundamental_div_mod(m - p, m);
    let q = p / m;
    let r = p % m;
    let q2 = (m - p) / m;
    let r2 = (m - p) % m;
    if r == 0 {
        assert(q2 == 1 - q && r2 == 0) by {
            assert(m - p == m * (1 - q) + 0) by (nonlinear_arith)
                requires
                    p == m * q + r,
                    r == 0,
            ;
            vstd::arithmetic::div_mod::lemma_fundamental_div_mod_converse(m - p, m, 1 - q, 0);
        }
    } else {
        assert(q2 == -q && r2 == m - r) by {
            assert(m - p == m * (-q) + (m - r)) by (nonlinear_arith)
                requires
                    p == m * q + r,
            ;
            vstd::arithmetic::div_mod::lemma_fundamental_div_mod_converse(m - p, m, -q, m - r);
        }
    }
}

/// A flip of the interval `[0, n)` onto itself: the identity, or the
/// reflection.
pub open spec fn flip_ok(shift: int, sign: int, n: int) -> bool {
    (shift == 0 && sign == 1) || (shift == n - 1 && sign == -1)
}

#[verifier::rlimit(60)]
proof fn lemma_scan_turned(
    lim: Limits,
    lim2: Limits,
    oct: Octant,
    oct2: Octant,
    f: Frame,
    distance: int,
    a: int,
    b: int,
    g: int,
    e: int,
)
    requires
        octant_ok(oct),
        octant_ok(oct2),
        f.wf(),
        limits_fit(lim),
        lim2.depth_extent == lim.depth_extent,
        lim2.lateral_extent == lim.lateral_extent,
        lim2.eye_depth_idx == a + b * lim.eye_depth_idx,
        oct2.depth_step == b * oct.depth_step,
        flip_ok(a, b, lim.depth_extent as int),
        lim2.eye_lateral_idx == g + e * lim.eye_lateral_idx,
        oct2.lateral_step == e * oct.lateral_step,
        flip_ok(g, e, lim.lateral_extent as int),
    ensures
        spec_scan(lim2, oct2, f, distance) is Some == spec_scan(lim, oct, f, distance) is Some,
        spec_scan(lim, oct, f, distance) matches Some(s) ==> {
            let s2 = spec_scan(lim2, oct2, f, distance).unwrap();
            &&& s2.depth_idx == a + b * s.depth_idx
            &&& s2.start_lateral_idx == g + e * s.start_lateral_idx
            &&& s2.end_lateral_idx == g + e * s.end_lateral_idx
        },
{
    let k = f.depth as int;
    let ls = oct.lateral_step as int;
    let ls2 = oct2.lateral_step as int;
    let ds = oct.depth_step as int;
    let num0 = f.min_slope.num as int;
    let den0 = f.min_slope.den as int;
    let num1 = f.max_slope.num as int;
    let den1 = f.max_slope.den as int;
    let p_start = den0 + ls * num0 * (2 * k - 1);
    let p_start2 = den0 + ls2 * num0 * (2 * k - 1);
    let p_end = den1 + ls * num1 * (2 * k + 1);
    let p_end2 = den1 + ls2 * num1 * (2 * k + 1);
    let di = lim.eye_depth_idx + k * ds;
    let di2 = lim2.eye_depth_idx + k * (oct2.depth_step as int);
    assert(di2 == a + b * di) by (nonlinear_arith)
        requires
            di2 == lim2.eye_depth_idx + k * (oct2.depth_step as int),
            di == lim.eye_depth_idx + k * ds,
            lim2.eye_depth_idx == a + b * lim.eye_depth_idx,
            oct2.depth_step == b * ds,
            b == 1 || b == -1,
    ;
    let rs = round_ratio(oct.round_start, p_start, 2 * den0);
    let rs2 = round_ratio(oct2.round_start, p_start2, 2 * den0);
    let re = round_ratio(oct.round_end, p_end, 2 * den1);
    let re2 = round_ratio(oct2.round_end, p_end2, 2 * den1);
    if e == 1 {
        assert(ls2 == ls);
        assert(oct2.round_start == oct.round_start && oct2.round_end == oct.round_end);
        assert(p_start2 == p_start && p_end2 == p_end);
        assert(rs2 == rs && re2 == re);
    } else {
        assert(ls2 == -ls);
        assert(p_start2 == 2 * den0 - p_start) by (nonlinear_arith)
            requires
                p_start2 == den0 + ls2 * num0 * (2 * k - 1),
                p_start == den0 + ls * num0 * (2 * k - 1),
                ls2 == -ls,
        ;
        assert(p_end2 == 2 * den1 - p_end) by (nonlinear_arith)
            requires
                p_end2 == den1 + ls2 * num1 * (2 * k + 1),
                p_end == den1 + ls * num1 * (2 * k + 1),
                ls2 == -ls,
        ;
        lemma_round_flip(p_start, 2 * den0);
        lemma_round_flip(p_end, 2 * den1);
        assert(rs2 == -rs);
        assert(re2 == -re);
    }
    let start = lim.eye_lateral_idx + rs;
    let start2 = lim2.eye_lateral_idx + rs2;
    let end = lim.eye_lateral_idx + re;
    let end2 = lim2.eye_lateral_idx + re2;
    assert(start2 == g + e * start && end2 == g + e * end) by (nonlinear_arith)
        requires
            start == lim.eye_lateral_idx + rs,
            start2 == lim2.eye_lateral_idx + rs2,
            end == lim.eye_lateral_idx + re,
            end2 == lim2.eye_lateral_idx + re2,
            lim2.eye_lateral_idx == g + e * lim.eye_lateral_idx,
            e == 1 ==> rs2 == rs && re2 == re,
            e == -1 ==> rs2 == -rs && re2 == -re,
            e == 1 || e == -1,
    ;
    let lext = lim.lateral_extent as int;
    assert(clamp(end2, 0, lext - 1) == g + e * clamp(end, 0, lext - 1));
}

/// Everything the quarter turn relates in one octant.
pub open spec fn turned_setting(
    oct: Octant,
    oct2: Octant,
    eye: Coord,
    eye2: Coord,
    world: StaticGrid<u32>,
    world2: StaticGrid<u32>,
) -> bool {
    &&& octant_ok(oct)
    &&& octant_ok(oct2)
    &&& corners_ok(oct)
    &&& corners_ok(oct2)
    &&& turned_octant(oct, oct2)
    &&& world_fits(world)
    &&& world_fits(world2)
    &&& turned_world(world, world2)
    &&& turned_cell(world.spec_height() as int, eye, eye2)
}

proof fn lemma_limits_turned(
    oct: Octant,
    oct2: Octant,
    eye: Coord,
    eye2: Coord,
    world: StaticGrid<u32>,
    world2: StaticGrid<u32>,
)
    requires
        turned_setting(oct, oct2, eye, eye2, world, world2),
    ensures
        ({
            let h = world.spec_height() as int;
            let lim = spec_limits(oct, eye, world);
            let lim2 = spec_limits(oct2, eye2, world2);
            &&& limits_fit(lim)
            &&& lim2.depth_extent == lim.depth_extent
            &&& lim2.lateral_extent == lim.lateral_extent
            &&& lim2.eye_depth_idx == axis_shift(oct.depth_axis, h) + axis_sign(oct.depth_axis)
                * lim.eye_depth_idx
            &&& flip_ok(
                axis_shift(oct.depth_axis, h),
                axis_sign(oct.depth_axis),
                lim.depth_extent as int,
            )
            &&& lim2.eye_lateral_idx == axis_shift(oct.lateral_axis, h) + axis_sign(
                oct.lateral_axis,
            ) * lim.eye_lateral_idx
            &&& flip_ok(
                axis_shift(oct.lateral_axis, h),
                axis_sign(oct.lateral_axis),
                lim.lateral_extent as int,
            )
        }),
{
}

proof fn lemma_corner_turned(
    oct: Octant,
    oct2: Octant,
    eye: Coord,
    eye2: Coord,
    c: Coord,
    c2: Coord,
    h: int,
)
    requires
        octant_ok(oct),
        octant_ok(oct2),
        corners_ok(oct),
        corners_ok(oct2),
        turned_octant(oct, oct2),
        turned_cell(h, eye, eye2),
        turned_cell(h, c, c2),
    ensures
        corner_slope(oct2, eye2, c2, oct2.opacity_increase_corner) == corner_slope(
            oct,
            eye,
            c,
            oct.opacity_increase_corner,
        ),
        corner_slope(oct2, eye2, c2, oct2.opacity_decrease_corner) == corner_slope(
            oct,
            eye,
            c,
            oct.opacity_decrease_corner,
        ),
{
    let ds = oct.depth_step as int;
    let ls = oct.lateral_step as int;
    let dx = c.x - eye.x;
    let dy = c.y - eye.y;
    assert(c2.x - eye2.x == -dy && c2.y - eye2.y == dx);
    let inc = crate::direction::ord_vec(oct.opacity_increase_corner);
    let dec = crate::direction::ord_vec(oct.opacity_decrease_corner);
    let inc2 = crate::direction::ord_vec(oct2.opacity_increase_corner);
    let dec2 = crate::direction::ord_vec(oct2.opacity_decrease_corner);
    if oct.depth_axis == Axis::X {
        assert(oct.lateral_axis == Axis::Y && oct2.depth_axis == Axis::Y && oct2.lateral_axis
            == Axis::X);
        assert(oct2.depth_step == ds && oct2.lateral_step == -ls);
        assert(inc.0 == ds && inc.1 == -ls && inc2.1 == ds && inc2.0 == ls);
        assert(dec.0 == -ds && dec.1 == -ls && dec2.1 == -ds && dec2.0 == ls);
    } else {
        assert(oct.lateral_axis == Axis::X && oct2.depth_axis == Axis::X && oct2.lateral_axis
            == Axis::Y);
        assert(oct2.depth_step == -ds && oct2.lateral_step == ls);
        assert(inc.1 == ds && inc.0 == -ls && inc2.0 == -ds && inc2.1 == -ls);
        assert(dec.1 == -ds && dec.0 == -ls && dec2.0 == ds && dec2.1 == -ls);
    }
}

proof fn lemma_row_cell_turned(
    oct: Octant,
    oct2: Octant,
    eye: Coord,
    eye2: Coord,
    world: StaticGrid<u32>,
    world2: StaticGrid<u32>,
    distance: int,
    f: Frame,
    scan: Scan,
    scan2: Scan,
    i: int,
)
    requires
        turned_setting(oct, oct2, eye, eye2, world, world2),
        spec_scan(spec_limits(oct, eye, world), oct, f, distance) == Some(scan),
        spec_scan(spec_limits(oct2, eye2, world2), oct2, f, distance) == Some(scan2),
        scan2.depth_idx == axis_shift(oct.depth_axis, world.spec_height() as int) + axis_sign(
            oct.depth_axis,
        ) * scan.depth_idx,
        scan2.start_lateral_idx == axis_shift(oct.lateral_axis, world.spec_height() as int)
            + axis_sign(oct.lateral_axis) * scan.start_lateral_idx,
        row_len(oct2, scan2) == row_len(oct, scan),
        0 <= i < row_len(oct, scan),
    ensures
        ({
            let h = world.spec_height() as int;
            let c = row_coord(oct, scan, i);
            let c2 = row_coord(oct2, scan2, i);
            &&& turned_cell(h, c, c2)
            &&& world2.cell(c2.x as int, c2.y as int) == world.cell(c.x as int, c.y as int)
            &&& dist2(c2, eye2) == dist2(c, eye)
        }),
{
    let h = world.spec_height() as int;
    let e = axis_sign(oct.lateral_axis);
    let ls = oct.lateral_step as int;
    lemma_row_cells(oct, eye, world, distance, f, scan);
    lemma_row_cells(oct2, eye2, world2, distance, f, scan2);
    let c = row_coord(oct, scan, i);
    let c2 = row_coord(oct2, scan2, i);
    assert(oct2.lateral_step == e * ls);
    assert(scan2.start_lateral_idx + i * oct2.lateral_step == axis_shift(oct.lateral_axis, h)
        + e * (scan.start_lateral_idx + i * ls)) by (nonlinear_arith)
        requires
            scan2.start_lateral_idx == axis_shift(oct.lateral_axis, h) + e
                * scan.start_lateral_idx,
            oct2.lateral_step == e * ls,
    ;
    let lat = scan.start_lateral_idx + i * ls;
    assert(crate::shadowcast::axis_part(
        oct.lateral_axis,
        crate::shadowcast::coord_vec(c),
    ) == lat);
    assert(crate::shadowcast::axis_part(
        oct.depth_axis,
        crate::shadowcast::coord_vec(c),
    ) == scan.depth_idx);
    assert(crate::shadowcast::axis_part(
        oct2.lateral_axis,
        crate::shadowcast::coord_vec(c2),
    ) == axis_shift(oct.lateral_axis, h) + e * lat);
    assert(crate::shadowcast::axis_part(
        oct2.depth_axis,
        crate::shadowcast::coord_vec(c2),
    ) == scan2.depth_idx);
    let a = axis_shift(oct.depth_axis, h);
    let b = axis_sign(oct.depth_axis);
    if oct.depth_axis == Axis::X {
        assert(b == 1 && a == 0);
        assert(scan2.depth_idx == scan.depth_idx) by (nonlinear_arith)
            requires
                scan2.depth_idx == a + b * scan.depth_idx,
                b == 1,
                a == 0,
        ;
        assert(oct2.depth_axis == Axis::Y);
        assert(c2.y == c.x);
        assert(c2.x == h - 1 - c.y);
    } else {
        assert(b == -1 && a == h - 1);
        assert(scan2.depth_idx == h - 1 - scan.depth_idx) by (nonlinear_arith)
            requires
                scan2.depth_idx == a + b * scan.depth_idx,
                b == -1,
                a == h - 1,
        ;
        assert(c2.x == h - 1 - c.y);
        assert(c2.y == c.x);
    }
    assert(turned_cell(h, c, c2));
    assert(world.cell(c.x as int, c.y as int) == world2.cell(h - 1 - c.y, c.x as int));
    assert(world2.cell(c2.x as int, c2.y as int) == world.cell(c.x as int, c.y as int));
    assert(dist2(c2, eye2) == dist2(c, eye)) by (nonlinear_arith)
        requires
            c2.x - eye2.x == -(c.y - eye.y),
            c2.y - eye2.y == c.x - eye.x,
    ;
}

#[verifier::rlimit(80)]
proof fn lemma_row_turned(
    oct: Octant,
    oct2: Octant,
    eye: Coord,
    eye2: Coord,
    world: StaticGrid<u32>,
    world2: StaticGrid<u32>,
    distance: int,
    f: Frame,
    scan: Scan,
    scan2: Scan,
    n: int,
)
    requires
        turned_setting(oct, oct2, eye, eye2, world, world2),
        f.wf(),
        spec_scan(spec_limits(oct, eye, world), oct, f, distance) == Some(scan),
        spec_scan(spec_limits(oct2, eye2, world2), oct2, f, distance) == Some(scan2),
        scan2.depth_idx == axis_shift(oct.depth_axis, world.spec_height() as int) + axis_sign(
            oct.depth_axis,
        ) * scan.depth_idx,
        scan2.start_lateral_idx == axis_shift(oct.lateral_axis, world.spec_height() as int)
            + axis_sign(oct.lateral_axis) * scan.start_lateral_idx,
        scan2.end_lateral_idx == axis_shift(oct.lateral_axis, world.spec_height() as int)
            + axis_sign(oct.lateral_axis) * scan.end_lateral_idx,
        0 <= n <= row_len(oct, scan),
    ensures
        row_len(oct2, scan2) == row_len(oct, scan),
        ({
            let h = world.spec_height() as int;
            let st = row_fold(oct, eye, world, distance, f, scan, n);
            let st2 = row_fold(oct2, eye2, world2, distance, f, scan2, n);
            &&& st2.first == st.first
            &&& st2.prev_opaque == st.prev_opaque
            &&& st2.prev_visibility == st.prev_visibility
            &&& st2.min_slope == st.min_slope
            &&& st2.pushed == st.pushed
            &&& st2.sightings == st.sightings.map_values(|s: Sighting| turn_sighting(h, s))
        }),
    decreases n,
{
    let h = world.spec_height() as int;
    let e = axis_sign(oct.lateral_axis);
    let ls = oct.lateral_step as int;
    assert(scan2.end_lateral_idx - scan2.start_lateral_idx == e * (scan.end_lateral_idx
        - scan.start_lateral_idx)) by (nonlinear_arith)
        requires
            scan2.start_lateral_idx == axis_shift(oct.lateral_axis, h) + e * scan.start_lateral_idx,
            scan2.end_lateral_idx == axis_shift(oct.lateral_axis, h) + e * scan.end_lateral_idx,
    ;
    assert(row_len(oct2, scan2) == row_len(oct, scan)) by (nonlinear_arith)
        requires
            scan2.end_lateral_idx - scan2.start_lateral_idx == e * (scan.end_lateral_idx
                - scan.start_lateral_idx),
            oct2.lateral_step == e * ls,
            e == 1 || e == -1,
            row_len(oct2, scan2) == (if (scan2.end_lateral_idx - scan2.start_lateral_idx)
                * oct2.lateral_step >= 0 {
                (scan2.end_lateral_idx - scan2.start_lateral_idx) * oct2.lateral_step + 1
            } else {
                0
            }),
            row_len(oct, scan) == (if (scan.end_lateral_idx - scan.start_lateral_idx) * ls >= 0 {
                (scan.end_lateral_idx - scan.start_lateral_idx) * ls + 1
            } else {
                0
            }),
    ;
    if n > 0 {
        lemma_row_turned(oct, oct2, eye, eye2, world, world2, distance, f, scan, scan2, n - 1);
        lemma_row_cells(oct, eye, world, distance, f, scan);
        lemma_row_cells(oct2, eye2, world2, distance, f, scan2);
        let i = n - 1;
        let st = row_fold(oct, eye, world, distance, f, scan, i);
        let st2 = row_fold(oct2, eye2, world2, distance, f, scan2, i);
        assert(row_fold(oct, eye, world, distance, f, scan, n) == row_step(
            oct,
            eye,
            world,
            distance,
            f,
            scan,
            st,
            i,
        ));
        assert(row_fold(oct2, eye2, world2, distance, f, scan2, n) == row_step(
            oct2,
            eye2,
            world2,
            distance,
            f,
            scan2,
            st2,
            i,
        ));
        let c = row_coord(oct, scan, i);
        let c2 = row_coord(oct2, scan2, i);
        lemma_row_cell_turned(oct, oct2, eye, eye2, world, world2, distance, f, scan, scan2, i);
        lemma_corner_turned(oct, oct2, eye, eye2, c, c2, h);
        let tf = |s: Sighting| turn_sighting(h, s);
        let opacity = world.cell(c.x as int, c.y as int).unwrap();
        let cur = crate::shadowcast::attenuate(f.visibility, opacity);
        assert(turn_sighting(h, Sighting { coord: c, opacity, visibility: cur }) == Sighting {
            coord: c2,
            opacity,
            visibility: cur,
        });
        assert(st.sightings.push(Sighting { coord: c, opacity, visibility: cur }).map_values(tf)
            =~= st.sightings.map_values(tf).push(tf(Sighting { coord: c, opacity, visibility: cur })));
    }
}

proof fn lemma_frame_trace_turned(
    oct: Octant,
    oct2: Octant,
    eye: Coord,
    eye2: Coord,
    world: StaticGrid<u32>,
    world2: StaticGrid<u32>,
    distance: int,
    f: Frame,
)
    requires
        turned_setting(oct, oct2, eye, eye2, world, world2),
        f.wf(),
    ensures
        frame_trace(oct2, eye2, world2, distance, f).0 == frame_trace(
            oct,
            eye,
            world,
            distance,
            f,
        ).0.map_values(|s: Sighting| turn_sighting(world.spec_height() as int, s)),
    decreases distance + 1 - f.depth, 1int, 0int,
{
    let h = world.spec_height() as int;
    let tf = |s: Sighting| turn_sighting(h, s);
    if f.depth <= distance {
        let lim = spec_limits(oct, eye, world);
        let lim2 = spec_limits(oct2, eye2, world2);
        lemma_limits_turned(oct, oct2, eye, eye2, world, world2);
        lemma_scan_turned(
            lim,
            lim2,
            oct,
            oct2,
            f,
            distance,
            axis_shift(oct.depth_axis, h),
            axis_sign(oct.depth_axis),
            axis_shift(oct.lateral_axis, h),
            axis_sign(oct.lateral_axis),
        );
        match spec_scan(lim, oct, f, distance) {
            None => {
                assert(Seq::<Sighting>::empty().map_values(tf) =~= Seq::<Sighting>::empty());
            },
            Some(scan) => {
                let scan2 = spec_scan(lim2, oct2, f, distance).unwrap();
                let len = row_len(oct, scan);
                lemma_row_turned(oct, oct2, eye, eye2, world, world2, distance, f, scan, scan2, len);
                let row = row_result(oct, eye, world, distance, f, scan);
                let row2 = row_result(oct2, eye2, world2, distance, f, scan2);
                lemma_row_fold_frames(oct, eye, world, distance, f, scan, len);
                lemma_children_trace_turned(
                    oct,
                    oct2,
                    eye,
                    eye2,
                    world,
                    world2,
                    distance,
                    f.depth as int,
                    row.pushed,
                );
                let ch = children_trace(oct, eye, world, distance, f.depth as int, row.pushed).0;
                assert((row.sightings + ch).map_values(tf) =~= row.sightings.map_values(tf)
                    + ch.map_values(tf));
            },
        }
    } else {
        assert(Seq::<Sighting>::empty().map_values(tf) =~= Seq::<Sighting>::empty());
    }
}

proof fn lemma_children_trace_turned(
    oct: Octant,
    oct2: Octant,
    eye: Coord,
    eye2: Coord,
    world: StaticGrid<u32>,
    world2: StaticGrid<u32>,
    distance: int,
    depth: int,
    fs: Seq<Frame>,
)
    requires
        turned_setting(oct, oct2, eye, eye2, world, world2),
        frames_at(fs, depth + 1),
    ensures
        children_trace(oct2, eye2, world2, distance, depth, fs).0 == children_trace(
            oct,
            eye,
            world,
            distance,
            depth,
            fs,
        ).0.map_values(|s: Sighting| turn_sighting(world.spec_height() as int, s)),
    decreases distance + 1 - depth, 0int, fs.len(),
{
    let h = world.spec_height() as int;
    let tf = |s: Sighting| turn_sighting(h, s);
    if depth < 0 || depth > distance || depth >= u64::MAX || fs.len() == 0 {
        assert(Seq::<Sighting>::empty().map_values(tf) =~= Seq::<Sighting>::empty());
    } else {
        let g = fs.last();
        assert(g == fs[fs.len() - 1]);
        let child = Frame {
            depth: (depth + 1) as u64,
            min_slope: g.min_slope,
            max_slope: g.max_slope,
            visibility: g.visibility,
        };
        lemma_frame_trace_turned(oct, oct2, eye, eye2, world, world2, distance, child);
        assert(frames_at(fs.drop_last(), depth + 1)) by {
            assert forall|j: int| 0 <= j < fs.drop_last().len() implies (#[trigger] fs.drop_last()[j]).wf()
                && fs.drop_last()[j].depth == depth + 1 by {
                assert(fs.drop_last()[j] == fs[j]);
            }
        }
        lemma_children_trace_turned(
            oct,
            oct2,
            eye,
            eye2,
            world,
            world2,
            distance,
            depth,
            fs.drop_last(),
        );
        let a = frame_trace(oct, eye, world, distance, child).0;
        let b = children_trace(oct, eye, world, distance, depth, fs.drop_last()).0;
        assert((a + b).map_values(tf) =~= a.map_values(tf) + b.map_values(tf));
    }
}

/// Every sighting of `s` is of a cell of `world`.
pub open spec fn within_world(world: StaticGrid<u32>, s: Seq<Sighting>) -> bool {
    forall|k: int|
        0 <= k < s.len() ==> world.in_bounds(
            (#[trigger] s[k]).coord.x as int,
            s[k].coord.y as int,
        )
}

proof fn lemma_within_world_append(world: StaticGrid<u32>, a: Seq<Sighting>, b: Seq<Sighting>)
    requires
        within_world(world, a),
        within_world(world, b),
    ensures
        within_world(world, a + b),
{
    assert forall|k: int| 0 <= k < (a + b).len() implies world.in_bounds(
        (#[trigger] (a + b)[k]).coord.x as int,
        (a + b)[k].coord.y as int,
    ) by {
        if k >= a.len() {
            assert((a + b)[k] == b[k - a.len()]);
        }
    }
}

proof fn lemma_frame_trace_within(oct: Octant, eye: Coord, world: StaticGrid<u32>, distance: int, f: Frame)
    requires
        octant_ok(oct),
        world_fits(world),
        f.wf(),
    ensures
        within_world(world, frame_trace(oct, eye, world, distance, f).0),
    decreases distance + 1 - f.depth, 1int, 0int,
{
    if f.depth <= distance {
        match spec_scan(spec_limits(oct, eye, world), oct, f, distance) {
            None => {},
            Some(scan) => {
                let len = row_len(oct, scan);
                let row = row_result(oct, eye, world, distance, f, scan);
                lemma_row_cells(oct, eye, world, distance, f, scan);
                lemma_row_fold_frames(oct, eye, world, distance, f, scan, len);
                assert forall|k: int| 0 <= k < row.sightings.len() implies world.in_bounds(
                    (#[trigger] row.sightings[k]).coord.x as int,
                    row.sightings[k].coord.y as int,
                ) by {
                    lemma_row_sightings_in_row(oct, eye, world, distance, f, scan, len, k);
                    let i = choose|i: int|
                        0 <= i < len && row.sightings[k].coord == #[trigger] row_coord(oct, scan, i);
                    assert(world.cell(
                        row_coord(oct, scan, i).x as int,
                        row_coord(oct, scan, i).y as int,
                    ) is Some);
                }
                lemma_children_trace_within(oct, eye, world, distance, f.depth as int, row.pushed);
                lemma_within_world_append(
                    world,
                    row.sightings,
                    children_trace(oct, eye, world, distance, f.depth as int, row.pushed).0,
                );
            },
        }
    }
}

proof fn lemma_children_trace_within(
    oct: Octant,
    eye: Coord,
    world: StaticGrid<u32>,
    distance: int,
    depth: int,
    fs: Seq<Frame>,
)
    requires
        octant_ok(oct),
        world_fits(world),
        frames_at(fs, depth + 1),
    ensures
        within_world(world, children_trace(oct, eye, world, distance, depth, fs).0),
    decreases distance + 1 - depth, 0int, fs.len(),
{
    if !(depth < 0 || depth > distance || depth >= u64::MAX || fs.len() == 0) {
        let g = fs.last();
        assert(g == fs[fs.len() - 1]);
        let child = Frame {
            depth: (depth + 1) as u64,
            min_slope: g.min_slope,
            max_slope: g.max_slope,
            visibility: g.visibility,
        };
        lemma_frame_trace_within(oct, eye, world, distance, child);
        assert(frames_at(fs.drop_last(), depth + 1)) by {
            assert forall|j: int| 0 <= j < fs.drop_last().len() implies (#[trigger] fs.drop_last()[j]).wf()
                && fs.drop_last()[j].depth == depth + 1 by {
                assert(fs.drop_last()[j] == fs[j]);
            }
        }
        lemma_children_trace_within(oct, eye, world, distance, depth, fs.drop_last());
        lemma_within_world_append(
            world,
            frame_trace(oct, eye, world, distance, child).0,
            children_trace(oct, eye, world, distance, depth, fs.drop_last()).0,
        );
    }
}

proof fn lemma_table_turned(i: int)
    requires
        0 <= i < NUM_OCTANTS,
    ensures
        turned_octant(octant_table()[i], octant_table()[(i + 6) % 8]),
{
    let t = octant_table();
    assert(t[0] == spec_octant(CardinalDirection::West, CardinalDirection::South));
    assert(t[1] == spec_octant(CardinalDirection::South, CardinalDirection::West));
    assert(t[2] == spec_octant(CardinalDirection::South, CardinalDirection::East));
    assert(t[3] == spec_octant(CardinalDirection::East, CardinalDirection::South));
    assert(t[4] == spec_octant(CardinalDirection::East, CardinalDirection::North));
    assert(t[5] == spec_octant(CardinalDirection::North, CardinalDirection::East));
    assert(t[6] == spec_octant(CardinalDirection::North, CardinalDirection::West));
    assert(t[7] == spec_octant(CardinalDirection::West, CardinalDirection::North));
}

proof fn lemma_octants_seen(eye: Coord, world: StaticGrid<u32>, distance: int, n: int, c: Coord)
    requires
        0 <= n <= NUM_OCTANTS,
    ensures
        seen(octants_trace(eye, world, distance, n), c) <==> exists|o: int|
            0 <= o < n && #[trigger] seen(
                frame_trace(octant_table()[o], eye, world, distance, seed_frame()).0,
                c,
            ),
    decreases n,
{
    if n > 0 {
        lemma_octants_seen(eye, world, distance, n - 1, c);
        let a = octants_trace(eye, world, distance, n - 1);
        let b = frame_trace(octant_table()[n - 1], eye, world, distance, seed_frame()).0;
        lemma_seen_append(a, b, c);
        lemma_seen_split(a, b, c);
    } else {
        assert(!seen(Seq::<Sighting>::empty(), c));
    }
}

proof fn lemma_octant_pair_seen(
    eye: Coord,
    eye2: Coord,
    world: StaticGrid<u32>,
    world2: StaticGrid<u32>,
    distance: int,
    i: int,
    c: Coord,
    c2: Coord,
)
    requires
        0 <= i < NUM_OCTANTS,
        world_fits(world),
        world_fits(world2),
        turned_world(world, world2),
        turned_cell(world.spec_height() as int, eye, eye2),
        turned_cell(world.spec_height() as int, c, c2),
    ensures
        seen(frame_trace(octant_table()[(i + 6) % 8], eye2, world2, distance, seed_frame()).0, c2)
            == seen(frame_trace(octant_table()[i], eye, world, distance, seed_frame()).0, c),
{
    let h = world.spec_height() as int;
    let o2 = (i + 6) % 8;
    lemma_table_ok(i);
    lemma_table_ok(o2);
    lemma_table_turned(i);
    let oct = octant_table()[i];
    let oct2 = octant_table()[o2];
    assert(turned_setting(oct, oct2, eye, eye2, world, world2));
    assert(seed_frame().wf());
    lemma_frame_trace_turned(oct, oct2, eye, eye2, world, world2, distance, seed_frame());
    lemma_frame_trace_within(oct, eye, world, distance, seed_frame());
    let t = frame_trace(oct, eye, world, distance, seed_frame()).0;
    let t2 = frame_trace(oct2, eye2, world2, distance, seed_frame()).0;
    assert(t2 == t.map_values(|s: Sighting| turn_sighting(h, s)));
    if seen(t2, c2) {
        let k = choose|k: int| 0 <= k < t2.len() && (#[trigger] t2[k]).coord == c2;
        assert(t2[k] == turn_sighting(h, t[k]));
        assert(world.in_bounds(t[k].coord.x as int, t[k].coord.y as int));
        assert(t[k].coord == c);
    }
    if seen(t, c) {
        let k = choose|k: int| 0 <= k < t.len() && (#[trigger] t[k]).coord == c;
        assert(t2[k] == turn_sighting(h, t[k]));
        assert(t2[k].coord == c2);
    }
}

proof fn lemma_eye_turned(
    eye: Coord,
    eye2: Coord,
    world: StaticGrid<u32>,
    world2: StaticGrid<u32>,
    c: Coord,
    c2: Coord,
)
    requires
        turned_world(world, world2),
        turned_cell(world.spec_height() as int, eye, eye2),
        turned_cell(world.spec_height() as int, c, c2),
    ensures
        seen(eye_sighting(eye2, world2), c2) == seen(eye_sighting(eye, world), c),
{
    let h = world.spec_height() as int;
    let e1 = eye_sighting(eye, world);
    let e2 = eye_sighting(eye2, world2);
    assert(world.cell(eye.x as int, eye.y as int) == world2.cell(h - 1 - eye.y, eye.x as int));
    if seen(e2, c2) {
        let k = choose|k: int| 0 <= k < e2.len() && (#[trigger] e2[k]).coord == c2;
        assert(e1[0].coord == c);
    }
    if seen(e1, c) {
        let k = choose|k: int| 0 <= k < e1.len() && (#[trigger] e1[k]).coord == c;
        assert(e2[0].coord == c2);
    }
}

proof fn lemma_octants_turned_back(
    eye: Coord,
    eye2: Coord,
    world: StaticGrid<u32>,
    world2: StaticGrid<u32>,
    d: int,
    c: Coord,
    c2: Coord,
    j: int,
)
    requires
        world_fits(world),
        world_fits(world2),
        turned_world(world, world2),
        turned_cell(world.spec_height() as int, eye, eye2),
        turned_cell(world.spec_height() as int, c, c2),
        0 <= j < NUM_OCTANTS,
        seen(frame_trace(octant_table()[j], eye2, world2, d, seed_frame()).0, c2),
    ensures
        seen(octants_trace(eye, world, d, NUM_OCTANTS as int), c),
{
    let i = (j + 2) % 8;
    assert((i + 6) % 8 == j);
    lemma_octant_pair_seen(eye, eye2, world, world2, d, i, c, c2);
    lemma_octants_seen(eye, world, d, NUM_OCTANTS as int, c);
}

proof fn lemma_octants_turned_forth(
    eye: Coord,
    eye2: Coord,
    world: StaticGrid<u32>,
    world2: StaticGrid<u32>,
    d: int,
    c: Coord,
    c2: Coord,
    i: int,
)
    requires
        world_fits(world),
        world_fits(world2),
        turned_world(world, world2),
        turned_cell(world.spec_height() as int, eye, eye2),
        turned_cell(world.spec_height() as int, c, c2),
        0 <= i < NUM_OCTANTS,
        seen(frame_trace(octant_table()[i], eye, world, d, seed_frame()).0, c),
    ensures
        seen(octants_trace(eye2, world2, d, NUM_OCTANTS as int), c2),
{
    lemma_octant_pair_seen(eye, eye2, world, world2, d, i, c, c2);
    lemma_octants_seen(eye2, world2, d, NUM_OCTANTS as int, c2);
}

proof fn lemma_octants_turned(
    eye: Coord,
    eye2: Coord,
    world: StaticGrid<u32>,
    world2: StaticGrid<u32>,
    d: int,
    c: Coord,
    c2: Coord,
)
    requires
        world_fits(world),
        world_fits(world2),
        turned_world(world, world2),
        turned_cell(world.spec_height() as int, eye, eye2),
        turned_cell(world.spec_height() as int, c, c2),
    ensures
        seen(octants_trace(eye2, world2, d, NUM_OCTANTS as int), c2) == seen(
            octants_trace(eye, world, d, NUM_OCTANTS as int),
            c,
        ),
{
    lemma_octants_seen(eye, world, d, NUM_OCTANTS as int, c);
    lemma_octants_seen(eye2, world2, d, NUM_OCTANTS as int, c2);
    if seen(octants_trace(eye2, world2, d, NUM_OCTANTS as int), c2) {
        let j = choose|j: int|
            0 <= j < NUM_OCTANTS && #[trigger] seen(
                frame_trace(octant_table()[j], eye2, world2, d, seed_frame()).0,
                c2,
            );
        lemma_octants_turned_back(eye, eye2, world, world2, d, c, c2, j);
    }
    if seen(octants_trace(eye, world, d, NUM_OCTANTS as int), c) {
        let i = choose|i: int|
            0 <= i < NUM_OCTANTS && #[trigger] seen(
                frame_trace(octant_table()[i], eye, world, d, seed_frame()).0,
                c,
            );
        lemma_octants_turned_forth(eye, eye2, world, world2, d, c, c2, i);
    }
}

/// Turning the world and the eye a quarter turn turns what is seen: from
/// the turned eye, a cell of the turned world is reported exactly when the
/// cell it came from is reported from the eye. Cell `(x, y)` of a world `h`
/// rows high turns to `(h - 1 - y, x)`; half and three quarter turns follow
/// by repeating the quarter turn.
pub proof fn lemma_quarter_turn_symmetry(
    eye: Coord,
    eye2: Coord,
    world: StaticGrid<u32>,
    world2: StaticGrid<u32>,
    distance: u32,
    c: Coord,
    c2: Coord,
)
    requires
        world_fits(world),
        world_fits(world2),
        turned_world(world, world2),
        turned_cell(world.spec_height() as int, eye, eye2),
        turned_cell(world.spec_height() as int, c, c2),
    ensures
        seen(spec_sightings(eye2, world2, distance as int), c2) == seen(
            spec_sightings(eye, world, distance as int),
            c,
        ),
{
    let d = distance as int;
    let e1 = eye_sighting(eye, world);
    let e2 = eye_sighting(eye2, world2);
    let o1 = octants_trace(eye, world, d, NUM_OCTANTS as int);
    let o2 = octants_trace(eye2, world2, d, NUM_OCTANTS as int);
    lemma_eye_turned(eye, eye2, world, world2, c, c2);
    lemma_octants_turned(eye, eye2, world, world2, d, c, c2);
    lemma_seen_append(e1, o1, c);
    lemma_seen_split(e1, o1, c);
    lemma_seen_append(e2, o2, c2);
    lemma_seen_split(e2, o2, c2);
}

} // verus!
