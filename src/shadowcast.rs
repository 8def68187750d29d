use vstd::prelude::*;

use crate::coord::Coord;
use crate::direction::{
    card_vec, negated, ord_vec, CardinalDirection, OrdinalDirection,
};
use crate::knowledge::{apply_sightings, KnowledgeGrid, ObservationMetadata};
use crate::laws::lemma_sightings_within_distance;
use crate::static_grid::StaticGrid;

verus! {

/// Visibility of an unobstructed sightline, and opacity of a cell that blocks
/// sight entirely. Both are counted in thousandths.
pub const VISIBILITY_MAX: u32 = 1000;

/// Number of octants scanned around the eye.
pub const NUM_OCTANTS: usize = 8;

/// Upper bound on either part of a slope: every slope is built from
/// differences of `i32` coordinates, counted in half cells.
pub const SLOPE_PART_BOUND: i64 = 0x4_0000_0000;

// ---------------------------------------------------------------------------
// Rounding
// ---------------------------------------------------------------------------

/// The two ways of turning a position along a row into a cell index.
#[derive(Debug, Clone, Copy, PartialEq, Eq, Structural)]
pub enum RoundType {
    /// Round towards negative infinity.
    Floor,
    /// Round towards negative infinity, and one further down where the value
    /// is already a whole number.
    ExclusiveFloor,
}

/// The rational `p / m` rounded by `rule` (`m` positive).
pub open spec fn round_ratio(rule: RoundType, p: int, m: int) -> int {
    match rule {
        RoundType::Floor => p / m,
        RoundType::ExclusiveFloor => if p % m == 0 {
            p / m - 1
        } else {
            p / m
        },
    }
}

/// Floor division with remainder: `p == q * m + r` and `0 <= r < m`.
fn floor_div_rem(p: i128, m: i128) -> (r: (i128, i128))
    requires
        0 < m < 0x1_0000_0000_0000_0000_0000_0000,
        -0x1_0000_0000_0000_0000_0000_0000 < p < 0x1_0000_0000_0000_0000_0000_0000,
    ensures
        r.0 == p / m,
        r.1 == p % m,
{
    let mu = m as u128;
    if p >= 0 {
        let pu = p as u128;
        let q = pu / mu;
        let rem = pu % mu;
        proof {
            vstd::arithmetic::div_mod::lemma_fundamental_div_mod(p as int, m as int);
            vstd::arithmetic::div_mod::lemma_div_pos_is_pos(p as int, m as int);
            vstd::arithmetic::div_mod::lemma_div_is_ordered_by_denominator(p as int, 1, m as int);
        }
        (q as i128, rem as i128)
    } else {
        let nu = (-p) as u128;
        let qn = nu / mu;
        let rn = nu % mu;
        proof {
            vstd::arithmetic::div_mod::lemma_fundamental_div_mod(-p as int, m as int);
            vstd::arithmetic::div_mod::lemma_div_pos_is_pos(-p as int, m as int);
            vstd::arithmetic::div_mod::lemma_div_is_ordered_by_denominator(-p as int, 1, m as int);
        }
        if rn == 0 {
            let q = -(qn as i128);
            proof {
                assert(p == q * m) by (nonlinear_arith)
                    requires
                        -p == m * qn + rn,
                        rn == 0,
                        q == -qn,
                ;
                vstd::arithmetic::div_mod::lemma_div_multiples_vanish(q as int, m as int);
                vstd::arithmetic::div_mod::lemma_mod_multiples_basic(q as int, m as int);
                assert(q * m == m * q) by (nonlinear_arith);
            }
            (q, 0)
        } else {
            let q = -(qn as i128) - 1;
            let rem = m - (rn as i128);
            proof {
                assert(p == q * m + rem) by (nonlinear_arith)
                    requires
                        -p == m * qn + rn,
                        q == -qn - 1,
                        rem == m - rn,
                ;
                vstd::arithmetic::div_mod::lemma_fundamental_div_mod_converse(
                    p as int,
                    m as int,
                    q as int,
                    rem as int,
                );
            }
            (q, rem)
        }
    }
}

impl RoundType {
    /// Rounds the rational `p / m`.
    pub fn round(&self, p: i128, m: i128) -> (r: i128)
        requires
            0 < m < 0x1_0000_0000_0000_0000_0000_0000,
            -0x1_0000_0000_0000_0000_0000_0000 < p < 0x1_0000_0000_0000_0000_0000_0000,
        ensures
            r == round_ratio(*self, p as int, m as int),
    {
        let (q, rem) = floor_div_rem(p, m);
        proof {
            vstd::arithmetic::div_mod::lemma_fundamental_div_mod(p as int, m as int);
            assert(q * m <= p) by (nonlinear_arith)
                requires
                    p == m * q + rem,
                    0 <= rem,
            ;
            assert(q >= -0x1_0000_0000_0000_0000_0000_0000) by (nonlinear_arith)
                requires
                    q * m <= p,
                    p < 0x1_0000_0000_0000_0000_0000_0000,
                    -0x1_0000_0000_0000_0000_0000_0000 < p,
                    0 < m,
                    p == m * q + rem,
                    0 <= rem < m,
            ;
        }
        match self {
            RoundType::Floor => q,
            RoundType::ExclusiveFloor => if rem == 0 {
                q - 1
            } else {
                q
            },
        }
    }
}


// ---------------------------------------------------------------------------
// Octant geometry
// ---------------------------------------------------------------------------

/// A grid axis.
#[derive(Debug, Clone, Copy, PartialEq, Eq, Structural)]
pub enum Axis {
    X,
    Y,
}

pub open spec fn axis_part(a: Axis, v: (int, int)) -> int {
    match a {
        Axis::X => v.0,
        Axis::Y => v.1,
    }
}

pub open spec fn coord_vec(c: Coord) -> (int, int) {
    (c.x as int, c.y as int)
}

/// The axis along which a cardinal direction points.
pub open spec fn axis_of(c: CardinalDirection) -> Axis {
    if card_vec(c).0 != 0 {
        Axis::X
    } else {
        Axis::Y
    }
}

/// `1` or `-1`: the sign of a cardinal direction along its axis.
pub open spec fn step_of(c: CardinalDirection) -> int {
    card_vec(c).0 + card_vec(c).1
}

/// The diagonal whose vector is `v`.
pub open spec fn ord_with_vec(v: (int, int)) -> OrdinalDirection {
    if v.0 > 0 {
        if v.1 > 0 {
            OrdinalDirection::SouthEast
        } else {
            OrdinalDirection::NorthEast
        }
    } else {
        if v.1 > 0 {
            OrdinalDirection::SouthWest
        } else {
            OrdinalDirection::NorthWest
        }
    }
}

pub open spec fn vec_add(a: (int, int), b: (int, int)) -> (int, int) {
    (a.0 + b.0, a.1 + b.1)
}

impl Axis {
    fn get(self, c: Coord) -> (r: i32)
        ensures
            r == axis_part(self, coord_vec(c)),
    {
        match self {
            Axis::X => c.x,
            Axis::Y => c.y,
        }
    }

    fn of_card(c: CardinalDirection) -> (r: Axis)
        ensures
            r == axis_of(c),
    {
        match c {
            CardinalDirection::North | CardinalDirection::South => Axis::Y,
            CardinalDirection::East | CardinalDirection::West => Axis::X,
        }
    }
}

/// How the one scanning procedure is laid onto one of the eight octants.
#[derive(Debug, Clone, Copy)]
pub struct Octant {
    /// Axis along which rows move away from the eye.
    pub depth_axis: Axis,
    /// Axis along which a row is walked.
    pub lateral_axis: Axis,
    /// Added to the depth coordinate as depth increases.
    pub depth_step: i32,
    /// Added to the lateral coordinate during a row scan.
    pub lateral_step: i32,
    /// Corner of the current cell through which the region is split when
    /// visibility falls from the previous cell.
    pub opacity_increase_corner: OrdinalDirection,
    /// Corner of the current cell through which the region is split when
    /// visibility rises from the previous cell.
    pub opacity_decrease_corner: OrdinalDirection,
    /// Rounding at the start of a row.
    pub round_start: RoundType,
    /// Rounding at the end of a row.
    pub round_end: RoundType,
}

/// The octant whose rows advance along `depth` and are walked along
/// `lateral`.
pub open spec fn spec_octant(depth: CardinalDirection, lateral: CardinalDirection) -> Octant {
    Octant {
        depth_axis: axis_of(depth),
        lateral_axis: axis_of(lateral),
        depth_step: step_of(depth) as i32,
        lateral_step: step_of(lateral) as i32,
        opacity_increase_corner: ord_with_vec(vec_add(card_vec(depth), negated(card_vec(lateral)))),
        opacity_decrease_corner: ord_with_vec(
            vec_add(negated(card_vec(depth)), negated(card_vec(lateral))),
        ),
        round_start: if step_of(lateral) == 1 {
            RoundType::Floor
        } else {
            RoundType::ExclusiveFloor
        },
        round_end: if step_of(lateral) == 1 {
            RoundType::ExclusiveFloor
        } else {
            RoundType::Floor
        },
    }
}

pub open spec fn perpendicular(a: CardinalDirection, b: CardinalDirection) -> bool {
    (card_vec(a).0 == 0) != (card_vec(b).0 == 0)
}

impl Octant {
    pub open spec fn wf(&self) -> bool {
        &&& self.depth_axis != self.lateral_axis
        &&& (self.depth_step == 1 || self.depth_step == -1)
        &&& (self.lateral_step == 1 || self.lateral_step == -1)
    }

    fn new(depth: CardinalDirection, lateral: CardinalDirection) -> (r: Octant)
        requires
            perpendicular(depth, lateral),
        ensures
            r == spec_octant(depth, lateral),
            r.wf(),
    {
        let depth_axis = Axis::of_card(depth);
        let lateral_axis = Axis::of_card(lateral);
        let depth_step = depth_axis.get(depth.vector());
        let lateral_step = lateral_axis.get(lateral.vector());
        let (round_start, round_end) = if lateral_step == 1 {
            (RoundType::Floor, RoundType::ExclusiveFloor)
        } else {
            (RoundType::ExclusiveFloor, RoundType::Floor)
        };
        let lateral_back = lateral.opposite();
        let increase = OrdinalDirection::from_cardinals(depth, lateral_back).unwrap();
        let decrease = OrdinalDirection::from_cardinals(depth.opposite(), lateral_back).unwrap();
        Octant {
            depth_axis,
            lateral_axis,
            depth_step,
            lateral_step,
            opacity_increase_corner: increase,
            opacity_decrease_corner: decrease,
            round_start,
            round_end,
        }
    }
}


// ---------------------------------------------------------------------------
// Slopes, frames and scan windows
// ---------------------------------------------------------------------------

/// The non-negative rational `num / den`: the lateral over the depth
/// displacement of a sightline, both counted in half cells.
#[derive(Debug, Clone, Copy, PartialEq, Eq, Structural)]
pub struct Slope {
    pub num: i64,
    pub den: i64,
}

/// `a` is at most `b`, as rationals.
pub open spec fn slope_le(a: Slope, b: Slope) -> bool {
    a.num * b.den <= b.num * a.den
}

/// `s` moved into the range from `lo` to `hi`.
pub open spec fn clamp_slope(s: Slope, lo: Slope, hi: Slope) -> Slope {
    if slope_le(s, lo) {
        lo
    } else if slope_le(hi, s) {
        hi
    } else {
        s
    }
}

impl Slope {
    /// Both parts fit the bound, and the denominator is positive.
    pub open spec fn bounded(&self) -> bool {
        &&& 0 <= self.num < SLOPE_PART_BOUND
        &&& 0 < self.den < SLOPE_PART_BOUND
    }

    /// A bounded slope between zero and one.
    pub open spec fn wf(&self) -> bool {
        &&& self.bounded()
        &&& self.num <= self.den
    }

    /// This slope moved into the range from `lo` to `hi`.
    fn clamped(self, lo: Slope, hi: Slope) -> (r: Slope)
        requires
            self.bounded(),
            lo.bounded(),
            hi.bounded(),
        ensures
            r == clamp_slope(self, lo, hi),
    {
        let (sn, sd) = (self.num as i128, self.den as i128);
        let (ln, ld) = (lo.num as i128, lo.den as i128);
        let (hn, hd) = (hi.num as i128, hi.den as i128);
        proof {
            lemma_slope_products(self, lo);
            lemma_slope_products(hi, self);
        }
        if sn * ld <= ln * sd {
            lo
        } else if hn * sd <= sn * hd {
            hi
        } else {
            self
        }
    }
}

proof fn lemma_slope_products(a: Slope, b: Slope)
    requires
        a.bounded(),
        b.bounded(),
    ensures
        0 <= a.num * b.den < 0x10_0000_0000_0000_0000,
        0 <= b.num * a.den < 0x10_0000_0000_0000_0000,
{
    assert(0 <= a.num * b.den < 0x10_0000_0000_0000_0000) by (nonlinear_arith)
        requires
            0 <= a.num < 0x4_0000_0000,
            0 < b.den < 0x4_0000_0000,
    ;
    assert(0 <= b.num * a.den < 0x10_0000_0000_0000_0000) by (nonlinear_arith)
        requires
            0 <= b.num < 0x4_0000_0000,
            0 < a.den < 0x4_0000_0000,
    ;
}

/// The order on slopes is transitive.
proof fn lemma_slope_le_trans(a: Slope, b: Slope, c: Slope)
    requires
        a.bounded(),
        b.bounded(),
        c.bounded(),
        slope_le(a, b),
        slope_le(b, c),
    ensures
        slope_le(a, c),
{
    assert(a.num * c.den <= c.num * a.den) by (nonlinear_arith)
        requires
            a.num * b.den <= b.num * a.den,
            b.num * c.den <= c.num * b.den,
            a.den > 0,
            b.den > 0,
            c.den > 0,
            a.num >= 0,
            b.num >= 0,
            c.num >= 0,
    ;
}

/// A clamped slope lies between the bounds, where the bounds are ordered.
pub proof fn lemma_clamp_slope(s: Slope, lo: Slope, hi: Slope)
    requires
        s.bounded(),
        lo.wf(),
        hi.wf(),
        slope_le(lo, hi),
    ensures
        clamp_slope(s, lo, hi).wf(),
        slope_le(lo, clamp_slope(s, lo, hi)),
        slope_le(clamp_slope(s, lo, hi), hi),
{
    let r = clamp_slope(s, lo, hi);
    assert(lo.num * lo.den <= lo.num * lo.den);
    assert(hi.num * hi.den <= hi.num * hi.den);
    if !slope_le(s, lo) && !slope_le(hi, s) {
        assert(s.num <= s.den) by (nonlinear_arith)
            requires
                s.num * hi.den < hi.num * s.den,
                hi.num <= hi.den,
                s.den > 0,
                hi.den > 0,
                s.num >= 0,
        ;
        assert(slope_le(lo, s) && slope_le(s, hi)) by (nonlinear_arith)
            requires
                !(s.num * lo.den <= lo.num * s.den),
                !(hi.num * s.den <= s.num * hi.den),
        ;
    }
}

pub open spec fn abs(x: int) -> int {
    if x < 0 {
        -x
    } else {
        x
    }
}

/// Twice the position of the corner `corner` of cell `c`.
pub open spec fn half_corner(c: Coord, corner: OrdinalDirection) -> (int, int) {
    (2 * c.x + 1 + ord_vec(corner).0, 2 * c.y + 1 + ord_vec(corner).1)
}

/// Twice the position of the centre of cell `c`.
pub open spec fn half_centre(c: Coord) -> (int, int) {
    (2 * c.x + 1, 2 * c.y + 1)
}

/// The slope, relative to the octant, of the line from the centre of the
/// eye's cell to a corner of cell `c`.
pub open spec fn corner_slope(oct: Octant, eye: Coord, c: Coord, corner: OrdinalDirection) -> Slope {
    let d = (
        half_corner(c, corner).0 - half_centre(eye).0,
        half_corner(c, corner).1 - half_centre(eye).1,
    );
    Slope {
        num: abs(axis_part(oct.lateral_axis, d)) as i64,
        den: abs(axis_part(oct.depth_axis, d)) as i64,
    }
}

impl Octant {
    /// The slope from the centre of `eye` to corner `corner` of cell `c`.
    fn compute_slope(&self, eye: Coord, c: Coord, corner: OrdinalDirection) -> (r: Slope)
        requires
            self.wf(),
        ensures
            r == corner_slope(*self, eye, c, corner),
            r.bounded(),
    {
        let v = corner.vector();
        let dx: i64 = 2 * (c.x as i64 - eye.x as i64) + v.x as i64;
        let dy: i64 = 2 * (c.y as i64 - eye.y as i64) + v.y as i64;
        let (lat, dep) = match self.depth_axis {
            Axis::X => (dy, dx),
            Axis::Y => (dx, dy),
        };
        let num = if lat < 0 {
            -lat
        } else {
            lat
        };
        let den = if dep < 0 {
            -dep
        } else {
            dep
        };
        Slope { num, den }
    }
}

/// A wedge, between two slopes, still to be scanned at row `depth`, lit with
/// what is left of the sightline's visibility.
#[derive(Debug, Clone, Copy, PartialEq, Eq, Structural)]
pub struct Frame {
    pub depth: u64,
    pub min_slope: Slope,
    pub max_slope: Slope,
    pub visibility: u32,
}

impl Frame {
    pub open spec fn wf(&self) -> bool {
        &&& self.depth >= 1
        &&& self.min_slope.wf()
        &&& self.max_slope.wf()
        &&& slope_le(self.min_slope, self.max_slope)
    }

    fn new(depth: u64, min_slope: Slope, max_slope: Slope, visibility: u32) -> (r: Frame)
        ensures
            r == (Frame { depth, min_slope, max_slope, visibility }),
    {
        Frame { depth, min_slope, max_slope, visibility }
    }
}

/// A cell reported as seen: where it is, its opacity, and the visibility
/// left after that opacity.
#[derive(Debug, Clone, Copy, PartialEq, Eq, Structural)]
pub struct Sighting {
    pub coord: Coord,
    pub opacity: u32,
    pub visibility: u32,
}

/// Extent of the world and position of the eye, in an octant's axes.
#[derive(Debug, Clone, Copy, PartialEq, Eq, Structural)]
pub struct Limits {
    pub depth_extent: i64,
    pub lateral_extent: i64,
    pub eye_depth_idx: i64,
    pub eye_lateral_idx: i64,
}

pub open spec fn extent(world: StaticGrid<u32>, a: Axis) -> int {
    match a {
        Axis::X => world.spec_width() as int,
        Axis::Y => world.spec_height() as int,
    }
}

pub open spec fn world_fits(world: StaticGrid<u32>) -> bool {
    &&& world.wf()
    &&& world.spec_width() <= i32::MAX
    &&& world.spec_height() <= i32::MAX
}

pub open spec fn spec_limits(oct: Octant, eye: Coord, world: StaticGrid<u32>) -> Limits {
    Limits {
        depth_extent: extent(world, oct.depth_axis) as i64,
        lateral_extent: extent(world, oct.lateral_axis) as i64,
        eye_depth_idx: axis_part(oct.depth_axis, coord_vec(eye)) as i64,
        eye_lateral_idx: axis_part(oct.lateral_axis, coord_vec(eye)) as i64,
    }
}

impl Limits {
    fn new(eye: Coord, world: &StaticGrid<u32>, octant: &Octant) -> (r: Limits)
        requires
            world_fits(*world),
        ensures
            r == spec_limits(*octant, eye, *world),
    {
        let w = world.width() as i64;
        let h = world.height() as i64;
        let (depth_extent, lateral_extent) = match octant.depth_axis {
            Axis::X => (w, h),
            Axis::Y => (h, w),
        };
        let (depth_extent, lateral_extent) = match octant.lateral_axis {
            Axis::X => (depth_extent, w),
            Axis::Y => (depth_extent, h),
        };
        Limits {
            depth_extent,
            lateral_extent,
            eye_depth_idx: octant.depth_axis.get(eye) as i64,
            eye_lateral_idx: octant.lateral_axis.get(eye) as i64,
        }
    }
}

/// One row to walk: its depth coordinate and its first and last lateral
/// coordinates, all within the world.
#[derive(Debug, Clone, Copy, PartialEq, Eq, Structural)]
pub struct Scan {
    pub depth_idx: i32,
    pub start_lateral_idx: i32,
    pub end_lateral_idx: i32,
}

pub open spec fn clamp(x: int, lo: int, hi: int) -> int {
    if x < lo {
        lo
    } else if x > hi {
        hi
    } else {
        x
    }
}

/// The row that frame `f` covers, clipped to the world; `None` where it lies
/// beyond the view distance, beyond the world's edge in depth, or starts
/// beyond it laterally.
pub open spec fn spec_scan(lim: Limits, oct: Octant, f: Frame, distance: int) -> Option<Scan> {
    let depth = f.depth as int;
    let ls = oct.lateral_step as int;
    let depth_idx = lim.eye_depth_idx + depth * oct.depth_step;
    let start = lim.eye_lateral_idx + round_ratio(
        oct.round_start,
        f.min_slope.den + ls * f.min_slope.num * (2 * depth - 1),
        2 * f.min_slope.den,
    );
    let end = lim.eye_lateral_idx + round_ratio(
        oct.round_end,
        f.max_slope.den + ls * f.max_slope.num * (2 * depth + 1),
        2 * f.max_slope.den,
    );
    if depth > distance {
        None
    } else if depth_idx < 0 || depth_idx >= lim.depth_extent {
        None
    } else if start < 0 || start >= lim.lateral_extent {
        None
    } else {
        Some(
            Scan {
                depth_idx: depth_idx as i32,
                start_lateral_idx: start as i32,
                end_lateral_idx: clamp(end, 0, lim.lateral_extent - 1) as i32,
            },
        )
    }
}

pub open spec fn limits_fit(lim: Limits) -> bool {
    &&& 0 <= lim.depth_extent <= i32::MAX
    &&& 0 <= lim.lateral_extent <= i32::MAX
    &&& i32::MIN <= lim.eye_depth_idx <= i32::MAX
    &&& i32::MIN <= lim.eye_lateral_idx <= i32::MAX
}

proof fn lemma_round_ratio_bound(rule: RoundType, p: int, m: int)
    requires
        0 < m,
    ensures
        abs(round_ratio(rule, p, m)) <= abs(p) + 1,
{
    vstd::arithmetic::div_mod::lemma_fundamental_div_mod(p, m);
    assert(abs(p / m) <= abs(p)) by (nonlinear_arith)
        requires
            0 < m,
            p == m * (p / m) + p % m,
            0 <= p % m < m,
    ;
}

impl Scan {
    fn new(limits: &Limits, frame: &Frame, octant: &Octant, distance: u32) -> (r: Option<Scan>)
        requires
            limits_fit(*limits),
            frame.wf(),
            octant.wf(),
        ensures
            r == spec_scan(*limits, *octant, *frame, distance as int),
    {
        if frame.depth > distance as u64 {
            return None;
        }
        let depth = frame.depth as i128;
        let ls = octant.lateral_step as i128;
        let depth_idx: i128 = if octant.depth_step == 1 {
            limits.eye_depth_idx as i128 + depth
        } else {
            limits.eye_depth_idx as i128 - depth
        };
        if depth_idx < 0 || depth_idx >= limits.depth_extent as i128 {
            return None;
        }
        let min_num = frame.min_slope.num as i128;
        let min_den = frame.min_slope.den as i128;
        assert(0 <= min_num * (2 * depth - 1) <= 0x4_0000_0000 * 0x2_0000_0000) by (nonlinear_arith)
            requires
                0 <= min_num < 0x4_0000_0000,
                1 <= 2 * depth - 1 < 0x2_0000_0000,
        ;
        let min_run = min_num * (2 * depth - 1);
        let min_offset = if ls == 1 {
            min_run
        } else {
            -min_run
        };
        let rel_start = octant.round_start.round(min_den + min_offset, 2 * min_den);
        proof {
            lemma_round_ratio_bound(
                octant.round_start,
                min_den + min_offset,
                2 * min_den,
            );
            assert(ls * (min_num * (2 * depth - 1)) == ls * min_num * (2 * depth - 1))
                by (nonlinear_arith);
        }
        let start = limits.eye_lateral_idx as i128 + rel_start;
        if start < 0 || start >= limits.lateral_extent as i128 {
            return None;
        }
        let max_num = frame.max_slope.num as i128;
        let max_den = frame.max_slope.den as i128;
        assert(0 <= max_num * (2 * depth + 1) <= 0x4_0000_0000 * 0x2_0000_0001) by (nonlinear_arith)
            requires
                0 <= max_num < 0x4_0000_0000,
                1 <= 2 * depth + 1 <= 0x2_0000_0001,
        ;
        let max_run = max_num * (2 * depth + 1);
        let max_offset = if ls == 1 {
            max_run
        } else {
            -max_run
        };
        let rel_end = octant.round_end.round(max_den + max_offset, 2 * max_den);
        proof {
            lemma_round_ratio_bound(
                octant.round_end,
                max_den + max_offset,
                2 * max_den,
            );
            assert(ls * (max_num * (2 * depth + 1)) == ls * max_num * (2 * depth + 1))
                by (nonlinear_arith);
        }
        let end_raw = limits.eye_lateral_idx as i128 + rel_end;
        let end = if end_raw < 0 {
            0
        } else if end_raw > limits.lateral_extent as i128 - 1 {
            limits.lateral_extent as i128 - 1
        } else {
            end_raw
        };
        Some(
            Scan {
                depth_idx: depth_idx as i32,
                start_lateral_idx: start as i32,
                end_lateral_idx: end as i32,
            },
        )
    }
}


// ---------------------------------------------------------------------------
// Row scanner
// ---------------------------------------------------------------------------

/// Number of cells in a row, walked from its start towards its end.
pub open spec fn row_len(oct: Octant, scan: Scan) -> int {
    let along = (scan.end_lateral_idx - scan.start_lateral_idx) * oct.lateral_step;
    if along >= 0 {
        along + 1
    } else {
        0
    }
}

/// The cell with depth coordinate `depth_idx` and lateral coordinate `lat`.
pub open spec fn octant_coord(oct: Octant, depth_idx: int, lat: int) -> Coord {
    match oct.depth_axis {
        Axis::X => Coord { x: depth_idx as i32, y: lat as i32 },
        Axis::Y => Coord { x: lat as i32, y: depth_idx as i32 },
    }
}

/// The `i`th cell of a row.
pub open spec fn row_coord(oct: Octant, scan: Scan, i: int) -> Coord {
    octant_coord(oct, scan.depth_idx as int, scan.start_lateral_idx + i * oct.lateral_step)
}

/// Squared distance between two cells.
pub open spec fn dist2(a: Coord, b: Coord) -> int {
    (a.x - b.x) * (a.x - b.x) + (a.y - b.y) * (a.y - b.y)
}

/// What is left of `visibility` after a cell of opacity `opacity`.
pub open spec fn attenuate(visibility: u32, opacity: u32) -> u32 {
    if visibility > opacity {
        (visibility - opacity) as u32
    } else {
        0
    }
}

/// Where a row scan stands after some of its cells.
pub struct RowState {
    pub first: bool,
    pub prev_opaque: bool,
    pub prev_visibility: u32,
    pub min_slope: Slope,
    pub sightings: Seq<Sighting>,
    pub pushed: Seq<Frame>,
}

pub open spec fn row_start(f: Frame) -> RowState {
    RowState {
        first: true,
        prev_opaque: false,
        prev_visibility: 0,
        min_slope: f.min_slope,
        sightings: Seq::empty(),
        pushed: Seq::empty(),
    }
}

/// One cell of a row scan. A cell outside the world changes nothing. A cell
/// within the view distance is reported. Where visibility changes from the
/// previous cell, the wedge seen so far is closed at the corner through
/// which the change is seen (kept between the wedge's start and the frame's
/// maximum slope, so that every wedge is ordered), and handed on to the next
/// row unless it was opaque. After the last cell the open end of the row is handed on.
pub open spec fn row_step(
    oct: Octant,
    eye: Coord,
    world: StaticGrid<u32>,
    distance: int,
    f: Frame,
    scan: Scan,
    st: RowState,
    i: int,
) -> RowState {
    let c = row_coord(oct, scan, i);
    match world.cell(c.x as int, c.y as int) {
        None => st,
        Some(opacity) => {
            let cur = attenuate(f.visibility, opacity);
            let sightings = if dist2(c, eye) <= distance * distance {
                st.sightings.push(Sighting { coord: c, opacity, visibility: cur })
            } else {
                st.sightings
            };
            let changed = !st.first && cur != st.prev_visibility;
            let slope = clamp_slope(
                corner_slope(
                    oct,
                    eye,
                    c,
                    if cur > st.prev_visibility {
                        oct.opacity_decrease_corner
                    } else {
                        oct.opacity_increase_corner
                    },
                ),
                st.min_slope,
                f.max_slope,
            );
            let pushed = if changed && !st.prev_opaque {
                st.pushed.push(
                    Frame {
                        depth: (f.depth + 1) as u64,
                        min_slope: st.min_slope,
                        max_slope: slope,
                        visibility: st.prev_visibility,
                    },
                )
            } else {
                st.pushed
            };
            let min_slope = if changed {
                slope
            } else {
                st.min_slope
            };
            let pushed = if i == row_len(oct, scan) - 1 && cur != 0 {
                pushed.push(
                    Frame {
                        depth: (f.depth + 1) as u64,
                        min_slope,
                        max_slope: f.max_slope,
                        visibility: cur,
                    },
                )
            } else {
                pushed
            };
            RowState {
                first: false,
                prev_opaque: cur == 0,
                prev_visibility: cur,
                min_slope,
                sightings,
                pushed,
            }
        },
    }
}

/// The state of a row scan after its first `n` cells.
pub open spec fn row_fold(
    oct: Octant,
    eye: Coord,
    world: StaticGrid<u32>,
    distance: int,
    f: Frame,
    scan: Scan,
    n: int,
) -> RowState
    decreases n,
{
    if n <= 0 {
        row_start(f)
    } else {
        row_step(
            oct,
            eye,
            world,
            distance,
            f,
            scan,
            row_fold(oct, eye, world, distance, f, scan, n - 1),
            n - 1,
        )
    }
}

/// The sightings and the frames of one whole row.
pub open spec fn row_result(
    oct: Octant,
    eye: Coord,
    world: StaticGrid<u32>,
    distance: int,
    f: Frame,
    scan: Scan,
) -> RowState {
    row_fold(oct, eye, world, distance, f, scan, row_len(oct, scan))
}

/// Everything a scan of one octant reads.
pub struct OctantArgs<'a> {
    pub octant: Octant,
    pub world: &'a StaticGrid<u32>,
    pub eye: Coord,
    pub distance: u32,
    pub distance_squared: u64,
}

impl<'a> OctantArgs<'a> {
    pub open spec fn wf(&self) -> bool {
        &&& self.octant.wf()
        &&& world_fits(*self.world)
        &&& self.distance_squared == self.distance * self.distance
    }

    fn new(octant: Octant, world: &'a StaticGrid<u32>, eye: Coord, distance: u32) -> (r: Self)
        requires
            octant.wf(),
            world_fits(*world),
        ensures
            r.wf(),
            r.octant == octant,
            r.world == world,
            r.eye == eye,
            r.distance == distance,
    {
        assert(distance * distance <= u64::MAX) by (nonlinear_arith)
            requires
                distance <= u32::MAX,
        ;
        OctantArgs {
            octant,
            world,
            eye,
            distance,
            distance_squared: distance as u64 * distance as u64,
        }
    }
}

/// No frame of `s` reaches beyond slope `hi`.
pub open spec fn frames_below(s: Seq<Frame>, hi: Slope) -> bool {
    forall|j: int| 0 <= j < s.len() ==> slope_le((#[trigger] s[j]).max_slope, hi)
}

/// Every frame of `s` is well formed and belongs to row `depth`.
pub open spec fn frames_at(s: Seq<Frame>, depth: int) -> bool {
    forall|j: int| 0 <= j < s.len() ==> (#[trigger] s[j]).wf() && s[j].depth == depth
}

proof fn lemma_frames_at_push(s: Seq<Frame>, depth: int, g: Frame)
    requires
        frames_at(s, depth),
        g.wf(),
        g.depth == depth,
    ensures
        frames_at(s.push(g), depth),
{
    assert forall|j: int| 0 <= j < s.push(g).len() implies (#[trigger] s.push(g)[j]).wf()
        && s.push(g)[j].depth == depth by {
        if j < s.len() {
            assert(s.push(g)[j] == s[j]);
        }
    }
}

#[verifier::rlimit(30)]
pub(crate) proof fn lemma_row_fold_frames(
    oct: Octant,
    eye: Coord,
    world: StaticGrid<u32>,
    distance: int,
    f: Frame,
    scan: Scan,
    n: int,
)
    requires
        f.wf(),
        oct.wf(),
        f.depth < u64::MAX,
    ensures
        row_fold(oct, eye, world, distance, f, scan, n).min_slope.wf(),
        slope_le(f.min_slope, row_fold(oct, eye, world, distance, f, scan, n).min_slope),
        slope_le(row_fold(oct, eye, world, distance, f, scan, n).min_slope, f.max_slope),
        frames_at(row_fold(oct, eye, world, distance, f, scan, n).pushed, f.depth + 1),
        frames_below(row_fold(oct, eye, world, distance, f, scan, n).pushed, f.max_slope),
    decreases n,
{
    if n <= 0 {
        assert(f.min_slope.num * f.min_slope.den <= f.min_slope.num * f.min_slope.den);
    } else {
        lemma_row_fold_frames(oct, eye, world, distance, f, scan, n - 1);
        let st = row_fold(oct, eye, world, distance, f, scan, n - 1);
        let c = row_coord(oct, scan, n - 1);
        let dec = corner_slope(oct, eye, c, oct.opacity_decrease_corner);
        let inc = corner_slope(oct, eye, c, oct.opacity_increase_corner);
        assert(dec.bounded());
        assert(inc.bounded());
        match world.cell(c.x as int, c.y as int) {
            None => {},
            Some(opacity) => {
                let cur = attenuate(f.visibility, opacity);
                let changed = !st.first && cur != st.prev_visibility;
                let raw = if cur > st.prev_visibility {
                    dec
                } else {
                    inc
                };
                let slope = clamp_slope(raw, st.min_slope, f.max_slope);
                lemma_clamp_slope(raw, st.min_slope, f.max_slope);
                lemma_slope_le_trans(f.min_slope, st.min_slope, slope);
                let pushed1 = if changed && !st.prev_opaque {
                    st.pushed.push(
                        Frame {
                            depth: (f.depth + 1) as u64,
                            min_slope: st.min_slope,
                            max_slope: slope,
                            visibility: st.prev_visibility,
                        },
                    )
                } else {
                    st.pushed
                };
                if changed && !st.prev_opaque {
                    lemma_frames_at_push(
                        st.pushed,
                        f.depth + 1,
                        Frame {
                            depth: (f.depth + 1) as u64,
                            min_slope: st.min_slope,
                            max_slope: slope,
                            visibility: st.prev_visibility,
                        },
                    );
                }
                let min_slope = if changed {
                    slope
                } else {
                    st.min_slope
                };
                if n - 1 == row_len(oct, scan) - 1 && cur != 0 {
                    lemma_frames_at_push(
                        pushed1,
                        f.depth + 1,
                        Frame {
                            depth: (f.depth + 1) as u64,
                            min_slope,
                            max_slope: f.max_slope,
                            visibility: cur,
                        },
                    );
                }
                assert(f.max_slope.num * f.max_slope.den <= f.max_slope.num * f.max_slope.den);
                let st2 = row_fold(oct, eye, world, distance, f, scan, n);
                assert(st2 == row_step(oct, eye, world, distance, f, scan, st, n - 1));
                assert forall|j: int| 0 <= j < st2.pushed.len() implies slope_le(
                    (#[trigger] st2.pushed[j]).max_slope,
                    f.max_slope,
                ) by {
                    if j < st.pushed.len() {
                        assert(st2.pushed[j] == st.pushed[j]);
                    }
                }
            },
        }
    }
}

/// Walks the row `scan` of frame `frame`: reports each cell within the view
/// distance to `out`, and pushes onto `stack` the wedges to scan at the next
/// depth.
fn scan(
    stack: &mut Vec<Frame>,
    out: &mut Vec<Sighting>,
    args: &OctantArgs,
    scan: &Scan,
    frame: &Frame,
)
    requires
        args.wf(),
        frame.wf(),
        frame.depth <= args.distance,
        spec_scan(
            spec_limits(args.octant, args.eye, *args.world),
            args.octant,
            *frame,
            args.distance as int,
        ) == Some(*scan),
    ensures
        final(stack)@ == old(stack)@ + row_result(
            args.octant,
            args.eye,
            *args.world,
            args.distance as int,
            *frame,
            *scan,
        ).pushed,
        final(out)@ == old(out)@ + row_result(
            args.octant,
            args.eye,
            *args.world,
            args.distance as int,
            *frame,
            *scan,
        ).sightings,
{
    let ghost oct = args.octant;
    let ghost eye = args.eye;
    let ghost world = *args.world;
    let ghost distance = args.distance as int;
    let ls: i64 = args.octant.lateral_step as i64;
    let start: i64 = scan.start_lateral_idx as i64;
    let end: i64 = scan.end_lateral_idx as i64;
    let along: i64 = if ls == 1 {
        end - start
    } else {
        start - end
    };
    let len: i64 = if along >= 0 {
        along + 1
    } else {
        0
    };
    assert(len == row_len(oct, *scan)) by (nonlinear_arith)
        requires
            ls == oct.lateral_step,
            ls == 1 || ls == -1,
            along == (if ls == 1 { end - start } else { start - end }),
            len == (if along >= 0 { along + 1 } else { 0 }),
            start == scan.start_lateral_idx,
            end == scan.end_lateral_idx,
            row_len(oct, *scan) == (if (scan.end_lateral_idx - scan.start_lateral_idx)
                * oct.lateral_step >= 0 {
                (scan.end_lateral_idx - scan.start_lateral_idx) * oct.lateral_step + 1
            } else {
                0
            }),
    ;
    let mut first = true;
    let mut previous_opaque = false;
    let mut previous_visibility: u32 = 0;
    let mut min_slope = frame.min_slope;
    let mut i: i64 = 0;
    let mut idx: i64 = start;
    while i < len
        invariant
            args.wf(),
            frame.wf(),
            frame.depth <= args.distance,
            oct == args.octant,
            eye == args.eye,
            world == *args.world,
            distance == args.distance,
            ls == oct.lateral_step,
            len == row_len(oct, *scan),
            0 <= i <= len,
            len <= 0x1_0000_0000,
            idx == start + i * ls,
            start == scan.start_lateral_idx,
            ({
                let st = row_fold(oct, eye, world, distance, *frame, *scan, i as int);
                &&& first == st.first
                &&& previous_opaque == st.prev_opaque
                &&& previous_visibility == st.prev_visibility
                &&& min_slope == st.min_slope
                &&& stack@ == old(stack)@ + st.pushed
                &&& out@ == old(out)@ + st.sightings
            }),
        decreases len - i,
    {
        proof {
            lemma_row_fold_frames(oct, eye, world, distance, *frame, *scan, i as int);
        }
        let ghost st = row_fold(oct, eye, world, distance, *frame, *scan, i as int);
        let ghost lat = start + i * ls;
        assert(i32::MIN <= lat <= i32::MAX) by (nonlinear_arith)
            requires
                lat == start + i * ls,
                ls == 1 || ls == -1,
                0 <= i < len,
                len == (if (scan.end_lateral_idx - scan.start_lateral_idx) * ls >= 0 {
                    (scan.end_lateral_idx - scan.start_lateral_idx) * ls + 1
                } else {
                    0
                }),
                start == scan.start_lateral_idx,
        ;
        let lateral = idx as i32;
        let coord = match args.octant.depth_axis {
            Axis::X => Coord { x: scan.depth_idx, y: lateral },
            Axis::Y => Coord { x: lateral, y: scan.depth_idx },
        };
        assert(coord == row_coord(oct, *scan, i as int));
        match args.world.get(coord) {
            None => {},
            Some(opacity_ref) => {
                let opacity = *opacity_ref;
                let dx = coord.x as i64 - args.eye.x as i64;
                let dy = coord.y as i64 - args.eye.y as i64;
                assert(0 <= dx * dx <= 0x1_0000_0000_0000_0000) by (nonlinear_arith)
                    requires
                        -0x1_0000_0000 <= dx <= 0x1_0000_0000,
                ;
                assert(0 <= dy * dy <= 0x1_0000_0000_0000_0000) by (nonlinear_arith)
                    requires
                        -0x1_0000_0000 <= dy <= 0x1_0000_0000,
                ;
                let dx2 = dx as i128 * dx as i128;
                let dy2 = dy as i128 * dy as i128;
                let current_visibility = if frame.visibility > opacity {
                    frame.visibility - opacity
                } else {
                    0
                };
                if dx2 + dy2 <= args.distance_squared as i128 {
                    out.push(Sighting { coord, opacity, visibility: current_visibility });
                }
                let current_opaque = current_visibility == 0;
                if !first && current_visibility != previous_visibility {
                    let corner = if current_visibility > previous_visibility {
                        args.octant.opacity_decrease_corner
                    } else {
                        args.octant.opacity_increase_corner
                    };
                    let raw = args.octant.compute_slope(args.eye, coord, corner);
                    let slope = raw.clamped(min_slope, frame.max_slope);
                    if !previous_opaque {
                        stack.push(Frame::new(frame.depth + 1, min_slope, slope, previous_visibility));
                    }
                    min_slope = slope;
                }
                if i == len - 1 && !current_opaque {
                    stack.push(Frame::new(frame.depth + 1, min_slope, frame.max_slope, current_visibility));
                }
                previous_opaque = current_opaque;
                previous_visibility = current_visibility;
                first = false;
            },
        }
        proof {
            let st2 = row_fold(oct, eye, world, distance, *frame, *scan, i + 1);
            assert(st2 == row_step(oct, eye, world, distance, *frame, *scan, st, i as int));
            assert(stack@ == old(stack)@ + st2.pushed);
            assert(out@ == old(out)@ + st2.sightings);
        }
        i = i + 1;
        idx = idx + ls;
    }
}


// ---------------------------------------------------------------------------
// Traversal of one octant
// ---------------------------------------------------------------------------

/// The wedge every octant starts from: the whole octant, at the first row,
/// in full visibility.
pub open spec fn seed_frame() -> Frame {
    Frame {
        depth: 1,
        min_slope: Slope { num: 0, den: 1 },
        max_slope: Slope { num: 1, den: 1 },
        visibility: VISIBILITY_MAX,
    }
}

/// What scanning wedge `f` yields: the sightings of its row followed by
/// those of the wedges it hands on, and the number of wedges scanned.
pub open spec fn frame_trace(
    oct: Octant,
    eye: Coord,
    world: StaticGrid<u32>,
    distance: int,
    f: Frame,
) -> (Seq<Sighting>, nat)
    decreases distance + 1 - f.depth, 1int, 0int,
{
    if f.depth > distance {
        (Seq::empty(), 1)
    } else {
        match spec_scan(spec_limits(oct, eye, world), oct, f, distance) {
            None => (Seq::empty(), 1),
            Some(scan) => {
                let row = row_result(oct, eye, world, distance, f, scan);
                let rest = children_trace(oct, eye, world, distance, f.depth as int, row.pushed);
                (row.sightings + rest.0, 1 + rest.1)
            },
        }
    }
}

/// The wedges `fs` handed on from row `depth`, scanned last one first.
pub open spec fn children_trace(
    oct: Octant,
    eye: Coord,
    world: StaticGrid<u32>,
    distance: int,
    depth: int,
    fs: Seq<Frame>,
) -> (Seq<Sighting>, nat)
    decreases distance + 1 - depth, 0int, fs.len(),
{
    if depth < 0 || depth > distance || depth >= u64::MAX || fs.len() == 0 {
        (Seq::empty(), 0)
    } else {
        let g = fs.last();
        let t = frame_trace(
            oct,
            eye,
            world,
            distance,
            Frame {
                depth: (depth + 1) as u64,
                min_slope: g.min_slope,
                max_slope: g.max_slope,
                visibility: g.visibility,
            },
        );
        let r = children_trace(oct, eye, world, distance, depth, fs.drop_last());
        (t.0 + r.0, t.1 + r.1)
    }
}

/// What the wedges waiting on a stack yield, top first.
pub open spec fn stack_trace(
    oct: Octant,
    eye: Coord,
    world: StaticGrid<u32>,
    distance: int,
    stack: Seq<Frame>,
) -> (Seq<Sighting>, nat)
    decreases stack.len(),
{
    if stack.len() == 0 {
        (Seq::empty(), 0)
    } else {
        let t = frame_trace(oct, eye, world, distance, stack.last());
        let r = stack_trace(oct, eye, world, distance, stack.drop_last());
        (t.0 + r.0, t.1 + r.1)
    }
}

/// Every frame on a stack is well formed and at most one row beyond the
/// view distance.
pub open spec fn stack_ok(stack: Seq<Frame>, distance: int) -> bool {
    forall|j: int|
        0 <= j < stack.len() ==> (#[trigger] stack[j]).wf() && stack[j].depth <= distance + 1
}

proof fn lemma_stack_trace_push_children(
    oct: Octant,
    eye: Coord,
    world: StaticGrid<u32>,
    distance: int,
    rest: Seq<Frame>,
    depth: int,
    fs: Seq<Frame>,
)
    requires
        0 <= depth <= distance,
        depth < u64::MAX,
        frames_at(fs, depth + 1),
    ensures
        stack_trace(oct, eye, world, distance, rest + fs) == (
            children_trace(oct, eye, world, distance, depth, fs).0 + stack_trace(
                oct,
                eye,
                world,
                distance,
                rest,
            ).0,
            children_trace(oct, eye, world, distance, depth, fs).1 + stack_trace(
                oct,
                eye,
                world,
                distance,
                rest,
            ).1,
        ),
    decreases fs.len(),
{
    if fs.len() == 0 {
        assert(rest + fs =~= rest);
        assert(stack_trace(oct, eye, world, distance, rest).0 =~= Seq::<Sighting>::empty()
            + stack_trace(oct, eye, world, distance, rest).0);
    } else {
        let all = rest + fs;
        assert(all.drop_last() =~= rest + fs.drop_last());
        assert(all.last() == fs.last());
        let g = fs.last();
        assert(frames_at(fs.drop_last(), depth + 1)) by {
            assert forall|j: int| 0 <= j < fs.drop_last().len() implies (#[trigger] fs.drop_last()[j]).wf()
                && fs.drop_last()[j].depth == depth + 1 by {
                assert(fs.drop_last()[j] == fs[j]);
            }
        }
        assert(g.wf() && g.depth == depth + 1) by {
            assert(fs[fs.len() - 1] == g);
        }
        assert(g == Frame {
            depth: (depth + 1) as u64,
            min_slope: g.min_slope,
            max_slope: g.max_slope,
            visibility: g.visibility,
        });
        lemma_stack_trace_push_children(oct, eye, world, distance, rest, depth, fs.drop_last());
        let t = frame_trace(oct, eye, world, distance, g);
        let c = children_trace(oct, eye, world, distance, depth, fs.drop_last());
        let r = stack_trace(oct, eye, world, distance, rest);
        assert(t.0 + (c.0 + r.0) =~= (t.0 + c.0) + r.0);
    }
}

/// Scans one octant from the seed wedge until no wedge is left, appending
/// the sightings to `out`.
fn detect_visible_area_octant(stack: &mut Vec<Frame>, out: &mut Vec<Sighting>, args: &OctantArgs)
    requires
        args.wf(),
        old(stack)@.len() == 0,
    ensures
        final(stack)@.len() == 0,
        final(out)@ == old(out)@ + frame_trace(
            args.octant,
            args.eye,
            *args.world,
            args.distance as int,
            seed_frame(),
        ).0,
{
    let ghost oct = args.octant;
    let ghost eye = args.eye;
    let ghost world = *args.world;
    let ghost distance = args.distance as int;
    let ghost target = frame_trace(oct, eye, world, distance, seed_frame());
    let limits = Limits::new(args.eye, args.world, &args.octant);
    stack.push(
        Frame::new(1, Slope { num: 0, den: 1 }, Slope { num: 1, den: 1 }, VISIBILITY_MAX),
    );
    proof {
        assert(stack@ =~= seq![seed_frame()]);
        assert(stack@.drop_last() =~= Seq::<Frame>::empty());
        assert(target.0 + Seq::<Sighting>::empty() =~= target.0);
        assert(stack_trace(oct, eye, world, distance, stack@.drop_last()).0 =~= Seq::<Sighting>::empty());
        assert(stack_trace(oct, eye, world, distance, stack@).0 =~= target.0);
    }
    while stack.len() > 0
        invariant
            args.wf(),
            oct == args.octant,
            eye == args.eye,
            world == *args.world,
            distance == args.distance,
            limits == spec_limits(oct, eye, world),
            limits_fit(limits),
            stack_ok(stack@, distance),
            out@ + stack_trace(oct, eye, world, distance, stack@).0 == old(out)@ + target.0,
        decreases stack_trace(oct, eye, world, distance, stack@).1,
    {
        let ghost before = stack@;
        let ghost out_before = out@;
        let frame = stack.pop().unwrap();
        proof {
            assert(stack@ == before.drop_last());
            assert(frame == before[before.len() - 1]);
            assert(stack_ok(stack@, distance)) by {
                assert forall|j: int| 0 <= j < stack@.len() implies (#[trigger] stack@[j]).wf()
                    && stack@[j].depth <= distance + 1 by {
                    assert(stack@[j] == before[j]);
                }
            }
        }
        let ghost rest = stack@;
        let ghost rest_trace = stack_trace(oct, eye, world, distance, rest);
        match Scan::new(&limits, &frame, &args.octant, args.distance) {
            None => {
                proof {
                    assert(frame_trace(oct, eye, world, distance, frame).0 =~= Seq::<Sighting>::empty());
                    assert(Seq::<Sighting>::empty() + rest_trace.0 =~= rest_trace.0);
                }
            },
            Some(scan_desc) => {
                let ghost row = row_result(oct, eye, world, distance, frame, scan_desc);
                proof {
                    lemma_row_fold_frames(
                        oct,
                        eye,
                        world,
                        distance,
                        frame,
                        scan_desc,
                        row_len(oct, scan_desc),
                    );
                }
                scan(stack, out, args, &scan_desc, &frame);
                proof {
                    lemma_stack_trace_push_children(
                        oct,
                        eye,
                        world,
                        distance,
                        rest,
                        frame.depth as int,
                        row.pushed,
                    );
                    let ch = children_trace(oct, eye, world, distance, frame.depth as int, row.pushed);
                    assert(out@ + stack_trace(oct, eye, world, distance, stack@).0 =~= out_before
                        + (row.sightings + ch.0 + rest_trace.0));
                    assert(stack_ok(stack@, distance)) by {
                        assert forall|j: int| 0 <= j < stack@.len() implies (#[trigger] stack@[j]).wf()
                            && stack@[j].depth <= distance + 1 by {
                            if j < rest.len() {
                                assert(stack@[j] == rest[j]);
                            } else {
                                assert(stack@[j] == row.pushed[j - rest.len()]);
                            }
                        }
                    }
                }
            },
        }
    }
}


// ---------------------------------------------------------------------------
// All octants
// ---------------------------------------------------------------------------

/// The eight octants, in the order met when turning anticlockwise from the
/// negative x axis.
pub open spec fn octant_table() -> Seq<Octant> {
    seq![
        spec_octant(CardinalDirection::West, CardinalDirection::South),
        spec_octant(CardinalDirection::South, CardinalDirection::West),
        spec_octant(CardinalDirection::South, CardinalDirection::East),
        spec_octant(CardinalDirection::East, CardinalDirection::South),
        spec_octant(CardinalDirection::East, CardinalDirection::North),
        spec_octant(CardinalDirection::North, CardinalDirection::East),
        spec_octant(CardinalDirection::North, CardinalDirection::West),
        spec_octant(CardinalDirection::West, CardinalDirection::North),
    ]
}

/// The sightings of the first `n` octants of the table, in order.
pub open spec fn octants_trace(eye: Coord, world: StaticGrid<u32>, distance: int, n: int) -> Seq<
    Sighting,
>
    decreases n,
{
    if n <= 0 {
        Seq::empty()
    } else {
        octants_trace(eye, world, distance, n - 1) + frame_trace(
            octant_table()[n - 1],
            eye,
            world,
            distance,
            seed_frame(),
        ).0
    }
}

/// The eye's own cell, where the world holds it.
pub open spec fn eye_sighting(eye: Coord, world: StaticGrid<u32>) -> Seq<Sighting> {
    match world.cell(eye.x as int, eye.y as int) {
        Some(opacity) => seq![Sighting { coord: eye, opacity, visibility: VISIBILITY_MAX }],
        None => Seq::empty(),
    }
}

/// Everything an eye at `eye` sees of `world` within `distance`, in the order
/// reported: its own cell, then each octant in turn.
pub open spec fn spec_sightings(eye: Coord, world: StaticGrid<u32>, distance: int) -> Seq<Sighting> {
    eye_sighting(eye, world) + octants_trace(eye, world, distance, NUM_OCTANTS as int)
}

/// A reusable visibility engine: the octant table and the frame stack.
pub struct ShadowcastEnv {
    octants: [Octant; NUM_OCTANTS],
    stack: Vec<Frame>,
}

impl ShadowcastEnv {
    pub closed spec fn wf(&self) -> bool {
        &&& self.octants@ == octant_table()
        &&& self.stack@.len() == 0
    }

    pub fn new() -> (r: Self)
        ensures
            r.wf(),
    {
        let octants = [
            Octant::new(CardinalDirection::West, CardinalDirection::South),
            Octant::new(CardinalDirection::South, CardinalDirection::West),
            Octant::new(CardinalDirection::South, CardinalDirection::East),
            Octant::new(CardinalDirection::East, CardinalDirection::South),
            Octant::new(CardinalDirection::East, CardinalDirection::North),
            Octant::new(CardinalDirection::North, CardinalDirection::East),
            Octant::new(CardinalDirection::North, CardinalDirection::West),
            Octant::new(CardinalDirection::West, CardinalDirection::North),
        ];
        let r = ShadowcastEnv { octants, stack: Vec::new() };
        assert(r.octants@ =~= octant_table());
        r
    }
}

/// The cells that an eye at `eye` sees of `world` within `distance`, each
/// with its opacity and the visibility left after it. The eye's own cell
/// comes first, where the world holds it; then each octant in turn. A cell
/// on the boundary of two octants is reported by each.
#[verifier::rlimit(50)]
pub fn visible_cells(env: &mut ShadowcastEnv, eye: Coord, world: &StaticGrid<u32>, distance: u32) -> (r:
    Vec<Sighting>)
    requires
        old(env).wf(),
        world_fits(*world),
    ensures
        final(env).wf(),
        r@ == spec_sightings(eye, *world, distance as int),
        forall|k: int|
            0 <= k < r@.len() ==> (#[trigger] r@[k]).coord == eye || dist2(r@[k].coord, eye)
                <= distance * distance,
{
    let mut out: Vec<Sighting> = Vec::new();
    match world.get(eye) {
        Some(opacity) => out.push(Sighting { coord: eye, opacity: *opacity, visibility: VISIBILITY_MAX }),
        None => {},
    }
    assert(out@ =~= eye_sighting(eye, *world));
    let mut i: usize = 0;
    while i < NUM_OCTANTS
        invariant
            env.wf(),
            world_fits(*world),
            0 <= i <= NUM_OCTANTS,
            out@ == eye_sighting(eye, *world) + octants_trace(eye, *world, distance as int, i as int),
        decreases NUM_OCTANTS - i,
    {
        let octant = env.octants[i];
        proof {
            assert(octant == octant_table()[i as int]);
        }
        let args = OctantArgs::new(octant, world, eye, distance);
        detect_visible_area_octant(&mut env.stack, &mut out, &args);
        proof {
            assert(out@ =~= eye_sighting(eye, *world) + octants_trace(eye, *world, distance as int, i + 1));
        }
        i = i + 1;
    }
    proof {
        lemma_sightings_within_distance(eye, *world, distance);
    }
    out
}


/// Observes `world` from `eye` at `time`: sets the knowledge grid's time,
/// then records in it each cell seen within `distance`, in the order of
/// [`visible_cells`], and returns everything that revealed.
pub fn observe(
    env: &mut ShadowcastEnv,
    eye: Coord,
    world: &StaticGrid<u32>,
    distance: u32,
    time: u64,
    knowledge: &mut KnowledgeGrid,
) -> (r: ObservationMetadata)
    requires
        old(env).wf(),
        world_fits(*world),
        old(knowledge).wf(),
    ensures
        final(env).wf(),
        final(knowledge).wf(),
        final(knowledge).spec_width() == old(knowledge).spec_width(),
        final(knowledge).spec_height() == old(knowledge).spec_height(),
        final(knowledge).spec_time() == time,
        (final(knowledge)@, r) == apply_sightings(
            old(knowledge)@,
            old(knowledge).spec_width(),
            old(knowledge).spec_height(),
            time,
            spec_sightings(eye, *world, distance as int),
        ),
{
    knowledge.set_time(time);
    let seen = visible_cells(env, eye, world, distance);
    let ghost start = knowledge@;
    let ghost width = knowledge.spec_width();
    let ghost height = knowledge.spec_height();
    let mut metadata = ObservationMetadata::empty();
    let mut i: usize = 0;
    while i < seen.len()
        invariant
            knowledge.wf(),
            knowledge.spec_width() == width,
            knowledge.spec_height() == height,
            knowledge.spec_time() == time,
            0 <= i <= seen@.len(),
            (knowledge@, metadata) == apply_sightings(start, width, height, time, seen@.take(i as int)),
        decreases seen@.len() - i,
    {
        let s = seen[i];
        let news = knowledge.update_cell(s.coord, s.opacity);
        metadata = metadata.merge(news);
        proof {
            assert(seen@.take(i + 1).drop_last() =~= seen@.take(i as int));
        }
        i = i + 1;
    }
    proof {
        assert(seen@.take(i as int) =~= seen@);
    }
    metadata
}

} // verus!
