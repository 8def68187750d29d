use vstd::prelude::*;

use crate::coord::Coord;
use crate::shadowcast::Sighting;
use crate::static_grid::{cell_index, StaticGrid, StaticGridIdx};

verus! {

/// What an observation changed in a knowledge grid, as flags that combine by
/// `or`.
#[derive(Debug, Clone, Copy, PartialEq, Eq, Structural)]
pub struct ObservationMetadata {
    /// What is remembered of some cell differs from what was seen.
    pub changed: bool,
    /// Some cell had not been seen yet at the current time.
    pub newly_seen: bool,
}

pub open spec fn spec_merge(a: ObservationMetadata, b: ObservationMetadata) -> ObservationMetadata {
    ObservationMetadata { changed: a.changed || b.changed, newly_seen: a.newly_seen || b.newly_seen }
}

pub open spec fn no_news() -> ObservationMetadata {
    ObservationMetadata { changed: false, newly_seen: false }
}

impl ObservationMetadata {
    /// Nothing changed.
    pub fn empty() -> (r: Self)
        ensures
            r == no_news(),
    {
        ObservationMetadata { changed: false, newly_seen: false }
    }

    /// Both sets of flags together.
    pub fn merge(self, other: Self) -> (r: Self)
        ensures
            r == spec_merge(self, other),
    {
        ObservationMetadata {
            changed: self.changed || other.changed,
            newly_seen: self.newly_seen || other.newly_seen,
        }
    }
}

/// What is remembered of one cell.
#[derive(Debug, Clone, Copy, PartialEq, Eq, Structural)]
pub struct KnowledgeCell {
    /// The cell has been seen at least once.
    pub known: bool,
    /// When it was last seen.
    pub last_seen: u64,
    /// Its opacity when last seen.
    pub opacity: u32,
}

pub open spec fn unknown_cell() -> KnowledgeCell {
    KnowledgeCell { known: false, last_seen: 0, opacity: 0 }
}

/// The record of a cell seen at `time` with opacity `opacity`.
pub open spec fn seen_cell(time: u64, opacity: u32) -> KnowledgeCell {
    KnowledgeCell { known: true, last_seen: time, opacity }
}

/// What seeing a cell at `time` with opacity `opacity` reveals, given what
/// was remembered of it.
pub open spec fn cell_news(before: KnowledgeCell, time: u64, opacity: u32) -> ObservationMetadata {
    ObservationMetadata {
        changed: !before.known || before.opacity != opacity,
        newly_seen: !before.known || before.last_seen != time,
    }
}

/// The remembered cells of a grid `width` by `height` after seeing cell `c`
/// at `time` with opacity `opacity`, and what that revealed. A cell outside
/// the grid changes nothing.
pub open spec fn spec_update(
    cells: Seq<KnowledgeCell>,
    width: int,
    height: int,
    time: u64,
    c: Coord,
    opacity: u32,
) -> (Seq<KnowledgeCell>, ObservationMetadata) {
    if 0 <= c.x < width && 0 <= c.y < height {
        let i = cell_index(width, c.x as int, c.y as int);
        (cells.update(i, seen_cell(time, opacity)), cell_news(cells[i], time, opacity))
    } else {
        (cells, no_news())
    }
}

/// The remembered cells after the sightings `s`, in order, and everything
/// they revealed.
pub open spec fn apply_sightings(
    cells: Seq<KnowledgeCell>,
    width: int,
    height: int,
    time: u64,
    s: Seq<Sighting>,
) -> (Seq<KnowledgeCell>, ObservationMetadata)
    decreases s.len(),
{
    if s.len() == 0 {
        (cells, no_news())
    } else {
        let before = apply_sightings(cells, width, height, time, s.drop_last());
        let after = spec_update(before.0, width, height, time, s.last().coord, s.last().opacity);
        (after.0, spec_merge(before.1, after.1))
    }
}

/// What an observer remembers of each cell of a grid, and the current time.
pub struct KnowledgeGrid {
    cells: StaticGrid<KnowledgeCell>,
    time: u64,
}

impl KnowledgeGrid {
    /// The remembered cells, row by row.
    pub closed spec fn view(&self) -> Seq<KnowledgeCell> {
        self.cells@
    }

    pub closed spec fn spec_width(&self) -> int {
        self.cells.spec_width() as int
    }

    pub closed spec fn spec_height(&self) -> int {
        self.cells.spec_height() as int
    }

    pub closed spec fn spec_time(&self) -> u64 {
        self.time
    }

    pub closed spec fn wf(&self) -> bool {
        self.cells.wf()
    }

    /// A grid in which nothing has been seen yet, at time zero.
    pub fn new(width: usize, height: usize) -> (r: Self)
        requires
            width * height <= usize::MAX,
        ensures
            r.wf(),
            r.spec_width() == width,
            r.spec_height() == height,
            r.spec_time() == 0,
            r@ == Seq::new((width * height) as nat, |_i: int| unknown_cell()),
    {
        KnowledgeGrid {
            cells: StaticGrid::new_copy(
                width,
                height,
                KnowledgeCell { known: false, last_seen: 0, opacity: 0 },
            ),
            time: 0,
        }
    }

    pub fn width(&self) -> (r: usize)
        ensures
            r == self.spec_width(),
    {
        self.cells.width()
    }

    pub fn height(&self) -> (r: usize)
        ensures
            r == self.spec_height(),
    {
        self.cells.height()
    }

    pub fn time(&self) -> (r: u64)
        ensures
            r == self.spec_time(),
    {
        self.time
    }

    /// What is remembered of cell `c`; `None` outside the grid.
    pub fn get(&self, c: Coord) -> (r: Option<&KnowledgeCell>)
        requires
            self.wf(),
        ensures
            r.is_some() == (0 <= c.x < self.spec_width() && 0 <= c.y < self.spec_height()),
            r matches Some(k) ==> *k == self@[cell_index(self.spec_width(), c.x as int, c.y as int)],
    {
        self.cells.get(c)
    }

    /// Sets the time at which the next cells are seen.
    pub fn set_time(&mut self, time: u64)
        ensures
            final(self)@ == old(self)@,
            final(self).wf() == old(self).wf(),
            final(self).spec_width() == old(self).spec_width(),
            final(self).spec_height() == old(self).spec_height(),
            final(self).spec_time() == time,
    {
        self.time = time;
    }

    /// Records that cell `c` is seen now with opacity `opacity`, and tells
    /// what that revealed.
    pub fn update_cell(&mut self, c: Coord, opacity: u32) -> (r: ObservationMetadata)
        requires
            old(self).wf(),
        ensures
            final(self).wf(),
            final(self).spec_width() == old(self).spec_width(),
            final(self).spec_height() == old(self).spec_height(),
            final(self).spec_time() == old(self).spec_time(),
            (final(self)@, r) == spec_update(
                old(self)@,
                old(self).spec_width(),
                old(self).spec_height(),
                old(self).spec_time(),
                c,
                opacity,
            ),
    {
        let time = self.time;
        match self.cells.get_mut(c) {
            Some(cell) => {
                let news = ObservationMetadata {
                    changed: !cell.known || cell.opacity != opacity,
                    newly_seen: !cell.known || cell.last_seen != time,
                };
                *cell = KnowledgeCell { known: true, last_seen: time, opacity };
                news
            },
            None => ObservationMetadata { changed: false, newly_seen: false },
        }
    }
}

/// Seeing the same cell twice with the same opacity at the same time leaves
/// what is remembered as after the first sighting, and the flags of both
/// together are those of the first.
pub proof fn lemma_update_cell_idempotent(
    cells: Seq<KnowledgeCell>,
    width: int,
    height: int,
    time: u64,
    c: Coord,
    opacity: u32,
)
    requires
        cells.len() == width * height,
    ensures
        ({
            let (once, m1) = spec_update(cells, width, height, time, c, opacity);
            let (twice, m2) = spec_update(once, width, height, time, c, opacity);
            twice == once && spec_merge(m1, m2) == m1
        }),
{
    if 0 <= c.x < width && 0 <= c.y < height {
        let i = cell_index(width, c.x as int, c.y as int);
        assert(0 <= i < width * height) by (nonlinear_arith)
            requires
                i == c.y * width + c.x,
                0 <= c.x < width,
                0 <= c.y < height,
        ;
        let once = cells.update(i, seen_cell(time, opacity));
        assert(once.update(i, seen_cell(time, opacity)) =~= once);
    }
}

proof fn lemma_apply_sightings_len(
    cells: Seq<KnowledgeCell>,
    width: int,
    height: int,
    time: u64,
    s: Seq<Sighting>,
)
    requires
        cells.len() == width * height,
    ensures
        apply_sightings(cells, width, height, time, s).0.len() == cells.len(),
    decreases s.len(),
{
    if s.len() > 0 {
        lemma_apply_sightings_len(cells, width, height, time, s.drop_last());
        let c = s.last().coord;
        if 0 <= c.x < width && 0 <= c.y < height {
            assert(0 <= cell_index(width, c.x as int, c.y as int) < width * height)
                by (nonlinear_arith)
                requires
                    0 <= c.x < width,
                    0 <= c.y < height,
            ;
        }
    }
}

/// After a sighting of a cell, and any later sightings of other cells, the
/// cell is remembered as seen at the current time with that sighting's
/// opacity.
proof fn lemma_last_sighting_remembered(
    cells: Seq<KnowledgeCell>,
    width: int,
    height: int,
    time: u64,
    s1: Seq<Sighting>,
    y: Sighting,
    s2: Seq<Sighting>,
)
    requires
        cells.len() == width * height,
        0 <= y.coord.x < width,
        0 <= y.coord.y < height,
        forall|j: int| 0 <= j < s2.len() ==> (#[trigger] s2[j]).coord != y.coord,
    ensures
        apply_sightings(cells, width, height, time, s1.push(y) + s2).0[cell_index(
            width,
            y.coord.x as int,
            y.coord.y as int,
        )] == seen_cell(time, y.opacity),
    decreases s2.len(),
{
    let i = cell_index(width, y.coord.x as int, y.coord.y as int);
    assert(0 <= i < width * height) by (nonlinear_arith)
        requires
            i == y.coord.y * width + y.coord.x,
            0 <= y.coord.x < width,
            0 <= y.coord.y < height,
    ;
    if s2.len() == 0 {
        assert(s1.push(y) + s2 =~= s1.push(y));
        assert(s1.push(y).drop_last() =~= s1);
        assert(s1.push(y).last() == y);
        lemma_apply_sightings_len(cells, width, height, time, s1);
        let prev = apply_sightings(cells, width, height, time, s1);
        assert(apply_sightings(cells, width, height, time, s1.push(y)).0 == spec_update(
            prev.0,
            width,
            height,
            time,
            y.coord,
            y.opacity,
        ).0);
        assert(spec_update(prev.0, width, height, time, y.coord, y.opacity).0 == prev.0.update(
            i,
            seen_cell(time, y.opacity),
        ));
        assert(apply_sightings(cells, width, height, time, s1.push(y)).0[i] == seen_cell(
            time,
            y.opacity,
        ));
    } else {
        let all = s1.push(y) + s2;
        assert(all.drop_last() =~= s1.push(y) + s2.drop_last());
        lemma_last_sighting_remembered(cells, width, height, time, s1, y, s2.drop_last());
        lemma_apply_sightings_len(cells, width, height, time, all.drop_last());
        let z = s2.last();
        assert(z == s2[s2.len() - 1]);
        assert(all.last() == z);
        let prev = apply_sightings(cells, width, height, time, all.drop_last());
        assert(prev.0.len() == width * height);
        assert(prev.0[i] == seen_cell(time, y.opacity));
        assert(apply_sightings(cells, width, height, time, all).0 == spec_update(
            prev.0,
            width,
            height,
            time,
            z.coord,
            z.opacity,
        ).0);
        assert(z.coord != y.coord);
        if 0 <= z.coord.x < width && 0 <= z.coord.y < height {
            let iz = cell_index(width, z.coord.x as int, z.coord.y as int);
            assert(iz != i) by (nonlinear_arith)
                requires
                    iz == z.coord.y * width + z.coord.x,
                    i == y.coord.y * width + y.coord.x,
                    0 <= z.coord.x < width,
                    0 <= y.coord.x < width,
                    z.coord.x != y.coord.x || z.coord.y != y.coord.y,
            ;
            assert(spec_update(prev.0, width, height, time, z.coord, z.opacity).0 == prev.0.update(
                iz,
                seen_cell(time, z.opacity),
            ));
            assert(0 <= iz < width * height) by (nonlinear_arith)
                requires
                    iz == z.coord.y * width + z.coord.x,
                    0 <= z.coord.x < width,
                    0 <= z.coord.y < height,
            ;
            assert(prev.0.update(iz, seen_cell(time, z.opacity))[i] == prev.0[i]);
        }
        assert(apply_sightings(cells, width, height, time, all).0[i] == seen_cell(time, y.opacity));
    }
}

/// A cell reported again, with the opacity of its last report and with
/// only other cells reported in between, changes neither what is remembered
/// nor the combined flags: `observe` may report a cell on the boundary of
/// two octants twice.
pub proof fn lemma_repeated_sighting_changes_nothing(
    cells: Seq<KnowledgeCell>,
    width: int,
    height: int,
    time: u64,
    s1: Seq<Sighting>,
    y: Sighting,
    s2: Seq<Sighting>,
    x: Sighting,
)
    requires
        cells.len() == width * height,
        forall|j: int| 0 <= j < s2.len() ==> (#[trigger] s2[j]).coord != y.coord,
        x.coord == y.coord,
        x.opacity == y.opacity,
    ensures
        apply_sightings(cells, width, height, time, (s1.push(y) + s2).push(x))
            == apply_sightings(cells, width, height, time, s1.push(y) + s2),
{
    let s = s1.push(y) + s2;
    let before = apply_sightings(cells, width, height, time, s);
    assert(s.push(x).drop_last() =~= s);
    assert(s.push(x).last() == x);
    if 0 <= x.coord.x < width && 0 <= x.coord.y < height {
        lemma_last_sighting_remembered(cells, width, height, time, s1, y, s2);
        lemma_apply_sightings_len(cells, width, height, time, s);
        let i = cell_index(width, x.coord.x as int, x.coord.y as int);
        assert(0 <= i < width * height) by (nonlinear_arith)
            requires
                i == x.coord.y * width + x.coord.x,
                0 <= x.coord.x < width,
                0 <= x.coord.y < height,
        ;
        assert(before.0.update(i, seen_cell(time, x.opacity)) =~= before.0);
    }
}

} // verus!
