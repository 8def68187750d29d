use vstd::prelude::*;
use vstd::std_specs::iter::IteratorSpec;

use std::slice;

use crate::coord::Coord;

verus! {

/// A rectangular grid stored row by row.
#[derive(Debug)]
pub struct StaticGrid<T> {
    items: Vec<T>,
    width: usize,
    height: usize,
    size: usize,
}

/// A type that can name a cell of a [`StaticGrid`] by column and row.
pub trait StaticGridIdx: Sized {
    /// The column named.
    spec fn idx_x(&self) -> int;

    /// The row named.
    spec fn idx_y(&self) -> int;

    /// The position of the cell in row-major order.
    fn wrap_to_index(self, width: usize) -> (r: usize)
        requires
            0 <= self.idx_x() < width,
            0 <= self.idx_y(),
            self.idx_y() * width + self.idx_x() <= usize::MAX,
        ensures
            r == self.idx_y() * width + self.idx_x(),
    ;

    /// Whether the column is in range and the row is not negative.
    fn is_valid(self, width: usize) -> (r: bool)
        ensures
            r == (0 <= self.idx_x() < width && 0 <= self.idx_y()),
    ;

    /// The row, where it is not negative.
    fn row_index(self) -> (r: usize)
        requires
            0 <= self.idx_y(),
        ensures
            r == self.idx_y(),
    ;
}

impl StaticGridIdx for (usize, usize) {
    open spec fn idx_x(&self) -> int {
        self.0 as int
    }

    open spec fn idx_y(&self) -> int {
        self.1 as int
    }

    fn wrap_to_index(self, width: usize) -> (r: usize) {
        self.1 * width + self.0
    }

    fn is_valid(self, width: usize) -> (r: bool) {
        self.0 < width
    }

    fn row_index(self) -> (r: usize) {
        self.1
    }
}

impl StaticGridIdx for (isize, isize) {
    open spec fn idx_x(&self) -> int {
        self.0 as int
    }

    open spec fn idx_y(&self) -> int {
        self.1 as int
    }

    fn wrap_to_index(self, width: usize) -> (r: usize) {
        (self.1 as usize) * width + (self.0 as usize)
    }

    fn is_valid(self, width: usize) -> (r: bool) {
        self.0 >= 0 && self.1 >= 0 && (self.0 as usize) < width
    }

    fn row_index(self) -> (r: usize) {
        self.1 as usize
    }
}

impl StaticGridIdx for Coord {
    open spec fn idx_x(&self) -> int {
        self.x as int
    }

    open spec fn idx_y(&self) -> int {
        self.y as int
    }

    fn wrap_to_index(self, width: usize) -> (r: usize) {
        (self.y as usize) * width + (self.x as usize)
    }

    fn is_valid(self, width: usize) -> (r: bool) {
        self.x >= 0 && self.y >= 0 && (self.x as usize) < width
    }

    fn row_index(self) -> (r: usize) {
        self.y as usize
    }
}

/// Where cell `(x, y)` of a grid `width` cells wide is stored.
pub open spec fn cell_index(width: int, x: int, y: int) -> int {
    y * width + x
}

proof fn lemma_cell_index_bound(width: int, height: int, x: int, y: int)
    requires
        0 <= x < width,
        0 <= y < height,
    ensures
        0 <= cell_index(width, x, y) < width * height,
{
    assert(0 <= y * width + x < width * height) by (nonlinear_arith)
        requires
            0 <= x < width,
            0 <= y < height,
    ;
}

impl<T> StaticGrid<T> {
    /// The cells, row by row.
    pub closed spec fn view(&self) -> Seq<T> {
        self.items@
    }

    pub closed spec fn spec_width(&self) -> nat {
        self.width as nat
    }

    pub closed spec fn spec_height(&self) -> nat {
        self.height as nat
    }

    /// Every row is complete.
    pub closed spec fn wf(&self) -> bool {
        &&& self.size == self.width * self.height
        &&& self.items@.len() == self.size
    }

    pub open spec fn in_bounds(&self, x: int, y: int) -> bool {
        0 <= x < self.spec_width() && 0 <= y < self.spec_height()
    }

    /// The cell at `(x, y)`; outside the grid, `None`.
    pub open spec fn cell(&self, x: int, y: int) -> Option<T> {
        if self.in_bounds(x, y) {
            Some(self@[cell_index(self.spec_width() as int, x, y)])
        } else {
            None
        }
    }

    fn new_with_capacity(width: usize, height: usize) -> (r: Self)
        requires
            width * height <= usize::MAX,
        ensures
            r.spec_width() == width,
            r.spec_height() == height,
            r@.len() == 0,
            r.size == width * height,
    {
        let size = width * height;
        StaticGrid { items: Vec::with_capacity(size), width, height, size }
    }

    pub fn width(&self) -> (r: usize)
        ensures
            r == self.spec_width(),
    {
        self.width
    }

    pub fn height(&self) -> (r: usize)
        ensures
            r == self.spec_height(),
    {
        self.height
    }

    fn wrap_to_index<I: StaticGridIdx + Copy>(&self, idx: I) -> (r: usize)
        requires
            self.wf(),
            self.in_bounds(idx.idx_x(), idx.idx_y()),
        ensures
            r == cell_index(self.spec_width() as int, idx.idx_x(), idx.idx_y()),
            r < self@.len(),
    {
        proof {
            lemma_cell_index_bound(self.width as int, self.height as int, idx.idx_x(), idx.idx_y());
        }
        idx.wrap_to_index(self.width)
    }

    fn is_valid<I: StaticGridIdx + Copy>(&self, idx: I) -> (r: bool)
        ensures
            r == (0 <= idx.idx_x() < self.spec_width() && 0 <= idx.idx_y()),
    {
        idx.is_valid(self.width)
    }

    pub fn contains<I: StaticGridIdx + Copy>(&self, idx: I) -> (r: bool)
        requires
            self.wf(),
        ensures
            r == self.in_bounds(idx.idx_x(), idx.idx_y()),
    {
        self.is_valid(idx) && idx.row_index() < self.height
    }

    pub fn get<I: StaticGridIdx + Copy>(&self, idx: I) -> (r: Option<&T>)
        requires
            self.wf(),
        ensures
            r.is_some() == self.in_bounds(idx.idx_x(), idx.idx_y()),
            r matches Some(v) ==> self.cell(idx.idx_x(), idx.idx_y()) == Some(*v),
    {
        if self.is_valid(idx) {
            self.get_valid(idx)
        } else {
            None
        }
    }

    /// Like [`StaticGrid::get`], for an index already known to be valid.
    pub fn get_valid<I: StaticGridIdx + Copy>(&self, idx: I) -> (r: Option<&T>)
        requires
            self.wf(),
            0 <= idx.idx_x() < self.spec_width(),
            0 <= idx.idx_y(),
        ensures
            r.is_some() == self.in_bounds(idx.idx_x(), idx.idx_y()),
            r matches Some(v) ==> self.cell(idx.idx_x(), idx.idx_y()) == Some(*v),
    {
        if idx.row_index() < self.height {
            let i = self.wrap_to_index(idx);
            Some(&self.items[i])
        } else {
            None
        }
    }

    pub fn get_mut<I: StaticGridIdx + Copy>(&mut self, idx: I) -> (r: Option<&mut T>)
        requires
            old(self).wf(),
        ensures
            r.is_some() == old(self).in_bounds(idx.idx_x(), idx.idx_y()),
            r matches Some(v) ==> {
                &&& old(self).cell(idx.idx_x(), idx.idx_y()) == Some(*v)
                &&& final(self)@ == old(self)@.update(
                    cell_index(old(self).spec_width() as int, idx.idx_x(), idx.idx_y()),
                    *final(v),
                )
            },
            r is None ==> final(self)@ == old(self)@,
            final(self).wf(),
            final(self).spec_width() == old(self).spec_width(),
            final(self).spec_height() == old(self).spec_height(),
    {
        if self.is_valid(idx) {
            self.get_valid_mut(idx)
        } else {
            None
        }
    }

    /// Like [`StaticGrid::get_mut`], for an index already known to be valid.
    pub fn get_valid_mut<I: StaticGridIdx + Copy>(&mut self, idx: I) -> (r: Option<&mut T>)
        requires
            old(self).wf(),
            0 <= idx.idx_x() < old(self).spec_width(),
            0 <= idx.idx_y(),
        ensures
            r.is_some() == old(self).in_bounds(idx.idx_x(), idx.idx_y()),
            r matches Some(v) ==> {
                &&& old(self).cell(idx.idx_x(), idx.idx_y()) == Some(*v)
                &&& final(self)@ == old(self)@.update(
                    cell_index(old(self).spec_width() as int, idx.idx_x(), idx.idx_y()),
                    *final(v),
                )
            },
            r is None ==> final(self)@ == old(self)@,
            final(self).wf(),
            final(self).spec_width() == old(self).spec_width(),
            final(self).spec_height() == old(self).spec_height(),
    {
        if idx.row_index() < self.height {
            let i = self.wrap_to_index(idx);
            Some(&mut self.items[i])
        } else {
            None
        }
    }

    /// The cells, row by row.
    pub fn iter(&self) -> (r: slice::Iter<'_, T>)
        ensures
            r.remaining().unref() == self@,
    {
        let items = self.items.as_slice();
        let r = items.iter();
        proof {
            vstd::std_specs::slice::axiom_spec_slice_iter(items);
            assert(r.remaining().unref() =~= self@);
        }
        r
    }

    /// The cells, row by row, for changing in place.
    pub fn iter_mut(&mut self) -> (r: &mut [T])
        ensures
            r@ == old(self)@,
            final(self)@ == final(r)@,
            final(self).spec_width() == old(self).spec_width(),
            final(self).spec_height() == old(self).spec_height(),
            old(self).wf() && final(r)@.len() == r@.len() ==> final(self).wf(),
    {
        self.items.as_mut_slice()
    }

    pub fn coord_iter(&self) -> (r: CoordIter)
        ensures
            r.width == self.spec_width(),
            r.height == self.spec_height(),
            r.x == 0,
            r.y == 0,
    {
        CoordIter::new(self.width, self.height)
    }
}

impl<T: Default> StaticGrid<T> {
    /// A grid with every cell set to the default value.
    pub fn new_default(width: usize, height: usize) -> (r: Self)
        requires
            width * height <= usize::MAX,
        ensures
            r.wf(),
            r.spec_width() == width,
            r.spec_height() == height,
            r@.len() == width * height,
            forall|i: int| 0 <= i < r@.len() ==> call_ensures(T::default, (), #[trigger] r@[i]),
    {
        let mut grid = Self::new_with_capacity(width, height);
        let mut i: usize = 0;
        while i < grid.size
            invariant
                grid.size == width * height,
                grid.spec_width() == width,
                grid.spec_height() == height,
                i <= grid.size,
                grid@.len() == i,
                forall|j: int| 0 <= j < i ==> call_ensures(T::default, (), #[trigger] grid@[j]),
            decreases grid.size - i,
        {
            let item = T::default();
            grid.items.push(item);
            i += 1;
        }
        grid
    }
}

impl<T: Copy> StaticGrid<T> {
    /// A grid with every cell set to `item`.
    pub fn new_copy(width: usize, height: usize, item: T) -> (r: Self)
        requires
            width * height <= usize::MAX,
        ensures
            r.wf(),
            r.spec_width() == width,
            r.spec_height() == height,
            r@ == Seq::new((width * height) as nat, |_i: int| item),
    {
        let mut grid = Self::new_with_capacity(width, height);
        let mut i: usize = 0;
        while i < grid.size
            invariant
                grid.size == width * height,
                grid.spec_width() == width,
                grid.spec_height() == height,
                i <= grid.size,
                grid@ == Seq::new(i as nat, |_i: int| item),
            decreases grid.size - i,
        {
            grid.items.push(item);
            i += 1;
        }
        grid
    }
}

/// Walks the positions of a grid row by row, from `(0, 0)`.
pub struct CoordIter {
    pub width: usize,
    pub height: usize,
    pub x: usize,
    pub y: usize,
}

impl CoordIter {
    /// The position is within the grid, or one row past its end.
    pub open spec fn wf(&self) -> bool {
        &&& self.y <= self.height
        &&& self.y < self.height ==> self.x < self.width
    }

    pub fn new(width: usize, height: usize) -> (r: Self)
        ensures
            r.width == width,
            r.height == height,
            r.x == 0,
            r.y == 0,
            width > 0 || height == 0 ==> r.wf(),
    {
        CoordIter { width, height, x: 0, y: 0 }
    }

    /// The current position, then a step to the next one in row-major
    /// order; `None` once every row has been walked.
    pub fn next(&mut self) -> (r: Option<(usize, usize)>)
        requires
            old(self).wf(),
        ensures
            final(self).wf(),
            final(self).width == old(self).width,
            final(self).height == old(self).height,
            old(self).y == old(self).height ==> r is None && *final(self) == *old(self),
            old(self).y < old(self).height ==> {
                &&& r == Some((old(self).x, old(self).y))
                &&& old(self).x + 1 == old(self).width ==> final(self).x == 0 && final(self).y
                    == old(self).y + 1
                &&& old(self).x + 1 < old(self).width ==> final(self).x == old(self).x + 1
                    && final(self).y == old(self).y
            },
    {
        if self.y == self.height {
            return None;
        }
        let ret = Some((self.x, self.y));
        self.x += 1;
        if self.x == self.width {
            self.x = 0;
            self.y += 1;
        }
        ret
    }
}

} // verus!
