use vstd::prelude::*;

use crate::math::{IVec2, UVec2};

verus! {

/// A rectangular grid of values addressed by integer cells.
///
/// The grid covers the cells `origin .. origin + size` and stores them in
/// row-major order.
#[derive(Debug, Clone)]
pub struct Grid<T> {
    origin: IVec2,
    size: UVec2,
    data: Vec<T>,
}

impl<T> Grid<T> {
    /// Well-formedness: one stored value per cell.
    pub open spec fn wf(&self) -> bool {
        self.contents().len() == self.spec_size().x * self.spec_size().y
    }

    /// The first cell covered by the grid.
    pub closed spec fn spec_origin(&self) -> IVec2 {
        self.origin
    }

    /// Width and height of the grid.
    pub closed spec fn spec_size(&self) -> UVec2 {
        self.size
    }

    /// The stored values, row by row.
    pub closed spec fn contents(&self) -> Seq<T> {
        self.data@
    }

    /// Whether `cell` lies inside the grid.
    pub open spec fn in_grid(&self, cell: IVec2) -> bool {
        &&& 0 <= cell.x - self.spec_origin().x < self.spec_size().x
        &&& 0 <= cell.y - self.spec_origin().y < self.spec_size().y
    }

    /// Position of `cell` in the row-major storage.
    pub open spec fn offset(&self, cell: IVec2) -> int {
        (cell.y - self.spec_origin().y) * self.spec_size().x + (cell.x - self.spec_origin().x)
    }

    /// The value stored for `cell`, meaningful when `cell` is in the grid.
    pub open spec fn value(&self, cell: IVec2) -> T {
        self.contents()[self.offset(cell)]
    }

    /// The cell stored at position `i`, for a grid whose cells start at
    /// `origin` and whose rows are `width` cells long.
    pub open spec fn cell_at(origin: IVec2, width: int, i: int) -> IVec2 {
        IVec2 { x: (origin.x + i % width) as i32, y: (origin.y + i / width) as i32 }
    }

    /// The cell stored at position `i` of this grid.
    pub open spec fn cell_of(&self, i: int) -> IVec2 {
        Self::cell_at(self.spec_origin(), self.spec_size().x as int, i)
    }

    /// Every cell of a grid of `size` starting at `origin` has coordinates
    /// that fit in an `i32`.
    pub open spec fn cells_fit(origin: IVec2, size: UVec2) -> bool {
        &&& origin.x + size.x <= i32::MAX + 1
        &&& origin.y + size.y <= i32::MAX + 1
    }

    /// A grid of `size` cells, all set to clones of `fill`, with its origin
    /// at `(0, 0)`.
    pub fn new(size: UVec2, fill: T) -> (r: Grid<T>)
        where
            T: Clone,
        requires
            size.x < i32::MAX,
            size.y < i32::MAX,
            size.x * size.y <= usize::MAX,
        ensures
            r.wf(),
            r.spec_origin() == IVec2::zero_spec(),
            r.spec_size() == size,
            r.contents().len() == size.x * size.y,
            forall|i: int| 0 <= i < r.contents().len() ==> cloned(fill, #[trigger] r.contents()[i]),
    {
        let n = (size.x as usize) * (size.y as usize);
        let data = vec![fill; n];
        Grid { origin: IVec2 { x: 0, y: 0 }, size, data }
    }

    /// A grid of `size` cells, all set to clones of `T::default()`, with its
    /// origin at `(0, 0)`.
    pub fn new_default(size: UVec2) -> (r: Grid<T>)
        where
            T: Default + Clone,
        requires
            size.x < i32::MAX,
            size.y < i32::MAX,
            size.x * size.y <= usize::MAX,
        ensures
            r.wf(),
            r.spec_origin() == IVec2::zero_spec(),
            r.spec_size() == size,
            exists|d: T|
                call_ensures(T::default, (), d) && forall|i: int|
                    0 <= i < r.contents().len() ==> cloned(d, #[trigger] r.contents()[i]),
    {
        let d = T::default();
        assert(call_ensures(T::default, (), d));
        Self::new(size, d)
    }

    /// A grid of `size` cells holding `data` in row-major order, with its
    /// origin at `(0, 0)`. `data` must hold exactly one value per cell.
    pub fn from_data(size: UVec2, data: Vec<T>) -> (r: Grid<T>)
        requires
            data.len() == size.x * size.y,
        ensures
            r.wf(),
            r.spec_origin() == IVec2::zero_spec(),
            r.spec_size() == size,
            r.contents() == data@,
    {
        Grid { origin: IVec2 { x: 0, y: 0 }, size, data }
    }

    /// The same grid, moved so that it starts at `origin`.
    pub fn with_origin(self, origin: IVec2) -> (r: Grid<T>)
        requires
            self.wf(),
        ensures
            r.wf(),
            r.spec_origin() == origin,
            r.spec_size() == self.spec_size(),
            r.contents() == self.contents(),
    {
        Grid { origin, size: self.size, data: self.data }
    }

    /// A grid of `size` cells starting at `origin`, where each cell holds
    /// what `f` returns for that cell. Cells are visited row by row.
    pub fn from_fn_with_origin<F: Fn(IVec2) -> T>(size: UVec2, origin: IVec2, f: F) -> (r: Grid<T>)
        requires
            size.x <= i32::MAX,
            size.y <= i32::MAX,
            size.x * size.y <= usize::MAX,
            Self::cells_fit(origin, size),
            forall|i: int|
                0 <= i < size.x * size.y ==> f.requires((#[trigger] Self::cell_at(origin, size.x as int, i),)),
        ensures
            r.wf(),
            r.spec_origin() == origin,
            r.spec_size() == size,
            r.contents().len() == size.x * size.y,
            forall|i: int|
                0 <= i < size.x * size.y ==> f.ensures(
                    (Self::cell_at(origin, size.x as int, i),),
                    #[trigger] r.contents()[i],
                ),
    {
        let w = size.x as i32;
        let h = size.y as i32;
        let ghost wi = size.x as int;
        let mut data: Vec<T> = Vec::new();
        let mut y: i32 = 0;
        while y < h
            invariant
                0 <= y <= h,
                w == size.x,
                h == size.y,
                wi == w,
                size.x * size.y <= usize::MAX,
                Self::cells_fit(origin, size),
                data.len() == y * wi,
                forall|i: int|
                    0 <= i < size.x * size.y ==> f.requires((#[trigger] Self::cell_at(origin, wi, i),)),
                forall|i: int|
                    0 <= i < data.len() ==> f.ensures((Self::cell_at(origin, wi, i),), #[trigger] data@[i]),
            decreases h - y,
        {
            let mut x: i32 = 0;
            while x < w
                invariant
                    0 <= x <= w,
                    0 <= y < h,
                    w == size.x,
                    h == size.y,
                    wi == w,
                    size.x * size.y <= usize::MAX,
                    Self::cells_fit(origin, size),
                    data.len() == y * wi + x,
                    forall|i: int|
                        0 <= i < size.x * size.y ==> f.requires((#[trigger] Self::cell_at(origin, wi, i),)),
                    forall|i: int|
                        0 <= i < data.len() ==> f.ensures((Self::cell_at(origin, wi, i),), #[trigger] data@[i]),
                decreases w - x,
            {
                let cell = IVec2 { x: origin.x + x, y: origin.y + y };
                proof {
                    let i = y * wi + x;
                    vstd::arithmetic::div_mod::lemma_fundamental_div_mod_converse(i, wi, y as int, x as int);
                    lemma_offset_in_bounds(x as int, y as int, wi, size.y as int);
                    assert(cell == Self::cell_at(origin, wi, i));
                }
                let v = f(cell);
                data.push(v);
                x = x + 1;
            }
            proof {
                assert((y + 1) * wi == y * wi + wi) by (nonlinear_arith);
            }
            y = y + 1;
        }
        proof {
            assert(h * wi == size.x * size.y) by (nonlinear_arith)
                requires
                    h == size.y,
                    wi == size.x,
            ;
        }
        Grid { origin, size, data }
    }

    /// A grid of `size` cells starting at `(0, 0)`, where each cell holds
    /// what `f` returns for that cell.
    pub fn from_fn<F: Fn(IVec2) -> T>(size: UVec2, f: F) -> (r: Grid<T>)
        requires
            size.x <= i32::MAX,
            size.y <= i32::MAX,
            size.x * size.y <= usize::MAX,
            forall|i: int|
                0 <= i < size.x * size.y ==> f.requires(
                    (#[trigger] Self::cell_at(IVec2::zero_spec(), size.x as int, i),),
                ),
        ensures
            r.wf(),
            r.spec_origin() == IVec2::zero_spec(),
            r.spec_size() == size,
            r.contents().len() == size.x * size.y,
            forall|i: int|
                0 <= i < size.x * size.y ==> f.ensures(
                    (Self::cell_at(IVec2::zero_spec(), size.x as int, i),),
                    #[trigger] r.contents()[i],
                ),
    {
        Self::from_fn_with_origin(size, IVec2::zero(), f)
    }

    /// Like [`Grid::from_fn_with_origin`], except that `f` is given each
    /// cell relative to the grid's first cell, as if the origin were
    /// `(0, 0)`. Cells are computed one after another.
    pub fn par_from_fn_with_origin<F: Fn(IVec2) -> T>(size: UVec2, origin: IVec2, f: F) -> (r: Grid<T>)
        requires
            size.x <= i32::MAX,
            size.y <= i32::MAX,
            size.x * size.y <= usize::MAX,
            forall|i: int|
                0 <= i < size.x * size.y ==> f.requires(
                    (#[trigger] Self::cell_at(IVec2::zero_spec(), size.x as int, i),),
                ),
        ensures
            r.wf(),
            r.spec_origin() == origin,
            r.spec_size() == size,
            r.contents().len() == size.x * size.y,
            forall|i: int|
                0 <= i < size.x * size.y ==> f.ensures(
                    (Self::cell_at(IVec2::zero_spec(), size.x as int, i),),
                    #[trigger] r.contents()[i],
                ),
    {
        Self::from_fn(size, f).with_origin(origin)
    }

    /// Like [`Grid::from_fn`]; cells are computed one after another.
    pub fn par_from_fn<F: Fn(IVec2) -> T>(size: UVec2, f: F) -> (r: Grid<T>)
        requires
            size.x <= i32::MAX,
            size.y <= i32::MAX,
            size.x * size.y <= usize::MAX,
            forall|i: int|
                0 <= i < size.x * size.y ==> f.requires(
                    (#[trigger] Self::cell_at(IVec2::zero_spec(), size.x as int, i),),
                ),
        ensures
            r.wf(),
            r.spec_origin() == IVec2::zero_spec(),
            r.spec_size() == size,
            r.contents().len() == size.x * size.y,
            forall|i: int|
                0 <= i < size.x * size.y ==> f.ensures(
                    (Self::cell_at(IVec2::zero_spec(), size.x as int, i),),
                    #[trigger] r.contents()[i],
                ),
    {
        Self::par_from_fn_with_origin(size, IVec2::zero(), f)
    }

    /// The cell at storage position `i`, whose neighbors all have `i32`
    /// coordinates when the grid is smaller than `i32::MAX` each way and
    /// starts at `(0, 0)`.
    pub fn exec_cell_at(&self, i: usize) -> (r: IVec2)
        requires
            self.wf(),
            i < self.contents().len(),
            self.spec_origin() == IVec2::zero_spec(),
            self.spec_size().x < i32::MAX,
            self.spec_size().y < i32::MAX,
        ensures
            r == self.cell_of(i as int),
            self.in_grid(r),
            center_fits(r),
    {
        self.exec_cell_of(i)
    }

    /// The cell at storage position `i`, computed in executable code.
    fn exec_cell_of(&self, i: usize) -> (r: IVec2)
        requires
            self.wf(),
            i < self.contents().len(),
            Self::cells_fit(self.spec_origin(), self.spec_size()),
        ensures
            r == self.cell_of(i as int),
            self.in_grid(r),
            self.offset(r) == i,
    {
        let w = self.size.x as usize;
        proof {
            if w == 0 {
                assert(self.size.x * self.size.y == 0);
            }
            assert(w > 0);
            vstd::arithmetic::div_mod::lemma_fundamental_div_mod(i as int, w as int);
            assert((i / w) * w == w * (i / w)) by (nonlinear_arith);
            assert(i / w < self.size.y) by (nonlinear_arith)
                requires
                    i < w * self.size.y,
                    w > 0,
            ;
        }
        let x = (i % w) as i64;
        let y = (i / w) as i64;
        IVec2 { x: (self.origin.x as i64 + x) as i32, y: (self.origin.y as i64 + y) as i32 }
    }

    pub fn origin(&self) -> (r: IVec2)
        ensures
            r == self.spec_origin(),
    {
        self.origin
    }

    pub fn size(&self) -> (r: UVec2)
        ensures
            r == self.spec_size(),
    {
        self.size
    }

    pub fn data(&self) -> (r: &[T])
        ensures
            r@ == self.contents(),
    {
        self.data.as_slice()
    }

    /// The stored values, row by row, for writing in place.
    pub fn data_mut(&mut self) -> (r: &mut [T])
        ensures
            r@ == old(self).contents(),
            final(self).contents() == final(r)@,
            final(self).spec_origin() == old(self).spec_origin(),
            final(self).spec_size() == old(self).spec_size(),
    {
        self.data.as_mut_slice()
    }

    /// Whether `cell` lies inside the grid.
    pub fn contains_cell(&self, cell: IVec2) -> (r: bool)
        ensures
            r == self.in_grid(cell),
    {
        let dx = cell.x as i64 - self.origin.x as i64;
        let dy = cell.y as i64 - self.origin.y as i64;
        (dx >= 0 && dx < self.size.x as i64) && (dy >= 0 && dy < self.size.y as i64)
    }

    /// Storage position of a cell inside the grid.
    fn offset_of(&self, cell: IVec2) -> (r: usize)
        requires
            self.wf(),
            self.in_grid(cell),
        ensures
            r == self.offset(cell),
            r < self.contents().len(),
    {
        let len: usize = self.data.len();
        proof {
            assert(len == self.contents().len());
            lemma_offset_in_bounds(
                cell.x - self.origin.x,
                cell.y - self.origin.y,
                self.size.x as int,
                self.size.y as int,
            );
        }
        let dx = (cell.x as i64 - self.origin.x as i64) as usize;
        let dy = (cell.y as i64 - self.origin.y as i64) as usize;
        dy * (self.size.x as usize) + dx
    }

    /// Row-major storage position of `cell`. The cell must not lie before
    /// the origin, and the position must fit in a `usize`.
    pub fn index(&self, cell: IVec2) -> (r: usize)
        requires
            i32::MIN <= cell.x - self.spec_origin().x <= i32::MAX,
            i32::MIN <= cell.y - self.spec_origin().y <= i32::MAX,
            cell.x - self.spec_origin().x >= 0,
            cell.y - self.spec_origin().y >= 0,
            self.offset(cell) <= usize::MAX,
        ensures
            r == self.offset(cell),
    {
        let dx = (cell.x - self.origin.x) as usize;
        let dy = (cell.y - self.origin.y) as usize;
        proof {
            assert(0 <= dy * self.size.x) by (nonlinear_arith)
                requires
                    dy >= 0,
            ;
        }
        dy * (self.size.x as usize) + dx
    }

    /// `cell` moved to the nearest cell inside the grid.
    pub open spec fn clamp(&self, cell: IVec2) -> IVec2 {
        let lo = self.spec_origin();
        let hx = self.spec_origin().x + self.spec_size().x - 1;
        let hy = self.spec_origin().y + self.spec_size().y - 1;
        IVec2 {
            x: (if cell.x < lo.x { lo.x as int } else if cell.x > hx { hx } else { cell.x as int }) as i32,
            y: (if cell.y < lo.y { lo.y as int } else if cell.y > hy { hy } else { cell.y as int }) as i32,
        }
    }

    /// The value of the cell inside the grid that is nearest to `cell`.
    /// The grid must not be empty.
    pub fn clamped_get(&self, cell: IVec2) -> (r: &T)
        requires
            self.wf(),
            self.spec_size().x > 0,
            self.spec_size().y > 0,
            self.spec_size().x <= i32::MAX,
            self.spec_size().y <= i32::MAX,
            self.spec_origin().x + self.spec_size().x <= i32::MAX,
            self.spec_origin().y + self.spec_size().y <= i32::MAX,
        ensures
            self.in_grid(self.clamp(cell)),
            *r == self.value(self.clamp(cell)),
    {
        let max = IVec2 {
            x: self.origin.x + (self.size.x as i32) - 1,
            y: self.origin.y + (self.size.y as i32) - 1,
        };
        let c = cell.max(self.origin).min(max);
        assert(c == self.clamp(cell));
        let i = self.offset_of(c);
        &self.data[i]
    }

    /// A mutable reference to the value of `cell`, or `None` outside the
    /// grid. Writing through the reference changes only that cell.
    pub fn get_mut(&mut self, cell: IVec2) -> (r: Option<&mut T>)
        requires
            old(self).wf(),
        ensures
            r is Some <==> old(self).in_grid(cell),
            r matches Some(v) ==> {
                &&& *v == old(self).value(cell)
                &&& final(self).contents() == old(self).contents().update(old(self).offset(cell), *final(v))
                &&& final(self).spec_origin() == old(self).spec_origin()
                &&& final(self).spec_size() == old(self).spec_size()
            },
            r is None ==> *final(self) == *old(self),
    {
        if self.contains_cell(cell) {
            let i = self.offset_of(cell);
            Some(&mut self.data[i])
        } else {
            None
        }
    }

    /// Stores `value` in `cell` and returns the previous value, or returns
    /// `None` and leaves the grid unchanged when `cell` is outside it.
    pub fn set(&mut self, cell: IVec2, value: T) -> (r: Option<T>)
        requires
            old(self).wf(),
        ensures
            final(self).wf(),
            final(self).spec_origin() == old(self).spec_origin(),
            final(self).spec_size() == old(self).spec_size(),
            old(self).in_grid(cell) ==> {
                &&& r == Some(old(self).value(cell))
                &&& final(self).contents() == old(self).contents().update(old(self).offset(cell), value)
            },
            !old(self).in_grid(cell) ==> r is None && final(self).contents() == old(self).contents(),
    {
        if self.contains_cell(cell) {
            let i = self.offset_of(cell);
            let mut v = value;
            std::mem::swap(&mut self.data[i], &mut v);
            Some(v)
        } else {
            None
        }
    }

    /// The value stored for `cell`, or `None` outside the grid.
    pub fn get(&self, cell: IVec2) -> (r: Option<&T>)
        requires
            self.wf(),
        ensures
            r == (if self.in_grid(cell) { Some(&self.value(cell)) } else { None }),
    {
        if self.contains_cell(cell) {
            let i = self.offset_of(cell);
            Some(&self.data[i])
        } else {
            None
        }
    }
}

impl<T> Grid<T> {
    /// Every cell of the grid, row by row.
    pub fn cells(&self) -> (r: Vec<IVec2>)
        requires
            self.wf(),
            Self::cells_fit(self.spec_origin(), self.spec_size()),
        ensures
            r.len() == self.contents().len(),
            forall|i: int| 0 <= i < r.len() ==> #[trigger] r@[i] == self.cell_of(i),
    {
        let n: usize = self.data.len();
        let mut res: Vec<IVec2> = Vec::new();
        let mut i: usize = 0;
        while i < n
            invariant
                self.wf(),
                Self::cells_fit(self.spec_origin(), self.spec_size()),
                n == self.contents().len(),
                i <= n,
                res.len() == i,
                forall|k: int| 0 <= k < i ==> #[trigger] res@[k] == self.cell_of(k),
            decreases n - i,
        {
            let c = self.exec_cell_of(i);
            res.push(c);
            i = i + 1;
        }
        res
    }

    /// The stored values, row by row.
    pub fn values(&self) -> (r: &[T])
        ensures
            r@ == self.contents(),
    {
        self.data.as_slice()
    }

    /// The stored values, row by row, for changing them in place; iterate
    /// the slice to visit every value.
    pub fn values_mut(&mut self) -> (r: &mut [T])
        ensures
            r@ == old(self).contents(),
            final(self).contents() == final(r)@,
            final(self).spec_origin() == old(self).spec_origin(),
            final(self).spec_size() == old(self).spec_size(),
    {
        self.data.as_mut_slice()
    }

    /// Every cell of the grid, row by row, beside its values for changing
    /// them in place: value `i` of the slice belongs to cell `i` of the list.
    pub fn entries_mut(&mut self) -> (r: (Vec<IVec2>, &mut [T]))
        requires
            old(self).wf(),
            Self::cells_fit(old(self).spec_origin(), old(self).spec_size()),
        ensures
            r.0.len() == old(self).contents().len(),
            forall|i: int| 0 <= i < r.0.len() ==> #[trigger] r.0@[i] == old(self).cell_of(i),
            r.1@ == old(self).contents(),
            final(self).contents() == final(r.1)@,
            final(self).spec_origin() == old(self).spec_origin(),
            final(self).spec_size() == old(self).spec_size(),
    {
        let cells = self.cells();
        (cells, self.data.as_mut_slice())
    }

    /// Every cell of the grid together with its value, row by row.
    pub fn entries(&self) -> (r: Vec<(IVec2, &T)>)
        requires
            self.wf(),
            Self::cells_fit(self.spec_origin(), self.spec_size()),
        ensures
            r.len() == self.contents().len(),
            forall|i: int|
                0 <= i < r.len() ==> #[trigger] r@[i] == (self.cell_of(i), &self.contents()[i]),
    {
        let n: usize = self.data.len();
        let mut res: Vec<(IVec2, &T)> = Vec::new();
        let mut i: usize = 0;
        while i < n
            invariant
                self.wf(),
                Self::cells_fit(self.spec_origin(), self.spec_size()),
                n == self.contents().len(),
                i <= n,
                res.len() == i,
                forall|k: int|
                    0 <= k < i ==> #[trigger] res@[k] == (self.cell_of(k), &self.contents()[k]),
            decreases n - i,
        {
            let c = self.exec_cell_of(i);
            res.push((c, &self.data[i]));
            i = i + 1;
        }
        res
    }

    /// A grid of the same shape whose cells hold what `f` returns for each
    /// cell and its value, computed row by row.
    pub fn map<U, F: Fn(IVec2, &T) -> U>(&self, f: F) -> (r: Grid<U>)
        requires
            self.wf(),
            Self::cells_fit(self.spec_origin(), self.spec_size()),
            forall|i: int|
                0 <= i < self.contents().len() ==> f.requires(
                    (#[trigger] self.cell_of(i), &self.contents()[i]),
                ),
        ensures
            r.wf(),
            r.spec_origin() == self.spec_origin(),
            r.spec_size() == self.spec_size(),
            forall|i: int|
                0 <= i < self.contents().len() ==> f.ensures(
                    (self.cell_of(i), &self.contents()[i]),
                    #[trigger] r.contents()[i],
                ),
    {
        let n: usize = self.data.len();
        let mut res: Vec<U> = Vec::new();
        let mut i: usize = 0;
        while i < n
            invariant
                self.wf(),
                Self::cells_fit(self.spec_origin(), self.spec_size()),
                n == self.contents().len(),
                i <= n,
                res.len() == i,
                forall|k: int|
                    0 <= k < self.contents().len() ==> f.requires(
                        (#[trigger] self.cell_of(k), &self.contents()[k]),
                    ),
                forall|k: int|
                    0 <= k < i ==> f.ensures((self.cell_of(k), &self.contents()[k]), #[trigger] res@[k]),
            decreases n - i,
        {
            let c = self.exec_cell_of(i);
            let v = f(c, &self.data[i]);
            res.push(v);
            i = i + 1;
        }
        Grid { origin: self.origin, size: self.size, data: res }
    }

    /// Replaces the value of every cell, row by row, with what `f` returns
    /// for the cell and its current value.
    pub fn map_inplace<F: Fn(IVec2, &T) -> T>(&mut self, f: F)
        requires
            old(self).wf(),
            Self::cells_fit(old(self).spec_origin(), old(self).spec_size()),
            forall|i: int|
                0 <= i < old(self).contents().len() ==> f.requires(
                    (#[trigger] old(self).cell_of(i), &old(self).contents()[i]),
                ),
        ensures
            final(self).wf(),
            final(self).spec_origin() == old(self).spec_origin(),
            final(self).spec_size() == old(self).spec_size(),
            final(self).contents().len() == old(self).contents().len(),
            forall|i: int|
                0 <= i < old(self).contents().len() ==> f.ensures(
                    (old(self).cell_of(i), &old(self).contents()[i]),
                    #[trigger] final(self).contents()[i],
                ),
    {
        let n: usize = self.data.len();
        let mut i: usize = 0;
        while i < n
            invariant
                self.wf(),
                self.spec_origin() == old(self).spec_origin(),
                self.spec_size() == old(self).spec_size(),
                Self::cells_fit(self.spec_origin(), self.spec_size()),
                n == self.contents().len(),
                n == old(self).contents().len(),
                i <= n,
                forall|k: int|
                    0 <= k < old(self).contents().len() ==> f.requires(
                        (#[trigger] old(self).cell_of(k), &old(self).contents()[k]),
                    ),
                forall|k: int|
                    0 <= k < i ==> f.ensures(
                        (old(self).cell_of(k), &old(self).contents()[k]),
                        #[trigger] self.contents()[k],
                    ),
                forall|k: int| i <= k < n ==> #[trigger] self.contents()[k] == old(self).contents()[k],
            decreases n - i,
        {
            let c = self.exec_cell_of(i);
            let v = f(c, &self.data[i]);
            self.data.set(i, v);
            i = i + 1;
        }
    }
}

/// The four edge-adjacent directions: up, right, down, left.
pub open spec fn neighborhood_4_spec() -> Seq<IVec2> {
    seq![
        IVec2 { x: 0i32, y: -1i32 },
        IVec2 { x: 1i32, y: 0i32 },
        IVec2 { x: 0i32, y: 1i32 },
        IVec2 { x: -1i32, y: 0i32 },
    ]
}

/// The eight adjacent directions, clockwise starting upward.
pub open spec fn neighborhood_8_spec() -> Seq<IVec2> {
    seq![
        IVec2 { x: 0i32, y: -1i32 },
        IVec2 { x: 1i32, y: -1i32 },
        IVec2 { x: 1i32, y: 0i32 },
        IVec2 { x: 1i32, y: 1i32 },
        IVec2 { x: 0i32, y: 1i32 },
        IVec2 { x: -1i32, y: 1i32 },
        IVec2 { x: -1i32, y: 0i32 },
        IVec2 { x: -1i32, y: -1i32 },
    ]
}

/// The four edge-adjacent directions: up, right, down, left.
pub fn neighborhood_4() -> (r: [IVec2; 4])
    ensures
        r@ == neighborhood_4_spec(),
{
    let r = [
        IVec2 { x: 0, y: -1 },
        IVec2 { x: 1, y: 0 },
        IVec2 { x: 0, y: 1 },
        IVec2 { x: -1, y: 0 },
    ];
    assert(r@ =~= neighborhood_4_spec());
    r
}

/// The eight adjacent directions, clockwise starting upward.
pub fn neighborhood_8() -> (r: [IVec2; 8])
    ensures
        r@ == neighborhood_8_spec(),
{
    let r = [
        IVec2 { x: 0, y: -1 },
        IVec2 { x: 1, y: -1 },
        IVec2 { x: 1, y: 0 },
        IVec2 { x: 1, y: 1 },
        IVec2 { x: 0, y: 1 },
        IVec2 { x: -1, y: 1 },
        IVec2 { x: -1, y: 0 },
        IVec2 { x: -1, y: -1 },
    ];
    assert(r@ =~= neighborhood_8_spec());
    r
}

/// `center` moved by `dir`.
pub open spec fn offset_cell(center: IVec2, dir: IVec2) -> IVec2 {
    IVec2 { x: (center.x + dir.x) as i32, y: (center.y + dir.y) as i32 }
}

/// A center whose neighbors all have `i32` coordinates.
pub open spec fn center_fits(center: IVec2) -> bool {
    &&& i32::MIN < center.x < i32::MAX
    &&& i32::MIN < center.y < i32::MAX
}

impl<T> Grid<T> {
    /// The neighbors of `center` among the first `k` of `dirs` that lie in
    /// the grid, each with the index of its direction, in direction order.
    pub open spec fn neighbors_spec(&self, dirs: Seq<IVec2>, center: IVec2, k: nat) -> Seq<(usize, IVec2)>
        decreases k,
    {
        if k == 0 {
            seq![]
        } else {
            let prev = self.neighbors_spec(dirs, center, (k - 1) as nat);
            let c = offset_cell(center, dirs[k - 1]);
            if self.in_grid(c) {
                prev.push(((k - 1) as usize, c))
            } else {
                prev
            }
        }
    }

    fn neighborhood(&self, dirs: &[IVec2], center: IVec2) -> (r: Vec<(usize, IVec2)>)
        requires
            center_fits(center),
            forall|i: int| 0 <= i < dirs@.len() ==> -1 <= #[trigger] dirs@[i].x <= 1 && -1 <= dirs@[i].y <= 1,
        ensures
            r@ == self.neighbors_spec(dirs@, center, dirs@.len()),
    {
        let mut res: Vec<(usize, IVec2)> = Vec::new();
        let mut i: usize = 0;
        while i < dirs.len()
            invariant
                center_fits(center),
                forall|k: int| 0 <= k < dirs@.len() ==> -1 <= #[trigger] dirs@[k].x <= 1 && -1 <= dirs@[k].y <= 1,
                i <= dirs@.len(),
                res@ == self.neighbors_spec(dirs@, center, i as nat),
            decreases dirs.len() - i,
        {
            let d = dirs[i];
            let c = IVec2 { x: center.x + d.x, y: center.y + d.y };
            if self.contains_cell(c) {
                res.push((i, c));
            }
            i = i + 1;
        }
        res
    }

    /// The edge-adjacent neighbors of `center` that lie in the grid, each
    /// with the index of its direction in [`neighborhood_4`].
    pub fn neighborhood_4(&self, center: IVec2) -> (r: Vec<(usize, IVec2)>)
        requires
            center_fits(center),
        ensures
            r@ == self.neighbors_spec(neighborhood_4_spec(), center, 4),
    {
        let dirs = neighborhood_4();
        self.neighborhood(&dirs, center)
    }

    /// The adjacent neighbors of `center` that lie in the grid, each with
    /// the index of its direction in [`neighborhood_8`].
    pub fn neighborhood_8(&self, center: IVec2) -> (r: Vec<(usize, IVec2)>)
        requires
            center_fits(center),
        ensures
            r@ == self.neighbors_spec(neighborhood_8_spec(), center, 8),
    {
        let dirs = neighborhood_8();
        self.neighborhood(&dirs, center)
    }
}

impl<T> Grid<T> {
    /// The rows of the grid, top to bottom. Rows must not be empty.
    pub fn rows(&self) -> (r: Vec<&[T]>)
        requires
            self.wf(),
            self.spec_size().x > 0,
        ensures
            r.len() == self.spec_size().y,
            forall|k: int|
                0 <= k < r.len() ==> (#[trigger] r@[k])@ == self.contents().subrange(
                    k * self.spec_size().x,
                    (k + 1) * self.spec_size().x,
                ),
    {
        let w = self.size.x as usize;
        let h = self.size.y as usize;
        let n: usize = self.data.len();
        let all = self.data.as_slice();
        let mut res: Vec<&[T]> = Vec::new();
        let mut k: usize = 0;
        while k < h
            invariant
                self.wf(),
                w == self.spec_size().x,
                h == self.spec_size().y,
                w > 0,
                n == w * h,
                all@ == self.contents(),
                k <= h,
                res.len() == k,
                forall|j: int|
                    0 <= j < k ==> (#[trigger] res@[j])@ == self.contents().subrange(j * w, (j + 1) * w),
            decreases h - k,
        {
            proof {
                assert((k + 1) * w <= w * h) by (nonlinear_arith)
                    requires
                        k < h,
                        w > 0,
                ;
                assert(k * w + w == (k + 1) * w) by (nonlinear_arith);
            }
            let row = vstd::slice::slice_subrange(all, k * w, k * w + w);
            res.push(row);
            k = k + 1;
        }
        res
    }

    /// This grid is `g` mirrored along its diagonal: origin and size have
    /// their components swapped, and each value is read from the swapped
    /// position of `g`.
    pub open spec fn is_transpose_of(&self, g: &Grid<T>) -> bool {
        &&& self.spec_origin() == g.spec_origin().yx_spec()
        &&& self.spec_size() == g.spec_size().yx_spec()
        &&& self.contents().len() == g.contents().len()
        &&& forall|i: int|
            0 <= i < self.contents().len() ==> #[trigger] self.contents()[i] == g.contents()[transposed_index(
                i,
                g.spec_size().x as int,
                g.spec_size().y as int,
            )]
    }

    /// The grid mirrored along its diagonal: rows become columns. Cells are
    /// read relative to the grid's first cell, so a non-empty grid must
    /// start at `(0, 0)`.
    pub fn transpose(&self) -> (r: Grid<T>)
        where
            T: Copy,
        requires
            self.wf(),
            self.spec_size().x * self.spec_size().y == 0 || self.spec_origin() == IVec2::zero_spec(),
        ensures
            r.wf(),
            r.is_transpose_of(self),
            forall|x: int, y: int|
                0 <= x < self.spec_size().y && 0 <= y < self.spec_size().x ==> #[trigger] r.contents()[y
                    * self.spec_size().y + x] == self.contents()[x * self.spec_size().x + y],
    {
        let w = self.size.x as usize;
        let h = self.size.y as usize;
        let n: usize = self.data.len();
        let mut res: Vec<T> = Vec::new();
        let mut i: usize = 0;
        while i < n
            invariant
                self.wf(),
                w == self.spec_size().x,
                h == self.spec_size().y,
                n == w * h,
                i <= n,
                res.len() == i,
                forall|k: int|
                    0 <= k < i ==> #[trigger] res@[k] == self.contents()[transposed_index(k, w as int, h as int)],
            decreases n - i,
        {
            proof {
                lemma_transposed_index_bounds(i as int, w as int, h as int);
            }
            let j = (i % h) * w + i / h;
            res.push(self.data[j]);
            i = i + 1;
        }
        proof {
            assert(n == self.size.y * self.size.x) by (nonlinear_arith)
                requires
                    n == w * h,
                    w == self.size.x,
                    h == self.size.y,
            ;
        }
        let r = Grid { origin: self.origin.yx(), size: self.size.yx(), data: res };
        proof {
            assert forall|x: int, y: int|
                0 <= x < self.spec_size().y && 0 <= y < self.spec_size().x implies #[trigger] r.contents()[y
                    * self.spec_size().y + x] == self.contents()[x * self.spec_size().x + y] by {
                lemma_transpose_swaps_cells(*self, r, x, y);
            }
        }
        r
    }

    /// Replaces the grid by its transpose, see [`Grid::transpose`].
    pub fn transpose_in_place(&mut self)
        where
            T: Copy,
        requires
            old(self).wf(),
            old(self).spec_size().x * old(self).spec_size().y == 0 || old(self).spec_origin()
                == IVec2::zero_spec(),
        ensures
            final(self).wf(),
            final(self).is_transpose_of(old(self)),
            forall|x: int, y: int|
                0 <= x < old(self).spec_size().y && 0 <= y < old(self).spec_size().x
                    ==> #[trigger] final(self).contents()[y * old(self).spec_size().y + x]
                    == old(self).contents()[x * old(self).spec_size().x + y],
    {
        *self = self.transpose();
    }
}

/// Transposing swaps the coordinates of every cell: the value at `(x, y)`
/// of the transpose (row `y`, column `x`, in rows `h` long) is the value at
/// `(y, x)` of the grid (row `x`, column `y`, in rows `w` long).
pub proof fn lemma_transpose_swaps_cells<T>(g: Grid<T>, t: Grid<T>, x: int, y: int)
    requires
        g.wf(),
        t.is_transpose_of(&g),
        0 <= x < g.spec_size().y,
        0 <= y < g.spec_size().x,
    ensures
        t.contents()[y * g.spec_size().y + x] == g.contents()[x * g.spec_size().x + y],
{
    let w = g.spec_size().x as int;
    let h = g.spec_size().y as int;
    let i = y * h + x;
    vstd::arithmetic::div_mod::lemma_fundamental_div_mod_converse(i, h, y, x);
    assert(0 <= i < w * h) by (nonlinear_arith)
        requires
            i == y * h + x,
            0 <= x < h,
            0 <= y < w,
    ;
    assert(t.contents()[i] == g.contents()[transposed_index(i, w, h)]);
}

/// Storage position in a `w` by `h` grid of the value that lands at
/// position `i` of its transpose.
pub open spec fn transposed_index(i: int, w: int, h: int) -> int {
    (i % h) * w + i / h
}

/// Positions of a transposed grid read positions of the grid it was made from.
pub proof fn lemma_transposed_index_bounds(i: int, w: int, h: int)
    requires
        0 <= i < w * h,
        w >= 0,
    ensures
        h > 0,
        0 <= transposed_index(i, w, h) < w * h,
        i % h < h,
        i / h < w,
{
    if h <= 0 {
        assert(w * h <= 0) by (nonlinear_arith)
            requires
                h <= 0,
                w >= 0,
        ;
    }
    assert(w > 0) by (nonlinear_arith)
        requires
            0 <= i < w * h,
            h > 0,
    ;
    vstd::arithmetic::div_mod::lemma_fundamental_div_mod(i, h);
    assert(i / h < w) by (nonlinear_arith)
        requires
            i == h * (i / h) + i % h,
            0 <= i % h < h,
            i < w * h,
            h > 0,
    ;
    assert(0 <= i / h) by (nonlinear_arith)
        requires
            i >= 0,
            h > 0,
            i == h * (i / h) + i % h,
            0 <= i % h < h,
    ;
    lemma_offset_in_bounds(i / h, i % h, w, h);
}

/// Transposing twice gives back the same grid: same origin, same size,
/// same values.
pub proof fn lemma_transpose_twice<T>(g: Grid<T>, t: Grid<T>, tt: Grid<T>)
    requires
        g.wf(),
        t.is_transpose_of(&g),
        tt.is_transpose_of(&t),
    ensures
        tt.spec_origin() == g.spec_origin(),
        tt.spec_size() == g.spec_size(),
        tt.contents() == g.contents(),
{
    let w = g.spec_size().x as int;
    let h = g.spec_size().y as int;
    assert forall|i: int| 0 <= i < tt.contents().len() implies #[trigger] tt.contents()[i] == g.contents()[i] by {
        assert(w * h == h * w) by (nonlinear_arith);
        lemma_transposed_index_bounds(i, h, w);
        let j = transposed_index(i, h, w);
        lemma_transposed_index_inverse(i, w, h);
    }
    assert(tt.contents() =~= g.contents());
}

/// Reading the transpose of a transpose goes back to the first position.
pub proof fn lemma_transposed_index_inverse(i: int, w: int, h: int)
    requires
        0 <= i < w * h,
        w >= 0,
        h >= 0,
    ensures
        transposed_index(transposed_index(i, h, w), w, h) == i,
{
    assert(w * h == h * w) by (nonlinear_arith);
    lemma_transposed_index_bounds(i, h, w);
    let q = i / w;
    let r = i % w;
    let j = r * h + q;
    vstd::arithmetic::div_mod::lemma_fundamental_div_mod(i, w);
    assert(q < h);
    vstd::arithmetic::div_mod::lemma_fundamental_div_mod_converse(j, h, r, q);
    assert(i == q * w + r) by (nonlinear_arith)
        requires
            i == w * (i / w) + i % w,
            q == i / w,
            r == i % w,
    ;
}

/// A cell at column `dx`, row `dy` of a `w` by `h` grid has a row-major
/// position inside the storage.
pub proof fn lemma_offset_in_bounds(dx: int, dy: int, w: int, h: int)
    requires
        0 <= dx < w,
        0 <= dy < h,
    ensures
        0 <= dy * w + dx < w * h,
        0 <= dy * w + dx < h * w,
{
    assert(0 <= dy * w + dx < h * w && h * w == w * h) by (nonlinear_arith)
        requires
            0 <= dx < w,
            0 <= dy < h,
    ;
}


/// Writing a value into a cell of a grid: reading that cell gives the value
/// back, and every other cell keeps its value.
pub proof fn lemma_read_after_write<T>(g: Grid<T>, h: Grid<T>, cell: IVec2, value: T, other: IVec2)
    requires
        g.wf(),
        g.in_grid(cell),
        g.in_grid(other),
        h.spec_origin() == g.spec_origin(),
        h.spec_size() == g.spec_size(),
        h.contents() == g.contents().update(g.offset(cell), value),
    ensures
        h.value(cell) == value,
        other != cell ==> h.value(other) == g.value(other),
{
    lemma_offset_in_bounds(
        cell.x - g.spec_origin().x,
        cell.y - g.spec_origin().y,
        g.spec_size().x as int,
        g.spec_size().y as int,
    );
    lemma_offset_in_bounds(
        other.x - g.spec_origin().x,
        other.y - g.spec_origin().y,
        g.spec_size().x as int,
        g.spec_size().y as int,
    );
    if other != cell {
        lemma_offset_injective(g, cell, other);
    }
}

/// Different cells of a grid are stored at different positions.
pub proof fn lemma_offset_injective<T>(g: Grid<T>, a: IVec2, b: IVec2)
    requires
        g.in_grid(a),
        g.in_grid(b),
        a != b,
    ensures
        g.offset(a) != g.offset(b),
{
    let w = g.spec_size().x as int;
    let ax = a.x - g.spec_origin().x;
    let ay = a.y - g.spec_origin().y;
    let bx = b.x - g.spec_origin().x;
    let by = b.y - g.spec_origin().y;
    if ay == by {
        assert(ax != bx);
    } else if ay < by {
        assert(ay * w + ax < by * w + bx) by (nonlinear_arith)
            requires
                ay < by,
                0 <= ax < w,
                0 <= bx,
        ;
    } else {
        assert(by * w + bx < ay * w + ax) by (nonlinear_arith)
            requires
                by < ay,
                0 <= bx < w,
                0 <= ax,
        ;
    }
}

/// The cell stored at the position of a cell is that cell, and the
/// position of the cell stored at a position is that position.
pub proof fn lemma_cell_offset_inverse<T>(g: Grid<T>, cell: IVec2, i: int)
    requires
        g.wf(),
        Grid::<T>::cells_fit(g.spec_origin(), g.spec_size()),
    ensures
        g.in_grid(cell) ==> g.cell_of(g.offset(cell)) == cell,
        0 <= i < g.contents().len() ==> g.in_grid(g.cell_of(i)) && g.offset(g.cell_of(i)) == i,
{
    let w = g.spec_size().x as int;
    let h = g.spec_size().y as int;
    if g.in_grid(cell) {
        let dx = cell.x - g.spec_origin().x;
        let dy = cell.y - g.spec_origin().y;
        assert((dy * w + dx) % w == dx && (dy * w + dx) / w == dy) by (nonlinear_arith)
            requires
                0 <= dx < w,
                0 <= dy,
        {
            vstd::arithmetic::div_mod::lemma_fundamental_div_mod_converse(dy * w + dx, w, dy, dx);
        }
    }
    if 0 <= i < g.contents().len() {
        assert(w > 0) by (nonlinear_arith)
            requires
                0 <= i < w * h,
                w >= 0,
                h >= 0,
        ;
        assert(w * h == h * w) by (nonlinear_arith);
        vstd::arithmetic::div_mod::lemma_fundamental_div_mod(i, w);
        vstd::arithmetic::div_mod::lemma_div_pos_is_pos(i, w);
        vstd::arithmetic::div_mod::lemma_div_by_multiple_is_strongly_ordered(i, h * w, h, w);
        vstd::arithmetic::div_mod::lemma_mod_pos_bound(i, w);
        vstd::arithmetic::div_mod::lemma_div_by_multiple(h, w);
        assert(w * (i / w) == (i / w) * w) by (nonlinear_arith);
    }
}

} // verus!
