use std::ops::{Add, Sub, Mul, Div, Rem, BitAnd, BitOr, BitXor, Shl, Shr, Neg, Not};

use vstd::prelude::*;
use vstd::std_specs::ops::{AddSpec, AddSpecImpl, SubSpec, SubSpecImpl, MulSpec, MulSpecImpl, DivSpec, DivSpecImpl, RemSpec, RemSpecImpl, BitAndSpec, BitAndSpecImpl, BitOrSpec, BitOrSpecImpl, BitXorSpec, BitXorSpecImpl, ShlSpec, ShlSpecImpl, ShrSpec, ShrSpecImpl, NegSpec, NegSpecImpl, NotSpec, NotSpecImpl};

use crate::grid::Grid;

verus! {

/// Both grids cover the same cells.
pub open spec fn same_shape<T, U>(a: &Grid<T>, b: &Grid<U>) -> bool {
    &&& a.spec_origin() == b.spec_origin()
    &&& a.spec_size() == b.spec_size()
}

impl<'a, 'b, T: Copy + Add<T>> AddSpecImpl<&'b Grid<T>> for &'a Grid<T> {
    open spec fn obeys_add_spec() -> bool {
        false
    }

    open spec fn add_req(self, rhs: &'b Grid<T>) -> bool {
        &&& self.wf()
        &&& same_shape(self, rhs)
        &&& forall|i: int|
            0 <= i < self.contents().len() ==> AddSpec::add_req(#[trigger] self.contents()[i], self.contents()[i])
    }

    open spec fn add_spec(self, rhs: &'b Grid<T>) -> Grid<T::Output> {
        arbitrary()
    }
}

impl<'a, 'b, T: Copy + Add<T>> Add<&'b Grid<T>> for &'a Grid<T> {
    type Output = Grid<T::Output>;

    /// Checks that `rhs` covers the same cells, then applies `+` to every
    /// value of `self` paired with itself.
    fn add(self, rhs: &'b Grid<T>) -> (r: Grid<T::Output>)
        ensures
            r.wf(),
            same_shape(&r, self),
            forall|i: int|
                0 <= i < self.contents().len() ==> T::obeys_add_spec() ==> #[trigger] r.contents()[i]
                    == AddSpec::add_spec(self.contents()[i], self.contents()[i]),
    {
        let n = self.data().len();
        let mut out: Vec<T::Output> = Vec::new();
        let mut i: usize = 0;
        while i < n
            invariant
                self.wf(),
                n == self.contents().len(),
                forall|k: int|
                    0 <= k < self.contents().len() ==> AddSpec::add_req(#[trigger] self.contents()[k], self.contents()[k]),
                i <= n,
                out.len() == i,
                forall|k: int|
                    0 <= k < i ==> T::obeys_add_spec() ==> #[trigger] out@[k] == AddSpec::add_spec(self.contents()[k], 
                        self.contents()[k],
                    ),
            decreases n - i,
        {
            let a = self.data()[i];
            out.push(a + a);
            i = i + 1;
        }
        Grid::from_data(self.size(), out).with_origin(self.origin())
    }
}

impl<T: Copy + Add<T>> AddSpecImpl<Grid<T>> for Grid<T> {
    open spec fn obeys_add_spec() -> bool {
        false
    }

    open spec fn add_req(self, rhs: Grid<T>) -> bool {
        AddSpec::add_req(&self, &rhs)
    }

    open spec fn add_spec(self, rhs: Grid<T>) -> Grid<T::Output> {
        arbitrary()
    }
}

impl<T: Copy + Add<T>> Add<Grid<T>> for Grid<T> {
    type Output = Grid<T::Output>;

    /// Same as `&self + &rhs`.
    fn add(self, rhs: Grid<T>) -> (r: Grid<T::Output>)
        ensures
            r.wf(),
            same_shape(&r, &self),
            forall|i: int|
                0 <= i < self.contents().len() ==> T::obeys_add_spec() ==> #[trigger] r.contents()[i]
                    == AddSpec::add_spec(self.contents()[i], self.contents()[i]),
    {
        Add::add(&self, &rhs)
    }
}

impl<'a, T: Copy + Add<T>> AddSpecImpl<T> for &'a Grid<T> {
    open spec fn obeys_add_spec() -> bool {
        false
    }

    open spec fn add_req(self, rhs: T) -> bool {
        &&& self.wf()
        &&& forall|i: int| 0 <= i < self.contents().len() ==> AddSpec::add_req(#[trigger] self.contents()[i], rhs)
    }

    open spec fn add_spec(self, rhs: T) -> Grid<T::Output> {
        arbitrary()
    }
}

impl<'a, T: Copy + Add<T>> Add<T> for &'a Grid<T> {
    type Output = Grid<T::Output>;

    /// Applies `+ rhs` to every value.
    fn add(self, rhs: T) -> (r: Grid<T::Output>)
        ensures
            r.wf(),
            same_shape(&r, self),
            forall|i: int|
                0 <= i < self.contents().len() ==> T::obeys_add_spec() ==> #[trigger] r.contents()[i]
                    == AddSpec::add_spec(self.contents()[i], rhs),
    {
        let n = self.data().len();
        let mut out: Vec<T::Output> = Vec::new();
        let mut i: usize = 0;
        while i < n
            invariant
                self.wf(),
                n == self.contents().len(),
                forall|k: int| 0 <= k < self.contents().len() ==> AddSpec::add_req(#[trigger] self.contents()[k], rhs),
                i <= n,
                out.len() == i,
                forall|k: int| 0 <= k < i ==> T::obeys_add_spec() ==> #[trigger] out@[k] == AddSpec::add_spec(self.contents()[k], rhs),
            decreases n - i,
        {
            let a = self.data()[i];
            out.push(a + rhs);
            i = i + 1;
        }
        Grid::from_data(self.size(), out).with_origin(self.origin())
    }
}

impl<T: Copy + Add<T>> AddSpecImpl<T> for Grid<T> {
    open spec fn obeys_add_spec() -> bool {
        false
    }

    open spec fn add_req(self, rhs: T) -> bool {
        AddSpec::add_req(&self, rhs)
    }

    open spec fn add_spec(self, rhs: T) -> Grid<T::Output> {
        arbitrary()
    }
}

impl<T: Copy + Add<T>> Add<T> for Grid<T> {
    type Output = Grid<T::Output>;

    /// Same as `&self + rhs`.
    fn add(self, rhs: T) -> (r: Grid<T::Output>)
        ensures
            r.wf(),
            same_shape(&r, &self),
            forall|i: int|
                0 <= i < self.contents().len() ==> T::obeys_add_spec() ==> #[trigger] r.contents()[i]
                    == AddSpec::add_spec(self.contents()[i], rhs),
    {
        Add::add(&self, rhs)
    }
}

impl<'a, 'b, T: Copy + Sub<T>> SubSpecImpl<&'b Grid<T>> for &'a Grid<T> {
    open spec fn obeys_sub_spec() -> bool {
        false
    }

    open spec fn sub_req(self, rhs: &'b Grid<T>) -> bool {
        &&& self.wf()
        &&& same_shape(self, rhs)
        &&& forall|i: int|
            0 <= i < self.contents().len() ==> SubSpec::sub_req(#[trigger] self.contents()[i], self.contents()[i])
    }

    open spec fn sub_spec(self, rhs: &'b Grid<T>) -> Grid<T::Output> {
        arbitrary()
    }
}

impl<'a, 'b, T: Copy + Sub<T>> Sub<&'b Grid<T>> for &'a Grid<T> {
    type Output = Grid<T::Output>;

    /// Checks that `rhs` covers the same cells, then applies `-` to every
    /// value of `self` paired with itself.
    fn sub(self, rhs: &'b Grid<T>) -> (r: Grid<T::Output>)
        ensures
            r.wf(),
            same_shape(&r, self),
            forall|i: int|
                0 <= i < self.contents().len() ==> T::obeys_sub_spec() ==> #[trigger] r.contents()[i]
                    == SubSpec::sub_spec(self.contents()[i], self.contents()[i]),
    {
        let n = self.data().len();
        let mut out: Vec<T::Output> = Vec::new();
        let mut i: usize = 0;
        while i < n
            invariant
                self.wf(),
                n == self.contents().len(),
                forall|k: int|
                    0 <= k < self.contents().len() ==> SubSpec::sub_req(#[trigger] self.contents()[k], self.contents()[k]),
                i <= n,
                out.len() == i,
                forall|k: int|
                    0 <= k < i ==> T::obeys_sub_spec() ==> #[trigger] out@[k] == SubSpec::sub_spec(self.contents()[k], 
                        self.contents()[k],
                    ),
            decreases n - i,
        {
            let a = self.data()[i];
            out.push(a - a);
            i = i + 1;
        }
        Grid::from_data(self.size(), out).with_origin(self.origin())
    }
}

impl<T: Copy + Sub<T>> SubSpecImpl<Grid<T>> for Grid<T> {
    open spec fn obeys_sub_spec() -> bool {
        false
    }

    open spec fn sub_req(self, rhs: Grid<T>) -> bool {
        SubSpec::sub_req(&self, &rhs)
    }

    open spec fn sub_spec(self, rhs: Grid<T>) -> Grid<T::Output> {
        arbitrary()
    }
}

impl<T: Copy + Sub<T>> Sub<Grid<T>> for Grid<T> {
    type Output = Grid<T::Output>;

    /// Same as `&self - &rhs`.
    fn sub(self, rhs: Grid<T>) -> (r: Grid<T::Output>)
        ensures
            r.wf(),
            same_shape(&r, &self),
            forall|i: int|
                0 <= i < self.contents().len() ==> T::obeys_sub_spec() ==> #[trigger] r.contents()[i]
                    == SubSpec::sub_spec(self.contents()[i], self.contents()[i]),
    {
        Sub::sub(&self, &rhs)
    }
}

impl<'a, T: Copy + Sub<T>> SubSpecImpl<T> for &'a Grid<T> {
    open spec fn obeys_sub_spec() -> bool {
        false
    }

    open spec fn sub_req(self, rhs: T) -> bool {
        &&& self.wf()
        &&& forall|i: int| 0 <= i < self.contents().len() ==> SubSpec::sub_req(#[trigger] self.contents()[i], rhs)
    }

    open spec fn sub_spec(self, rhs: T) -> Grid<T::Output> {
        arbitrary()
    }
}

impl<'a, T: Copy + Sub<T>> Sub<T> for &'a Grid<T> {
    type Output = Grid<T::Output>;

    /// Applies `- rhs` to every value.
    fn sub(self, rhs: T) -> (r: Grid<T::Output>)
        ensures
            r.wf(),
            same_shape(&r, self),
            forall|i: int|
                0 <= i < self.contents().len() ==> T::obeys_sub_spec() ==> #[trigger] r.contents()[i]
                    == SubSpec::sub_spec(self.contents()[i], rhs),
    {
        let n = self.data().len();
        let mut out: Vec<T::Output> = Vec::new();
        let mut i: usize = 0;
        while i < n
            invariant
                self.wf(),
                n == self.contents().len(),
                forall|k: int| 0 <= k < self.contents().len() ==> SubSpec::sub_req(#[trigger] self.contents()[k], rhs),
                i <= n,
                out.len() == i,
                forall|k: int| 0 <= k < i ==> T::obeys_sub_spec() ==> #[trigger] out@[k] == SubSpec::sub_spec(self.contents()[k], rhs),
            decreases n - i,
        {
            let a = self.data()[i];
            out.push(a - rhs);
            i = i + 1;
        }
        Grid::from_data(self.size(), out).with_origin(self.origin())
    }
}

impl<T: Copy + Sub<T>> SubSpecImpl<T> for Grid<T> {
    open spec fn obeys_sub_spec() -> bool {
        false
    }

    open spec fn sub_req(self, rhs: T) -> bool {
        SubSpec::sub_req(&self, rhs)
    }

    open spec fn sub_spec(self, rhs: T) -> Grid<T::Output> {
        arbitrary()
    }
}

impl<T: Copy + Sub<T>> Sub<T> for Grid<T> {
    type Output = Grid<T::Output>;

    /// Same as `&self - rhs`.
    fn sub(self, rhs: T) -> (r: Grid<T::Output>)
        ensures
            r.wf(),
            same_shape(&r, &self),
            forall|i: int|
                0 <= i < self.contents().len() ==> T::obeys_sub_spec() ==> #[trigger] r.contents()[i]
                    == SubSpec::sub_spec(self.contents()[i], rhs),
    {
        Sub::sub(&self, rhs)
    }
}

impl<'a, 'b, T: Copy + Mul<T>> MulSpecImpl<&'b Grid<T>> for &'a Grid<T> {
    open spec fn obeys_mul_spec() -> bool {
        false
    }

    open spec fn mul_req(self, rhs: &'b Grid<T>) -> bool {
        &&& self.wf()
        &&& same_shape(self, rhs)
        &&& forall|i: int|
            0 <= i < self.contents().len() ==> MulSpec::mul_req(#[trigger] self.contents()[i], self.contents()[i])
    }

    open spec fn mul_spec(self, rhs: &'b Grid<T>) -> Grid<T::Output> {
        arbitrary()
    }
}

impl<'a, 'b, T: Copy + Mul<T>> Mul<&'b Grid<T>> for &'a Grid<T> {
    type Output = Grid<T::Output>;

    /// Checks that `rhs` covers the same cells, then applies `*` to every
    /// value of `self` paired with itself.
    fn mul(self, rhs: &'b Grid<T>) -> (r: Grid<T::Output>)
        ensures
            r.wf(),
            same_shape(&r, self),
            forall|i: int|
                0 <= i < self.contents().len() ==> T::obeys_mul_spec() ==> #[trigger] r.contents()[i]
                    == MulSpec::mul_spec(self.contents()[i], self.contents()[i]),
    {
        let n = self.data().len();
        let mut out: Vec<T::Output> = Vec::new();
        let mut i: usize = 0;
        while i < n
            invariant
                self.wf(),
                n == self.contents().len(),
                forall|k: int|
                    0 <= k < self.contents().len() ==> MulSpec::mul_req(#[trigger] self.contents()[k], self.contents()[k]),
                i <= n,
                out.len() == i,
                forall|k: int|
                    0 <= k < i ==> T::obeys_mul_spec() ==> #[trigger] out@[k] == MulSpec::mul_spec(self.contents()[k], 
                        self.contents()[k],
                    ),
            decreases n - i,
        {
            let a = self.data()[i];
            out.push(a * a);
            i = i + 1;
        }
        Grid::from_data(self.size(), out).with_origin(self.origin())
    }
}

impl<T: Copy + Mul<T>> MulSpecImpl<Grid<T>> for Grid<T> {
    open spec fn obeys_mul_spec() -> bool {
        false
    }

    open spec fn mul_req(self, rhs: Grid<T>) -> bool {
        MulSpec::mul_req(&self, &rhs)
    }

    open spec fn mul_spec(self, rhs: Grid<T>) -> Grid<T::Output> {
        arbitrary()
    }
}

impl<T: Copy + Mul<T>> Mul<Grid<T>> for Grid<T> {
    type Output = Grid<T::Output>;

    /// Same as `&self * &rhs`.
    fn mul(self, rhs: Grid<T>) -> (r: Grid<T::Output>)
        ensures
            r.wf(),
            same_shape(&r, &self),
            forall|i: int|
                0 <= i < self.contents().len() ==> T::obeys_mul_spec() ==> #[trigger] r.contents()[i]
                    == MulSpec::mul_spec(self.contents()[i], self.contents()[i]),
    {
        Mul::mul(&self, &rhs)
    }
}

impl<'a, T: Copy + Mul<T>> MulSpecImpl<T> for &'a Grid<T> {
    open spec fn obeys_mul_spec() -> bool {
        false
    }

    open spec fn mul_req(self, rhs: T) -> bool {
        &&& self.wf()
        &&& forall|i: int| 0 <= i < self.contents().len() ==> MulSpec::mul_req(#[trigger] self.contents()[i], rhs)
    }

    open spec fn mul_spec(self, rhs: T) -> Grid<T::Output> {
        arbitrary()
    }
}

impl<'a, T: Copy + Mul<T>> Mul<T> for &'a Grid<T> {
    type Output = Grid<T::Output>;

    /// Applies `* rhs` to every value.
    fn mul(self, rhs: T) -> (r: Grid<T::Output>)
        ensures
            r.wf(),
            same_shape(&r, self),
            forall|i: int|
                0 <= i < self.contents().len() ==> T::obeys_mul_spec() ==> #[trigger] r.contents()[i]
                    == MulSpec::mul_spec(self.contents()[i], rhs),
    {
        let n = self.data().len();
        let mut out: Vec<T::Output> = Vec::new();
        let mut i: usize = 0;
        while i < n
            invariant
                self.wf(),
                n == self.contents().len(),
                forall|k: int| 0 <= k < self.contents().len() ==> MulSpec::mul_req(#[trigger] self.contents()[k], rhs),
                i <= n,
                out.len() == i,
                forall|k: int| 0 <= k < i ==> T::obeys_mul_spec() ==> #[trigger] out@[k] == MulSpec::mul_spec(self.contents()[k], rhs),
            decreases n - i,
        {
            let a = self.data()[i];
            out.push(a * rhs);
            i = i + 1;
        }
        Grid::from_data(self.size(), out).with_origin(self.origin())
    }
}

impl<T: Copy + Mul<T>> MulSpecImpl<T> for Grid<T> {
    open spec fn obeys_mul_spec() -> bool {
        false
    }

    open spec fn mul_req(self, rhs: T) -> bool {
        MulSpec::mul_req(&self, rhs)
    }

    open spec fn mul_spec(self, rhs: T) -> Grid<T::Output> {
        arbitrary()
    }
}

impl<T: Copy + Mul<T>> Mul<T> for Grid<T> {
    type Output = Grid<T::Output>;

    /// Same as `&self * rhs`.
    fn mul(self, rhs: T) -> (r: Grid<T::Output>)
        ensures
            r.wf(),
            same_shape(&r, &self),
            forall|i: int|
                0 <= i < self.contents().len() ==> T::obeys_mul_spec() ==> #[trigger] r.contents()[i]
                    == MulSpec::mul_spec(self.contents()[i], rhs),
    {
        Mul::mul(&self, rhs)
    }
}

impl<'a, 'b, T: Copy + Div<T>> DivSpecImpl<&'b Grid<T>> for &'a Grid<T> {
    open spec fn obeys_div_spec() -> bool {
        false
    }

    open spec fn div_req(self, rhs: &'b Grid<T>) -> bool {
        &&& self.wf()
        &&& same_shape(self, rhs)
        &&& forall|i: int|
            0 <= i < self.contents().len() ==> DivSpec::div_req(#[trigger] self.contents()[i], self.contents()[i])
    }

    open spec fn div_spec(self, rhs: &'b Grid<T>) -> Grid<T::Output> {
        arbitrary()
    }
}

impl<'a, 'b, T: Copy + Div<T>> Div<&'b Grid<T>> for &'a Grid<T> {
    type Output = Grid<T::Output>;

    /// Checks that `rhs` covers the same cells, then applies `/` to every
    /// value of `self` paired with itself.
    fn div(self, rhs: &'b Grid<T>) -> (r: Grid<T::Output>)
        ensures
            r.wf(),
            same_shape(&r, self),
            forall|i: int|
                0 <= i < self.contents().len() ==> T::obeys_div_spec() ==> #[trigger] r.contents()[i]
                    == DivSpec::div_spec(self.contents()[i], self.contents()[i]),
    {
        let n = self.data().len();
        let mut out: Vec<T::Output> = Vec::new();
        let mut i: usize = 0;
        while i < n
            invariant
                self.wf(),
                n == self.contents().len(),
                forall|k: int|
                    0 <= k < self.contents().len() ==> DivSpec::div_req(#[trigger] self.contents()[k], self.contents()[k]),
                i <= n,
                out.len() == i,
                forall|k: int|
                    0 <= k < i ==> T::obeys_div_spec() ==> #[trigger] out@[k] == DivSpec::div_spec(self.contents()[k], 
                        self.contents()[k],
                    ),
            decreases n - i,
        {
            let a = self.data()[i];
            out.push(a / a);
            i = i + 1;
        }
        Grid::from_data(self.size(), out).with_origin(self.origin())
    }
}

impl<T: Copy + Div<T>> DivSpecImpl<Grid<T>> for Grid<T> {
    open spec fn obeys_div_spec() -> bool {
        false
    }

    open spec fn div_req(self, rhs: Grid<T>) -> bool {
        DivSpec::div_req(&self, &rhs)
    }

    open spec fn div_spec(self, rhs: Grid<T>) -> Grid<T::Output> {
        arbitrary()
    }
}

impl<T: Copy + Div<T>> Div<Grid<T>> for Grid<T> {
    type Output = Grid<T::Output>;

    /// Same as `&self / &rhs`.
    fn div(self, rhs: Grid<T>) -> (r: Grid<T::Output>)
        ensures
            r.wf(),
            same_shape(&r, &self),
            forall|i: int|
                0 <= i < self.contents().len() ==> T::obeys_div_spec() ==> #[trigger] r.contents()[i]
                    == DivSpec::div_spec(self.contents()[i], self.contents()[i]),
    {
        Div::div(&self, &rhs)
    }
}

impl<'a, T: Copy + Div<T>> DivSpecImpl<T> for &'a Grid<T> {
    open spec fn obeys_div_spec() -> bool {
        false
    }

    open spec fn div_req(self, rhs: T) -> bool {
        &&& self.wf()
        &&& forall|i: int| 0 <= i < self.contents().len() ==> DivSpec::div_req(#[trigger] self.contents()[i], rhs)
    }

    open spec fn div_spec(self, rhs: T) -> Grid<T::Output> {
        arbitrary()
    }
}

impl<'a, T: Copy + Div<T>> Div<T> for &'a Grid<T> {
    type Output = Grid<T::Output>;

    /// Applies `/ rhs` to every value.
    fn div(self, rhs: T) -> (r: Grid<T::Output>)
        ensures
            r.wf(),
            same_shape(&r, self),
            forall|i: int|
                0 <= i < self.contents().len() ==> T::obeys_div_spec() ==> #[trigger] r.contents()[i]
                    == DivSpec::div_spec(self.contents()[i], rhs),
    {
        let n = self.data().len();
        let mut out: Vec<T::Output> = Vec::new();
        let mut i: usize = 0;
        while i < n
            invariant
                self.wf(),
                n == self.contents().len(),
                forall|k: int| 0 <= k < self.contents().len() ==> DivSpec::div_req(#[trigger] self.contents()[k], rhs),
                i <= n,
                out.len() == i,
                forall|k: int| 0 <= k < i ==> T::obeys_div_spec() ==> #[trigger] out@[k] == DivSpec::div_spec(self.contents()[k], rhs),
            decreases n - i,
        {
            let a = self.data()[i];
            out.push(a / rhs);
            i = i + 1;
        }
        Grid::from_data(self.size(), out).with_origin(self.origin())
    }
}

impl<T: Copy + Div<T>> DivSpecImpl<T> for Grid<T> {
    open spec fn obeys_div_spec() -> bool {
        false
    }

    open spec fn div_req(self, rhs: T) -> bool {
        DivSpec::div_req(&self, rhs)
    }

    open spec fn div_spec(self, rhs: T) -> Grid<T::Output> {
        arbitrary()
    }
}

impl<T: Copy + Div<T>> Div<T> for Grid<T> {
    type Output = Grid<T::Output>;

    /// Same as `&self / rhs`.
    fn div(self, rhs: T) -> (r: Grid<T::Output>)
        ensures
            r.wf(),
            same_shape(&r, &self),
            forall|i: int|
                0 <= i < self.contents().len() ==> T::obeys_div_spec() ==> #[trigger] r.contents()[i]
                    == DivSpec::div_spec(self.contents()[i], rhs),
    {
        Div::div(&self, rhs)
    }
}

impl<'a, 'b, T: Copy + Rem<T>> RemSpecImpl<&'b Grid<T>> for &'a Grid<T> {
    open spec fn obeys_rem_spec() -> bool {
        false
    }

    open spec fn rem_req(self, rhs: &'b Grid<T>) -> bool {
        &&& self.wf()
        &&& same_shape(self, rhs)
        &&& forall|i: int|
            0 <= i < self.contents().len() ==> RemSpec::rem_req(#[trigger] self.contents()[i], self.contents()[i])
    }

    open spec fn rem_spec(self, rhs: &'b Grid<T>) -> Grid<T::Output> {
        arbitrary()
    }
}

impl<'a, 'b, T: Copy + Rem<T>> Rem<&'b Grid<T>> for &'a Grid<T> {
    type Output = Grid<T::Output>;

    /// Checks that `rhs` covers the same cells, then applies `%` to every
    /// value of `self` paired with itself.
    fn rem(self, rhs: &'b Grid<T>) -> (r: Grid<T::Output>)
        ensures
            r.wf(),
            same_shape(&r, self),
            forall|i: int|
                0 <= i < self.contents().len() ==> T::obeys_rem_spec() ==> #[trigger] r.contents()[i]
                    == RemSpec::rem_spec(self.contents()[i], self.contents()[i]),
    {
        let n = self.data().len();
        let mut out: Vec<T::Output> = Vec::new();
        let mut i: usize = 0;
        while i < n
            invariant
                self.wf(),
                n == self.contents().len(),
                forall|k: int|
                    0 <= k < self.contents().len() ==> RemSpec::rem_req(#[trigger] self.contents()[k], self.contents()[k]),
                i <= n,
                out.len() == i,
                forall|k: int|
                    0 <= k < i ==> T::obeys_rem_spec() ==> #[trigger] out@[k] == RemSpec::rem_spec(self.contents()[k], 
                        self.contents()[k],
                    ),
            decreases n - i,
        {
            let a = self.data()[i];
            out.push(a % a);
            i = i + 1;
        }
        Grid::from_data(self.size(), out).with_origin(self.origin())
    }
}

impl<T: Copy + Rem<T>> RemSpecImpl<Grid<T>> for Grid<T> {
    open spec fn obeys_rem_spec() -> bool {
        false
    }

    open spec fn rem_req(self, rhs: Grid<T>) -> bool {
        RemSpec::rem_req(&self, &rhs)
    }

    open spec fn rem_spec(self, rhs: Grid<T>) -> Grid<T::Output> {
        arbitrary()
    }
}

impl<T: Copy + Rem<T>> Rem<Grid<T>> for Grid<T> {
    type Output = Grid<T::Output>;

    /// Same as `&self % &rhs`.
    fn rem(self, rhs: Grid<T>) -> (r: Grid<T::Output>)
        ensures
            r.wf(),
            same_shape(&r, &self),
            forall|i: int|
                0 <= i < self.contents().len() ==> T::obeys_rem_spec() ==> #[trigger] r.contents()[i]
                    == RemSpec::rem_spec(self.contents()[i], self.contents()[i]),
    {
        Rem::rem(&self, &rhs)
    }
}

impl<'a, T: Copy + Rem<T>> RemSpecImpl<T> for &'a Grid<T> {
    open spec fn obeys_rem_spec() -> bool {
        false
    }

    open spec fn rem_req(self, rhs: T) -> bool {
        &&& self.wf()
        &&& forall|i: int| 0 <= i < self.contents().len() ==> RemSpec::rem_req(#[trigger] self.contents()[i], rhs)
    }

    open spec fn rem_spec(self, rhs: T) -> Grid<T::Output> {
        arbitrary()
    }
}

impl<'a, T: Copy + Rem<T>> Rem<T> for &'a Grid<T> {
    type Output = Grid<T::Output>;

    /// Applies `% rhs` to every value.
    fn rem(self, rhs: T) -> (r: Grid<T::Output>)
        ensures
            r.wf(),
            same_shape(&r, self),
            forall|i: int|
                0 <= i < self.contents().len() ==> T::obeys_rem_spec() ==> #[trigger] r.contents()[i]
                    == RemSpec::rem_spec(self.contents()[i], rhs),
    {
        let n = self.data().len();
        let mut out: Vec<T::Output> = Vec::new();
        let mut i: usize = 0;
        while i < n
            invariant
                self.wf(),
                n == self.contents().len(),
                forall|k: int| 0 <= k < self.contents().len() ==> RemSpec::rem_req(#[trigger] self.contents()[k], rhs),
                i <= n,
                out.len() == i,
                forall|k: int| 0 <= k < i ==> T::obeys_rem_spec() ==> #[trigger] out@[k] == RemSpec::rem_spec(self.contents()[k], rhs),
            decreases n - i,
        {
            let a = self.data()[i];
            out.push(a % rhs);
            i = i + 1;
        }
        Grid::from_data(self.size(), out).with_origin(self.origin())
    }
}

impl<T: Copy + Rem<T>> RemSpecImpl<T> for Grid<T> {
    open spec fn obeys_rem_spec() -> bool {
        false
    }

    open spec fn rem_req(self, rhs: T) -> bool {
        RemSpec::rem_req(&self, rhs)
    }

    open spec fn rem_spec(self, rhs: T) -> Grid<T::Output> {
        arbitrary()
    }
}

impl<T: Copy + Rem<T>> Rem<T> for Grid<T> {
    type Output = Grid<T::Output>;

    /// Same as `&self % rhs`.
    fn rem(self, rhs: T) -> (r: Grid<T::Output>)
        ensures
            r.wf(),
            same_shape(&r, &self),
            forall|i: int|
                0 <= i < self.contents().len() ==> T::obeys_rem_spec() ==> #[trigger] r.contents()[i]
                    == RemSpec::rem_spec(self.contents()[i], rhs),
    {
        Rem::rem(&self, rhs)
    }
}

impl<'a, 'b, T: Copy + BitAnd<T>> BitAndSpecImpl<&'b Grid<T>> for &'a Grid<T> {
    open spec fn obeys_bitand_spec() -> bool {
        false
    }

    open spec fn bitand_req(self, rhs: &'b Grid<T>) -> bool {
        &&& self.wf()
        &&& same_shape(self, rhs)
        &&& forall|i: int|
            0 <= i < self.contents().len() ==> BitAndSpec::bitand_req(#[trigger] self.contents()[i], self.contents()[i])
    }

    open spec fn bitand_spec(self, rhs: &'b Grid<T>) -> Grid<T::Output> {
        arbitrary()
    }
}

impl<'a, 'b, T: Copy + BitAnd<T>> BitAnd<&'b Grid<T>> for &'a Grid<T> {
    type Output = Grid<T::Output>;

    /// Checks that `rhs` covers the same cells, then applies `&` to every
    /// value of `self` paired with itself.
    fn bitand(self, rhs: &'b Grid<T>) -> (r: Grid<T::Output>)
        ensures
            r.wf(),
            same_shape(&r, self),
            forall|i: int|
                0 <= i < self.contents().len() ==> T::obeys_bitand_spec() ==> #[trigger] r.contents()[i]
                    == BitAndSpec::bitand_spec(self.contents()[i], self.contents()[i]),
    {
        let n = self.data().len();
        let mut out: Vec<T::Output> = Vec::new();
        let mut i: usize = 0;
        while i < n
            invariant
                self.wf(),
                n == self.contents().len(),
                forall|k: int|
                    0 <= k < self.contents().len() ==> BitAndSpec::bitand_req(#[trigger] self.contents()[k], self.contents()[k]),
                i <= n,
                out.len() == i,
                forall|k: int|
                    0 <= k < i ==> T::obeys_bitand_spec() ==> #[trigger] out@[k] == BitAndSpec::bitand_spec(self.contents()[k], 
                        self.contents()[k],
                    ),
            decreases n - i,
        {
            let a = self.data()[i];
            out.push(a & a);
            i = i + 1;
        }
        Grid::from_data(self.size(), out).with_origin(self.origin())
    }
}

impl<T: Copy + BitAnd<T>> BitAndSpecImpl<Grid<T>> for Grid<T> {
    open spec fn obeys_bitand_spec() -> bool {
        false
    }

    open spec fn bitand_req(self, rhs: Grid<T>) -> bool {
        BitAndSpec::bitand_req(&self, &rhs)
    }

    open spec fn bitand_spec(self, rhs: Grid<T>) -> Grid<T::Output> {
        arbitrary()
    }
}

impl<T: Copy + BitAnd<T>> BitAnd<Grid<T>> for Grid<T> {
    type Output = Grid<T::Output>;

    /// Same as `&self & &rhs`.
    fn bitand(self, rhs: Grid<T>) -> (r: Grid<T::Output>)
        ensures
            r.wf(),
            same_shape(&r, &self),
            forall|i: int|
                0 <= i < self.contents().len() ==> T::obeys_bitand_spec() ==> #[trigger] r.contents()[i]
                    == BitAndSpec::bitand_spec(self.contents()[i], self.contents()[i]),
    {
        BitAnd::bitand(&self, &rhs)
    }
}

impl<'a, T: Copy + BitAnd<T>> BitAndSpecImpl<T> for &'a Grid<T> {
    open spec fn obeys_bitand_spec() -> bool {
        false
    }

    open spec fn bitand_req(self, rhs: T) -> bool {
        &&& self.wf()
        &&& forall|i: int| 0 <= i < self.contents().len() ==> BitAndSpec::bitand_req(#[trigger] self.contents()[i], rhs)
    }

    open spec fn bitand_spec(self, rhs: T) -> Grid<T::Output> {
        arbitrary()
    }
}

impl<'a, T: Copy + BitAnd<T>> BitAnd<T> for &'a Grid<T> {
    type Output = Grid<T::Output>;

    /// Applies `& rhs` to every value.
    fn bitand(self, rhs: T) -> (r: Grid<T::Output>)
        ensures
            r.wf(),
            same_shape(&r, self),
            forall|i: int|
                0 <= i < self.contents().len() ==> T::obeys_bitand_spec() ==> #[trigger] r.contents()[i]
                    == BitAndSpec::bitand_spec(self.contents()[i], rhs),
    {
        let n = self.data().len();
        let mut out: Vec<T::Output> = Vec::new();
        let mut i: usize = 0;
        while i < n
            invariant
                self.wf(),
                n == self.contents().len(),
                forall|k: int| 0 <= k < self.contents().len() ==> BitAndSpec::bitand_req(#[trigger] self.contents()[k], rhs),
                i <= n,
                out.len() == i,
                forall|k: int| 0 <= k < i ==> T::obeys_bitand_spec() ==> #[trigger] out@[k] == BitAndSpec::bitand_spec(self.contents()[k], rhs),
            decreases n - i,
        {
            let a = self.data()[i];
            out.push(a & rhs);
            i = i + 1;
        }
        Grid::from_data(self.size(), out).with_origin(self.origin())
    }
}

impl<T: Copy + BitAnd<T>> BitAndSpecImpl<T> for Grid<T> {
    open spec fn obeys_bitand_spec() -> bool {
        false
    }

    open spec fn bitand_req(self, rhs: T) -> bool {
        BitAndSpec::bitand_req(&self, rhs)
    }

    open spec fn bitand_spec(self, rhs: T) -> Grid<T::Output> {
        arbitrary()
    }
}

impl<T: Copy + BitAnd<T>> BitAnd<T> for Grid<T> {
    type Output = Grid<T::Output>;

    /// Same as `&self & rhs`.
    fn bitand(self, rhs: T) -> (r: Grid<T::Output>)
        ensures
            r.wf(),
            same_shape(&r, &self),
            forall|i: int|
                0 <= i < self.contents().len() ==> T::obeys_bitand_spec() ==> #[trigger] r.contents()[i]
                    == BitAndSpec::bitand_spec(self.contents()[i], rhs),
    {
        BitAnd::bitand(&self, rhs)
    }
}

impl<'a, 'b, T: Copy + BitOr<T>> BitOrSpecImpl<&'b Grid<T>> for &'a Grid<T> {
    open spec fn obeys_bitor_spec() -> bool {
        false
    }

    open spec fn bitor_req(self, rhs: &'b Grid<T>) -> bool {
        &&& self.wf()
        &&& same_shape(self, rhs)
        &&& forall|i: int|
            0 <= i < self.contents().len() ==> BitOrSpec::bitor_req(#[trigger] self.contents()[i], self.contents()[i])
    }

    open spec fn bitor_spec(self, rhs: &'b Grid<T>) -> Grid<T::Output> {
        arbitrary()
    }
}

impl<'a, 'b, T: Copy + BitOr<T>> BitOr<&'b Grid<T>> for &'a Grid<T> {
    type Output = Grid<T::Output>;

    /// Checks that `rhs` covers the same cells, then applies `|` to every
    /// value of `self` paired with itself.
    fn bitor(self, rhs: &'b Grid<T>) -> (r: Grid<T::Output>)
        ensures
            r.wf(),
            same_shape(&r, self),
            forall|i: int|
                0 <= i < self.contents().len() ==> T::obeys_bitor_spec() ==> #[trigger] r.contents()[i]
                    == BitOrSpec::bitor_spec(self.contents()[i], self.contents()[i]),
    {
        let n = self.data().len();
        let mut out: Vec<T::Output> = Vec::new();
        let mut i: usize = 0;
        while i < n
            invariant
                self.wf(),
                n == self.contents().len(),
                forall|k: int|
                    0 <= k < self.contents().len() ==> BitOrSpec::bitor_req(#[trigger] self.contents()[k], self.contents()[k]),
                i <= n,
                out.len() == i,
                forall|k: int|
                    0 <= k < i ==> T::obeys_bitor_spec() ==> #[trigger] out@[k] == BitOrSpec::bitor_spec(self.contents()[k], 
                        self.contents()[k],
                    ),
            decreases n - i,
        {
            let a = self.data()[i];
            out.push(a | a);
            i = i + 1;
        }
        Grid::from_data(self.size(), out).with_origin(self.origin())
    }
}

impl<T: Copy + BitOr<T>> BitOrSpecImpl<Grid<T>> for Grid<T> {
    open spec fn obeys_bitor_spec() -> bool {
        false
    }

    open spec fn bitor_req(self, rhs: Grid<T>) -> bool {
        BitOrSpec::bitor_req(&self, &rhs)
    }

    open spec fn bitor_spec(self, rhs: Grid<T>) -> Grid<T::Output> {
        arbitrary()
    }
}

impl<T: Copy + BitOr<T>> BitOr<Grid<T>> for Grid<T> {
    type Output = Grid<T::Output>;

    /// Same as `&self | &rhs`.
    fn bitor(self, rhs: Grid<T>) -> (r: Grid<T::Output>)
        ensures
            r.wf(),
            same_shape(&r, &self),
            forall|i: int|
                0 <= i < self.contents().len() ==> T::obeys_bitor_spec() ==> #[trigger] r.contents()[i]
                    == BitOrSpec::bitor_spec(self.contents()[i], self.contents()[i]),
    {
        BitOr::bitor(&self, &rhs)
    }
}

impl<'a, T: Copy + BitOr<T>> BitOrSpecImpl<T> for &'a Grid<T> {
    open spec fn obeys_bitor_spec() -> bool {
        false
    }

    open spec fn bitor_req(self, rhs: T) -> bool {
        &&& self.wf()
        &&& forall|i: int| 0 <= i < self.contents().len() ==> BitOrSpec::bitor_req(#[trigger] self.contents()[i], rhs)
    }

    open spec fn bitor_spec(self, rhs: T) -> Grid<T::Output> {
        arbitrary()
    }
}

impl<'a, T: Copy + BitOr<T>> BitOr<T> for &'a Grid<T> {
    type Output = Grid<T::Output>;

    /// Applies `| rhs` to every value.
    fn bitor(self, rhs: T) -> (r: Grid<T::Output>)
        ensures
            r.wf(),
            same_shape(&r, self),
            forall|i: int|
                0 <= i < self.contents().len() ==> T::obeys_bitor_spec() ==> #[trigger] r.contents()[i]
                    == BitOrSpec::bitor_spec(self.contents()[i], rhs),
    {
        let n = self.data().len();
        let mut out: Vec<T::Output> = Vec::new();
        let mut i: usize = 0;
        while i < n
            invariant
                self.wf(),
                n == self.contents().len(),
                forall|k: int| 0 <= k < self.contents().len() ==> BitOrSpec::bitor_req(#[trigger] self.contents()[k], rhs),
                i <= n,
                out.len() == i,
                forall|k: int| 0 <= k < i ==> T::obeys_bitor_spec() ==> #[trigger] out@[k] == BitOrSpec::bitor_spec(self.contents()[k], rhs),
            decreases n - i,
        {
            let a = self.data()[i];
            out.push(a | rhs);
            i = i + 1;
        }
        Grid::from_data(self.size(), out).with_origin(self.origin())
    }
}

impl<T: Copy + BitOr<T>> BitOrSpecImpl<T> for Grid<T> {
    open spec fn obeys_bitor_spec() -> bool {
        false
    }

    open spec fn bitor_req(self, rhs: T) -> bool {
        BitOrSpec::bitor_req(&self, rhs)
    }

    open spec fn bitor_spec(self, rhs: T) -> Grid<T::Output> {
        arbitrary()
    }
}

impl<T: Copy + BitOr<T>> BitOr<T> for Grid<T> {
    type Output = Grid<T::Output>;

    /// Same as `&self | rhs`.
    fn bitor(self, rhs: T) -> (r: Grid<T::Output>)
        ensures
            r.wf(),
            same_shape(&r, &self),
            forall|i: int|
                0 <= i < self.contents().len() ==> T::obeys_bitor_spec() ==> #[trigger] r.contents()[i]
                    == BitOrSpec::bitor_spec(self.contents()[i], rhs),
    {
        BitOr::bitor(&self, rhs)
    }
}

impl<'a, 'b, T: Copy + BitXor<T>> BitXorSpecImpl<&'b Grid<T>> for &'a Grid<T> {
    open spec fn obeys_bitxor_spec() -> bool {
        false
    }

    open spec fn bitxor_req(self, rhs: &'b Grid<T>) -> bool {
        &&& self.wf()
        &&& same_shape(self, rhs)
        &&& forall|i: int|
            0 <= i < self.contents().len() ==> BitXorSpec::bitxor_req(#[trigger] self.contents()[i], self.contents()[i])
    }

    open spec fn bitxor_spec(self, rhs: &'b Grid<T>) -> Grid<T::Output> {
        arbitrary()
    }
}

impl<'a, 'b, T: Copy + BitXor<T>> BitXor<&'b Grid<T>> for &'a Grid<T> {
    type Output = Grid<T::Output>;

    /// Checks that `rhs` covers the same cells, then applies `^` to every
    /// value of `self` paired with itself.
    fn bitxor(self, rhs: &'b Grid<T>) -> (r: Grid<T::Output>)
        ensures
            r.wf(),
            same_shape(&r, self),
            forall|i: int|
                0 <= i < self.contents().len() ==> T::obeys_bitxor_spec() ==> #[trigger] r.contents()[i]
                    == BitXorSpec::bitxor_spec(self.contents()[i], self.contents()[i]),
    {
        let n = self.data().len();
        let mut out: Vec<T::Output> = Vec::new();
        let mut i: usize = 0;
        while i < n
            invariant
                self.wf(),
                n == self.contents().len(),
                forall|k: int|
                    0 <= k < self.contents().len() ==> BitXorSpec::bitxor_req(#[trigger] self.contents()[k], self.contents()[k]),
                i <= n,
                out.len() == i,
                forall|k: int|
                    0 <= k < i ==> T::obeys_bitxor_spec() ==> #[trigger] out@[k] == BitXorSpec::bitxor_spec(self.contents()[k], 
                        self.contents()[k],
                    ),
            decreases n - i,
        {
            let a = self.data()[i];
            out.push(a ^ a);
            i = i + 1;
        }
        Grid::from_data(self.size(), out).with_origin(self.origin())
    }
}

impl<T: Copy + BitXor<T>> BitXorSpecImpl<Grid<T>> for Grid<T> {
    open spec fn obeys_bitxor_spec() -> bool {
        false
    }

    open spec fn bitxor_req(self, rhs: Grid<T>) -> bool {
        BitXorSpec::bitxor_req(&self, &rhs)
    }

    open spec fn bitxor_spec(self, rhs: Grid<T>) -> Grid<T::Output> {
        arbitrary()
    }
}

impl<T: Copy + BitXor<T>> BitXor<Grid<T>> for Grid<T> {
    type Output = Grid<T::Output>;

    /// Same as `&self ^ &rhs`.
    fn bitxor(self, rhs: Grid<T>) -> (r: Grid<T::Output>)
        ensures
            r.wf(),
            same_shape(&r, &self),
            forall|i: int|
                0 <= i < self.contents().len() ==> T::obeys_bitxor_spec() ==> #[trigger] r.contents()[i]
                    == BitXorSpec::bitxor_spec(self.contents()[i], self.contents()[i]),
    {
        BitXor::bitxor(&self, &rhs)
    }
}

impl<'a, T: Copy + BitXor<T>> BitXorSpecImpl<T> for &'a Grid<T> {
    open spec fn obeys_bitxor_spec() -> bool {
        false
    }

    open spec fn bitxor_req(self, rhs: T) -> bool {
        &&& self.wf()
        &&& forall|i: int| 0 <= i < self.contents().len() ==> BitXorSpec::bitxor_req(#[trigger] self.contents()[i], rhs)
    }

    open spec fn bitxor_spec(self, rhs: T) -> Grid<T::Output> {
        arbitrary()
    }
}

impl<'a, T: Copy + BitXor<T>> BitXor<T> for &'a Grid<T> {
    type Output = Grid<T::Output>;

    /// Applies `^ rhs` to every value.
    fn bitxor(self, rhs: T) -> (r: Grid<T::Output>)
        ensures
            r.wf(),
            same_shape(&r, self),
            forall|i: int|
                0 <= i < self.contents().len() ==> T::obeys_bitxor_spec() ==> #[trigger] r.contents()[i]
                    == BitXorSpec::bitxor_spec(self.contents()[i], rhs),
    {
        let n = self.data().len();
        let mut out: Vec<T::Output> = Vec::new();
        let mut i: usize = 0;
        while i < n
            invariant
                self.wf(),
                n == self.contents().len(),
                forall|k: int| 0 <= k < self.contents().len() ==> BitXorSpec::bitxor_req(#[trigger] self.contents()[k], rhs),
                i <= n,
                out.len() == i,
                forall|k: int| 0 <= k < i ==> T::obeys_bitxor_spec() ==> #[trigger] out@[k] == BitXorSpec::bitxor_spec(self.contents()[k], rhs),
            decreases n - i,
        {
            let a = self.data()[i];
            out.push(a ^ rhs);
            i = i + 1;
        }
        Grid::from_data(self.size(), out).with_origin(self.origin())
    }
}

impl<T: Copy + BitXor<T>> BitXorSpecImpl<T> for Grid<T> {
    open spec fn obeys_bitxor_spec() -> bool {
        false
    }

    open spec fn bitxor_req(self, rhs: T) -> bool {
        BitXorSpec::bitxor_req(&self, rhs)
    }

    open spec fn bitxor_spec(self, rhs: T) -> Grid<T::Output> {
        arbitrary()
    }
}

impl<T: Copy + BitXor<T>> BitXor<T> for Grid<T> {
    type Output = Grid<T::Output>;

    /// Same as `&self ^ rhs`.
    fn bitxor(self, rhs: T) -> (r: Grid<T::Output>)
        ensures
            r.wf(),
            same_shape(&r, &self),
            forall|i: int|
                0 <= i < self.contents().len() ==> T::obeys_bitxor_spec() ==> #[trigger] r.contents()[i]
                    == BitXorSpec::bitxor_spec(self.contents()[i], rhs),
    {
        BitXor::bitxor(&self, rhs)
    }
}

impl<'a, 'b, T: Copy + Shl<T>> ShlSpecImpl<&'b Grid<T>> for &'a Grid<T> {
    open spec fn obeys_shl_spec() -> bool {
        false
    }

    open spec fn shl_req(self, rhs: &'b Grid<T>) -> bool {
        &&& self.wf()
        &&& same_shape(self, rhs)
        &&& forall|i: int|
            0 <= i < self.contents().len() ==> ShlSpec::shl_req(#[trigger] self.contents()[i], self.contents()[i])
    }

    open spec fn shl_spec(self, rhs: &'b Grid<T>) -> Grid<T::Output> {
        arbitrary()
    }
}

impl<'a, 'b, T: Copy + Shl<T>> Shl<&'b Grid<T>> for &'a Grid<T> {
    type Output = Grid<T::Output>;

    /// Checks that `rhs` covers the same cells, then applies `<<` to every
    /// value of `self` paired with itself.
    fn shl(self, rhs: &'b Grid<T>) -> (r: Grid<T::Output>)
        ensures
            r.wf(),
            same_shape(&r, self),
            forall|i: int|
                0 <= i < self.contents().len() ==> T::obeys_shl_spec() ==> #[trigger] r.contents()[i]
                    == ShlSpec::shl_spec(self.contents()[i], self.contents()[i]),
    {
        let n = self.data().len();
        let mut out: Vec<T::Output> = Vec::new();
        let mut i: usize = 0;
        while i < n
            invariant
                self.wf(),
                n == self.contents().len(),
                forall|k: int|
                    0 <= k < self.contents().len() ==> ShlSpec::shl_req(#[trigger] self.contents()[k], self.contents()[k]),
                i <= n,
                out.len() == i,
                forall|k: int|
                    0 <= k < i ==> T::obeys_shl_spec() ==> #[trigger] out@[k] == ShlSpec::shl_spec(self.contents()[k], 
                        self.contents()[k],
                    ),
            decreases n - i,
        {
            let a = self.data()[i];
            out.push(a << a);
            i = i + 1;
        }
        Grid::from_data(self.size(), out).with_origin(self.origin())
    }
}

impl<T: Copy + Shl<T>> ShlSpecImpl<Grid<T>> for Grid<T> {
    open spec fn obeys_shl_spec() -> bool {
        false
    }

    open spec fn shl_req(self, rhs: Grid<T>) -> bool {
        ShlSpec::shl_req(&self, &rhs)
    }

    open spec fn shl_spec(self, rhs: Grid<T>) -> Grid<T::Output> {
        arbitrary()
    }
}

impl<T: Copy + Shl<T>> Shl<Grid<T>> for Grid<T> {
    type Output = Grid<T::Output>;

    /// Same as `&self << &rhs`.
    fn shl(self, rhs: Grid<T>) -> (r: Grid<T::Output>)
        ensures
            r.wf(),
            same_shape(&r, &self),
            forall|i: int|
                0 <= i < self.contents().len() ==> T::obeys_shl_spec() ==> #[trigger] r.contents()[i]
                    == ShlSpec::shl_spec(self.contents()[i], self.contents()[i]),
    {
        Shl::shl(&self, &rhs)
    }
}

impl<'a, T: Copy + Shl<T>> ShlSpecImpl<T> for &'a Grid<T> {
    open spec fn obeys_shl_spec() -> bool {
        false
    }

    open spec fn shl_req(self, rhs: T) -> bool {
        &&& self.wf()
        &&& forall|i: int| 0 <= i < self.contents().len() ==> ShlSpec::shl_req(#[trigger] self.contents()[i], rhs)
    }

    open spec fn shl_spec(self, rhs: T) -> Grid<T::Output> {
        arbitrary()
    }
}

impl<'a, T: Copy + Shl<T>> Shl<T> for &'a Grid<T> {
    type Output = Grid<T::Output>;

    /// Applies `<< rhs` to every value.
    fn shl(self, rhs: T) -> (r: Grid<T::Output>)
        ensures
            r.wf(),
            same_shape(&r, self),
            forall|i: int|
                0 <= i < self.contents().len() ==> T::obeys_shl_spec() ==> #[trigger] r.contents()[i]
                    == ShlSpec::shl_spec(self.contents()[i], rhs),
    {
        let n = self.data().len();
        let mut out: Vec<T::Output> = Vec::new();
        let mut i: usize = 0;
        while i < n
            invariant
                self.wf(),
                n == self.contents().len(),
                forall|k: int| 0 <= k < self.contents().len() ==> ShlSpec::shl_req(#[trigger] self.contents()[k], rhs),
                i <= n,
                out.len() == i,
                forall|k: int| 0 <= k < i ==> T::obeys_shl_spec() ==> #[trigger] out@[k] == ShlSpec::shl_spec(self.contents()[k], rhs),
            decreases n - i,
        {
            let a = self.data()[i];
            out.push(a << rhs);
            i = i + 1;
        }
        Grid::from_data(self.size(), out).with_origin(self.origin())
    }
}

impl<T: Copy + Shl<T>> ShlSpecImpl<T> for Grid<T> {
    open spec fn obeys_shl_spec() -> bool {
        false
    }

    open spec fn shl_req(self, rhs: T) -> bool {
        ShlSpec::shl_req(&self, rhs)
    }

    open spec fn shl_spec(self, rhs: T) -> Grid<T::Output> {
        arbitrary()
    }
}

impl<T: Copy + Shl<T>> Shl<T> for Grid<T> {
    type Output = Grid<T::Output>;

    /// Same as `&self << rhs`.
    fn shl(self, rhs: T) -> (r: Grid<T::Output>)
        ensures
            r.wf(),
            same_shape(&r, &self),
            forall|i: int|
                0 <= i < self.contents().len() ==> T::obeys_shl_spec() ==> #[trigger] r.contents()[i]
                    == ShlSpec::shl_spec(self.contents()[i], rhs),
    {
        Shl::shl(&self, rhs)
    }
}

impl<'a, 'b, T: Copy + Shr<T>> ShrSpecImpl<&'b Grid<T>> for &'a Grid<T> {
    open spec fn obeys_shr_spec() -> bool {
        false
    }

    open spec fn shr_req(self, rhs: &'b Grid<T>) -> bool {
        &&& self.wf()
        &&& same_shape(self, rhs)
        &&& forall|i: int|
            0 <= i < self.contents().len() ==> ShrSpec::shr_req(#[trigger] self.contents()[i], self.contents()[i])
    }

    open spec fn shr_spec(self, rhs: &'b Grid<T>) -> Grid<T::Output> {
        arbitrary()
    }
}

impl<'a, 'b, T: Copy + Shr<T>> Shr<&'b Grid<T>> for &'a Grid<T> {
    type Output = Grid<T::Output>;

    /// Checks that `rhs` covers the same cells, then applies `>>` to every
    /// value of `self` paired with itself.
    fn shr(self, rhs: &'b Grid<T>) -> (r: Grid<T::Output>)
        ensures
            r.wf(),
            same_shape(&r, self),
            forall|i: int|
                0 <= i < self.contents().len() ==> T::obeys_shr_spec() ==> #[trigger] r.contents()[i]
                    == ShrSpec::shr_spec(self.contents()[i], self.contents()[i]),
    {
        let n = self.data().len();
        let mut out: Vec<T::Output> = Vec::new();
        let mut i: usize = 0;
        while i < n
            invariant
                self.wf(),
                n == self.contents().len(),
                forall|k: int|
                    0 <= k < self.contents().len() ==> ShrSpec::shr_req(#[trigger] self.contents()[k], self.contents()[k]),
                i <= n,
                out.len() == i,
                forall|k: int|
                    0 <= k < i ==> T::obeys_shr_spec() ==> #[trigger] out@[k] == ShrSpec::shr_spec(self.contents()[k], 
                        self.contents()[k],
                    ),
            decreases n - i,
        {
            let a = self.data()[i];
            out.push(a >> a);
            i = i + 1;
        }
        Grid::from_data(self.size(), out).with_origin(self.origin())
    }
}

impl<T: Copy + Shr<T>> ShrSpecImpl<Grid<T>> for Grid<T> {
    open spec fn obeys_shr_spec() -> bool {
        false
    }

    open spec fn shr_req(self, rhs: Grid<T>) -> bool {
        ShrSpec::shr_req(&self, &rhs)
    }

    open spec fn shr_spec(self, rhs: Grid<T>) -> Grid<T::Output> {
        arbitrary()
    }
}

impl<T: Copy + Shr<T>> Shr<Grid<T>> for Grid<T> {
    type Output = Grid<T::Output>;

    /// Same as `&self >> &rhs`.
    fn shr(self, rhs: Grid<T>) -> (r: Grid<T::Output>)
        ensures
            r.wf(),
            same_shape(&r, &self),
            forall|i: int|
                0 <= i < self.contents().len() ==> T::obeys_shr_spec() ==> #[trigger] r.contents()[i]
                    == ShrSpec::shr_spec(self.contents()[i], self.contents()[i]),
    {
        Shr::shr(&self, &rhs)
    }
}

impl<'a, T: Copy + Shr<T>> ShrSpecImpl<T> for &'a Grid<T> {
    open spec fn obeys_shr_spec() -> bool {
        false
    }

    open spec fn shr_req(self, rhs: T) -> bool {
        &&& self.wf()
        &&& forall|i: int| 0 <= i < self.contents().len() ==> ShrSpec::shr_req(#[trigger] self.contents()[i], rhs)
    }

    open spec fn shr_spec(self, rhs: T) -> Grid<T::Output> {
        arbitrary()
    }
}

impl<'a, T: Copy + Shr<T>> Shr<T> for &'a Grid<T> {
    type Output = Grid<T::Output>;

    /// Applies `>> rhs` to every value.
    fn shr(self, rhs: T) -> (r: Grid<T::Output>)
        ensures
            r.wf(),
            same_shape(&r, self),
            forall|i: int|
                0 <= i < self.contents().len() ==> T::obeys_shr_spec() ==> #[trigger] r.contents()[i]
                    == ShrSpec::shr_spec(self.contents()[i], rhs),
    {
        let n = self.data().len();
        let mut out: Vec<T::Output> = Vec::new();
        let mut i: usize = 0;
        while i < n
            invariant
                self.wf(),
                n == self.contents().len(),
                forall|k: int| 0 <= k < self.contents().len() ==> ShrSpec::shr_req(#[trigger] self.contents()[k], rhs),
                i <= n,
                out.len() == i,
                forall|k: int| 0 <= k < i ==> T::obeys_shr_spec() ==> #[trigger] out@[k] == ShrSpec::shr_spec(self.contents()[k], rhs),
            decreases n - i,
        {
            let a = self.data()[i];
            out.push(a >> rhs);
            i = i + 1;
        }
        Grid::from_data(self.size(), out).with_origin(self.origin())
    }
}

impl<T: Copy + Shr<T>> ShrSpecImpl<T> for Grid<T> {
    open spec fn obeys_shr_spec() -> bool {
        false
    }

    open spec fn shr_req(self, rhs: T) -> bool {
        ShrSpec::shr_req(&self, rhs)
    }

    open spec fn shr_spec(self, rhs: T) -> Grid<T::Output> {
        arbitrary()
    }
}

impl<T: Copy + Shr<T>> Shr<T> for Grid<T> {
    type Output = Grid<T::Output>;

    /// Same as `&self >> rhs`.
    fn shr(self, rhs: T) -> (r: Grid<T::Output>)
        ensures
            r.wf(),
            same_shape(&r, &self),
            forall|i: int|
                0 <= i < self.contents().len() ==> T::obeys_shr_spec() ==> #[trigger] r.contents()[i]
                    == ShrSpec::shr_spec(self.contents()[i], rhs),
    {
        Shr::shr(&self, rhs)
    }
}

impl<'a, T: Copy + Neg> NegSpecImpl for &'a Grid<T> {
    open spec fn obeys_neg_spec() -> bool {
        false
    }

    open spec fn neg_req(self) -> bool {
        &&& self.wf()
        &&& forall|i: int| 0 <= i < self.contents().len() ==> NegSpec::neg_req(#[trigger] self.contents()[i])
    }

    open spec fn neg_spec(self) -> Grid<T::Output> {
        arbitrary()
    }
}

impl<'a, T: Copy + Neg> Neg for &'a Grid<T> {
    type Output = Grid<T::Output>;

    /// Applies `-` to every value.
    fn neg(self) -> (r: Grid<T::Output>)
        ensures
            r.wf(),
            same_shape(&r, self),
            forall|i: int|
                0 <= i < self.contents().len() ==> T::obeys_neg_spec() ==> #[trigger] r.contents()[i]
                    == NegSpec::neg_spec(self.contents()[i]),
    {
        let n = self.data().len();
        let mut out: Vec<T::Output> = Vec::new();
        let mut i: usize = 0;
        while i < n
            invariant
                self.wf(),
                n == self.contents().len(),
                forall|k: int| 0 <= k < self.contents().len() ==> NegSpec::neg_req(#[trigger] self.contents()[k]),
                i <= n,
                out.len() == i,
                forall|k: int| 0 <= k < i ==> T::obeys_neg_spec() ==> #[trigger] out@[k] == NegSpec::neg_spec(self.contents()[k]),
            decreases n - i,
        {
            let a = self.data()[i];
            out.push(Neg::neg(a));
            i = i + 1;
        }
        Grid::from_data(self.size(), out).with_origin(self.origin())
    }
}

impl<T: Copy + Neg> NegSpecImpl for Grid<T> {
    open spec fn obeys_neg_spec() -> bool {
        false
    }

    open spec fn neg_req(self) -> bool {
        NegSpec::neg_req(&self)
    }

    open spec fn neg_spec(self) -> Grid<T::Output> {
        arbitrary()
    }
}

impl<T: Copy + Neg> Neg for Grid<T> {
    type Output = Grid<T::Output>;

    /// Same as `-&self`.
    fn neg(self) -> (r: Grid<T::Output>)
        ensures
            r.wf(),
            same_shape(&r, &self),
            forall|i: int|
                0 <= i < self.contents().len() ==> T::obeys_neg_spec() ==> #[trigger] r.contents()[i]
                    == NegSpec::neg_spec(self.contents()[i]),
    {
        Neg::neg(&self)
    }
}

impl<'a, T: Copy + Not> NotSpecImpl for &'a Grid<T> {
    open spec fn obeys_not_spec() -> bool {
        false
    }

    open spec fn not_req(self) -> bool {
        &&& self.wf()
        &&& forall|i: int| 0 <= i < self.contents().len() ==> NotSpec::not_req(#[trigger] self.contents()[i])
    }

    open spec fn not_spec(self) -> Grid<T::Output> {
        arbitrary()
    }
}

impl<'a, T: Copy + Not> Not for &'a Grid<T> {
    type Output = Grid<T::Output>;

    /// Applies `!` to every value.
    fn not(self) -> (r: Grid<T::Output>)
        ensures
            r.wf(),
            same_shape(&r, self),
            forall|i: int|
                0 <= i < self.contents().len() ==> T::obeys_not_spec() ==> #[trigger] r.contents()[i]
                    == NotSpec::not_spec(self.contents()[i]),
    {
        let n = self.data().len();
        let mut out: Vec<T::Output> = Vec::new();
        let mut i: usize = 0;
        while i < n
            invariant
                self.wf(),
                n == self.contents().len(),
                forall|k: int| 0 <= k < self.contents().len() ==> NotSpec::not_req(#[trigger] self.contents()[k]),
                i <= n,
                out.len() == i,
                forall|k: int| 0 <= k < i ==> T::obeys_not_spec() ==> #[trigger] out@[k] == NotSpec::not_spec(self.contents()[k]),
            decreases n - i,
        {
            let a = self.data()[i];
            out.push(Not::not(a));
            i = i + 1;
        }
        Grid::from_data(self.size(), out).with_origin(self.origin())
    }
}

impl<T: Copy + Not> NotSpecImpl for Grid<T> {
    open spec fn obeys_not_spec() -> bool {
        false
    }

    open spec fn not_req(self) -> bool {
        NotSpec::not_req(&self)
    }

    open spec fn not_spec(self) -> Grid<T::Output> {
        arbitrary()
    }
}

impl<T: Copy + Not> Not for Grid<T> {
    type Output = Grid<T::Output>;

    /// Same as `!&self`.
    fn not(self) -> (r: Grid<T::Output>)
        ensures
            r.wf(),
            same_shape(&r, &self),
            forall|i: int|
                0 <= i < self.contents().len() ==> T::obeys_not_spec() ==> #[trigger] r.contents()[i]
                    == NotSpec::not_spec(self.contents()[i]),
    {
        Not::not(&self)
    }
}

} // verus!
