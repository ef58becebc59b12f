use vstd::prelude::*;

use crate::grid::Grid;
use crate::math::{IVec2, UVec2};

verus! {

/// How a distance transform is set up.
#[derive(Clone, Copy, Debug, PartialEq, Eq, Structural)]
pub struct EdtSettings {
    /// Measure the distance to the nearest `false` cell instead of the
    /// nearest `true` one.
    pub invert: bool,
    /// Rescale the distances to the range `0..=1`.
    pub normalize: bool,
    /// Cells added around the grid, repeating its border.
    pub padding: u32,
}

/// `cell` moved by `-padding` on both axes.
pub open spec fn unpadded(cell: IVec2, padding: u32) -> IVec2 {
    IVec2 { x: (cell.x - padding) as i32, y: (cell.y - padding) as i32 }
}

impl Grid<bool> {
    /// The seed cells of the distance transform: the grid grown by
    /// `padding` cells on every side, starting at `(0, 0)`, where each cell
    /// is set when the nearest cell of this grid differs from `invert`.
    pub fn edt_mask(&self, settings: EdtSettings) -> (r: Grid<bool>)
        requires
            self.wf(),
            self.spec_size().x > 0,
            self.spec_size().y > 0,
            self.spec_size().x + 2 * settings.padding < i32::MAX,
            self.spec_size().y + 2 * settings.padding < i32::MAX,
            (self.spec_size().x + 2 * settings.padding) * (self.spec_size().y + 2 * settings.padding)
                <= usize::MAX,
            self.spec_origin().x + self.spec_size().x <= i32::MAX,
            self.spec_origin().y + self.spec_size().y <= i32::MAX,
        ensures
            r.wf(),
            r.spec_origin() == IVec2::zero_spec(),
            r.spec_size() == (UVec2 {
                x: (self.spec_size().x + 2 * settings.padding) as u32,
                y: (self.spec_size().y + 2 * settings.padding) as u32,
            }),
            forall|i: int|
                0 <= i < r.contents().len() ==> #[trigger] r.contents()[i] == (settings.invert != self.value(
                    self.clamp(unpadded(r.cell_of(i), settings.padding)),
                )),
    {
        let p = settings.padding;
        let size = UVec2 { x: self.size().x + 2 * p, y: self.size().y + 2 * p };
        let pi = p as i32;
        let seed = |cell: IVec2| -> (b: bool)
            requires
                0 <= cell.x < size.x,
                0 <= cell.y < size.y,
            ensures
                b == (settings.invert != self.value(self.clamp(unpadded(cell, p)))),
            {
                let orig = IVec2 { x: cell.x - pi, y: cell.y - pi };
                settings.invert ^ *self.clamped_get(orig)
            };
        proof {
            assert forall|i: int| 0 <= i < size.x * size.y implies seed.requires(
                (#[trigger] Grid::<bool>::cell_at(IVec2::zero_spec(), size.x as int, i),),
            ) by {
                let w = size.x as int;
                vstd::arithmetic::div_mod::lemma_fundamental_div_mod(i, w);
                assert(i / w < size.y) by (nonlinear_arith)
                    requires
                        0 <= i < w * size.y,
                        i == w * (i / w) + i % w,
                        0 <= i % w < w,
                ;
                assert(0 <= i / w) by (nonlinear_arith)
                    requires
                        0 <= i,
                        w > 0,
                ;
            }
        }
        let r = Grid::from_fn(size, seed);
        proof {
            assert forall|i: int| 0 <= i < r.contents().len() implies #[trigger] r.contents()[i] == (settings.invert
                != self.value(self.clamp(unpadded(r.cell_of(i), p)))) by {
                assert(seed.ensures((Grid::<bool>::cell_at(IVec2::zero_spec(), size.x as int, i),), r.contents()[i]));
            }
        }
        r
    }
}

} // verus!
