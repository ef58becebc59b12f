use std::marker::PhantomData;

use vstd::prelude::*;

verus! {

/// How many screen pixels one pixel of a view (the game or the UI) takes.
#[derive(Debug)]
pub struct Scale<T> {
    pub pixels: u8,
    marker: PhantomData<T>,
}

impl<T> Scale<T> {
    pub closed spec fn spec_pixels(&self) -> u8 {
        self.pixels
    }

    pub fn new(pixels: u8) -> (r: Scale<T>)
        ensures
            r.spec_pixels() == pixels,
    {
        Scale { pixels, marker: PhantomData }
    }
}

impl<T> Default for Scale<T> {
    /// A scale of one pixel.
    fn default() -> (r: Scale<T>)
        ensures
            r.spec_pixels() == 1,
    {
        Self::new(1)
    }
}

impl<T> Clone for Scale<T> {
    fn clone(&self) -> (r: Self)
        ensures
            r.spec_pixels() == self.spec_pixels(),
    {
        Scale { pixels: self.pixels, marker: PhantomData }
    }
}

/// The scale a manual setting asks for: at least one pixel. `None` stands
/// for an automatic setting, which follows the window.
pub fn manual_scale(pixels: Option<u8>) -> (r: Option<u8>)
    ensures
        r == (match pixels {
            Some(p) => Some(if p >= 1 { p } else { 1u8 }),
            None => None,
        }),
{
    match pixels {
        Some(p) => Some(if p >= 1 { p } else { 1 }),
        None => None,
    }
}

} // verus!
