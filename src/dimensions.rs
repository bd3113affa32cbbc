use vstd::prelude::*;

verus! {

/// Width and height of a grid, in cells.
pub struct Dimensions {
    width: usize,
    height: usize,
}

impl View for Dimensions {
    type V = (nat, nat);

    closed spec fn view(&self) -> (nat, nat) {
        (self.width as nat, self.height as nat)
    }
}

impl Dimensions {
    pub fn new(width: usize, height: usize) -> (r: Self)
        ensures
            r@ == (width as nat, height as nat),
    {
        Self { width, height }
    }

    pub fn get_width(&self) -> (r: usize)
        ensures
            r == self@.0,
    {
        self.width
    }

    pub fn get_height(&self) -> (r: usize)
        ensures
            r == self@.1,
    {
        self.height
    }
}

} // verus!
