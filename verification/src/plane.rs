use crate::grid::{flat, index_of, lemma_flat_in_bounds, lemma_flat_injective};
use vstd::prelude::*;

verus! {

/// A complex coefficient over samples of type `T`.
#[derive(Clone, Copy, Debug)]
pub struct Complex<T> {
    /// The real part.
    pub re: T,
    /// The imaginary part.
    pub im: T,
}

/// A rectangular grid of samples, stored row by row.
#[derive(Debug)]
pub struct Plane<T> {
    /// Number of rows.
    pub height: usize,
    /// Number of columns.
    pub width: usize,
    /// The samples, `width` to a row.
    pub cells: Vec<T>,
}

impl<T: Copy> Plane<T> {
    /// The buffer holds exactly `height * width` samples.
    pub open spec fn wf(&self) -> bool {
        self.cells@.len() == self.height * self.width <= usize::MAX
    }

    /// The sample at row `y`, column `x`.
    pub open spec fn at(&self, y: int, x: int) -> T {
        self.cells@[flat(self.width as int, y, x)]
    }

    /// Wraps a buffer as a plane if its length is `height * width`.
    pub fn new(height: usize, width: usize, cells: Vec<T>) -> (r: Option<Plane<T>>)
        ensures
            match r {
                Some(p) => p.height == height && p.width == width && p.cells == cells
                    && p.wf(),
                None => cells@.len() != height * width,
            },
    {
        let given: usize = cells.len();
        match height.checked_mul(width) {
            Some(len) => {
                if given == len {
                    Some(Plane { height, width, cells })
                } else {
                    None
                }
            },
            None => None,
        }
    }

    /// A plane with every sample equal to `value`.
    pub fn filled(height: usize, width: usize, value: T) -> (p: Plane<T>)
        requires
            height * width <= usize::MAX,
        ensures
            p.wf(),
            p.height == height,
            p.width == width,
            forall|i: int| 0 <= i < height * width ==> p.cells@[i] == value,
    {
        let len: usize = height * width;
        let mut cells: Vec<T> = Vec::new();
        let mut i: usize = 0;
        while i < len
            invariant
                i <= len,
                cells@.len() == i,
                forall|k: int| 0 <= k < i ==> cells@[k] == value,
            decreases len - i,
        {
            cells.push(value);
            i += 1;
        }
        Plane { height, width, cells }
    }

    /// Reads the sample at row `y`, column `x`.
    pub fn get(&self, y: usize, x: usize) -> (v: T)
        requires
            self.wf(),
            y < self.height,
            x < self.width,
        ensures
            v == self.at(y as int, x as int),
    {
        let i: usize = index_of(self.height, self.width, y, x);
        self.cells[i]
    }

    /// Writes `value` at row `y`, column `x`, and leaves every other sample as it was.
    pub fn set(&mut self, y: usize, x: usize, value: T)
        requires
            old(self).wf(),
            y < old(self).height,
            x < old(self).width,
        ensures
            final(self).wf(),
            final(self).height == old(self).height,
            final(self).width == old(self).width,
            final(self).cells@ == old(self).cells@.update(
                flat(old(self).width as int, y as int, x as int),
                value,
            ),
            final(self).at(y as int, x as int) == value,
            forall|yy: int, xx: int|
                0 <= yy < old(self).height && 0 <= xx < old(self).width && (yy != y || xx != x)
                    ==> #[trigger] final(self).at(yy, xx) == old(self).at(yy, xx),
    {
        let i: usize = index_of(self.height, self.width, y, x);
        self.cells.set(i, value);
        proof {
            let w = self.width as int;
            assert forall|yy: int, xx: int|
                0 <= yy < self.height && 0 <= xx < self.width && (yy != y || xx != x) implies #[trigger] self.at(
                yy,
                xx,
            ) == old(self).at(yy, xx) by {
                lemma_flat_in_bounds(self.height as int, w, yy, xx);
                if flat(w, yy, xx) == flat(w, y as int, x as int) {
                    lemma_flat_injective(w, yy, xx, y as int, x as int);
                }
            }
        }
    }
}

} // verus!
