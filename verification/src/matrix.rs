//! A four-by-four grid of binary32 numbers.

use vstd::prelude::*;

verus! {

/// Four rows of four binary32 numbers, each as its pattern.
pub struct Matrix4 {
    pub matrix: [[u32; 4]; 4],
}

impl Matrix4 {
    /// The number in row `x` and column `y`.
    pub fn get(&self, x: usize, y: usize) -> (value: u32)
        requires
            x < 4,
            y < 4,
        ensures
            value == self.matrix[x as int][y as int],
    {
        self.matrix[x][y]
    }

    /// The matrix of the given rows.
    pub fn new(matrix: [[u32; 4]; 4]) -> (m: Self)
        ensures
            m.matrix == matrix,
    {
        Matrix4 { matrix }
    }
}

} // verus!
