//! Reading the lines of a puzzle text as the rows of a grid of bytes.
use crate::text::{line_spans, lines, spans_are};
use vstd::prelude::*;

verus! {

/// The byte at column `x` of row `y`, or `None` off the grid (rows may
/// differ in length).
pub open spec fn cell(rows: Seq<Seq<u8>>, y: int, x: int) -> Option<u8> {
    if 0 <= y < rows.len() && 0 <= x < rows[y].len() {
        Some(rows[y][x])
    } else {
        None
    }
}

/// The lines of a text, kept as spans of its bytes.
pub struct Rows<'a> {
    pub bytes: &'a [u8],
    pub spans: Vec<(usize, usize)>,
}

impl<'a> Rows<'a> {
    /// The rows as byte sequences.
    pub open spec fn rows(&self) -> Seq<Seq<u8>> {
        lines(self.bytes@)
    }

    pub open spec fn wf(&self) -> bool {
        spans_are(self.bytes@, self.spans@, lines(self.bytes@))
    }

    pub fn new(bytes: &'a [u8]) -> (r: Rows<'a>)
        ensures
            r.wf(),
            r.bytes@ == bytes@,
    {
        Rows { bytes, spans: line_spans(bytes) }
    }

    pub fn height(&self) -> (r: usize)
        requires
            self.wf(),
        ensures
            r == self.rows().len(),
    {
        self.spans.len()
    }

    pub fn width(&self, y: usize) -> (r: usize)
        requires
            self.wf(),
            y < self.rows().len(),
        ensures
            r == self.rows()[y as int].len(),
    {
        self.spans[y].1 - self.spans[y].0
    }

    /// The byte at column `x` of row `y`, or `None` off the grid.
    pub fn get(&self, y: i128, x: i128) -> (r: Option<u8>)
        requires
            self.wf(),
        ensures
            r == cell(self.rows(), y as int, x as int),
    {
        if y < 0 || y >= self.spans.len() as i128 {
            return None;
        }
        let (lo, hi) = self.spans[y as usize];
        if x < 0 || x >= (hi - lo) as i128 {
            return None;
        }
        proof {
            assert(self.bytes@.subrange(lo as int, hi as int)[x as int] == self.bytes@[lo + x]);
        }
        Some(self.bytes[lo + x as usize])
    }
}

} // verus!
