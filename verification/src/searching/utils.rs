use vstd::prelude::*;

verus! {

/// The distance between `a` and `b`.
pub fn diff(a: usize, b: usize) -> (r: usize)
    ensures
        r == if a >= b { a - b } else { b - a },
{
    if a >= b {
        a - b
    } else {
        b - a
    }
}

/// The squares next to `pos` on a board of `size` squares laid out in rows of
/// `width`, squares numbered row by row: above, below, left and right, in
/// that order, as far as they exist.
pub fn possible_dests(pos: usize, width: usize, size: usize) -> (r: Vec<usize>)
    requires
        0 < width,
        pos < size,
    ensures
        r@ == dests_spec(pos as int, width as int, size as int),
{
    let mut dests: Vec<usize> = Vec::new();
    if pos >= width {
        dests.push(pos - width);
    }
    if size - pos > width {
        dests.push(pos + width);
    }
    if pos % width != 0 {
        assert(pos != 0) by {
            if pos == 0 {
                assert(0usize % width == 0) by (nonlinear_arith)
                    requires
                        width > 0;
            }
        }
        dests.push(pos - 1);
    }
    if pos % width != width - 1 {
        dests.push(pos + 1);
    }
    dests
}

/// The squares next to `pos`, as `possible_dests` lists them.
pub open spec fn dests_spec(pos: int, width: int, size: int) -> Seq<usize> {
    let up: Seq<usize> = if pos >= width { seq![(pos - width) as usize] } else { seq![] };
    let down: Seq<usize> = if size - pos > width { seq![(pos + width) as usize] } else { seq![] };
    let left: Seq<usize> = if pos % width != 0 { seq![(pos - 1) as usize] } else { seq![] };
    let right: Seq<usize> = if pos % width != width - 1 { seq![(pos + 1) as usize] } else { seq![] };
    up + down + left + right
}

} // verus!
