//! The computation behind uniform tile sizing: every tile raster (and the
//! placeholder for undetermined cells) is scaled to the largest width and
//! height found across the catalogue before the grid is assembled.

use vstd::prelude::*;

verus! {

/// The uniform tile size for a catalogue: the largest width and the largest
/// height over all the given raster sizes and the placeholder's size.
pub fn max_dimensions(dims: &Vec<(u32, u32)>, empty: (u32, u32)) -> (r: (u32, u32))
    ensures
        r.0 >= empty.0 && r.1 >= empty.1,
        forall|i: int|
            0 <= i < dims@.len() ==> r.0 >= (#[trigger] dims@[i]).0 && r.1 >= dims@[i].1,
        r.0 == empty.0 || exists|i: int| 0 <= i < dims@.len() && (#[trigger] dims@[i]).0 == r.0,
        r.1 == empty.1 || exists|i: int| 0 <= i < dims@.len() && (#[trigger] dims@[i]).1 == r.1,
{
    let mut w = empty.0;
    let mut h = empty.1;
    let mut i: usize = 0;
    while i < dims.len()
        invariant
            0 <= i <= dims@.len(),
            w >= empty.0 && h >= empty.1,
            forall|k: int| 0 <= k < i ==> w >= (#[trigger] dims@[k]).0 && h >= dims@[k].1,
            w == empty.0 || exists|k: int| 0 <= k < i && (#[trigger] dims@[k]).0 == w,
            h == empty.1 || exists|k: int| 0 <= k < i && (#[trigger] dims@[k]).1 == h,
        decreases dims@.len() - i,
    {
        let (dw, dh) = dims[i];
        if dw > w {
            w = dw;
        }
        if dh > h {
            h = dh;
        }
        i = i + 1;
    }
    (w, h)
}

} // verus!
