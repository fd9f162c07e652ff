//! The compression of signed distances to samples of eight bits.
use vstd::prelude::*;

verus! {

/// Namespace of the compression of distances. The field itself is a
/// function from lattice positions to samples, handed in by the caller.
pub struct DistanceField;

/// The sample of a distance that is `scaled` sixty-fourths long: 128 on the
/// surface, and kept within a byte.
pub open spec fn spec_compress(scaled: int) -> int {
    let d = scaled + 128;
    if d < 0 {
        0
    } else if d > 255 {
        255
    } else {
        d
    }
}

impl DistanceField {
    /// Compresses a distance, given in sixty-fourths, to a sample.
    pub fn compress(scaled: i32) -> (sample: u8)
        ensures
            sample == spec_compress(scaled as int),
    {
        if scaled < -128 {
            0
        } else if scaled > 127 {
            255
        } else {
            (scaled + 128) as u8
        }
    }

    /// Compresses each of the given distances.
    pub fn compress_range(vals: Vec<i32>) -> (ret: Vec<u8>)
        ensures
            ret@.len() == vals@.len(),
            forall|i: int| 0 <= i < vals@.len() ==> #[trigger] ret@[i] == spec_compress(vals@[i] as int),
    {
        let mut ret: Vec<u8> = Vec::with_capacity(vals.len());
        let mut i: usize = 0;
        while i < vals.len()
            invariant
                i <= vals@.len(),
                ret@.len() == i,
                forall|k: int| 0 <= k < i ==> #[trigger] ret@[k] == spec_compress(vals@[k] as int),
            decreases vals@.len() - i,
        {
            ret.push(Self::compress(vals[i]));
            i += 1;
        }
        ret
    }
}

} // verus!
