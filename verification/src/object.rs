use vstd::prelude::*;

verus! {

/// One of the two solutions of a ray-sphere equation.
#[derive(Debug, Copy, Clone, PartialEq, Eq, Structural)]
pub enum Root {
    /// The smaller ray parameter: where the ray's line enters the sphere.
    Near,
    /// The larger ray parameter: where it leaves.
    Far,
}

/// Picks the intersection that counts: the nearest one whose ray parameter
/// lies in the queried range. The near root wins whenever it is in range; the
/// far root is taken only when the near one is not; a negative discriminant,
/// or both roots out of range, is a miss.
pub fn select_root(discriminant_negative: bool, near_in_range: bool, far_in_range: bool) -> (root:
    Option<Root>)
    ensures
        root == Some(Root::Near) <==> !discriminant_negative && near_in_range,
        root == Some(Root::Far) <==> !discriminant_negative && !near_in_range && far_in_range,
        root is None <==> discriminant_negative || (!near_in_range && !far_in_range),
{
    if discriminant_negative {
        None
    } else if near_in_range {
        Some(Root::Near)
    } else if far_in_range {
        Some(Root::Far)
    } else {
        None
    }
}

/// Place of a binary32 bit pattern in the total order of floating-point
/// values: patterns with a clear sign bit rank by magnitude from 0 upwards,
/// patterns with the sign bit set rank below them, a larger magnitude lower,
/// so that -0 comes just under +0.
pub open spec fn float_rank(bits: u32) -> int {
    if bits < 0x8000_0000 {
        bits as int
    } else {
        -(bits - 0x8000_0000) - 1
    }
}

/// Maps a binary32 bit pattern to an unsigned key that sorts as the value
/// does: the rank, shifted so that the lowest rank gets key 0.
pub fn ordering_key(bits: u32) -> (key: u32)
    ensures
        key == float_rank(bits) + 0x8000_0000,
{
    if bits & 0x8000_0000 == 0 {
        assert(bits & 0x8000_0000 == 0 ==> bits < 0x8000_0000 && (bits | 0x8000_0000) == bits
            + 0x8000_0000) by (bit_vector);
        bits | 0x8000_0000
    } else {
        assert(bits & 0x8000_0000 != 0 ==> bits >= 0x8000_0000 && !bits == 0xffff_ffff - bits)
            by (bit_vector);
        !bits
    }
}

/// Index of the nearest hit among the ray parameters `ts`, each given as the
/// bit pattern of a binary32 value: the first one of lowest rank. No hits, no
/// result.
pub fn nearest(ts: &[u32]) -> (found: Option<usize>)
    ensures
        found is None <==> ts@.len() == 0,
        found matches Some(i) ==> {
            &&& i < ts@.len()
            &&& forall|j: int|
                0 <= j < ts@.len() ==> float_rank(ts@[i as int]) <= float_rank(#[trigger] ts@[j])
            &&& forall|j: int|
                0 <= j < i ==> float_rank(ts@[i as int]) < float_rank(#[trigger] ts@[j])
        },
{
    if ts.len() == 0 {
        return None;
    }
    let mut best: usize = 0;
    let mut best_key: u32 = ordering_key(ts[0]);
    let mut j: usize = 1;
    while j < ts.len()
        invariant
            1 <= j <= ts@.len(),
            best < j,
            best_key == float_rank(ts@[best as int]) + 0x8000_0000,
            forall|k: int|
                0 <= k < j ==> float_rank(ts@[best as int]) <= float_rank(#[trigger] ts@[k]),
            forall|k: int|
                0 <= k < best ==> float_rank(ts@[best as int]) < float_rank(#[trigger] ts@[k]),
        decreases ts@.len() - j,
    {
        let key = ordering_key(ts[j]);
        if key < best_key {
            best = j;
            best_key = key;
        }
        j += 1;
    }
    Some(best)
}

} // verus!
