//! Quantised edge keys used to pair the shared edges of neighbouring
//! brick outlines.
use vstd::prelude::*;

verus! {

/// A quantised edge: its two endpoints (in canonical order), its
/// midpoint cell, and whether it is a cubic.
#[derive(Debug, PartialEq, Eq, PartialOrd, Ord, Hash, Clone, Copy)]
pub struct EdgeKey {
    pub lo: (i64, i64),
    pub hi: (i64, i64),
    pub mid: (i64, i64),
    pub is_cubic: bool,
}

/// The key with its midpoint cell shifted by `(dx, dy)`.
pub open spec fn shifted(k: EdgeKey, dx: int, dy: int) -> EdgeKey {
    EdgeKey { mid: ((k.mid.0 + dx) as i64, (k.mid.1 + dy) as i64), ..k }
}

/// The nine keys whose midpoint cell neighbours `k`'s (itself included):
/// entry `3 * (dx + 1) + (dy + 1)` has the midpoint shifted by `(dx, dy)`.
pub fn key_variants(k: &EdgeKey) -> (r: Vec<EdgeKey>)
    requires
        i64::MIN < k.mid.0 < i64::MAX,
        i64::MIN < k.mid.1 < i64::MAX,
    ensures
        r@.len() == 9,
        forall|dx: int, dy: int| -1 <= dx <= 1 && -1 <= dy <= 1 ==> #[trigger] r@[3 * (dx + 1) + (dy + 1)] == shifted(*k, dx, dy),
        r@.contains(*k),
{
    let mut out: Vec<EdgeKey> = Vec::new();
    let mut dx: i64 = -1;
    while dx <= 1
        invariant
            i64::MIN < k.mid.0 < i64::MAX,
            i64::MIN < k.mid.1 < i64::MAX,
            -1 <= dx <= 2,
            out@.len() == 3 * (dx + 1),
            forall|a: int, b: int| -1 <= a < dx && -1 <= b <= 1 ==> #[trigger] out@[3 * (a + 1) + (b + 1)] == shifted(*k, a, b),
        decreases 2 - dx,
    {
        let mut dy: i64 = -1;
        while dy <= 1
            invariant
                i64::MIN < k.mid.0 < i64::MAX,
                i64::MIN < k.mid.1 < i64::MAX,
                -1 <= dx <= 1,
                -1 <= dy <= 2,
                out@.len() == 3 * (dx + 1) + (dy + 1),
                forall|a: int, b: int| -1 <= a < dx && -1 <= b <= 1 ==> #[trigger] out@[3 * (a + 1) + (b + 1)] == shifted(*k, a, b),
                forall|b: int| -1 <= b < dy ==> #[trigger] out@[3 * (dx + 1) + (b + 1)] == shifted(*k, dx as int, b),
            decreases 2 - dy,
        {
            out.push(EdgeKey { lo: k.lo, hi: k.hi, mid: (k.mid.0 + dx, k.mid.1 + dy), is_cubic: k.is_cubic });
            dy = dy + 1;
        }
        dx = dx + 1;
    }
    assert(out@[3 * (0int + 1) + (0int + 1)] == shifted(*k, 0, 0));
    assert(shifted(*k, 0, 0) == *k);
    assert(out@[4] == *k);
    out
}

} // verus!
