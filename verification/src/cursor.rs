use vstd::prelude::*;

use crate::event::clamp_dim;
use crate::event::clamp_u16;

verus! {

/// Cursor column and row of the active buffer, from the raw coordinates the
/// host reports. A coordinate outside the 16-bit range is clamped to zero;
/// the other coordinate is unaffected.
pub fn position(x: u32, y: u32) -> (r: (u16, u16))
    ensures
        r.0 == clamp_dim(x as int),
        r.1 == clamp_dim(y as int),
{
    (clamp_u16(x), clamp_u16(y))
}

} // verus!
