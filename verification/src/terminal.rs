use vstd::prelude::*;

use crate::event::clamp_dim;
use crate::event::clamp_u16;

verus! {

/// Size of the terminal surface as reported to consumers. Pixel metrics are
/// unavailable from this host and are always reported as zero.
#[derive(Clone, Copy, Debug, PartialEq, Eq, Structural)]
pub struct WindowSize {
    pub rows: u16,
    pub columns: u16,
    pub width: u16,
    pub height: u16,
}

/// Column and row counts of the surface, from the raw counts the host
/// reports. Values outside the 16-bit range are clamped to zero.
pub fn size(cols: u32, rows: u32) -> (r: (u16, u16))
    ensures
        r.0 == clamp_dim(cols as int),
        r.1 == clamp_dim(rows as int),
{
    (clamp_u16(cols), clamp_u16(rows))
}

/// The same counts packaged as a `WindowSize`; the host supplies no pixel
/// metrics, so `width` and `height` are always zero.
pub fn window_size(cols: u32, rows: u32) -> (r: WindowSize)
    ensures
        r == (WindowSize {
            rows: clamp_dim(rows as int),
            columns: clamp_dim(cols as int),
            width: 0u16,
            height: 0u16,
        }),
{
    let s = size(cols, rows);
    WindowSize { rows: s.1, columns: s.0, width: 0, height: 0 }
}

/// The host always delivers unprocessed key data.
pub fn is_raw_mode_enabled() -> (r: bool)
    ensures
        r == true,
{
    true
}

/// The host does not implement the keyboard enhancement protocol.
pub fn supports_keyboard_enhancement() -> (r: bool)
    ensures
        r == false,
{
    false
}

} // verus!
