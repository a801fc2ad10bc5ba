use vstd::prelude::*;

verus! {

/// A key recognised by the byte decoder.
#[derive(Clone, Copy, Debug, PartialEq, Eq, Structural)]
pub enum KeyCode {
    /// A plain byte delivered outside an escape sequence.
    Char(u8),
    Up,
    Down,
    Right,
    Left,
}

/// An event that consumers of the public stream can observe.
#[derive(Clone, Copy, Debug, PartialEq, Eq, Structural)]
pub enum Event {
    Key(KeyCode),
    /// New column and row counts, already clamped into the 16-bit range.
    Resize(u16, u16),
}

/// Superset of `Event` used inside the adapter. Cursor-position reports are
/// decoded like any other sequence but must never reach the public stream.
#[derive(Clone, Copy, Debug, PartialEq, Eq, Structural)]
pub enum InternalEvent {
    Event(Event),
    /// Column and row reported by an in-band cursor-position report.
    CursorPosition(u16, u16),
}

/// Why the decoder rejected an escape sequence. The error travels in-band
/// through the event queue, at the position where it occurred.
#[derive(Clone, Copy, Debug, PartialEq, Eq, Structural)]
pub enum ParseErrorKind {
    UnsupportedSequence,
}

/// One entry of the event queue: a decoded event or an in-band decoding error.
pub type QueuedItem = Result<InternalEvent, ParseErrorKind>;

/// Clamp a host-reported dimension or position into the public 16-bit range.
/// Out-of-range values are deliberately reported as zero, never as an error.
pub open spec fn clamp_dim(v: int) -> u16 {
    if 0 <= v <= 65535 {
        v as u16
    } else {
        0
    }
}

/// Executable counterpart of `clamp_dim` for the raw integers the host reports.
pub fn clamp_u16(v: u32) -> (r: u16)
    ensures
        r == clamp_dim(v as int),
{
    if v <= 65535 {
        v as u16
    } else {
        0
    }
}

} // verus!
