//! Bridge from a push-based, callback-driven terminal surface to a
//! pull-based, suspendable stream of decoded terminal events.
//!
//! The host widget delivers raw input bytes and dimension changes through
//! registered callbacks; a cooperative consumer polls for decoded events.
//! This crate holds the verified core of that bridge: the incremental
//! escape-sequence decoder that reassembles sequences across arbitrary
//! delivery boundaries (`parse`), the shared queue and single-entry waker
//! slot that coordinate callbacks with the polling consumer (`stream`), and
//! the clamped dimension and cursor queries (`terminal`, `cursor`). Host
//! plumbing — listener registration, the actual wake call, the widget reads
//! — stays outside and hands plain values in and out.

pub mod cursor;
pub mod event;
pub mod parse;
pub mod stream;
pub mod terminal;

pub use cursor::position;
pub use event::Event;
pub use event::InternalEvent;
pub use event::KeyCode;
pub use event::ParseErrorKind;
pub use event::QueuedItem;
pub use stream::EventStream;
pub use terminal::is_raw_mode_enabled;
pub use terminal::size;
pub use terminal::supports_keyboard_enhancement;
pub use terminal::window_size;
pub use terminal::WindowSize;
