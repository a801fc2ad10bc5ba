use term_stream::Event;
use term_stream::EventStream;
use term_stream::KeyCode;
use term_stream::ParseErrorKind;

fn drain(s: &mut EventStream<u32>) -> Vec<Result<Event, ParseErrorKind>> {
    let mut out = Vec::new();
    let mut token: u32 = 0;
    loop {
        match s.poll(token) {
            Some(item) => out.push(item),
            None => return out,
        }
        token += 1;
    }
}

#[test]
fn split_escape_yields_one_event() {
    let mut s: EventStream<u32> = EventStream::new();
    s.on_data(&vec![0x1b]);
    s.on_data(&vec![b'[', b'A']);
    assert_eq!(s.poll(0), Some(Ok(Event::Key(KeyCode::Up))));
    assert_eq!(s.poll(1), None);
}

#[test]
fn chunking_does_not_change_the_decoded_sequence() {
    let bytes: Vec<u8> = vec![
        b'a', 0x1b, b'[', b'B', 0x1b, b'[', b'1', b'2', b';', b'7', b'R', 0x1b, b'O', b'c',
    ];
    let mut whole: EventStream<u32> = EventStream::new();
    whole.on_data(&bytes);
    let expected = drain(&mut whole);
    for cut1 in 0..bytes.len() {
        for cut2 in cut1..bytes.len() {
            let mut s: EventStream<u32> = EventStream::new();
            s.on_data(&bytes[..cut1].to_vec());
            s.on_data(&bytes[cut1..cut2].to_vec());
            s.on_data(&bytes[cut2..].to_vec());
            assert_eq!(drain(&mut s), expected);
        }
    }
}

#[test]
fn resize_keeps_its_place_between_input_events() {
    let mut s: EventStream<u32> = EventStream::new();
    s.on_data(&vec![b'a']);
    s.on_resize(100, 50);
    s.on_data(&vec![b'b']);
    assert_eq!(
        drain(&mut s),
        vec![
            Ok(Event::Key(KeyCode::Char(b'a'))),
            Ok(Event::Resize(100, 50)),
            Ok(Event::Key(KeyCode::Char(b'b'))),
        ]
    );
}

#[test]
fn resize_clamps_overflow_to_zero() {
    let mut s: EventStream<u32> = EventStream::new();
    s.on_resize(70000, 24);
    assert_eq!(s.poll(0), Some(Ok(Event::Resize(0, 24))));
}

#[test]
fn cursor_reports_never_surface() {
    let mut s: EventStream<u32> = EventStream::new();
    let mut bytes: Vec<u8> = Vec::new();
    bytes.extend_from_slice(b"\x1b[1;1R");
    bytes.push(b'k');
    bytes.extend_from_slice(b"\x1b[9;9R");
    bytes.extend_from_slice(b"\x1b[2;2R");
    bytes.push(b'm');
    s.on_data(&bytes);
    assert_eq!(
        drain(&mut s),
        vec![
            Ok(Event::Key(KeyCode::Char(b'k'))),
            Ok(Event::Key(KeyCode::Char(b'm'))),
        ]
    );
}

#[test]
fn cursor_reports_alone_leave_the_stream_pending() {
    let mut s: EventStream<u32> = EventStream::new();
    s.on_data(&b"\x1b[3;4R".to_vec());
    assert_eq!(s.poll(0), None);
}

#[test]
fn repeated_polls_record_the_freshest_interest() {
    let mut s: EventStream<u32> = EventStream::new();
    assert_eq!(*s.current_waker(), None);
    assert_eq!(s.poll(1), None);
    assert_eq!(*s.current_waker(), Some(1));
    // A later poll overwrites the slot with the current token: exactly one
    // recorded interest, the freshest, never a stale first one.
    assert_eq!(s.poll(2), None);
    assert_eq!(*s.current_waker(), Some(2));
    // One later append signals the recorded interest, without removing it.
    assert!(s.on_data(&vec![b'x']));
    assert_eq!(*s.current_waker(), Some(2));
}

#[test]
fn appends_report_no_wake_without_recorded_interest() {
    let mut s: EventStream<u32> = EventStream::new();
    assert!(!s.on_data(&vec![b'x']));
    assert!(!s.on_resize(80, 24));
    assert_eq!(s.poll(5), Some(Ok(Event::Key(KeyCode::Char(b'x')))));
}

#[test]
fn errors_surface_in_band_in_order() {
    let mut s: EventStream<u32> = EventStream::new();
    s.on_data(&vec![0x1b, b'O', b'x']);
    assert_eq!(s.poll(0), Some(Err(ParseErrorKind::UnsupportedSequence)));
    assert_eq!(s.poll(1), Some(Ok(Event::Key(KeyCode::Char(b'x')))));
    assert_eq!(s.poll(2), None);
}

#[test]
fn empty_delivery_changes_nothing() {
    let mut s: EventStream<u32> = EventStream::new();
    s.on_data(&Vec::new());
    assert_eq!(s.poll(0), None);
    // A byte split around an empty delivery still reassembles.
    s.on_data(&vec![0x1b]);
    s.on_data(&Vec::new());
    s.on_data(&vec![b'[', b'D']);
    assert_eq!(s.poll(1), Some(Ok(Event::Key(KeyCode::Left))));
}

#[test]
fn residual_callbacks_after_close_are_inert() {
    let mut s: EventStream<u32> = EventStream::new();
    s.on_data(&vec![b'a']);
    s.close();
    // Queued items were discarded, not drained.
    assert_eq!(s.poll(0), None);
    // Simulated residual callback invocations have no observable effect.
    assert!(!s.on_data(&vec![b'b']));
    assert!(!s.on_resize(80, 24));
    assert_eq!(s.poll(1), None);
}
