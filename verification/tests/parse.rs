use term_stream::parse::parse_event;
use term_stream::parse::ParseOutcome;
use term_stream::Event;
use term_stream::InternalEvent;
use term_stream::KeyCode;
use term_stream::ParseErrorKind;

#[test]
fn plain_byte_is_a_key() {
    let r = parse_event(&vec![b'x'], false);
    assert_eq!(
        r,
        ParseOutcome::Complete(InternalEvent::Event(Event::Key(KeyCode::Char(b'x'))))
    );
}

#[test]
fn escape_prefixes_are_incomplete() {
    assert_eq!(parse_event(&vec![0x1b], false), ParseOutcome::NeedMore);
    assert_eq!(parse_event(&vec![0x1b, b'['], true), ParseOutcome::NeedMore);
    assert_eq!(parse_event(&vec![0x1b, b'[', b'1'], false), ParseOutcome::NeedMore);
    assert_eq!(
        parse_event(&vec![0x1b, b'[', b'1', b';'], false),
        ParseOutcome::NeedMore
    );
    assert_eq!(
        parse_event(&vec![0x1b, b'[', b'1', b';', b'7'], false),
        ParseOutcome::NeedMore
    );
}

#[test]
fn arrow_finals_decode_to_arrow_keys() {
    let keys = [
        (b'A', KeyCode::Up),
        (b'B', KeyCode::Down),
        (b'C', KeyCode::Right),
        (b'D', KeyCode::Left),
    ];
    for (b, key) in keys {
        assert_eq!(
            parse_event(&vec![0x1b, b'[', b], false),
            ParseOutcome::Complete(InternalEvent::Event(Event::Key(key)))
        );
    }
}

#[test]
fn unsupported_escape_is_fatal() {
    assert_eq!(
        parse_event(&vec![0x1b, b'O'], false),
        ParseOutcome::Fatal(ParseErrorKind::UnsupportedSequence)
    );
    assert_eq!(
        parse_event(&vec![0x1b, b'[', b'Z'], false),
        ParseOutcome::Fatal(ParseErrorKind::UnsupportedSequence)
    );
    assert_eq!(
        parse_event(&vec![0x1b, b'[', b'1', b'x'], false),
        ParseOutcome::Fatal(ParseErrorKind::UnsupportedSequence)
    );
}

#[test]
fn cursor_report_decodes_row_then_column() {
    let r = parse_event(&vec![0x1b, b'[', b'1', b'2', b';', b'7', b'R'], false);
    assert_eq!(r, ParseOutcome::Complete(InternalEvent::CursorPosition(7, 12)));
}

#[test]
fn cursor_report_clamps_overflowing_coordinate() {
    let mut bytes = vec![0x1b, b'[', b'1', b';'];
    bytes.extend_from_slice(b"70000R");
    assert_eq!(
        parse_event(&bytes, false),
        ParseOutcome::Complete(InternalEvent::CursorPosition(0, 1))
    );
}

#[test]
fn lookahead_flag_does_not_change_classification() {
    for more in [false, true] {
        assert_eq!(parse_event(&vec![0x1b], more), ParseOutcome::NeedMore);
        assert_eq!(
            parse_event(&vec![b'q'], more),
            ParseOutcome::Complete(InternalEvent::Event(Event::Key(KeyCode::Char(b'q'))))
        );
    }
}
