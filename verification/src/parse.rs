use vstd::prelude::*;

use crate::event::clamp_dim;
use crate::event::Event;
use crate::event::InternalEvent;
use crate::event::KeyCode;
use crate::event::ParseErrorKind;
use crate::event::QueuedItem;

verus! {

/// Answer of the byte decoder for one buffer: keep collecting, a complete
/// event, or a fatal decoding error. A terminal answer (event or error)
/// always resets the parse buffer; `NeedMore` always retains it.
#[derive(Clone, Copy, Debug, PartialEq, Eq, Structural)]
pub enum ParseOutcome {
    NeedMore,
    Complete(InternalEvent),
    Fatal(ParseErrorKind),
}

pub open spec fn is_digit(b: u8) -> bool {
    48 <= b <= 57
}

pub open spec fn digit_val(b: u8) -> int {
    b - 48
}

/// Number of leading decimal digits of `s`.
pub open spec fn digits_len(s: Seq<u8>) -> int
    decreases s.len(),
{
    if s.len() == 0 || !is_digit(s[0]) {
        0
    } else {
        1 + digits_len(s.drop_first())
    }
}

/// Numeric value of a run of decimal digits.
pub open spec fn digits_val(s: Seq<u8>) -> int
    decreases s.len(),
{
    if s.len() == 0 {
        0
    } else {
        digits_val(s.drop_last()) * 10 + digit_val(s.last())
    }
}

/// Final bytes of the four arrow-key sequences `ESC [ A` .. `ESC [ D`.
pub open spec fn is_arrow(b: u8) -> bool {
    65 <= b <= 68
}

pub open spec fn arrow_key(b: u8) -> KeyCode {
    if b == 65 {
        KeyCode::Up
    } else if b == 66 {
        KeyCode::Down
    } else if b == 67 {
        KeyCode::Right
    } else {
        KeyCode::Left
    }
}

/// Classification of a control-sequence payload, the bytes after `ESC [`.
/// Recognised forms: a single arrow-key final byte, and a cursor-position
/// report `row ; col R`. Digit runs still missing their final byte are
/// incomplete; every other shape is rejected.
pub open spec fn csi_spec(rest: Seq<u8>) -> ParseOutcome {
    if rest.len() == 0 {
        ParseOutcome::NeedMore
    } else if rest.len() == 1 && is_arrow(rest[0]) {
        ParseOutcome::Complete(InternalEvent::Event(Event::Key(arrow_key(rest[0]))))
    } else {
        let n1 = digits_len(rest);
        if n1 == rest.len() {
            ParseOutcome::NeedMore
        } else if rest[n1] == 59 {
            let tail = rest.skip(n1 + 1);
            let n2 = digits_len(tail);
            if n2 == tail.len() {
                ParseOutcome::NeedMore
            } else if tail[n2] == 82 && n2 == tail.len() - 1 {
                ParseOutcome::Complete(InternalEvent::CursorPosition(
                    clamp_dim(digits_val(tail.take(n2))),
                    clamp_dim(digits_val(rest.take(n1))),
                ))
            } else {
                ParseOutcome::Fatal(ParseErrorKind::UnsupportedSequence)
            }
        } else {
            ParseOutcome::Fatal(ParseErrorKind::UnsupportedSequence)
        }
    }
}

/// Classification of a whole parse buffer. A byte other than `ESC` at the
/// head is a plain key; `ESC` opens an escape sequence that only `[` may
/// continue. The answer depends on the buffer contents alone, so decoding
/// is insensitive to where the host cuts its deliveries.
pub open spec fn parse_spec(buf: Seq<u8>) -> ParseOutcome {
    if buf.len() == 0 {
        ParseOutcome::NeedMore
    } else if buf[0] != 27 {
        ParseOutcome::Complete(InternalEvent::Event(Event::Key(KeyCode::Char(buf[0]))))
    } else if buf.len() == 1 {
        ParseOutcome::NeedMore
    } else if buf[1] != 91 {
        ParseOutcome::Fatal(ParseErrorKind::UnsupportedSequence)
    } else {
        csi_spec(buf.skip(2))
    }
}

/// Parse buffer left behind after absorbing one byte: a terminal answer
/// (event or error) resets it, `NeedMore` retains it.
pub open spec fn step_buffer(buf: Seq<u8>, b: u8) -> Seq<u8> {
    if parse_spec(buf.push(b)) is NeedMore {
        buf.push(b)
    } else {
        Seq::empty()
    }
}

/// Queue items emitted by absorbing one byte: nothing while the sequence is
/// incomplete, one item (event or in-band error) on a terminal answer.
pub open spec fn step_items(buf: Seq<u8>, b: u8) -> Seq<QueuedItem> {
    match parse_spec(buf.push(b)) {
        ParseOutcome::NeedMore => Seq::empty(),
        ParseOutcome::Complete(ev) => seq![Ok(ev)],
        ParseOutcome::Fatal(k) => seq![Err(k)],
    }
}

/// Parse buffer left behind after absorbing a whole delivery, byte by byte.
pub open spec fn feed_buffer(buf: Seq<u8>, bytes: Seq<u8>) -> Seq<u8>
    decreases bytes.len(),
{
    if bytes.len() == 0 {
        buf
    } else {
        feed_buffer(step_buffer(buf, bytes[0]), bytes.drop_first())
    }
}

/// Queue items emitted by absorbing a whole delivery, in arrival order.
pub open spec fn feed_items(buf: Seq<u8>, bytes: Seq<u8>) -> Seq<QueuedItem>
    decreases bytes.len(),
{
    if bytes.len() == 0 {
        Seq::empty()
    } else {
        step_items(buf, bytes[0]) + feed_items(step_buffer(buf, bytes[0]), bytes.drop_first())
    }
}

/// Law: decoding does not depend on one delivery boundary. Absorbing `a + b`
/// in one delivery leaves the same parse buffer and emits the same items, in
/// the same order, as absorbing `a` and then `b` in two deliveries.
pub proof fn lemma_chunked_decode(buf: Seq<u8>, a: Seq<u8>, b: Seq<u8>)
    ensures
        feed_buffer(buf, a + b) == feed_buffer(feed_buffer(buf, a), b),
        feed_items(buf, a + b) == feed_items(buf, a) + feed_items(feed_buffer(buf, a), b),
    decreases a.len(),
{
    if a.len() == 0 {
        assert(a + b =~= b);
        assert(Seq::<QueuedItem>::empty() + feed_items(buf, b) =~= feed_items(buf, b));
    } else {
        let buf1 = step_buffer(buf, a[0]);
        assert((a + b)[0] == a[0]);
        assert((a + b).drop_first() =~= a.drop_first() + b);
        lemma_chunked_decode(buf1, a.drop_first(), b);
        assert(step_items(buf, a[0]) + (feed_items(buf1, a.drop_first()) + feed_items(
            feed_buffer(buf1, a.drop_first()),
            b,
        )) =~= (step_items(buf, a[0]) + feed_items(buf1, a.drop_first())) + feed_items(
            feed_buffer(buf1, a.drop_first()),
            b,
        ));
    }
}

/// Well-formedness of a parse buffer at rest: it holds at most one in-flight
/// partial sequence, so it is empty or still classified incomplete.
pub open spec fn buffer_unresolved(buf: Seq<u8>) -> bool {
    buf.len() == 0 || parse_spec(buf) is NeedMore
}

/// Law: the parse buffer is well formed at every rest point. Absorbing a
/// byte either extends the one incomplete sequence or resets the buffer, so
/// a delivery of any length leaves a buffer that is again empty or
/// incomplete; a new byte never opens a second sequence beside it.
pub proof fn lemma_buffer_stays_unresolved(buf: Seq<u8>, bytes: Seq<u8>)
    requires
        buffer_unresolved(buf),
    ensures
        buffer_unresolved(feed_buffer(buf, bytes)),
    decreases bytes.len(),
{
    if bytes.len() > 0 {
        lemma_buffer_stays_unresolved(step_buffer(buf, bytes[0]), bytes.drop_first());
    }
}

/// One byte stream written as a sequence of host deliveries.
pub open spec fn concat_deliveries(chunks: Seq<Seq<u8>>) -> Seq<u8>
    decreases chunks.len(),
{
    if chunks.len() == 0 {
        Seq::empty()
    } else {
        chunks[0] + concat_deliveries(chunks.drop_first())
    }
}

/// Parse buffer left behind after absorbing each delivery in turn.
pub open spec fn feed_buffer_all(buf: Seq<u8>, chunks: Seq<Seq<u8>>) -> Seq<u8>
    decreases chunks.len(),
{
    if chunks.len() == 0 {
        buf
    } else {
        feed_buffer_all(feed_buffer(buf, chunks[0]), chunks.drop_first())
    }
}

/// Queue items emitted by absorbing each delivery in turn.
pub open spec fn feed_items_all(buf: Seq<u8>, chunks: Seq<Seq<u8>>) -> Seq<QueuedItem>
    decreases chunks.len(),
{
    if chunks.len() == 0 {
        Seq::empty()
    } else {
        feed_items(buf, chunks[0]) + feed_items_all(
            feed_buffer(buf, chunks[0]),
            chunks.drop_first(),
        )
    }
}

/// Law: a byte stream split into any number of host deliveries, at arbitrary
/// boundaries, decodes to the same ordered items, and leaves the same parse
/// buffer, as the stream absorbed in one delivery.
pub proof fn lemma_deliveries_decode_as_one(buf: Seq<u8>, chunks: Seq<Seq<u8>>)
    ensures
        feed_buffer_all(buf, chunks) == feed_buffer(buf, concat_deliveries(chunks)),
        feed_items_all(buf, chunks) == feed_items(buf, concat_deliveries(chunks)),
    decreases chunks.len(),
{
    if chunks.len() == 0 {
    } else {
        let c0 = chunks[0];
        let rest = chunks.drop_first();
        lemma_deliveries_decode_as_one(feed_buffer(buf, c0), rest);
        lemma_chunked_decode(buf, c0, concat_deliveries(rest));
    }
}

/// Unrolling of `feed_buffer` and `feed_items` at the last byte of a
/// delivery; this is the shape the incremental driver's loop maintains.
pub proof fn lemma_feed_snoc(buf: Seq<u8>, bytes: Seq<u8>, b: u8)
    ensures
        feed_buffer(buf, bytes.push(b)) == step_buffer(feed_buffer(buf, bytes), b),
        feed_items(buf, bytes.push(b)) == feed_items(buf, bytes) + step_items(
            feed_buffer(buf, bytes),
            b,
        ),
{
    let one = seq![b];
    assert(bytes.push(b) =~= bytes + one);
    lemma_chunked_decode(buf, bytes, one);
    let fb = feed_buffer(buf, bytes);
    assert(one[0] == b);
    assert(one.drop_first() =~= Seq::<u8>::empty());
    assert(feed_buffer(step_buffer(fb, b), Seq::<u8>::empty()) == step_buffer(fb, b));
    assert(feed_items(step_buffer(fb, b), Seq::<u8>::empty()) == Seq::<QueuedItem>::empty());
    assert(feed_items(fb, one) =~= step_items(fb, b) + Seq::<QueuedItem>::empty());
    assert(step_items(fb, b) + Seq::<QueuedItem>::empty() =~= step_items(fb, b));
}

proof fn lemma_digits_len_is(s: Seq<u8>, k: int)
    requires
        0 <= k <= s.len(),
        forall|j: int| 0 <= j < k ==> is_digit(s[j]),
        k < s.len() ==> !is_digit(s[k]),
    ensures
        digits_len(s) == k,
    decreases k, s.len(),
{
    if k == 0 {
        if s.len() > 0 {
            assert(!is_digit(s[0]));
        }
    } else {
        assert(is_digit(s[0]));
        let t = s.drop_first();
        assert forall|j: int| 0 <= j < k - 1 implies is_digit(t[j]) by {
            assert(t[j] == s[j + 1]);
        }
        if k - 1 < t.len() {
            assert(t[k - 1] == s[k]);
        }
        lemma_digits_len_is(t, k - 1);
    }
}

/// Decode one parse buffer, exactly as `parse_spec` classifies it.
///
/// `more` tells the decoder whether further bytes of the same host delivery
/// are still to come. It is accepted for interface compatibility with the
/// incremental driver; classification deliberately ignores it, which is what
/// makes decoding independent of delivery boundaries.
#[verifier::loop_isolation(false)]
pub fn parse_event(buffer: &Vec<u8>, more: bool) -> (r: ParseOutcome)
    ensures
        r == parse_spec(buffer@),
{
    let n = buffer.len();
    if n == 0 {
        return ParseOutcome::NeedMore;
    }
    let b0 = buffer[0];
    if b0 != 27 {
        return ParseOutcome::Complete(InternalEvent::Event(Event::Key(KeyCode::Char(b0))));
    }
    if n == 1 {
        return ParseOutcome::NeedMore;
    }
    if buffer[1] != 91 {
        return ParseOutcome::Fatal(ParseErrorKind::UnsupportedSequence);
    }
    let ghost rest = buffer@.skip(2);
    if n == 2 {
        return ParseOutcome::NeedMore;
    }
    if n == 3 {
        let b2 = buffer[2];
        if 65 <= b2 && b2 <= 68 {
            assert(rest.len() == 1 && rest[0] == b2);
            let key = if b2 == 65 {
                KeyCode::Up
            } else if b2 == 66 {
                KeyCode::Down
            } else if b2 == 67 {
                KeyCode::Right
            } else {
                KeyCode::Left
            };
            return ParseOutcome::Complete(InternalEvent::Event(Event::Key(key)));
        }
    }
    // Scan the first digit run (the reported row).
    let mut i: usize = 2;
    let mut v1: u32 = 0;
    while i < n && 48 <= buffer[i] && buffer[i] <= 57
        invariant
            2 <= i <= n,
            forall|j: int| 2 <= j < i ==> is_digit(buffer@[j]),
            v1 <= 65536,
            digits_val(buffer@.subrange(2, i as int)) >= 0,
            v1 == if digits_val(buffer@.subrange(2, i as int)) > 65536 {
                65536int
            } else {
                digits_val(buffer@.subrange(2, i as int))
            },
        decreases n - i,
    {
        let d = (buffer[i] - 48) as u32;
        proof {
            let pre = buffer@.subrange(2, i as int);
            let post = buffer@.subrange(2, i as int + 1);
            assert(post.drop_last() =~= pre);
            assert(post.last() == buffer@[i as int]);
            assert(digits_val(post) == digits_val(pre) * 10 + digit_val(buffer@[i as int]));
        }
        let raw = v1 * 10 + d;
        if raw > 65536 {
            v1 = 65536;
        } else {
            v1 = raw;
        }
        i = i + 1;
    }
    proof {
        assert forall|j: int| 0 <= j < i - 2 implies is_digit(rest[j]) by {
            assert(rest[j] == buffer@[j + 2]);
        }
        if i < n {
            assert(rest[i - 2] == buffer@[i as int]);
        }
        lemma_digits_len_is(rest, i - 2);
    }
    if i == n {
        return ParseOutcome::NeedMore;
    }
    if buffer[i] != 59 {
        return ParseOutcome::Fatal(ParseErrorKind::UnsupportedSequence);
    }
    let ghost tail = rest.skip(i - 2 + 1);
    proof {
        assert(tail =~= buffer@.skip(i as int + 1));
    }
    // Scan the second digit run (the reported column).
    let semi = i;
    let mut j: usize = i + 1;
    let mut v2: u32 = 0;
    while j < n && 48 <= buffer[j] && buffer[j] <= 57
        invariant
            semi + 1 <= j <= n,
            forall|m: int| semi + 1 <= m < j ==> is_digit(buffer@[m]),
            v2 <= 65536,
            digits_val(buffer@.subrange(semi as int + 1, j as int)) >= 0,
            v2 == if digits_val(buffer@.subrange(semi as int + 1, j as int)) > 65536 {
                65536int
            } else {
                digits_val(buffer@.subrange(semi as int + 1, j as int))
            },
        decreases n - j,
    {
        let d = (buffer[j] - 48) as u32;
        proof {
            let pre = buffer@.subrange(semi as int + 1, j as int);
            let post = buffer@.subrange(semi as int + 1, j as int + 1);
            assert(post.drop_last() =~= pre);
            assert(post.last() == buffer@[j as int]);
            assert(digits_val(post) == digits_val(pre) * 10 + digit_val(buffer@[j as int]));
        }
        let raw = v2 * 10 + d;
        if raw > 65536 {
            v2 = 65536;
        } else {
            v2 = raw;
        }
        j = j + 1;
    }
    proof {
        assert forall|m: int| 0 <= m < j - semi - 1 implies is_digit(tail[m]) by {
            assert(tail[m] == buffer@[m + semi + 1]);
        }
        if j < n {
            assert(tail[j - semi - 1] == buffer@[j as int]);
        }
        lemma_digits_len_is(tail, j - semi - 1);
    }
    if j == n {
        return ParseOutcome::NeedMore;
    }
    if buffer[j] == 82 && j == n - 1 {
        proof {
            assert(tail.take(j - semi - 1) =~= buffer@.subrange(semi as int + 1, j as int));
            assert(rest.take(semi - 2) =~= buffer@.subrange(2, semi as int));
        }
        let col = if v2 > 65535 {
            0
        } else {
            v2 as u16
        };
        let row = if v1 > 65535 {
            0
        } else {
            v1 as u16
        };
        return ParseOutcome::Complete(InternalEvent::CursorPosition(col, row));
    }
    ParseOutcome::Fatal(ParseErrorKind::UnsupportedSequence)
}

} // verus!
