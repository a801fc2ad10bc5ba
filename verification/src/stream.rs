use vstd::prelude::*;

use crate::event::clamp_dim;
use crate::event::clamp_u16;
use crate::event::Event;
use crate::event::InternalEvent;
use crate::event::ParseErrorKind;
use crate::event::QueuedItem;
use crate::parse::feed_buffer;
use crate::parse::feed_items;
use crate::parse::lemma_feed_snoc;
use crate::parse::parse_event;
use crate::parse::ParseOutcome;

verus! {

/// A queue item that must never be surfaced on the public stream.
pub open spec fn is_cursor_item(it: QueuedItem) -> bool {
    it matches Ok(InternalEvent::CursorPosition(_, _))
}

/// The queue with its longest prefix of cursor-position reports removed:
/// what a poll sees once the internal-only items have been discarded.
pub open spec fn drop_cursor_prefix(q: Seq<QueuedItem>) -> Seq<QueuedItem>
    decreases q.len(),
{
    if q.len() == 0 {
        q
    } else if is_cursor_item(q[0]) {
        drop_cursor_prefix(q.drop_first())
    } else {
        q
    }
}

/// Public form of a queue item that is not a cursor-position report: a
/// decoded event, or the decoding error in the position where it occurred.
pub open spec fn public_item(it: QueuedItem) -> Result<Event, ParseErrorKind>
    recommends
        !is_cursor_item(it),
{
    match it {
        Ok(InternalEvent::Event(ev)) => Ok(ev),
        Ok(InternalEvent::CursorPosition(_, _)) => Err(ParseErrorKind::UnsupportedSequence),
        Err(k) => Err(k),
    }
}

/// Shared state of the adapter: the decoded-event queue, the single-entry
/// waker slot, the parse buffer carried across deliveries, and whether the
/// adapter has been torn down.
///
/// The host's input and resize callbacks drive `on_data` and `on_resize`;
/// the suspendable consumer drives `poll`. Producer and consumer run on one
/// cooperative scheduler and interleave only between calls, so the caller
/// wraps this state in a lightweight exclusive-access guard and keeps each
/// call instantaneous.
///
/// `W` is the consumer-interest token handed in by `poll`; when a callback
/// reports that a wake is due, the caller signals the recorded token without
/// removing it.
pub struct EventStream<W> {
    queue: Vec<QueuedItem>,
    waker: Option<W>,
    buffer: Vec<u8>,
    closed: bool,
}

impl<W> EventStream<W> {
    /// The queued items, oldest first; queue order is arrival order.
    pub closed spec fn events(&self) -> Seq<QueuedItem> {
        self.queue@
    }

    /// The recorded consumer-interest token, if any.
    pub closed spec fn waker_slot(&self) -> Option<W> {
        self.waker
    }

    /// Bytes of the one partial escape sequence still in flight.
    pub closed spec fn pending_bytes(&self) -> Seq<u8> {
        self.buffer@
    }

    /// Whether the adapter has been torn down; callbacks are then inert.
    pub closed spec fn is_closed(&self) -> bool {
        self.closed
    }

    /// Fresh state: empty queue, no recorded interest, empty parse buffer.
    pub fn new() -> (s: Self)
        ensures
            s.events() == Seq::<QueuedItem>::empty(),
            s.waker_slot() is None,
            s.pending_bytes() == Seq::<u8>::empty(),
            !s.is_closed(),
    {
        EventStream { queue: Vec::new(), waker: None, buffer: Vec::new(), closed: false }
    }

    /// Host callback for one raw byte delivery. Every byte extends the parse
    /// buffer and is handed to the decoder; a terminal answer appends one
    /// item at the tail of the queue and resets the buffer, so a sequence
    /// split across deliveries is reassembled. The result says whether a
    /// recorded consumer interest is due a signal; after teardown the
    /// delivery has no effect at all.
    pub fn on_data(&mut self, data: &Vec<u8>) -> (wake: bool)
        ensures
            old(self).is_closed() ==> ({
                &&& final(self).events() == old(self).events()
                &&& final(self).waker_slot() == old(self).waker_slot()
                &&& final(self).pending_bytes() == old(self).pending_bytes()
                &&& final(self).is_closed()
                &&& wake == false
            }),
            !old(self).is_closed() ==> ({
                &&& final(self).events() == old(self).events() + feed_items(
                    old(self).pending_bytes(),
                    data@,
                )
                &&& final(self).pending_bytes() == feed_buffer(old(self).pending_bytes(), data@)
                &&& final(self).waker_slot() == old(self).waker_slot()
                &&& !final(self).is_closed()
                &&& wake == (old(self).waker_slot() is Some)
            }),
    {
        if self.closed {
            return false;
        }
        let ghost buf0 = self.buffer@;
        let ghost q0 = self.queue@;
        let ghost w0 = self.waker;
        let mut idx: usize = 0;
        while idx < data.len()
            invariant
                idx <= data.len(),
                self.buffer@ == feed_buffer(buf0, data@.take(idx as int)),
                self.queue@ == q0 + feed_items(buf0, data@.take(idx as int)),
                self.waker == w0,
                self.closed == false,
            decreases data.len() - idx,
        {
            let ghost pre = data@.take(idx as int);
            let ghost fb = self.buffer@;
            let b = data[idx];
            self.buffer.push(b);
            let outcome = parse_event(&self.buffer, idx + 1 < data.len());
            match outcome {
                ParseOutcome::NeedMore => {},
                ParseOutcome::Complete(ev) => {
                    self.queue.push(Ok(ev));
                    self.buffer.clear();
                },
                ParseOutcome::Fatal(k) => {
                    self.queue.push(Err(k));
                    self.buffer.clear();
                },
            }
            proof {
                assert(data@.take(idx as int + 1) =~= pre.push(b));
                lemma_feed_snoc(buf0, pre, b);
                assert((q0 + feed_items(buf0, pre)).push(outcome_item(outcome)) =~= q0 + (
                feed_items(buf0, pre).push(outcome_item(outcome))));
                assert(feed_items(buf0, pre) + crate::parse::step_items(fb, b) =~= (
                if outcome is NeedMore {
                    feed_items(buf0, pre)
                } else {
                    feed_items(buf0, pre).push(outcome_item(outcome))
                }));
            }
            idx = idx + 1;
        }
        proof {
            assert(data@.take(data.len() as int) =~= data@);
        }
        self.waker.is_some()
    }

    /// Host callback for a dimension change. The new counts are clamped into
    /// the 16-bit range (out-of-range values become zero) and appended at
    /// the tail of the queue as an ordinary resize event, bypassing the
    /// decoder. The result says whether a recorded consumer interest is due
    /// a signal; after teardown the notification has no effect at all.
    pub fn on_resize(&mut self, cols: u32, rows: u32) -> (wake: bool)
        ensures
            old(self).is_closed() ==> ({
                &&& final(self).events() == old(self).events()
                &&& final(self).waker_slot() == old(self).waker_slot()
                &&& final(self).pending_bytes() == old(self).pending_bytes()
                &&& final(self).is_closed()
                &&& wake == false
            }),
            !old(self).is_closed() ==> ({
                &&& final(self).events() == old(self).events().push(
                    Ok(
                        InternalEvent::Event(
                            Event::Resize(clamp_dim(cols as int), clamp_dim(rows as int)),
                        ),
                    ),
                )
                &&& final(self).pending_bytes() == old(self).pending_bytes()
                &&& final(self).waker_slot() == old(self).waker_slot()
                &&& !final(self).is_closed()
                &&& wake == (old(self).waker_slot() is Some)
            }),
    {
        if self.closed {
            return false;
        }
        let c = clamp_u16(cols);
        let r = clamp_u16(rows);
        self.queue.push(Ok(InternalEvent::Event(Event::Resize(c, r))));
        self.waker.is_some()
    }

    /// One poll by the consumer, offering its interest token `w`. The slot
    /// records `w`, replacing whatever token an earlier poll left there, so
    /// it always holds the freshest interest and never more than one token.
    /// Then the head of the queue is inspected: cursor-position reports are
    /// removed and discarded silently, the first public item is removed and
    /// returned, and `None` means nothing is ready yet and the recorded
    /// interest will be signalled by a later append. The stream never ends
    /// on its own: `None` never means completion.
    pub fn poll(&mut self, w: W) -> (r: Option<Result<Event, ParseErrorKind>>)
        ensures
            final(self).waker_slot() == Some(w),
            final(self).pending_bytes() == old(self).pending_bytes(),
            final(self).is_closed() == old(self).is_closed(),
            ({
                let rem = drop_cursor_prefix(old(self).events());
                if rem.len() == 0 {
                    r is None && final(self).events() == rem
                } else {
                    r == Some(public_item(rem[0])) && final(self).events() == rem.drop_first()
                }
            }),
    {
        self.waker = Some(w);
        loop
            invariant
                drop_cursor_prefix(self.queue@) == drop_cursor_prefix(old(self).queue@),
                self.waker == Some(w),
                self.buffer@ == old(self).buffer@,
                self.closed == old(self).closed,
            decreases self.queue.len(),
        {
            if self.queue.len() == 0 {
                return None;
            }
            let ghost qpre = self.queue@;
            let it = self.queue.remove(0);
            proof {
                assert(qpre.remove(0) =~= qpre.drop_first());
            }
            match it {
                Ok(InternalEvent::CursorPosition(_, _)) => {},
                Ok(InternalEvent::Event(ev)) => {
                    return Some(Ok(ev));
                },
                Err(k) => {
                    return Some(Err(k));
                },
            }
        }
    }

    /// The recorded consumer interest, read without removing it. The caller
    /// signals this token when a callback reports that a wake is due.
    pub fn current_waker(&self) -> (r: &Option<W>)
        ensures
            *r == self.waker_slot(),
    {
        &self.waker
    }

    /// Teardown: the queued items still unread are discarded, not drained,
    /// the pending bytes and any recorded interest are dropped, and every
    /// later host callback is inert.
    pub fn close(&mut self)
        ensures
            final(self).is_closed(),
            final(self).events() == Seq::<QueuedItem>::empty(),
            final(self).waker_slot() is None,
            final(self).pending_bytes() == Seq::<u8>::empty(),
    {
        self.closed = true;
        self.queue = Vec::new();
        self.waker = None;
        self.buffer = Vec::new();
    }
}

/// The single item a terminal decoder answer contributes to the queue.
pub open spec fn outcome_item(o: ParseOutcome) -> QueuedItem
    recommends
        !(o is NeedMore),
{
    match o {
        ParseOutcome::NeedMore => Err(ParseErrorKind::UnsupportedSequence),
        ParseOutcome::Complete(ev) => Ok(ev),
        ParseOutcome::Fatal(k) => Err(k),
    }
}

/// Law: a callback never reorders what earlier callbacks queued. Input and
/// resize callbacks both extend the queue only at the tail (`on_data` by
/// `feed_items`, `on_resize` by one resize event), so after any interleaving
/// of the two the queue holds their items in exactly the order the callbacks
/// fired: one append keeps every earlier item at its index and places its own
/// items behind them, and any interleaving is a chain of such appends.
pub proof fn lemma_appends_keep_arrival_order(q: Seq<QueuedItem>, more: Seq<QueuedItem>)
    ensures
        (q + more).len() == q.len() + more.len(),
        forall|i: int| 0 <= i < q.len() ==> (q + more)[i] == q[i],
        forall|i: int| 0 <= i < more.len() ==> (q + more)[q.len() + i] == more[i],
{
}

/// Everything a consumer can ever observe of a queue: its items with every
/// cursor-position report removed, order kept.
pub open spec fn public_items_of(q: Seq<QueuedItem>) -> Seq<QueuedItem>
    decreases q.len(),
{
    if q.len() == 0 {
        Seq::empty()
    } else if is_cursor_item(q[0]) {
        public_items_of(q.drop_first())
    } else {
        seq![q[0]] + public_items_of(q.drop_first())
    }
}

/// Law: the public stream surfaces exactly the non-cursor items, in order,
/// however many cursor-position reports the queue holds. A poll on queue `q`
/// returns the head of `public_items_of(q)` and leaves a queue whose
/// observable items are the remainder; it reports "not ready" exactly when
/// `public_items_of(q)` is empty.
pub proof fn lemma_polls_surface_public_items(q: Seq<QueuedItem>)
    ensures
        drop_cursor_prefix(q).len() == 0 <==> public_items_of(q).len() == 0,
        drop_cursor_prefix(q).len() > 0 ==> ({
            &&& drop_cursor_prefix(q)[0] == public_items_of(q)[0]
            &&& public_items_of(drop_cursor_prefix(q).drop_first()) == public_items_of(
                q,
            ).drop_first()
        }),
    decreases q.len(),
{
    if q.len() == 0 {
    } else if is_cursor_item(q[0]) {
        lemma_polls_surface_public_items(q.drop_first());
    } else {
        assert((seq![q[0]] + public_items_of(q.drop_first())).drop_first() =~= public_items_of(
            q.drop_first(),
        ));
    }
}

/// Law: a poll discards nothing but cursor-position reports, and the item it
/// inspects first is never one: `drop_cursor_prefix` removes exactly a
/// prefix of cursor-position items, and the head of what remains, if
/// anything remains, is a public item.
pub proof fn lemma_cursor_items_invisible(q: Seq<QueuedItem>)
    ensures
        drop_cursor_prefix(q).len() <= q.len(),
        drop_cursor_prefix(q) == q.skip(q.len() - drop_cursor_prefix(q).len()),
        forall|j: int|
            0 <= j < q.len() - drop_cursor_prefix(q).len() ==> is_cursor_item(#[trigger] q[j]),
        drop_cursor_prefix(q).len() > 0 ==> !is_cursor_item(drop_cursor_prefix(q)[0]),
    decreases q.len(),
{
    if q.len() == 0 {
        assert(q.skip(0) =~= q);
    } else if is_cursor_item(q[0]) {
        let t = q.drop_first();
        lemma_cursor_items_invisible(t);
        let k = t.len() - drop_cursor_prefix(t).len();
        assert(t.skip(k) =~= q.skip(k + 1));
        assert forall|j: int| 0 <= j < q.len() - drop_cursor_prefix(q).len() implies is_cursor_item(
            #[trigger] q[j],
        ) by {
            if j > 0 {
                assert(q[j] == t[j - 1]);
            }
        }
    } else {
        assert(q.skip(0) =~= q);
    }
}

} // verus!
