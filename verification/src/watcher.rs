//! The clipboard watcher: change detection without reading unchanged content.
//!
//! Each poll cycle first queries a cheap change counter; only a changed value
//! allows a clipboard read, and only a read that finds text emits an event.
//! The sleeping and the platform clipboard call happen outside the library;
//! this module holds the decisions between them, and the time-based fallback
//! counter for platforms without a native change-notification primitive.

use vstd::prelude::*;
use crate::message::Message;
use crate::message::MessageView;

verus! {

#[verifier::external_type_specification]
#[verifier::external_body]
pub struct ExInstant(std::time::Instant);

/// Relies on `std::time::Instant::now`: a monotonic starting point. The
/// result depends on the clock, so nothing is stated of it.
#[verifier::external_body]
fn monotonic_now() -> std::time::Instant {
    std::time::Instant::now()
}

/// Relies on `Instant::elapsed` and `Duration::as_secs`: the whole seconds
/// since `start`. The result depends on the clock, so nothing is stated of
/// it.
#[verifier::external_body]
fn elapsed_secs(start: &std::time::Instant) -> u64 {
    start.elapsed().as_secs()
}

/// The fallback change detector: a counter derived from wall-clock time,
/// growing by one roughly every second since this instance was made, so that
/// the content is read at most about once per second.
pub struct ChangeCounter {
    start: std::time::Instant,
}

impl ChangeCounter {
    /// A counter starting at this moment.
    pub fn new() -> ChangeCounter {
        ChangeCounter { start: monotonic_now() }
    }
}

/// The current value of the change counter: whole seconds since the counter
/// was made. The platform supplies no change notification here, so a changed
/// value merely allows a clipboard read; it does not certify a change.
pub fn get_update_count(counter: &ChangeCounter) -> u64 {
    elapsed_secs(&counter.start)
}

/// The watcher's own state: the change counter's last observed value.
pub struct ClipboardWatcher {
    last_update_count: u64,
}

impl View for ClipboardWatcher {
    type V = u64;

    closed spec fn view(&self) -> u64 {
        self.last_update_count
    }
}

impl ClipboardWatcher {
    /// A watcher that has observed `initial` as the counter's value.
    pub fn new(initial: u64) -> (watcher: ClipboardWatcher)
        ensures
            watcher@ == initial,
    {
        ClipboardWatcher { last_update_count: initial }
    }

    /// One poll observation: record the counter's current value and say
    /// whether the clipboard content is to be read this cycle — exactly when
    /// the value differs from the last observed one. The counter is only a
    /// heuristic, so a decrease (a platform reset or wrap) counts as a change
    /// too.
    pub fn observe(&mut self, current: u64) -> (read: bool)
        ensures
            final(self)@ == current,
            read == (current != old(self)@),
    {
        let changed = current != self.last_update_count;
        self.last_update_count = current;
        changed
    }
}

/// The event a permitted clipboard read earns: text found becomes a
/// `ClipboardTextChanged` event; no text content (or a failed read) emits
/// nothing, leaving every later deduplication comparison as it was.
pub fn clipboard_event(text: Option<String>) -> (event: Option<Message>)
    ensures
        text is Some <==> event is Some,
        text matches Some(t) ==> event matches Some(m) && m@ == (MessageView::ClipboardTextChanged {
            text: t@,
        }),
{
    match text {
        Some(text) => Some(Message::ClipboardTextChanged { text }),
        None => None,
    }
}

} // verus!
