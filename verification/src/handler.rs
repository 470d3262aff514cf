//! The message handler: the single serialization point for side effects.
//!
//! The handler consumes events in channel order, deduplicates each against
//! the most recently acted-upon text, and decides the side effect the event
//! earns. Performing the effect (writing the output stream or the clipboard)
//! happens outside the library; the handler only decides.

use vstd::prelude::*;
use crate::message::Message;
use crate::message::MessageView;

verus! {

/// The side effect the handler decided on for one event.
#[derive(Clone, Debug, PartialEq, Eq)]
pub enum Action {
    /// Write the text to the output stream as one framed record and flush.
    WriteOutput { text: String },
    /// Write the text to the system clipboard.
    SetClipboard { text: String },
    /// Do nothing: the event was a duplicate, or the handler had stopped.
    Skip,
    /// Stop consuming events: the sentinel was seen.
    Stop,
}

/// Model of an `Action`, with each payload as a sequence of characters.
pub enum ActionView {
    WriteOutput { text: Seq<char> },
    SetClipboard { text: Seq<char> },
    Skip,
    Stop,
}

impl View for Action {
    type V = ActionView;

    open spec fn view(&self) -> ActionView {
        match self {
            Action::WriteOutput { text } => ActionView::WriteOutput { text: text@ },
            Action::SetClipboard { text } => ActionView::SetClipboard { text: text@ },
            Action::Skip => ActionView::Skip,
            Action::Stop => ActionView::Stop,
        }
    }
}

impl ActionView {
    /// True of the actions that touch a sink.
    pub open spec fn is_effect(self) -> bool {
        self is WriteOutput || self is SetClipboard
    }
}

/// Model of the handler state: the most recently acted-upon text, and whether
/// the sentinel has been seen.
pub struct HandlerView {
    pub last_text: Option<Seq<char>>,
    pub stopped: bool,
}

/// The handler's state, owned exclusively by the consumer of the channel.
pub struct Handler {
    last_text: Option<String>,
    stopped: bool,
}

impl View for Handler {
    type V = HandlerView;

    closed spec fn view(&self) -> HandlerView {
        HandlerView {
            last_text: match self.last_text {
                Option::Some(ref t) => Option::Some(t@),
                Option::None => Option::None,
            },
            stopped: self.stopped,
        }
    }
}

impl HandlerView {
    /// The state at startup: nothing seen, still consuming.
    pub open spec fn init() -> HandlerView {
        HandlerView { last_text: None, stopped: false }
    }

    /// One handler decision: what `message` does to the state and which side
    /// effect it earns. A duplicate text is skipped with no state update; a
    /// fresh text becomes the new last-seen text and is routed to the sink
    /// opposite its origin; the sentinel stops the handler for good.
    pub open spec fn step(self, message: MessageView) -> (HandlerView, ActionView) {
        if self.stopped {
            (self, ActionView::Skip)
        } else {
            match message {
                MessageView::Exit => (HandlerView { stopped: true, ..self }, ActionView::Stop),
                MessageView::ClipboardTextChanged { text } => {
                    if self.last_text == Some(text) {
                        (self, ActionView::Skip)
                    } else {
                        (
                            HandlerView { last_text: Some(text), ..self },
                            ActionView::WriteOutput { text },
                        )
                    }
                },
                MessageView::ReceivedText { text } => {
                    if self.last_text == Some(text) {
                        (self, ActionView::Skip)
                    } else {
                        (
                            HandlerView { last_text: Some(text), ..self },
                            ActionView::SetClipboard { text },
                        )
                    }
                },
            }
        }
    }

    /// Fold `step` over a whole event sequence, collecting one action per
    /// event.
    pub open spec fn run(self, messages: Seq<MessageView>) -> (HandlerView, Seq<ActionView>)
        decreases messages.len(),
    {
        if messages.len() == 0 {
            (self, Seq::empty())
        } else {
            let first = self.step(messages[0]);
            let rest = first.0.run(messages.drop_first());
            (rest.0, seq![first.1] + rest.1)
        }
    }
}

impl Handler {
    /// A fresh handler: nothing seen yet.
    pub fn new() -> (handler: Handler)
        ensures
            handler@ == HandlerView::init(),
    {
        Handler { last_text: None, stopped: false }
    }

    fn is_duplicate(&self, text: &String) -> (r: bool)
        ensures
            r == (self@.last_text == Some(text@)),
    {
        match &self.last_text {
            Some(last) => last.eq(text),
            None => false,
        }
    }

    /// Decide the side effect for one event and update the state accordingly.
    pub fn step(&mut self, message: Message) -> (action: Action)
        ensures
            final(self)@ == old(self)@.step(message@).0,
            action@ == old(self)@.step(message@).1,
    {
        if self.stopped {
            return Action::Skip;
        }
        match message {
            Message::Exit => {
                self.stopped = true;
                Action::Stop
            },
            Message::ClipboardTextChanged { text } => {
                if self.is_duplicate(&text) {
                    Action::Skip
                } else {
                    self.last_text = Some(text.clone());
                    Action::WriteOutput { text }
                }
            },
            Message::ReceivedText { text } => {
                if self.is_duplicate(&text) {
                    Action::Skip
                } else {
                    self.last_text = Some(text.clone());
                    Action::SetClipboard { text }
                }
            },
        }
    }
}

proof fn lemma_run_snoc(s: HandlerView, messages: Seq<MessageView>, message: MessageView)
    ensures
        s.run(messages.push(message)).0 == s.run(messages).0.step(message).0,
        s.run(messages.push(message)).1 == s.run(messages).1.push(
            s.run(messages).0.step(message).1,
        ),
    decreases messages.len(),
{
    if messages.len() == 0 {
        let s1 = s.step(message).0;
        assert(messages.push(message)[0] == message);
        assert(messages.push(message).drop_first() =~= messages);
        assert(s1.run(messages).1 =~= Seq::<ActionView>::empty());
        assert(s.run(messages).1 =~= Seq::<ActionView>::empty());
        assert(s.run(messages.push(message)).1 =~= s.run(messages).1.push(
            s.run(messages).0.step(message).1,
        ));
    } else {
        let s1 = s.step(messages[0]).0;
        assert(messages.push(message)[0] == messages[0]);
        assert(messages.push(message).drop_first() =~= messages.drop_first().push(message));
        lemma_run_snoc(s1, messages.drop_first(), message);
        assert(s.run(messages.push(message)).1 == seq![s.step(messages[0]).1] + s1.run(
            messages.drop_first().push(message),
        ).1);
        assert(s.run(messages).1 == seq![s.step(messages[0]).1] + s1.run(
            messages.drop_first(),
        ).1);
        assert(s.run(messages.push(message)).1 =~= s.run(messages).1.push(
            s.run(messages).0.step(message).1,
        ));
    }
}

proof fn lemma_run_concat(s: HandlerView, front: Seq<MessageView>, back: Seq<MessageView>)
    ensures
        s.run(front + back).0 == s.run(front).0.run(back).0,
        s.run(front + back).1 == s.run(front).1 + s.run(front).0.run(back).1,
    decreases front.len(),
{
    if front.len() == 0 {
        assert(front + back =~= back);
        assert(s.run(front + back).1 =~= s.run(front).1 + s.run(front).0.run(back).1);
    } else {
        assert((front + back).drop_first() =~= front.drop_first() + back);
        lemma_run_concat(s.step(front[0]).0, front.drop_first(), back);
        assert(s.run(front + back).1 =~= s.run(front).1 + s.run(front).0.run(back).1);
    }
}

proof fn lemma_run_len(s: HandlerView, messages: Seq<MessageView>)
    ensures
        s.run(messages).1.len() == messages.len(),
    decreases messages.len(),
{
    if messages.len() > 0 {
        lemma_run_len(s.step(messages[0]).0, messages.drop_first());
    }
}

/// An event carries `text` when it is one of the two text-bearing variants
/// with exactly that payload; the sentinel carries none.
pub open spec fn carries(message: MessageView, text: Seq<char>) -> bool {
    message.text() == Some(text)
}

proof fn lemma_duplicates_all_skip(s: HandlerView, messages: Seq<MessageView>, text: Seq<char>)
    requires
        s.last_text == Some(text),
        forall|i: int| 0 <= i < messages.len() ==> carries(#[trigger] messages[i], text),
    ensures
        s.run(messages).0 == s,
        s.run(messages).1.len() == messages.len(),
        forall|i: int| 0 <= i < messages.len() ==> s.run(messages).1[i] is Skip,
    decreases messages.len(),
{
    if messages.len() > 0 {
        assert(s.step(messages[0]).0 == s);
        lemma_duplicates_all_skip(s, messages.drop_first(), text);
    }
}

/// Idempotence of dedup: from any live state whose last-seen text differs
/// from `text`, a run of events all carrying `text` (from either source, with
/// no sentinel among them) produces its side effect exactly once, at the
/// first event; every later event produces none, and the last-seen text ends
/// as `text`.
pub proof fn lemma_dedup_idempotent(s: HandlerView, messages: Seq<MessageView>, text: Seq<char>)
    requires
        messages.len() >= 2,
        forall|i: int| 0 <= i < messages.len() ==> carries(#[trigger] messages[i], text),
        !s.stopped,
        s.last_text != Some(text),
    ensures
        s.run(messages).1.len() == messages.len(),
        s.run(messages).1[0].is_effect(),
        forall|i: int| 1 <= i < messages.len() ==> s.run(messages).1[i] is Skip,
        s.run(messages).0 == (HandlerView { last_text: Some(text), stopped: false }),
{
    let after = s.step(messages[0]).0;
    assert(after == (HandlerView { last_text: Some(text), stopped: false }));
    lemma_duplicates_all_skip(after, messages.drop_first(), text);
    lemma_run_len(s, messages);
}

/// Cross-source dedup: a received record followed by the same text observed
/// on the clipboard writes the clipboard once and the output stream not at
/// all.
pub proof fn lemma_cross_source_dedup(s: HandlerView, text: Seq<char>)
    requires
        !s.stopped,
        s.last_text != Some(text),
    ensures
        s.run(
            seq![
                MessageView::ReceivedText { text },
                MessageView::ClipboardTextChanged { text },
            ],
        ).1 == seq![ActionView::SetClipboard { text }, ActionView::Skip],
{
    let ms = seq![MessageView::ReceivedText { text }, MessageView::ClipboardTextChanged { text }];
    assert(ms.drop_first() =~= seq![MessageView::ClipboardTextChanged { text }]);
    assert(ms.drop_first().drop_first() =~= Seq::<MessageView>::empty());
    let s1 = s.step(ms[0]).0;
    assert(ms[0] == (MessageView::ReceivedText { text }));
    assert(s.step(ms[0]).1 == (ActionView::SetClipboard { text }));
    assert(s1.last_text == Some(text) && !s1.stopped);
    let s2 = s1.step(ms.drop_first()[0]).0;
    assert(ms.drop_first()[0] == (MessageView::ClipboardTextChanged { text }));
    assert(s1.step(ms.drop_first()[0]).1 == ActionView::Skip);
    assert(s2.run(Seq::<MessageView>::empty()).1 =~= Seq::<ActionView>::empty());
    assert(s1.run(ms.drop_first()).1 =~= seq![ActionView::Skip]);
    assert(s.run(ms).1 =~= seq![ActionView::SetClipboard { text }, ActionView::Skip]);
}

proof fn lemma_stopped_all_skip(s: HandlerView, messages: Seq<MessageView>)
    requires
        s.stopped,
    ensures
        s.run(messages).0 == s,
        s.run(messages).1.len() == messages.len(),
        forall|i: int| 0 <= i < messages.len() ==> s.run(messages).1[i] is Skip,
    decreases messages.len(),
{
    if messages.len() > 0 {
        lemma_stopped_all_skip(s, messages.drop_first());
    }
}

/// Shutdown propagation: once the sentinel is processed, every event already
/// queued behind it produces no side effect, whatever it carries.
pub proof fn lemma_shutdown_propagation(s: HandlerView, messages: Seq<MessageView>, k: int)
    requires
        0 <= k < messages.len(),
        messages[k] is Exit,
    ensures
        s.run(messages).1.len() == messages.len(),
        forall|i: int| k < i < messages.len() ==> s.run(messages).1[i] is Skip,
{
    lemma_run_len(s, messages);
    let front = messages.take(k + 1);
    let back = messages.skip(k + 1);
    assert(front + back =~= messages);
    lemma_run_concat(s, front, back);
    lemma_run_snoc(s, messages.take(k), messages[k]);
    assert(front =~= messages.take(k).push(messages[k]));
    let s1 = s.run(front).0;
    assert(s1.stopped);
    lemma_stopped_all_skip(s1, back);
    lemma_run_len(s, front);
    assert(forall|i: int|
        k < i < messages.len() ==> s.run(messages).1[i] == s1.run(back).1[i - (k + 1)]);
}

/// Decide the whole run for a queue of events, as the handler's loop does:
/// one action per event, in order, starting from a fresh handler.
pub fn handle_messages(messages: Vec<Message>) -> (actions: Vec<Action>)
    ensures
        actions@.map_values(|a: Action| a@) == HandlerView::init().run(
            messages@.map_values(|m: Message| m@),
        ).1,
{
    let ghost all = messages@.map_values(|m: Message| m@);
    let mut handler = Handler::new();
    let mut actions: Vec<Action> = Vec::new();
    let mut queue = messages;
    let ghost mut done: int = 0;
    proof {
        assert(all.skip(0) =~= all);
        assert(all.take(0) =~= Seq::<MessageView>::empty());
    }
    while queue.len() > 0
        invariant
            0 <= done <= all.len(),
            queue@.map_values(|m: Message| m@) == all.skip(done),
            handler@ == HandlerView::init().run(all.take(done)).0,
            actions@.map_values(|a: Action| a@) == HandlerView::init().run(all.take(done)).1,
        decreases queue.len(),
    {
        proof {
            assert(queue@.map_values(|m: Message| m@).len() == queue@.len());
            assert(queue@.map_values(|m: Message| m@)[0] == queue@[0]@);
            assert(all.skip(done)[0] == all[done]);
            lemma_run_snoc(HandlerView::init(), all.take(done), all[done]);
            assert(all.take(done + 1) =~= all.take(done).push(all[done]));
        }
        let ghost old_actions = actions@;
        let ghost old_queue = queue@;
        let ghost old_done = done;
        let message = queue.remove(0);
        let action = handler.step(message);
        actions.push(action);
        proof {
            done = done + 1;
            assert(queue@ =~= old_queue.skip(1));
            assert forall|i: int| 0 <= i < queue@.len() implies queue@.map_values(
                |m: Message| m@,
            )[i] == #[trigger] all.skip(done)[i] by {
                assert(queue@.map_values(|m: Message| m@)[i] == queue@[i]@);
                assert(queue@[i] == old_queue[i + 1]);
                assert(old_queue.map_values(|m: Message| m@)[i + 1] == old_queue[i + 1]@);
                assert(all.skip(old_done)[i + 1] == all[old_done + i + 1]);
                assert(all.skip(done)[i] == all[done + i]);
            }
            assert(queue@.map_values(|m: Message| m@) =~= all.skip(done));
            assert(actions@.map_values(|a: Action| a@) =~= old_actions.map_values(
                |a: Action| a@,
            ).push(action@));
        }
    }
    proof {
        assert(all.take(done) =~= all);
    }
    actions
}

} // verus!
