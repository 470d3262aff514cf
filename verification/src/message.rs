//! The event type passed from the two watchers to the message handler.

use vstd::prelude::*;

verus! {

/// An event on the relay's single channel: text seen on the clipboard, text
/// read from the input stream, or the end-of-input sentinel.
#[derive(Clone, Debug, PartialEq, Eq)]
pub enum Message {
    ClipboardTextChanged { text: String },
    ReceivedText { text: String },
    Exit,
}

/// The mathematical model of a `Message`: each payload as a sequence of
/// characters.
pub enum MessageView {
    ClipboardTextChanged { text: Seq<char> },
    ReceivedText { text: Seq<char> },
    Exit,
}

impl View for Message {
    type V = MessageView;

    open spec fn view(&self) -> MessageView {
        match self {
            Message::ClipboardTextChanged { text } => MessageView::ClipboardTextChanged {
                text: text@,
            },
            Message::ReceivedText { text } => MessageView::ReceivedText { text: text@ },
            Message::Exit => MessageView::Exit,
        }
    }
}

impl MessageView {
    /// The text carried by the event: `None` exactly for `Exit`.
    pub open spec fn text(self) -> Option<Seq<char>> {
        match self {
            MessageView::ClipboardTextChanged { text } => Some(text),
            MessageView::ReceivedText { text } => Some(text),
            MessageView::Exit => None,
        }
    }
}

impl Message {
    /// The text carried by the event, if any; `Exit` carries none.
    pub fn text(&self) -> (r: Option<&str>)
        ensures
            match r {
                Some(s) => self@.text() == Some(s@),
                None => self@.text() is None,
            },
    {
        match self {
            Message::ClipboardTextChanged { text } => Some(text.as_str()),
            Message::ReceivedText { text } => Some(text.as_str()),
            Message::Exit => None,
        }
    }

    /// The text carried by the event, if any, consuming the event.
    pub fn into_text(self) -> (r: Option<String>)
        ensures
            match r {
                Some(s) => self@.text() == Some(s@),
                None => self@.text() is None,
            },
    {
        match self {
            Message::ClipboardTextChanged { text } => Some(text),
            Message::ReceivedText { text } => Some(text),
            Message::Exit => None,
        }
    }
}

} // verus!
