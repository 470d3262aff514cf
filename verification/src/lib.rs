//! A verified core for a clipboard/stdio bridge.
//!
//! The library holds the logic of a relay that mirrors a system clipboard to a
//! NUL-delimited byte stream and back: the framing codec for the stream, the
//! deduplicating message handler, and the poll decisions of the clipboard
//! watcher. The surrounding process (threads, channel plumbing, the actual
//! clipboard and stdio calls) lives outside the library and only feeds plain
//! values in and carries the decided actions out.

pub mod codec;
pub mod handler;
pub mod message;
pub mod watcher;
