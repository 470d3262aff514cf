use pbcat::handler::handle_messages;
use pbcat::handler::Action;
use pbcat::handler::Handler;
use pbcat::message::Message;
use pbcat::watcher::clipboard_event;
use pbcat::watcher::get_update_count;
use pbcat::watcher::ChangeCounter;
use pbcat::watcher::ClipboardWatcher;

fn clip(text: &str) -> Message {
    Message::ClipboardTextChanged { text: text.to_string() }
}

fn recv(text: &str) -> Message {
    Message::ReceivedText { text: text.to_string() }
}

#[test]
fn message_text_reads_both_sources() {
    assert_eq!(clip("a").text(), Some("a"));
    assert_eq!(recv("b").text(), Some("b"));
    assert_eq!(Message::Exit.text(), None);
}

#[test]
fn message_into_text_consumes_both_sources() {
    assert_eq!(clip("a").into_text(), Some("a".to_string()));
    assert_eq!(recv("b").into_text(), Some("b".to_string()));
    assert_eq!(Message::Exit.into_text(), None);
}

#[test]
fn repeated_text_acts_once() {
    let actions = handle_messages(vec![clip("x"), clip("x"), clip("x")]);
    assert_eq!(
        actions,
        vec![Action::WriteOutput { text: "x".to_string() }, Action::Skip, Action::Skip]
    );
}

#[test]
fn cross_source_duplicate_is_skipped() {
    let actions = handle_messages(vec![recv("a"), clip("a")]);
    assert_eq!(
        actions,
        vec![Action::SetClipboard { text: "a".to_string() }, Action::Skip]
    );
}

#[test]
fn fresh_text_acts_again_even_after_being_seen_earlier() {
    let actions = handle_messages(vec![recv("a"), recv("b"), recv("a")]);
    assert_eq!(
        actions,
        vec![
            Action::SetClipboard { text: "a".to_string() },
            Action::SetClipboard { text: "b".to_string() },
            Action::SetClipboard { text: "a".to_string() },
        ]
    );
}

#[test]
fn exit_stops_all_later_side_effects() {
    let actions = handle_messages(vec![clip("x"), Message::Exit, recv("y"), clip("z")]);
    assert_eq!(
        actions,
        vec![
            Action::WriteOutput { text: "x".to_string() },
            Action::Stop,
            Action::Skip,
            Action::Skip,
        ]
    );
}

#[test]
fn handler_routes_each_origin_to_the_opposite_sink() {
    let mut handler = Handler::new();
    assert_eq!(
        handler.step(clip("out")),
        Action::WriteOutput { text: "out".to_string() }
    );
    assert_eq!(
        handler.step(recv("in")),
        Action::SetClipboard { text: "in".to_string() }
    );
    assert_eq!(handler.step(Message::Exit), Action::Stop);
}

#[test]
fn unchanged_counter_skips_the_read() {
    let mut watcher = ClipboardWatcher::new(7);
    assert!(!watcher.observe(7));
}

#[test]
fn changed_counter_allows_the_read() {
    let mut watcher = ClipboardWatcher::new(7);
    assert!(watcher.observe(8));
    assert!(!watcher.observe(8));
}

#[test]
fn decreased_counter_counts_as_changed() {
    let mut watcher = ClipboardWatcher::new(7);
    assert!(watcher.observe(3));
}

#[test]
fn no_text_read_emits_nothing_and_keeps_dedup_state() {
    let mut handler = Handler::new();
    handler.step(clip("same"));

    let mut watcher = ClipboardWatcher::new(0);
    assert!(watcher.observe(1));
    assert_eq!(clipboard_event(None), None);

    // Nothing was emitted, so the last-seen text is unchanged and the next
    // duplicate is still recognized as one.
    assert_eq!(handler.step(clip("same")), Action::Skip);
}

#[test]
fn text_read_becomes_a_clipboard_changed_event() {
    assert_eq!(
        clipboard_event(Some("t".to_string())),
        Some(Message::ClipboardTextChanged { text: "t".to_string() })
    );
}

#[test]
fn update_count_never_decreases_for_one_counter() {
    let counter = ChangeCounter::new();
    let first = get_update_count(&counter);
    let second = get_update_count(&counter);
    assert!(second >= first);
}
