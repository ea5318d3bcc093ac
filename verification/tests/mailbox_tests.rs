use workshop::mailbox::handle_line;
use workshop::mailbox::parse_request;
use workshop::mailbox::Mailbox;
use workshop::mailbox::Request;

#[test]
fn fifo_order_over_publishes_and_retrieves() {
    let mut store = Mailbox::new();
    store.publish("one".to_string());
    store.publish("two".to_string());
    store.publish("three".to_string());
    assert_eq!(store.retrieve(), Some("one".to_string()));
    assert_eq!(store.retrieve(), Some("two".to_string()));
    assert_eq!(store.retrieve(), Some("three".to_string()));
    assert_eq!(store.retrieve(), None);
}

#[test]
fn retrieve_on_empty_store_yields_nothing_and_stores_nothing() {
    let mut store = Mailbox::new();
    assert_eq!(store.retrieve(), None);
    assert_eq!(store.len(), 0);
    assert_eq!(store.retrieve(), None);
    assert_eq!(store.len(), 0);
}

#[test]
fn published_text_is_stored_trimmed() {
    let mut store = Mailbox::new();
    let reply = handle_line(&mut store, "  hello  ".to_string());
    assert_eq!(reply, None);
    assert_eq!(store.retrieve(), Some("hello".to_string()));
}

#[test]
fn empty_and_whitespace_lines_classify_as_retrieve() {
    assert_eq!(parse_request("".to_string()), Request::Retrieve);
    assert_eq!(parse_request("   ".to_string()), Request::Retrieve);
    assert_eq!(parse_request("\n".to_string()), Request::Retrieve);
    assert_eq!(
        parse_request("hello\n".to_string()),
        Request::Publish("hello".to_string())
    );
}

#[test]
fn each_published_message_retrieved_exactly_once() {
    let published = vec!["a", "b", "c", "d", "e"];
    let mut store = Mailbox::new();
    for m in &published {
        store.publish(m.to_string());
    }
    let mut got = Vec::new();
    while let Some(m) = store.retrieve() {
        got.push(m);
    }
    assert_eq!(got.len(), published.len());
    for m in &published {
        assert_eq!(got.iter().filter(|g| g.as_str() == *m).count(), 1);
    }
}

#[test]
fn publish_then_retrieve_round_trip() {
    let mut store = Mailbox::new();
    let first = handle_line(&mut store, "hello world\n".to_string());
    assert_eq!(first, None);
    let second = handle_line(&mut store, "\n".to_string());
    assert_eq!(second, Some("hello world".to_string()));
}

#[test]
fn retrieve_on_fresh_store_answers_the_notice() {
    let mut store = Mailbox::new();
    let reply = handle_line(&mut store, "\n".to_string());
    assert_eq!(reply, Some("no message available".to_string()));
}

#[test]
fn two_publishes_then_two_retrieves_keep_order() {
    let mut store = Mailbox::new();
    assert_eq!(handle_line(&mut store, "first\n".to_string()), None);
    assert_eq!(handle_line(&mut store, "second\n".to_string()), None);
    assert_eq!(
        handle_line(&mut store, "\n".to_string()),
        Some("first".to_string())
    );
    assert_eq!(
        handle_line(&mut store, "\n".to_string()),
        Some("second".to_string())
    );
}
