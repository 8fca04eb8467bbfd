use gmail::cursor::Step;
use gmail::history::{HistoryConfig, RHistory, RHistoryRecord};
use gmail::messages::{MessagesConfig, RMessage, RMessages};

fn msg(id: &str) -> RMessage {
    RMessage::new(id.to_string(), format!("t-{}", id))
}

fn page(ids: &[&str], next: Option<&str>) -> RMessages {
    RMessages {
        messages: ids.iter().map(|i| msg(i)).collect(),
        next_page_token: next.map(|s| s.to_string()),
        result_size_estimate: ids.len() as u64,
    }
}

fn record(id: u64) -> RHistoryRecord {
    RHistoryRecord {
        id,
        messages: vec![],
        messages_added: None,
        messages_deleted: None,
        labels_removed: None,
        labels_added: None,
    }
}

fn item_id(s: Step<RMessage>) -> String {
    match s {
        Step::Item(m) => m.id().to_string(),
        _ => panic!("expected an item"),
    }
}

#[test]
fn single_page_listing_ends_with_marker() {
    let mut h = HistoryConfig::new(7).start();
    assert!(matches!(h.next(), Step::Fetch(None)));
    assert!(matches!(h.next(), Step::Wait));
    h.fetch_succeeded(RHistory { history: vec![record(1), record(2)], next_page_token: None, history_id: 99 });
    assert!(h.is_finished());
    assert!(matches!(h.next(), Step::Item(r) if r.id == 1));
    assert!(matches!(h.next(), Step::Item(r) if r.id == 2));
    assert!(matches!(h.next(), Step::End));
    assert_eq!(h.final_id(), 99);
}

#[test]
fn end_is_final() {
    let mut m = MessagesConfig::new().start();
    assert!(matches!(m.next(), Step::Fetch(None)));
    m.fetch_succeeded(page(&["a"], None));
    assert_eq!(item_id(m.next()), "a");
    for _ in 0..5 {
        assert!(matches!(m.next(), Step::End));
        assert!(!m.is_fetching());
    }
}

#[test]
fn resume_token_is_token_of_current_page() {
    let mut m = MessagesConfig::new().resume_from_token("t0").start();
    assert_eq!(m.resume_token(), None);
    assert!(matches!(m.next(), Step::Fetch(Some(t)) if t == "t0"));
    m.fetch_succeeded(page(&["a", "b"], Some("t1")));
    assert_eq!(item_id(m.next()), "a");
    assert_eq!(item_id(m.next()), "b");
    assert_eq!(m.resume_token(), Some("t0".to_string()));
    assert!(matches!(m.next(), Step::Fetch(Some(t)) if t == "t1"));
    m.fetch_succeeded(page(&["c"], None));
    assert_eq!(m.resume_token(), Some("t1".to_string()));
    assert_eq!(item_id(m.next()), "c");
    assert!(matches!(m.next(), Step::End));
}

#[test]
fn failed_fetch_is_retried_from_same_token() {
    let mut m = MessagesConfig::new().resume_from_token("t5").start();
    assert!(matches!(m.next(), Step::Fetch(Some(t)) if t == "t5"));
    m.fetch_failed();
    assert!(matches!(m.next(), Step::Fetch(Some(t)) if t == "t5"));
    m.fetch_succeeded(page(&[], Some("t6")));
    assert!(matches!(m.next(), Step::Fetch(Some(t)) if t == "t6"));
}

#[test]
fn message_query_parameters() {
    let c = MessagesConfig::new()
        .query("from:x")
        .include_spam_trash(true)
        .label_add("L1")
        .label_add("L2")
        .label_add("L1")
        .batch_size(250);
    let q = c.page_query(Some("tok"));
    let want: Vec<(String, String)> = [
        ("q", "from:x"),
        ("includeSpamTrash", "true"),
        ("labelIds", "L1"),
        ("labelIds", "L2"),
        ("pageToken", "tok"),
        ("maxResults", "250"),
    ]
    .iter()
    .map(|(a, b)| (a.to_string(), b.to_string()))
    .collect();
    assert_eq!(q, want);
    let c = c.labels_clear().include_spam_trash(false);
    assert_eq!(
        c.page_query(None),
        vec![("q".to_string(), "from:x".to_string()), ("maxResults".to_string(), "250".to_string())]
    );
}

#[test]
fn history_query_parameters() {
    let c = HistoryConfig::new(1234)
        .label("INBOX")
        .history_type_add("messageAdded")
        .history_type_add("messageAdded")
        .history_type_add("labelAdded")
        .batch_size(10);
    let q = c.page_query(None);
    let want: Vec<(String, String)> = [
        ("startHistoryId", "1234"),
        ("labelId", "INBOX"),
        ("historyTypes", "messageAdded"),
        ("historyTypes", "labelAdded"),
        ("maxResults", "10"),
    ]
    .iter()
    .map(|(a, b)| (a.to_string(), b.to_string()))
    .collect();
    assert_eq!(q, want);
    let c = c.history_types_clear();
    assert_eq!(c.page_query(Some("p")).len(), 4);
}
