use std::collections::HashSet;

use gmail::gauth::{auth_params, auth_scope, expiry_after, refresh_params, AuthError, TokenState};
use gmail::gmail::{Label, LabelsHelper, Message, MessageHeader, MessagePayload, MessageRaw, RawError};
use gmail::util::{bbu, bu};

#[test]
fn addresses() {
    assert_eq!(bu("users/me/profile"), "https://www.googleapis.com/gmail/v1/users/me/profile");
    assert_eq!(bbu(), "https://www.googleapis.com/batch/gmail/v1");
}

#[test]
fn expiry_is_two_thirds_of_lifetime() {
    assert_eq!(expiry_after(1000, 3600), Some(3400));
    assert_eq!(expiry_after(0, 5), Some(3));
    assert_eq!(expiry_after(u64::MAX, 3), None);
    assert_eq!(expiry_after(u64::MAX - 2, 3), Some(u64::MAX));
}

#[test]
fn refresh_is_due_without_token_or_after_expiry() {
    let mut t = TokenState::new();
    assert!(t.needs_refresh(0));
    t.apply_refresh("tok".to_string(), 3600, 1000).unwrap();
    assert_eq!(t.access_token(), "tok");
    assert!(!t.needs_refresh(3400));
    assert!(t.needs_refresh(3401));
    assert_eq!(t.apply_refresh("x".to_string(), 3, u64::MAX), Err(AuthError::InvalidExpiry));
    assert_eq!(t.access_token(), "tok");
    t.apply_exchange("r".to_string(), "a".to_string(), 30, 10).unwrap();
    assert_eq!(t.refresh_token(), "r");
    assert!(!t.needs_refresh(30));
    t.set_refresh_token("r2");
    assert_eq!(t.refresh_token(), "r2");
}

#[test]
fn oauth_parameters() {
    assert_eq!(auth_scope(true), "profile https://www.googleapis.com/auth/gmail.readonly");
    assert_eq!(auth_scope(false), "profile https://www.googleapis.com/auth/gmail.modify");
    let p = auth_params("cid", "urn:x", false);
    assert_eq!(p[2], ("response_type".to_string(), "code".to_string()));
    assert_eq!(p[3].1, "profile https://www.googleapis.com/auth/gmail.modify");
    let r = refresh_params("a", "b", "c");
    assert_eq!(r[3], ("grant_type".to_string(), "refresh_token".to_string()));
}

#[test]
fn label_names_sorted_and_lookup() {
    let labels = vec![
        Label::new("L2".to_string(), "work".to_string(), "user".to_string()),
        Label::new("L1".to_string(), "INBOX".to_string(), "system".to_string()),
        Label::new("L3".to_string(), "archive".to_string(), "user".to_string()),
    ];
    assert_eq!(labels.names(), vec!["INBOX", "archive", "work"]);
    assert_eq!(labels.id_of("work"), Some("L2"));
    assert_eq!(labels.id_of("none"), None);
    assert_eq!(labels[1].type_(), "system");
}

#[test]
fn message_headers_ignore_case() {
    let h = |n: &str, v: &str| MessageHeader { name: n.to_string(), value: v.to_string() };
    let m = Message {
        id: "m".to_string(),
        thread_id: "t".to_string(),
        history_id: "1".to_string(),
        internal_date: "0".to_string(),
        label_ids: HashSet::new(),
        payload: MessagePayload {
            headers: vec![h("Subject", "hello"), h("Received", "a"), h("RECEIVED", "b")],
            mime_type: "text/plain".to_string(),
        },
        size_estimate: 1,
        snippet: String::new(),
    };
    assert_eq!(m.headers("received"), vec!["a", "b"]);
    assert_eq!(m.subject(), "hello");
    assert_eq!(m.mailer(), "");
}

#[test]
fn raw_message_is_url_safe_base64() {
    let m = MessageRaw::new("m".to_string(), "t".to_string(), HashSet::new(), 1, 2, "aGVsbG8_".to_string());
    assert_eq!(m.raw().unwrap(), vec![104, 101, 108, 108, 111, 63]);
    let bad = MessageRaw::new("m".to_string(), "t".to_string(), HashSet::new(), 1, 2, "!!".to_string());
    assert_eq!(bad.raw(), Err(RawError::NotBase64));
}
