use gmail::batch::{
    assemble_outcomes, batch_boundary, batch_content_type, batch_request_body, boundary_of, decode_batch_response,
    is_quota_error, settle_bodiless, ErrorEntry, MultiResult, PartReply, Reply,
    Settled,
};
use gmail::embedded::{parse_embedded, BatchError};
use gmail::multipart::{multipart_parse, MultipartError};

fn ids(v: &[&str]) -> Vec<String> {
    v.iter().map(|s| s.to_string()).collect()
}

fn part(cid: &str, inner: &str) -> String {
    format!(
        "--batch_abc\r\nContent-Type: application/http\r\nContent-ID: {}\r\n\r\n{}\r\n",
        cid, inner
    )
}

fn reply_body(parts: &[String]) -> Vec<u8> {
    let mut s = String::new();
    for p in parts {
        s.push_str(p);
    }
    s.push_str("--batch_abc--\r\n");
    s.into_bytes()
}

const CT: &str = "multipart/mixed; boundary=batch_abc";

fn settle_all(rs: Vec<PartReply>) -> Vec<Settled<serde_json::Value>> {
    let mut out = Vec::new();
    for r in rs {
        if let Some(s) = settle_bodiless(&r) {
            out.push(s);
            continue;
        }
        match r.reply {
            Reply::Success(b) => {
                let v: serde_json::Value = serde_json::from_slice(&b).unwrap();
                let id = v.get("id").and_then(|x| x.as_str()).unwrap().to_string();
                out.push(Settled::Present { payload: v, id, index: r.index });
            }
            Reply::Forbidden(b) => {
                let v: serde_json::Value = serde_json::from_slice(&b).unwrap();
                let mut errors = Vec::new();
                for e in v["error"]["errors"].as_array().unwrap() {
                    errors.push(ErrorEntry {
                        domain: e["domain"].as_str().unwrap().to_string(),
                        reason: e["reason"].as_str().unwrap().to_string(),
                    });
                }
                out.push(Settled::Forbidden { index: r.index, errors });
            }
            _ => unreachable!(),
        }
    }
    out
}

#[test]
fn present_missing_and_rate_limited_in_one_batch() {
    let ids = ids(&["m1", "m2", "m3"]);
    let body = reply_body(&[
        part(
            "response-req-0",
            "HTTP/1.1 200 OK\r\nContent-Type: application/json; charset=UTF-8\r\n\r\n{\"id\":\"m1\"}",
        ),
        part(
            "response-req-1",
            "HTTP/1.1 404 Not Found\r\nContent-Type: application/json\r\n\r\n{}",
        ),
        part(
            "response-req-2",
            "HTTP/1.1 429 Too Many Requests\r\nContent-Type: application/json\r\n\r\n{}",
        ),
    ]);
    let rs = decode_batch_response(&ids, Some(CT), &body).unwrap();
    assert_eq!(rs.len(), 3);
    let out = assemble_outcomes(&ids, settle_all(rs)).unwrap();
    assert_eq!(out.len(), 3);
    match &out[0] {
        MultiResult::Present(v) => assert_eq!(v["id"], "m1"),
        o => panic!("unexpected {:?}", o),
    }
    assert!(matches!(&out[1], MultiResult::Missing(s) if s == "m2"));
    assert!(matches!(&out[2], MultiResult::RateLimit(s) if s == "m3"));
}

#[test]
fn boundary_mismatch_is_framing_error() {
    let ids = ids(&["m1"]);
    let body = reply_body(&[part("response-req-0", "HTTP/1.1 404 Not Found\r\n\r\nx")]);
    let r = decode_batch_response(&ids, Some("multipart/mixed; boundary=other"), &body);
    assert_eq!(r.unwrap_err(), BatchError::Framing(MultipartError::MissingOpening));
}

#[test]
fn content_length_mismatch_is_refused() {
    let ids = ids(&["m1"]);
    let json = "{\"id\":\"m1\",\"snippet\":\"abcdefghijklmnopqrstuvwx\"}";
    assert_eq!(json.len(), 48);
    let inner = format!(
        "HTTP/1.1 200 OK\r\nContent-Type: application/json\r\nContent-Length: 50\r\n\r\n{}",
        json
    );
    let body = reply_body(&[part("response-req-0", &inner)]);
    let r = decode_batch_response(&ids, Some(CT), &body);
    assert_eq!(
        r.unwrap_err(),
        BatchError::LengthMismatch { part: 0, declared: 50, actual: 48 }
    );
}

#[test]
fn content_length_that_matches_is_accepted() {
    let ids = ids(&["m1"]);
    let inner = "HTTP/1.1 200 OK\r\nContent-Type: application/json\r\nContent-Length: 11\r\n\r\n{\"id\":\"m1\"}";
    let body = reply_body(&[part("response-req-0", inner)]);
    let rs = decode_batch_response(&ids, Some(CT), &body).unwrap();
    assert_eq!(rs[0].index, 0);
    assert!(matches!(&rs[0].reply, Reply::Success(b) if b == b"{\"id\":\"m1\"}"));
}

#[test]
fn outcomes_come_back_in_request_order() {
    let ids = ids(&["a", "b", "c"]);
    let body = reply_body(&[
        part("response-req-2", "HTTP/1.1 429 Too Many Requests\r\n\r\nx"),
        part(
            "response-req-1",
            "HTTP/1.1 200 OK\r\nContent-Type: application/json\r\n\r\n{\"id\":\"b\"}",
        ),
        part("response-req-0", "HTTP/1.1 404 Not Found\r\n\r\nx"),
    ]);
    let rs = decode_batch_response(&ids, Some(CT), &body).unwrap();
    let out = assemble_outcomes(&ids, settle_all(rs)).unwrap();
    assert!(matches!(&out[0], MultiResult::Missing(s) if s == "a"));
    match &out[1] {
        MultiResult::Present(v) => assert_eq!(v["id"], "b"),
        o => panic!("unexpected {:?}", o),
    }
    assert!(matches!(&out[2], MultiResult::RateLimit(s) if s == "c"));
}

#[test]
fn round_trip_of_request_body() {
    let ids = ids(&["a1", "b2", "c3", "d4"]);
    let body = batch_request_body(batch_boundary(), &ids, "minimal");
    let mp = multipart_parse(&body, batch_boundary().as_bytes()).unwrap();
    assert_eq!(mp.parts.len(), 4);
    for (n, p) in mp.parts.iter().enumerate() {
        assert_eq!(p.header(b"content-id").unwrap(), &format!("req-{}", n).into_bytes());
        assert_eq!(p.header(b"content-type").unwrap(), &b"application/http".to_vec());
        let line = format!("GET /gmail/v1/users/me/messages/{}?format=minimal\r\n\r\n", ids[n]);
        assert_eq!(p.body, line.into_bytes());
    }
}

#[test]
fn request_body_exact_text() {
    let body = batch_request_body("B", &ids(&["x"]), "raw");
    let text = String::from_utf8(body).unwrap();
    assert_eq!(
        text,
        "--B\r\nContent-Type: application/http\r\nContent-ID: req-0\r\n\r\n\
         GET /gmail/v1/users/me/messages/x?format=raw\r\n\r\n\r\n--B--\r\n"
    );
}

#[test]
fn request_content_type_names_the_boundary() {
    assert_eq!(
        batch_content_type(batch_boundary()),
        "multipart/mixed; boundary=23121338-972e-11ea-a0c6-c3892af82e36"
    );
}

#[test]
fn empty_request_body_is_only_the_closing_line() {
    let body = batch_request_body("B", &[], "raw");
    assert_eq!(body, b"--B--\r\n".to_vec());
}

#[test]
fn forbidden_with_quota_reason_is_rate_limited() {
    let ids = ids(&["m1"]);
    let inner = "HTTP/1.1 403 Forbidden\r\nContent-Type: application/json\r\n\r\n\
        {\"error\":{\"errors\":[{\"domain\":\"usageLimits\",\"reason\":\"rateLimitExceeded\",\"message\":\"x\"}],\"code\":403,\"message\":\"x\"}}";
    let body = reply_body(&[part("response-req-0", inner)]);
    let rs = decode_batch_response(&ids, Some(CT), &body).unwrap();
    let out = assemble_outcomes(&ids, settle_all(rs)).unwrap();
    assert!(matches!(&out[0], MultiResult::RateLimit(s) if s == "m1"));
}

#[test]
fn forbidden_without_quota_reason_is_an_error() {
    let ids = ids(&["m1"]);
    let settled: Vec<Settled<()>> = vec![Settled::Forbidden {
        index: 0,
        errors: vec![ErrorEntry { domain: "global".to_string(), reason: "forbidden".to_string() }],
    }];
    assert_eq!(assemble_outcomes(&ids, settled).unwrap_err(), BatchError::Forbidden { id: 0 });
}

#[test]
fn quota_reasons() {
    let e = |d: &str, r: &str| ErrorEntry { domain: d.to_string(), reason: r.to_string() };
    assert!(is_quota_error(&[e("usageLimits", "userRateLimitExceeded")]));
    assert!(is_quota_error(&[e("global", "x"), e("usageLimits", "rateLimitExceeded")]));
    assert!(!is_quota_error(&[e("usageLimits", "dailyLimitExceeded")]));
    assert!(!is_quota_error(&[e("global", "rateLimitExceeded")]));
    assert!(!is_quota_error(&[]));
}

#[test]
fn other_status_is_an_error() {
    let ids = ids(&["m1", "m2"]);
    let body = reply_body(&[
        part("response-req-0", "HTTP/1.1 404 Not Found\r\n\r\nx"),
        part("response-req-1", "HTTP/1.1 500 Internal Server Error\r\n\r\nx"),
    ]);
    let r = decode_batch_response(&ids, Some(CT), &body);
    assert_eq!(r.unwrap_err(), BatchError::UnexpectedStatus { id: 1, status: 500 });
}

#[test]
fn success_must_be_json() {
    let ids = ids(&["m1"]);
    let body = reply_body(&[part("response-req-0", "HTTP/1.1 200 OK\r\nContent-Type: text/plain\r\n\r\nhi")]);
    assert_eq!(decode_batch_response(&ids, Some(CT), &body).unwrap_err(), BatchError::NotJson { id: 0 });
    let body = reply_body(&[part("response-req-0", "HTTP/1.1 200 OK\r\n\r\nhi")]);
    assert_eq!(decode_batch_response(&ids, Some(CT), &body).unwrap_err(), BatchError::NotJson { id: 0 });
}

#[test]
fn content_id_must_be_in_range_and_well_formed() {
    let ids = ids(&["m1"]);
    for cid in ["response-req-1", "req-0", "response-req-x", "response-req-"] {
        let body = reply_body(&[part(cid, "HTTP/1.1 404 Not Found\r\n\r\nx")]);
        assert_eq!(
            decode_batch_response(&ids, Some(CT), &body).unwrap_err(),
            BatchError::BadContentId { part: 0 },
            "{}",
            cid
        );
    }
}

#[test]
fn part_must_be_http() {
    let ids = ids(&["m1"]);
    let body = b"--batch_abc\r\nContent-Type: text/plain\r\nContent-ID: response-req-0\r\n\r\nx\r\n--batch_abc--\r\n";
    assert_eq!(
        decode_batch_response(&ids, Some(CT), body).unwrap_err(),
        BatchError::PartNotHttp { part: 0 }
    );
}

#[test]
fn reply_content_type_errors() {
    let ids = ids(&["m1"]);
    assert_eq!(decode_batch_response(&ids, None, b"x").unwrap_err(), BatchError::MissingContentType);
    assert_eq!(
        decode_batch_response(&ids, Some("not a type"), b"x").unwrap_err(),
        BatchError::BadContentType
    );
    assert_eq!(
        decode_batch_response(&ids, Some("multipart/mixed"), b"x").unwrap_err(),
        BatchError::MissingBoundary
    );
    assert_eq!(boundary_of(Some(CT)).unwrap(), "batch_abc");
}

#[test]
fn media_types_are_read_by_mime_without_regard_to_case() {
    assert_eq!(boundary_of(Some("Multipart/Mixed; Boundary=abc")).unwrap(), "abc");
    assert_eq!(boundary_of(Some("nonsense")).unwrap_err(), BatchError::BadContentType);
    let ids = ids(&["m1"]);
    let body = reply_body(&[part(
        "response-req-0",
        "HTTP/1.1 200 OK\r\nContent-Type: Application/JSON; charset=utf-8\r\n\r\n{}",
    )]);
    let rs = decode_batch_response(&ids, Some(CT), &body).unwrap();
    assert!(matches!(&rs[0].reply, Reply::Success(b) if b == b"{}"));
}

#[test]
fn embedded_errors() {
    assert_eq!(parse_embedded(b"HTTP/1.1 200 OK\r\nA: b\r\n", 3).unwrap_err(), BatchError::EmbeddedIncomplete { part: 3 });
    assert_eq!(parse_embedded(b"XTTP/1.1 200 OK\r\n\r\n", 2).unwrap_err(), BatchError::EmbeddedMalformed { part: 2 });
    assert_eq!(
        parse_embedded(b"HTTP/1.1 200 OK\r\nContent-Length: x\r\n\r\nab", 1).unwrap_err(),
        BatchError::BadContentLength { part: 1 }
    );
    let e = parse_embedded(b"HTTP/1.1 404 Not Found\r\ncontent-TYPE: a/b\r\n\r\nbody", 0).unwrap();
    assert_eq!(e.status, 404);
    assert_eq!(e.content_type, Some(b"a/b".to_vec()));
    assert_eq!(e.body, b"body".to_vec());
}

#[test]
fn count_mismatch_and_coverage() {
    let two = ids(&["m1", "m2"]);
    let one: Vec<Settled<()>> = vec![Settled::Missing { index: 0 }];
    assert_eq!(
        assemble_outcomes(&two, one).unwrap_err(),
        BatchError::CountMismatch { expected: 2, got: 1 }
    );
    let dup: Vec<Settled<()>> = vec![Settled::Missing { index: 0 }, Settled::RateLimited { index: 0 }];
    assert_eq!(assemble_outcomes(&two, dup).unwrap_err(), BatchError::NotCovered { id: 0 });
    let stray: Vec<Settled<()>> = vec![
        Settled::Present { payload: (), id: "zz".to_string(), index: 0 },
        Settled::Missing { index: 1 },
    ];
    assert_eq!(assemble_outcomes(&two, stray).unwrap_err(), BatchError::WrongId { id: 0 });
    let twice: Vec<Settled<()>> = vec![Settled::Missing { index: 1 }, Settled::Missing { index: 1 }];
    assert_eq!(assemble_outcomes(&two, twice).unwrap_err(), BatchError::NotCovered { id: 0 });
    let out_of_range: Vec<Settled<()>> = vec![Settled::Missing { index: 5 }, Settled::Missing { index: 1 }];
    assert_eq!(assemble_outcomes(&two, out_of_range).unwrap_err(), BatchError::BadContentId { part: 0 });
    let reordered: Vec<Settled<()>> = vec![Settled::Missing { index: 1 }, Settled::RateLimited { index: 0 }];
    let out = assemble_outcomes(&two, reordered).unwrap();
    assert!(matches!(&out[0], MultiResult::RateLimit(s) if s == "m1"));
    assert!(matches!(&out[1], MultiResult::Missing(s) if s == "m2"));
}
