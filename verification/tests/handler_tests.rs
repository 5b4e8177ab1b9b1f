use transcript_share::handlers::{
    data_reply, fetch_as_data, fetch_as_page, page_reply, store_payload, store_transcript,
    usable_id, Lookup, Reply,
};
use transcript_share::store::KvStore;

#[test]
fn round_trip_store_then_fetch() {
    let mut kv = KvStore::new();
    let id = String::from("k");
    let body =
        "[{\"role\":\"user\",\"content\":\"hello *world*\"},{\"role\":\"assistant\",\"content\":\"# hi\"}]";
    assert!(matches!(store_transcript(&mut kv, Some(&id), body), Reply::Stored));
    match fetch_as_data(&kv, Some(&id)) {
        Reply::Data(json) => assert_eq!(json, body),
        other => panic!("unexpected reply: {:?}", other),
    }
}

#[test]
fn fetch_unwritten_is_not_found() {
    let kv = KvStore::new();
    let id = String::from("never-written");
    assert!(matches!(fetch_as_data(&kv, Some(&id)), Reply::NotFound));
    assert!(matches!(fetch_as_page(&kv, Some(&id)), Reply::NotFound));
}

#[test]
fn missing_identifier_is_bad_request() {
    let mut kv = KvStore::new();
    assert!(matches!(fetch_as_data(&kv, None), Reply::BadRequest));
    assert!(matches!(fetch_as_page(&kv, None), Reply::BadRequest));
    assert!(matches!(store_transcript(&mut kv, None, "[]"), Reply::BadRequest));
}

#[test]
fn empty_identifier_is_bad_request() {
    let mut kv = KvStore::new();
    let id = String::new();
    assert!(matches!(fetch_as_data(&kv, Some(&id)), Reply::BadRequest));
    assert!(matches!(fetch_as_page(&kv, Some(&id)), Reply::BadRequest));
    assert!(matches!(store_transcript(&mut kv, Some(&id), "[]"), Reply::BadRequest));
    assert!(!usable_id(Some(&id)));
    assert!(!usable_id(None));
    assert!(usable_id(Some(&String::from("x"))));
}

#[test]
fn malformed_body_is_rejected_and_leaves_store_unchanged() {
    let mut kv = KvStore::new();
    let id = String::from("x");
    let good = "[{\"role\":\"user\",\"content\":\"A\"}]";
    assert!(matches!(store_transcript(&mut kv, Some(&id), good), Reply::Stored));
    assert!(matches!(store_transcript(&mut kv, Some(&id), "not a transcript"), Reply::BadRequest));
    assert!(matches!(
        store_transcript(&mut kv, Some(&id), "{\"role\":\"user\",\"content\":\"A\"}"),
        Reply::BadRequest
    ));
    match fetch_as_data(&kv, Some(&id)) {
        Reply::Data(json) => assert_eq!(json, good),
        other => panic!("unexpected reply: {:?}", other),
    }
}

#[test]
fn page_is_identical_across_repeated_fetches() {
    let mut kv = KvStore::new();
    let id = String::from("p");
    let body = "[{\"role\":\"user\",\"content\":\"## a *b*\"},{\"role\":\"assistant\",\"content\":\"- one\"}]";
    assert!(matches!(store_transcript(&mut kv, Some(&id), body), Reply::Stored));
    let first = match fetch_as_page(&kv, Some(&id)) {
        Reply::Page(html) => html,
        other => panic!("unexpected reply: {:?}", other),
    };
    let second = match fetch_as_page(&kv, Some(&id)) {
        Reply::Page(html) => html,
        other => panic!("unexpected reply: {:?}", other),
    };
    assert_eq!(first, second);
}

#[test]
fn markdown_heading_is_rendered_not_literal() {
    let mut kv = KvStore::new();
    let id = String::from("abc");
    let body = "[{\"role\":\"user\",\"content\":\"## Hi *there*\"}]";
    assert!(matches!(store_transcript(&mut kv, Some(&id), body), Reply::Stored));
    match fetch_as_page(&kv, Some(&id)) {
        Reply::Page(html) => {
            assert!(html.contains("<h2"), "no h2 heading in: {}", html);
            assert!(html.contains("<em>there</em>"), "no emphasis in: {}", html);
            assert!(!html.contains("## Hi"), "literal markup left in: {}", html);
        },
        other => panic!("unexpected reply: {:?}", other),
    }
}

#[test]
fn overwrite_serves_the_last_write() {
    let mut kv = KvStore::new();
    let id = String::from("x");
    let first = "[{\"role\":\"user\",\"content\":\"A\"}]";
    let second = "[{\"role\":\"user\",\"content\":\"B\"}]";
    assert!(matches!(store_transcript(&mut kv, Some(&id), first), Reply::Stored));
    assert!(matches!(store_transcript(&mut kv, Some(&id), second), Reply::Stored));
    match fetch_as_data(&kv, Some(&id)) {
        Reply::Data(json) => assert_eq!(json, second),
        other => panic!("unexpected reply: {:?}", other),
    }
}

#[test]
fn store_accepts_any_json_spelling_and_serves_canonical() {
    let mut kv = KvStore::new();
    let id = String::from("w");
    let spaced = " [ { \"content\" : \"A\" , \"role\" : \"user\" } ] ";
    assert!(matches!(store_transcript(&mut kv, Some(&id), spaced), Reply::Stored));
    match fetch_as_data(&kv, Some(&id)) {
        Reply::Data(json) => assert_eq!(json, "[{\"role\":\"user\",\"content\":\"A\"}]"),
        other => panic!("unexpected reply: {:?}", other),
    }
}

#[test]
fn corrupt_stored_value_is_a_server_error() {
    let mut kv = KvStore::new();
    let id = String::from("x");
    kv.put(&id, String::from("no longer a transcript"));
    assert!(matches!(fetch_as_data(&kv, Some(&id)), Reply::ServerError));
    assert!(matches!(fetch_as_page(&kv, Some(&id)), Reply::ServerError));
}

#[test]
fn adapter_failure_is_a_server_error() {
    assert!(matches!(data_reply(Lookup::Failed), Reply::ServerError));
    assert!(matches!(page_reply(Lookup::Failed), Reply::ServerError));
    assert!(matches!(data_reply(Lookup::Absent), Reply::NotFound));
    assert!(matches!(page_reply(Lookup::Absent), Reply::NotFound));
}

#[test]
fn store_payload_is_canonical_or_nothing() {
    let body = "[{\"role\":\"user\",\"content\":\"A\"}]";
    assert_eq!(store_payload(body).expect("parses"), body);
    assert!(store_payload("[nonsense]").is_none());
    assert!(store_payload("").is_none());
}

#[test]
fn page_joins_fragments_in_order() {
    let mut kv = KvStore::new();
    let id = String::from("two");
    let body = "[{\"role\":\"user\",\"content\":\"first\"},{\"role\":\"assistant\",\"content\":\"second\"}]";
    assert!(matches!(store_transcript(&mut kv, Some(&id), body), Reply::Stored));
    match fetch_as_page(&kv, Some(&id)) {
        Reply::Page(html) => {
            let a = html.find("first").expect("first fragment present");
            let b = html.find("second").expect("second fragment present");
            assert!(a < b, "fragments out of order in: {}", html);
        },
        other => panic!("unexpected reply: {:?}", other),
    }
}
