use transcript_share::codec::{decode_transcript, encode_transcript};
use transcript_share::message::Message;

fn msg(role: &str, content: &str) -> Message {
    Message { role: role.to_string(), content: content.to_string() }
}

#[test]
fn encode_empty_transcript() {
    let msgs: Vec<Message> = Vec::new();
    assert_eq!(encode_transcript(&msgs), "[]");
}

#[test]
fn encode_one_message_exact() {
    let msgs = vec![msg("user", "hi")];
    assert_eq!(encode_transcript(&msgs), "[{\"role\":\"user\",\"content\":\"hi\"}]");
}

#[test]
fn encode_two_messages_exact() {
    let msgs = vec![msg("user", "hi"), msg("assistant", "yo")];
    assert_eq!(
        encode_transcript(&msgs),
        "[{\"role\":\"user\",\"content\":\"hi\"},{\"role\":\"assistant\",\"content\":\"yo\"}]"
    );
}

#[test]
fn encode_escapes_specials() {
    let msgs = vec![msg("u", "a\"b\\c\nd\te\u{1}f\rg")];
    assert_eq!(
        encode_transcript(&msgs),
        "[{\"role\":\"u\",\"content\":\"a\\\"b\\\\c\\nd\\te\\u0001f\\rg\"}]"
    );
}

#[test]
fn decode_empty_array() {
    let r = decode_transcript("[]").expect("empty array decodes");
    assert_eq!(r.len(), 0);
}

#[test]
fn decode_one_message() {
    let r = decode_transcript("[{\"role\":\"user\",\"content\":\"hi\"}]").expect("decodes");
    assert_eq!(r.len(), 1);
    assert_eq!(r[0].role, "user");
    assert_eq!(r[0].content, "hi");
}

#[test]
fn decode_unescapes_specials() {
    let r = decode_transcript("[{\"role\":\"u\",\"content\":\"a\\\"b\\\\c\\nd\\te\\u0001f\\rg\"}]")
        .expect("decodes");
    assert_eq!(r[0].content, "a\"b\\c\nd\te\u{1}f\rg");
}

#[test]
fn decode_then_encode_round_trip() {
    let text = "[{\"role\":\"user\",\"content\":\"# title\"},{\"role\":\"assistant\",\"content\":\"*ok*\"}]";
    let msgs = decode_transcript(text).expect("decodes");
    assert_eq!(encode_transcript(&msgs), text);
}

#[test]
fn encode_then_decode_round_trip() {
    let msgs = vec![msg("user", "one \"two\"\nthree"), msg("assistant", "fin\u{7}al")];
    let decoded = decode_transcript(&encode_transcript(&msgs)).expect("decodes");
    assert_eq!(decoded.len(), 2);
    assert_eq!(decoded[0].role, "user");
    assert_eq!(decoded[0].content, "one \"two\"\nthree");
    assert_eq!(decoded[1].role, "assistant");
    assert_eq!(decoded[1].content, "fin\u{7}al");
}

#[test]
fn encode_canonicalizes_decoded_spelling() {
    let msgs = decode_transcript("[ {\"content\" : \"hi\\u0021\", \"role\" : \"user\"} ]")
        .expect("decodes");
    assert_eq!(encode_transcript(&msgs), "[{\"role\":\"user\",\"content\":\"hi!\"}]");
}

#[test]
fn decode_rejects_non_json() {
    assert!(decode_transcript("not json at all").is_none());
}

#[test]
fn decode_rejects_empty_text() {
    assert!(decode_transcript("").is_none());
}

#[test]
fn decode_rejects_lone_bracket() {
    assert!(decode_transcript("[").is_none());
}

#[test]
fn decode_rejects_missing_field() {
    assert!(decode_transcript("[{\"role\":\"user\"}]").is_none());
}

#[test]
fn decode_accepts_either_field_order() {
    let r = decode_transcript("[{\"content\":\"hi\",\"role\":\"user\"}]").expect("decodes");
    assert_eq!(r.len(), 1);
    assert_eq!(r[0].role, "user");
    assert_eq!(r[0].content, "hi");
}

#[test]
fn decode_accepts_whitespace() {
    let r = decode_transcript(
        " [ { \"role\" : \"user\" ,\n\t\"content\" : \"hi\" } , {\"content\":\"yo\",\"role\":\"assistant\"} ] \n",
    )
    .expect("decodes");
    assert_eq!(r.len(), 2);
    assert_eq!(r[0].role, "user");
    assert_eq!(r[0].content, "hi");
    assert_eq!(r[1].role, "assistant");
    assert_eq!(r[1].content, "yo");
    let empty = decode_transcript(" [ ] ").expect("decodes");
    assert_eq!(empty.len(), 0);
}

#[test]
fn decode_rejects_trailing_text() {
    assert!(decode_transcript("[{\"role\":\"user\",\"content\":\"hi\"}] x").is_none());
    assert!(decode_transcript("[]x").is_none());
    assert!(decode_transcript("[][]").is_none());
}

#[test]
fn decode_rejects_duplicate_member() {
    assert!(decode_transcript("[{\"role\":\"a\",\"role\":\"b\"}]").is_none());
    assert!(decode_transcript("[{\"content\":\"a\",\"content\":\"b\"}]").is_none());
}

#[test]
fn decode_rejects_trailing_comma() {
    assert!(decode_transcript("[{\"role\":\"user\",\"content\":\"hi\"},]").is_none());
}

#[test]
fn decode_rejects_unterminated_string() {
    assert!(decode_transcript("[{\"role\":\"user\",\"content\":\"hi").is_none());
}

#[test]
fn decode_rejects_raw_control_character() {
    assert!(decode_transcript("[{\"role\":\"u\",\"content\":\"a\nb\"}]").is_none());
}

#[test]
fn decode_accepts_unicode_escapes() {
    let r = decode_transcript("[{\"role\":\"u\",\"content\":\"\\u0041\\u000a\\u000D\\u00e9\"}]")
        .expect("decodes");
    assert_eq!(r[0].content, "A\n\r\u{e9}");
}

#[test]
fn decode_accepts_rare_escapes() {
    let r = decode_transcript("[{\"role\":\"u\",\"content\":\"a\\/b\\bc\\fd\"}]")
        .expect("decodes");
    assert_eq!(r[0].content, "a/b\u{8}c\u{c}d");
}

#[test]
fn decode_rejects_surrogate_escape() {
    assert!(decode_transcript("[{\"role\":\"u\",\"content\":\"\\ud800\"}]").is_none());
    // Surrogate pairs are not combined.
    assert!(decode_transcript("[{\"role\":\"u\",\"content\":\"\\uD83D\\uDE00\"}]").is_none());
}

#[test]
fn decode_rejects_unknown_escape() {
    assert!(decode_transcript("[{\"role\":\"u\",\"content\":\"a\\qb\"}]").is_none());
}
