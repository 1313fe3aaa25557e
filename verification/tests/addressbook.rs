use cardigan::addressbook::{FetchedCard, MultigetResult, SyncToken};
use cardigan::contact::{ETag, Href};

#[test]
fn fetched_card_debug_omits_body() {
    let card = FetchedCard {
        href: Href::from("/a.vcf"),
        etag: ETag::from("\"1\""),
        body: b"BEGIN:VCARD\r\nVERSION:3.0\r\nEMAIL:jane@example.com\r\nEND:VCARD\r\n".to_vec(),
    };
    let debug = card.debug_string();
    assert!(debug.contains("/a.vcf"), "{debug}");
    assert!(!debug.contains("jane@example.com"), "card content leaked into Debug: {debug}");
    assert_eq!(debug, "FetchedCard { href: Href(\"/a.vcf\"), etag: ETag(\"\\\"1\\\"\"), bytes: 61 }");
}

#[test]
fn sync_token_round_trips() {
    let token = SyncToken::from("https://example.test/sync/42");
    assert_eq!(token.as_str(), "https://example.test/sync/42");
    assert_eq!(token.clone().into_string(), token.to_string());
}

#[test]
fn multiget_result_starts_empty() {
    let result = MultigetResult::default();
    assert!(result.found.is_empty() && result.missing.is_empty());
}
