use cardigan::contact::{ETag, Href, Side, Uid};
use cardigan::state::{
    check_update_version, rediscovered, BackoffPolicy, CardFailure, CardFailureRow, ContactState, ContactStateRow, EndpointState,
    FailedCard, FailureOp, FailureReason, Span, Timestamp,
};
use cardigan::vcard::VCardError;
use cardigan::{AddressBookError, Error, RepositoryError};

fn policy() -> BackoffPolicy {
    BackoffPolicy { base: Span::seconds(60), cap: Span::seconds(600) }
}

#[test]
fn backoff_doubles_from_base_and_caps() {
    let policy = policy();
    let delays: Vec<i64> = (1..=6).map(|n| policy.delay(n).num_seconds()).collect();
    assert_eq!(delays, [60, 120, 240, 480, 600, 600]);
    assert_eq!(policy.delay(u32::MAX), Span::seconds(600));
}

#[test]
fn failure_op_and_reason_round_trip_through_str() {
    for op in [FailureOp::Read, FailureOp::Create, FailureOp::Update, FailureOp::Delete] {
        assert_eq!(op.as_str().parse::<FailureOp>(), Ok(op));
    }
    for reason in [
        FailureReason::InvalidCard,
        FailureReason::MissingUid,
        FailureReason::UnsupportedVersion,
        FailureReason::PreconditionFailed,
        FailureReason::RateLimited,
        FailureReason::Transient,
        FailureReason::Unauthorized,
        FailureReason::Rejected,
        FailureReason::Internal,
    ] {
        assert_eq!(reason.as_str().parse::<FailureReason>(), Ok(reason));
    }
    assert!("oops".parse::<FailureReason>().is_err());
    assert!("merge".parse::<FailureOp>().is_err());
}

#[test]
fn failure_reason_categorizes_errors() {
    let cases = [
        (Error::VCard(VCardError::MissingUid), FailureReason::MissingUid),
        (Error::VCard(VCardError::UnsupportedVersion { version: "4.0".into() }), FailureReason::UnsupportedVersion),
        (Error::VCard(VCardError::MissingEnd), FailureReason::InvalidCard),
        (AddressBookError::PreconditionFailed { href: Href::from("/a.vcf") }.into(), FailureReason::PreconditionFailed),
        (AddressBookError::RateLimited { retry_after: None }.into(), FailureReason::RateLimited),
        (AddressBookError::Transient("503".into()).into(), FailureReason::Transient),
        (AddressBookError::Unauthorized.into(), FailureReason::Unauthorized),
        (AddressBookError::Permanent("400 Bad Request: EMAIL:jane@example.com".into()).into(), FailureReason::Rejected),
        (Error::Infrastructure("boom".into()), FailureReason::Internal),
    ];
    for (error, expected) in cases {
        assert_eq!(FailureReason::from(&error), expected, "{error:?}");
    }
}

fn at(secs: i64) -> Timestamp {
    Timestamp::from_unix_seconds(1_790_000_000 + secs)
}

#[test]
fn is_due_when_backoff_elapsed_or_etag_changed() {
    let failed_at = Timestamp::from_unix_seconds(0);
    let failure = CardFailure {
        id: 1,
        version: 1,
        side: Side::ICloud,
        href: Href::from("/a.vcf"),
        uid: None,
        op: FailureOp::Read,
        etag: Some(ETag::from("\"e1\"")),
        reason: FailureReason::MissingUid,
        attempts: 1,
        first_failed_at: failed_at,
        last_failed_at: failed_at,
        next_retry_at: failed_at.plus(Span::seconds(60)),
    };
    let same = ETag::from("\"e1\"");
    let edited = ETag::from("\"e2\"");

    assert!(!failure.is_due(failed_at.plus(Span::seconds(59)), Some(&same)));
    assert!(failure.is_due(failed_at.plus(Span::seconds(60)), Some(&same)));
    assert!(failure.is_due(failed_at.plus(Span::seconds(1)), Some(&edited)), "an edit retries at once");
    assert!(failure.is_due(failed_at.plus(Span::seconds(1)), None), "a card now without an ETag counts as changed");
}

fn failed(side: Side, href: &str, etag: &str) -> FailedCard {
    FailedCard {
        side,
        href: Href::from(href),
        uid: Some(Uid::from("u1")),
        op: FailureOp::Update,
        etag: Some(ETag::from(etag)),
        reason: FailureReason::Rejected,
    }
}

#[test]
fn failure_without_uid_is_one_row_that_backs_off() {
    let unparsable = FailedCard {
        side: Side::Fastmail,
        href: Href::from("/fastmail/broken.vcf"),
        uid: None,
        op: FailureOp::Read,
        etag: Some(ETag::from("\"e1\"")),
        reason: FailureReason::MissingUid,
    };
    let first = CardFailure::record(None, unparsable.clone(), at(0), &policy());
    assert_eq!((first.attempts, first.uid.clone(), first.reason, first.op), (1, None, FailureReason::MissingUid, FailureOp::Read));
    assert_eq!(first.next_retry_at, at(60));
    let second = CardFailure::record(Some(first.clone()), unparsable, at(60), &policy());
    assert_eq!(second.id, first.id);
    assert_eq!(second.attempts, 2);
    assert_eq!(second.next_retry_at, at(180));
}

#[test]
fn repeat_failures_back_off_up_to_the_cap() {
    let mut last: Option<CardFailure> = None;
    for (n, secs) in [0, 60, 180, 420, 900, 1500].into_iter().enumerate() {
        let row = CardFailure::record(last.clone(), failed(Side::ICloud, "/a.vcf", "\"e1\""), at(secs), &policy());
        assert_eq!(row.attempts, u32::try_from(n + 1).unwrap());
        last = Some(row);
    }
    let last = last.unwrap();
    assert_eq!(last.first_failed_at, at(0));
    assert_eq!(last.last_failed_at, at(1500));
    assert_eq!(last.next_retry_at, at(1500 + 600), "capped at 600 s");
}

#[test]
fn changed_etag_restarts_attempts() {
    let first = CardFailure::record(None, failed(Side::ICloud, "/a.vcf", "\"e1\""), at(0), &policy());
    let second = CardFailure::record(Some(first), failed(Side::ICloud, "/a.vcf", "\"e1\""), at(60), &policy());
    let edited = CardFailure::record(Some(second), failed(Side::ICloud, "/a.vcf", "\"e2\""), at(90), &policy());
    assert_eq!(edited.attempts, 1);
    assert_eq!(edited.first_failed_at, at(90));
    assert_eq!(edited.etag, Some(ETag::from("\"e2\"")));
    assert_eq!(edited.next_retry_at, at(150));
}

#[test]
fn attempts_saturate() {
    let mut row = CardFailure::record(None, failed(Side::ICloud, "/a.vcf", "\"e1\""), at(0), &policy());
    row.attempts = u32::MAX;
    let next = CardFailure::record(Some(row), failed(Side::ICloud, "/a.vcf", "\"e1\""), at(10), &policy());
    assert_eq!(next.attempts, u32::MAX);
    assert_eq!(next.next_retry_at, at(610));
}

#[test]
fn parse_errors_name_the_text() {
    assert_eq!(FailureOp::parse("merge"), Err("unknown failure op `merge`".to_owned()));
    assert_eq!(FailureReason::parse("oops"), Err("unknown failure reason `oops`".to_owned()));
    assert_eq!(FailureReason::parse("Rejected"), Err("unknown failure reason `Rejected`".to_owned()));
}

#[test]
fn spans_compare_and_round_toward_zero() {
    assert!(Span::seconds(59).lt(&Span::seconds(60)));
    assert_eq!(Span::seconds(-3).num_seconds(), -3);
    assert_eq!(Span::seconds(5).min(Span::seconds(4)), Span::seconds(4));
    assert_eq!(Span::seconds(7).checked_double(), Some(Span::seconds(14)));
    let mut d = Span::seconds(cardigan::state::MAX_SPAN_SECS);
    let mut doublings = 0;
    while let Some(next) = d.checked_double() {
        d = next;
        doublings += 1;
    }
    assert_eq!(doublings, 9);
    assert_eq!(at(5).unix_seconds(), 1_790_000_005);
    assert!(at(5).at_or_after(&at(5)));
    assert!(!at(4).at_or_after(&at(5)));
}

#[test]
fn a_base_above_the_cap_gives_the_cap() {
    let policy = BackoffPolicy { base: Span::seconds(900), cap: Span::seconds(600) };
    assert_eq!(policy.delay(1), Span::seconds(600));
    assert_eq!(policy.delay(0), Span::seconds(600));
    assert_eq!(policy.delay(3), Span::seconds(600));
}

fn stored(id: i64, side: &str, op: &str, reason: &str, attempts: i64) -> CardFailureRow {
    CardFailureRow {
        id,
        version: 2,
        side: side.to_string(),
        href: "/a.vcf".to_string(),
        uid: Some("u1".to_string()),
        op: op.to_string(),
        etag: None,
        reason: reason.to_string(),
        attempts,
        first_failed_at: at(0),
        last_failed_at: at(60),
        next_retry_at: at(120),
    }
}

fn corrupt_message(r: Result<CardFailure, Error>) -> String {
    match r {
        Err(Error::RepositoryError(RepositoryError::Database(m))) => m,
        other => panic!("expected a corrupt row, got {other:?}"),
    }
}

#[test]
fn stored_failure_reads_back() {
    let f = CardFailure::from_row(stored(7, "icloud", "update", "rate_limited", 3)).expect("valid row");
    assert_eq!(f.id, 7);
    assert_eq!(f.version, 2);
    assert_eq!(f.side, Side::ICloud);
    assert_eq!(f.href.as_str(), "/a.vcf");
    assert_eq!(f.uid.as_ref().map(|u| u.as_str().to_string()), Some("u1".to_string()));
    assert_eq!(f.op, FailureOp::Update);
    assert_eq!(f.reason, FailureReason::RateLimited);
    assert_eq!(f.attempts, 3);
    assert_eq!(f.next_retry_at.unix_seconds(), 1_790_000_120);
}

#[test]
fn stored_failure_names_the_first_bad_column() {
    assert_eq!(corrupt_message(CardFailure::from_row(stored(7, "gmail", "nope", "x", -1))), "card_failures row 7: invalid side");
    assert_eq!(corrupt_message(CardFailure::from_row(stored(7, "fastmail", "nope", "x", -1))), "card_failures row 7: invalid op");
    assert_eq!(corrupt_message(CardFailure::from_row(stored(7, "fastmail", "read", "x", -1))), "card_failures row 7: invalid reason");
    assert_eq!(corrupt_message(CardFailure::from_row(stored(-3, "fastmail", "read", "internal", -1))), "card_failures row -3: invalid attempts");
    assert_eq!(
        corrupt_message(CardFailure::from_row(stored(9, "fastmail", "read", "internal", 4_294_967_296))),
        "card_failures row 9: invalid attempts"
    );
    assert!(CardFailure::from_row(stored(9, "fastmail", "read", "internal", 4_294_967_295)).is_ok());
}

fn endpoint(url: &str, token: Option<&str>) -> EndpointState {
    EndpointState {
        side: Side::Fastmail,
        addressbook_url: url.to_string(),
        discovered_host: "old.example.com".to_string(),
        sync_token: token.map(|t| t.to_string()),
    }
}

#[test]
fn rediscovery_keeps_the_token_only_at_the_same_url() {
    let fresh = rediscovered(None, Side::ICloud, "https://a/".to_string(), "a".to_string());
    assert_eq!(fresh.side, Side::ICloud);
    assert_eq!(fresh.addressbook_url, "https://a/");
    assert_eq!(fresh.discovered_host, "a");
    assert_eq!(fresh.sync_token, None);
    let same = rediscovered(Some(endpoint("https://a/", Some("t1"))), Side::Fastmail, "https://a/".to_string(), "b".to_string());
    assert_eq!(same.sync_token.as_deref(), Some("t1"));
    assert_eq!(same.discovered_host, "b");
    let moved = rediscovered(Some(endpoint("https://a/", Some("t1"))), Side::Fastmail, "https://c/".to_string(), "b".to_string());
    assert_eq!(moved.sync_token, None);
    assert_eq!(moved.addressbook_url, "https://c/");
}

#[test]
fn update_needs_a_stored_contact_at_the_same_version() {
    assert!(matches!(check_update_version(None, 3), Err(Error::RepositoryError(RepositoryError::NotFound))));
    assert!(matches!(check_update_version(Some(2), 3), Err(Error::RepositoryError(RepositoryError::Conflict))));
    assert!(check_update_version(Some(3), 3).is_ok());
}

const STORED_CARD: &str = "BEGIN:VCARD\r\nVERSION:3.0\r\nUID:u1\r\nFN:Jane\r\nEND:VCARD\r\n";
const HEX: &str = "00112233445566778899aabbccddeeff00112233445566778899aabbccddeeff";

fn contact_row(id: i64, hash: &str, hash_version: i64, card: &str) -> ContactStateRow {
    ContactStateRow {
        id,
        version: 4,
        uid: "u1".to_string(),
        icloud_href: "/i.vcf".to_string(),
        icloud_etag: "\"i\"".to_string(),
        icloud_last_seen_at: at(1),
        fastmail_href: "/f.vcf".to_string(),
        fastmail_etag: "\"f\"".to_string(),
        fastmail_last_seen_at: at(2),
        content_hash: hash.to_string(),
        hash_version,
        photo_stripped: true,
        last_synced_vcard: card.as_bytes().to_vec(),
        last_synced_at: at(3),
        created_at: at(4),
        updated_at: at(5),
    }
}

fn contact_error(r: Result<ContactState, Error>) -> String {
    match r {
        Err(Error::RepositoryError(RepositoryError::Database(m))) => m,
        Err(e) => panic!("expected a corrupt row, got {}", e.to_string()),
        Ok(_) => panic!("expected a corrupt row"),
    }
}

#[test]
fn stored_contact_reads_back() {
    let c = ContactState::from_row(contact_row(5, HEX, 1, STORED_CARD)).unwrap_or_else(|e| panic!("{}", e.to_string()));
    assert_eq!(c.id, 5);
    assert_eq!(c.version, 4);
    assert_eq!(c.uid.as_str(), "u1");
    assert_eq!(c.icloud.href.as_str(), "/i.vcf");
    assert_eq!(c.fastmail.etag.as_str(), "\"f\"");
    assert_eq!(c.content_hash.as_hex(), HEX);
    assert_eq!(c.hash_version, 1);
    assert!(c.photo_stripped);
    assert_eq!(c.last_synced_vcard.uid().as_str(), "u1");
    assert_eq!(c.updated_at.unix_seconds(), 1_790_000_005);
}

#[test]
fn stored_contact_names_the_first_bad_column() {
    assert_eq!(contact_error(ContactState::from_row(contact_row(5, "zz", 300, "x"))), "contacts row 5: invalid content_hash");
    assert_eq!(contact_error(ContactState::from_row(contact_row(5, HEX, 256, "x"))), "contacts row 5: invalid hash_version");
    assert_eq!(contact_error(ContactState::from_row(contact_row(-1, HEX, 0, "x"))), "contacts row -1: invalid last_synced_vcard");
}
