
use cardigan::contact::Href;
use cardigan::{AddressBookError, Error, ErrorKind, RepositoryError, Wait};

#[test]
fn address_book_error_kinds() {
    assert_eq!(AddressBookError::PreconditionFailed { href: Href::from("/a.vcf") }.kind(), ErrorKind::Conflict);
    assert_eq!(AddressBookError::RateLimited { retry_after: None }.kind(), ErrorKind::ServiceUnavailable);
    assert_eq!(AddressBookError::Transient("timeout".into()).kind(), ErrorKind::ServiceUnavailable);
    assert_eq!(AddressBookError::Unauthorized.kind(), ErrorKind::Internal);
    assert_eq!(AddressBookError::Permanent("malformed multistatus".into()).kind(), ErrorKind::Internal);
    assert_eq!(Error::from(AddressBookError::Unauthorized).kind(), ErrorKind::Internal);
}

#[test]
fn rate_limited_and_transient_address_book_errors_are_transient() {
    assert!(Error::from(AddressBookError::RateLimited { retry_after: Some(Wait::from_secs(30)) }).is_transient());
    assert!(Error::from(AddressBookError::Transient("503".into())).is_transient());
    assert!(!Error::from(AddressBookError::PreconditionFailed { href: Href::from("/a.vcf") }).is_transient());
    assert!(!Error::from(AddressBookError::Unauthorized).is_transient());
    assert!(!Error::from(AddressBookError::Permanent("400".into())).is_transient());
}

#[test]
fn is_transient_connection_error() {
    let e = Error::RepositoryError(RepositoryError::Connection("timeout".into()));
    assert!(e.is_transient());
}

#[test]
fn is_transient_database_busy() {
    let e = Error::RepositoryError(RepositoryError::Busy("database is locked".into()));
    assert!(e.is_transient(), "SQLite busy/locked must be transient so the worker retries");
}

#[test]
fn database_busy_kind_is_service_unavailable() {
    assert_eq!(RepositoryError::Busy("x".into()).kind(), ErrorKind::ServiceUnavailable);
}

#[test]
fn is_transient_returns_false_for_other_errors() {
    assert!(!Error::Infrastructure("bad".into()).is_transient());
    assert!(!Error::RepositoryError(RepositoryError::NotFound).is_transient());
    assert!(!Error::RepositoryError(RepositoryError::Constraint("dup".into())).is_transient());
    assert!(!Error::RepositoryError(RepositoryError::Database("boom".into())).is_transient());
}

#[test]
fn connection_error_kind_is_service_unavailable() {
    let e = RepositoryError::Connection("x".into());
    assert_eq!(e.kind(), ErrorKind::ServiceUnavailable);
}

#[test]
fn every_transient_error_is_service_unavailable() {
    let errors = [
        Error::RepositoryError(RepositoryError::Connection("x".into())),
        Error::RepositoryError(RepositoryError::Busy("x".into())),
        Error::from(AddressBookError::RateLimited { retry_after: None }),
        Error::from(AddressBookError::Transient("x".into())),
        Error::InvalidId(3),
        Error::Validation("x".into()),
        Error::RepositoryError(RepositoryError::ReadOnly),
    ];
    for e in errors {
        if e.is_transient() {
            assert_eq!(e.kind(), ErrorKind::ServiceUnavailable);
        }
    }
    assert_eq!(Error::InvalidId(3).kind(), ErrorKind::BadRequest);
    assert_eq!(Error::RepositoryError(RepositoryError::Conflict).kind(), ErrorKind::Conflict);
}

#[test]
fn error_messages_match_their_display_forms() {
    assert_eq!(Error::InvalidId(42).to_string(), "Invalid ID: 42");
    assert_eq!(Error::InvalidPageSize(0).to_string(), "Invalid page size: 0");
    assert_eq!(Error::Validation("bad".to_owned()).to_string(), "Validation error: bad");
    assert_eq!(Error::InvalidTransactionType.to_string(), "Invalid transaction type");
    assert_eq!(Error::InvalidToken("t".to_owned()).to_string(), "Invalid token: t");
    assert_eq!(Error::Infrastructure("x".to_owned()).to_string(), "Infrastructure error: x");
    assert_eq!(Error::Unimplemented("status").to_string(), "Not implemented: status");
    assert_eq!(Error::RepositoryError(RepositoryError::NotFound).to_string(), "Not found");
    assert_eq!(RepositoryError::Constraint("c".to_owned()).to_string(), "Constraint Error - c");
    assert_eq!(RepositoryError::Conflict.to_string(), "Conflict Error");
    assert_eq!(RepositoryError::ReadOnly.to_string(), "Read-only Transaction");
    assert_eq!(RepositoryError::Database("d".to_owned()).to_string(), "Database error: d");
    assert_eq!(RepositoryError::QueryCanceled.to_string(), "Query canceled");
    assert_eq!(RepositoryError::Connection("c".to_owned()).to_string(), "Connection Error: c");
    assert_eq!(RepositoryError::Busy("b".to_owned()).to_string(), "Database busy: b");
    assert_eq!(
        AddressBookError::PreconditionFailed { href: Href::from("/a.vcf") }.to_string(),
        "Precondition failed for /a.vcf"
    );
    assert_eq!(
        AddressBookError::RateLimited { retry_after: Some(Wait::from_secs(30)) }.to_string(),
        "Rate limited (retry after Some(30s))"
    );
    assert_eq!(AddressBookError::RateLimited { retry_after: None }.to_string(), "Rate limited (retry after None)");
    assert_eq!(AddressBookError::Transient("t".to_owned()).to_string(), "Transient CardDAV error: t");
    assert_eq!(AddressBookError::Unauthorized.to_string(), "CardDAV authentication failed");
    assert_eq!(Error::AddressBook(AddressBookError::Permanent("p".to_owned())).to_string(), "CardDAV error: p");
}

#[test]
fn rate_limit_message_shows_the_wait() {
    assert_eq!(
        AddressBookError::RateLimited { retry_after: Some(Wait::new(1, 500_000_000)) }.to_string(),
        "Rate limited (retry after Some(1.5s))"
    );
    let carried = Wait::new(2, 3_000_000_001);
    assert_eq!((carried.as_secs(), carried.subsec_nanos()), (5, 1));
}
