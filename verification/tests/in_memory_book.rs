
use cardigan::addressbook::{ChangeSet, Changes, Collection, FetchedCard, Precondition, SyncToken};
use cardigan::contact::{ETag, Href};
use cardigan::test_support::{InMemoryAddressBook, Op, Write};
use cardigan::{AddressBookError, Error, Wait};

fn href(path: &str) -> Href {
    Href::from(path)
}

fn is_precondition_failed(err: &Error) -> bool {
    matches!(err, Error::AddressBook(AddressBookError::PreconditionFailed { .. }))
}

fn full_sync(book: &mut InMemoryAddressBook) -> ChangeSet {
    match book.changes_since(None).unwrap() {
        Changes::Delta(delta) => delta,
        Changes::TokenInvalid => panic!("initial sync cannot be TokenInvalid"),
    }
}

fn delta_since(book: &mut InMemoryAddressBook, token: &SyncToken) -> ChangeSet {
    match book.changes_since(Some(token)).unwrap() {
        Changes::Delta(delta) => delta,
        Changes::TokenInvalid => panic!("token {} was rejected", token.as_str()),
    }
}

fn put_ext(book: &mut InMemoryAddressBook, path: &str, body: &str) -> ETag {
    book.external_put(href(path), body.as_bytes().to_vec())
}

#[test]
fn discover_returns_the_collection() {
    let collection = Collection {
        addressbook_url: "https://p42-contacts.icloud.com/123/carddavhome/card/".to_owned(),
        discovered_host: "p42-contacts.icloud.com".to_owned(),
        supports_sync_collection: true,
    };
    let mut book = InMemoryAddressBook::new(collection.clone());
    assert_eq!(book.discover().unwrap(), collection);
}

#[test]
fn put_if_none_match_creates_and_records_the_write() {
    let mut book = InMemoryAddressBook::default();
    let etag = book.put(&href("/a.vcf"), b"card-a", Precondition::IfNoneMatch).unwrap().expect("etag returned");
    assert_eq!(book.card(&href("/a.vcf")), Some((etag, b"card-a".to_vec())));
    assert_eq!(
        book.writes(),
        [Write::Put { href: href("/a.vcf"), precondition: Precondition::IfNoneMatch, body: b"card-a".to_vec() }]
    );
}

#[test]
fn put_if_none_match_on_existing_is_precondition_failed() {
    let mut book = InMemoryAddressBook::default();
    put_ext(&mut book, "/a.vcf", "original");
    let err = book.put(&href("/a.vcf"), b"clobber", Precondition::IfNoneMatch).unwrap_err();
    assert!(is_precondition_failed(&err), "{err:?}");
    assert_eq!(book.card(&href("/a.vcf")).unwrap().1, b"original");
}

#[test]
fn put_if_match_with_stale_etag_is_precondition_failed() {
    let mut book = InMemoryAddressBook::default();
    let stale = put_ext(&mut book, "/a.vcf", "v1");
    let current = put_ext(&mut book, "/a.vcf", "v2 edited elsewhere");
    let err = book.put(&href("/a.vcf"), b"v3", Precondition::IfMatch(stale)).unwrap_err();
    assert!(is_precondition_failed(&err), "{err:?}");
    assert_eq!(book.card(&href("/a.vcf")), Some((current, b"v2 edited elsewhere".to_vec())));
}

#[test]
fn put_if_match_with_current_etag_updates() {
    let mut book = InMemoryAddressBook::default();
    let current = put_ext(&mut book, "/a.vcf", "v1");
    let new_etag = book.put(&href("/a.vcf"), b"v2", Precondition::IfMatch(current.clone())).unwrap().unwrap();
    assert_ne!(new_etag, current);
    assert_eq!(book.card(&href("/a.vcf")), Some((new_etag, b"v2".to_vec())));
}

#[test]
fn omit_etag_on_put_returns_none_but_multiget_has_etag() {
    let mut book = InMemoryAddressBook::default();
    book.omit_etag_on_put(true);
    assert_eq!(book.put(&href("/a.vcf"), b"card-a", Precondition::IfNoneMatch).unwrap(), None);
    let fetched = book.multiget(&[href("/a.vcf")]).unwrap();
    let (stored_etag, _) = book.card(&href("/a.vcf")).unwrap();
    assert_eq!(fetched.found.len(), 1);
    assert_eq!(fetched.found[0].etag, stored_etag);
    assert_eq!(fetched.found[0].body, b"card-a");
}

#[test]
fn multiget_reports_missing_hrefs() {
    let mut book = InMemoryAddressBook::default();
    let etag = put_ext(&mut book, "/a.vcf", "card-a");
    let result = book.multiget(&[href("/a.vcf"), href("/gone.vcf")]).unwrap();
    assert!(result.found == [FetchedCard { href: href("/a.vcf"), etag, body: b"card-a".to_vec() }]);
    assert_eq!(result.missing, [href("/gone.vcf")]);
}

#[test]
fn changes_since_none_lists_every_card() {
    let mut book = InMemoryAddressBook::default();
    let b = put_ext(&mut book, "/b.vcf", "card-b");
    let a = put_ext(&mut book, "/a.vcf", "card-a");
    let delta = full_sync(&mut book);
    assert_eq!(delta.changed, [(href("/a.vcf"), a), (href("/b.vcf"), b)]);
    assert_eq!(delta.removed, []);
}

#[test]
fn changes_since_token_returns_only_later_changes() {
    let mut book = InMemoryAddressBook::default();
    put_ext(&mut book, "/a.vcf", "a1");
    put_ext(&mut book, "/c.vcf", "c1");
    let t0 = full_sync(&mut book).token;
    let b = put_ext(&mut book, "/b.vcf", "b1");
    let a2 = put_ext(&mut book, "/a.vcf", "a2");
    assert!(book.external_delete(&href("/c.vcf")));
    let delta = delta_since(&mut book, &t0);
    assert_eq!(delta.changed, [(href("/a.vcf"), a2), (href("/b.vcf"), b)]);
    assert_eq!(delta.removed, [href("/c.vcf")]);
    let quiet = delta_since(&mut book, &delta.token);
    assert!(quiet.changed.is_empty() && quiet.removed.is_empty(), "{quiet:?}");
}

#[test]
fn card_created_and_deleted_since_token_is_only_removed() {
    let mut book = InMemoryAddressBook::default();
    let t0 = full_sync(&mut book).token;
    put_ext(&mut book, "/brief.vcf", "here and gone");
    book.external_delete(&href("/brief.vcf"));
    let delta = delta_since(&mut book, &t0);
    assert!(delta.changed.is_empty(), "{delta:?}");
    assert_eq!(delta.removed, [href("/brief.vcf")]);
}

#[test]
fn unknown_token_is_token_invalid() {
    let mut book = InMemoryAddressBook::default();
    put_ext(&mut book, "/a.vcf", "card-a");
    for token in ["garbage", "mem-sync-999", ""] {
        assert_eq!(book.changes_since(Some(&SyncToken::from(token))).unwrap(), Changes::TokenInvalid, "{token:?}");
    }
}

#[test]
fn expire_tokens_invalidates_old_tokens_only() {
    let mut book = InMemoryAddressBook::default();
    put_ext(&mut book, "/a.vcf", "card-a");
    let old = full_sync(&mut book).token;
    book.expire_tokens();
    assert_eq!(book.changes_since(Some(&old)).unwrap(), Changes::TokenInvalid);
    let fresh = full_sync(&mut book);
    assert_eq!(fresh.changed.len(), 1, "full resync after expiry lists every card");
    let b = put_ext(&mut book, "/b.vcf", "card-b");
    assert_eq!(delta_since(&mut book, &fresh.token).changed, [(href("/b.vcf"), b)]);
}

#[test]
fn delete_missing_resource_is_ok_and_recorded() {
    let mut book = InMemoryAddressBook::default();
    let stale = ETag::from("\"stale\"");
    book.delete(&href("/gone.vcf"), Some(&stale)).unwrap();
    assert_eq!(book.writes(), [Write::Delete { href: href("/gone.vcf"), if_match: Some(stale) }]);
}

#[test]
fn delete_respects_if_match() {
    let mut book = InMemoryAddressBook::default();
    let stale = put_ext(&mut book, "/a.vcf", "v1");
    let current = put_ext(&mut book, "/a.vcf", "v2");
    let err = book.delete(&href("/a.vcf"), Some(&stale)).unwrap_err();
    assert!(is_precondition_failed(&err), "{err:?}");
    assert!(book.card(&href("/a.vcf")).is_some());
    book.delete(&href("/a.vcf"), Some(&current)).unwrap();
    assert_eq!(book.card(&href("/a.vcf")), None);
}

#[test]
fn fail_next_fails_only_the_next_matching_op() {
    let mut book = InMemoryAddressBook::default();
    book.fail_next(Op::Put, AddressBookError::RateLimited { retry_after: Some(Wait::from_secs(30)) });
    assert!(book.list_etags().unwrap().is_empty(), "other operations are unaffected");
    let err = book.put(&href("/a.vcf"), b"card-a", Precondition::IfNoneMatch).unwrap_err();
    assert!(
        matches!(err, Error::AddressBook(AddressBookError::RateLimited { retry_after: Some(d) }) if d == Wait::from_secs(30)),
        "{err:?}"
    );
    assert!(err.is_transient());
    assert_eq!(book.card(&href("/a.vcf")), None, "a failed put changes nothing");
    book.put(&href("/a.vcf"), b"card-a", Precondition::IfNoneMatch).unwrap();
    assert_eq!(book.writes().len(), 2, "both attempts are recorded, including the failed one");
}

#[test]
fn out_of_band_edits_are_not_recorded_as_writes() {
    let mut book = InMemoryAddressBook::default();
    put_ext(&mut book, "/a.vcf", "card-a");
    book.external_delete(&href("/a.vcf"));
    assert_eq!(book.writes(), []);
}

#[test]
fn without_sync_collection_changes_since_fails_and_list_etags_works() {
    let mut book = InMemoryAddressBook::default();
    book.set_supports_sync_collection(false);
    let a = put_ext(&mut book, "/a.vcf", "card-a");
    assert!(!book.discover().unwrap().supports_sync_collection);
    let err = book.changes_since(None).unwrap_err();
    assert!(matches!(err, Error::AddressBook(AddressBookError::Permanent(_))), "{err:?}");
    assert_eq!(book.list_etags().unwrap(), [(href("/a.vcf"), a)]);
}

#[test]
fn etags_and_tokens_follow_the_version() {
    let mut book = InMemoryAddressBook::default();
    assert_eq!(put_ext(&mut book, "/a.vcf", "x").as_str(), "\"1\"");
    assert_eq!(put_ext(&mut book, "/b.vcf", "y").as_str(), "\"2\"");
    assert_eq!(full_sync(&mut book).token.as_str(), "mem-sync-2");
    assert_eq!(book.changes_since(Some(&SyncToken::from("mem-sync-+2"))).unwrap(), Changes::Delta(ChangeSet {
        changed: vec![],
        removed: vec![],
        token: SyncToken::from("mem-sync-2"),
    }));
}

#[test]
fn queued_failures_are_consumed_in_order() {
    let mut book = InMemoryAddressBook::default();
    book.fail_next(Op::Discover, AddressBookError::Unauthorized);
    book.fail_next(Op::Discover, AddressBookError::Transient("x".to_owned()));
    assert!(matches!(book.discover(), Err(Error::AddressBook(AddressBookError::Unauthorized))));
    assert!(matches!(book.discover(), Err(Error::AddressBook(AddressBookError::Transient(_)))));
    assert!(book.discover().is_ok());
}

#[test]
fn external_put_gets_a_fresh_etag_listed_in_the_next_delta() {
    let mut book = InMemoryAddressBook::default();
    let first = put_ext(&mut book, "/a.vcf", "a");
    let token = full_sync(&mut book).token;
    let second = put_ext(&mut book, "/b.vcf", "b");
    assert_ne!(first, second);
    let delta = delta_since(&mut book, &token);
    assert_eq!(delta.changed, vec![(href("/b.vcf"), second)]);
    assert!(delta.removed.is_empty());
}

#[test]
fn external_delete_is_listed_as_removed() {
    let mut book = InMemoryAddressBook::default();
    put_ext(&mut book, "/a.vcf", "a");
    let token = full_sync(&mut book).token;
    assert!(book.external_delete(&href("/a.vcf")));
    assert!(!book.external_delete(&href("/missing.vcf")));
    let delta = delta_since(&mut book, &token);
    assert!(delta.changed.is_empty());
    assert_eq!(delta.removed, vec![href("/a.vcf")]);
}

#[test]
fn queued_failures_come_out_in_order_per_operation() {
    let mut book = InMemoryAddressBook::default();
    book.fail_next(Op::ListEtags, AddressBookError::Transient("first".to_owned()));
    book.fail_next(Op::Discover, AddressBookError::Unauthorized);
    book.fail_next(Op::ListEtags, AddressBookError::Transient("second".to_owned()));
    assert!(matches!(book.list_etags(), Err(Error::AddressBook(AddressBookError::Transient(m))) if m == "first"));
    assert!(matches!(book.list_etags(), Err(Error::AddressBook(AddressBookError::Transient(m))) if m == "second"));
    assert!(book.list_etags().is_ok());
    assert!(matches!(book.discover(), Err(Error::AddressBook(AddressBookError::Unauthorized))));
    assert!(book.discover().is_ok());
}

#[test]
fn every_token_issued_before_expiry_is_rejected() {
    let mut book = InMemoryAddressBook::default();
    let t1 = full_sync(&mut book).token;
    put_ext(&mut book, "/a.vcf", "a");
    let t2 = full_sync(&mut book).token;
    book.expire_tokens();
    assert!(matches!(book.changes_since(Some(&t1)).unwrap(), Changes::TokenInvalid));
    assert!(matches!(book.changes_since(Some(&t2)).unwrap(), Changes::TokenInvalid));
    let t3 = full_sync(&mut book).token;
    assert!(delta_since(&mut book, &t3).changed.is_empty());
}
