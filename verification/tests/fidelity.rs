//! Fidelity and hash-contract tests over hand-authored fixture cards. The
//! fixtures are fictional.

use cardigan::vcard::{HashOptions, VCard};

const APPLE_FULL: &str = "\
    BEGIN:VCARD\n\
    VERSION:3.0\n\
    PRODID:-//Apple Inc.//iPhone OS 18.0//EN\n\
    N:Appleseed;Jane;;;\n\
    FN:Jane Appleseed\n\
    ORG:Example Corp;\n\
    item1.EMAIL;type=INTERNET;type=HOME;type=pref:jane@example.com\n\
    item1.X-ABLabel:_$!<Home>!$_\n\
    item2.TEL;type=CELL;type=VOICE;type=pref:+1 (555) 010-0100\n\
    item3.ADR;type=HOME;type=pref:;;1 Example Way;Cupertino;CA;95014;United States\n\
    item3.X-ABADR:us\n\
    item4.X-ABRELATEDNAMES;type=pref:John Appleseed\n\
    item4.X-ABLabel:_$!<Spouse>!$_\n\
    X-SOCIALPROFILE;type=twitter:https://twitter.com/example\n\
    X-CARDIGAN-UNKNOWN;X-P=1:keep me\n\
    PHOTO;ENCODING=b;TYPE=JPEG:QUJDQUJDQUJDQUJDQUJDQUJDQUJDQUJDQUJDQUJDQUJDQUJD\n\
    \x20QUJDQUJDQUJDQUJDQUJDQUJDQUJDQUJDQUJDQUJDQUJDQUJDQUJDQUJDQUJDQUJDQUJDQUJD\n\
    \x20QUJDQUJDQUJDQUJDQUJDQUJDQUJDQUJDQUJDQUJD\n\
    REV:2026-09-01T00:00:00Z\n\
    UID:4F8A1C2E-0000-4000-8000-000000000001\n\
    END:VCARD\n";

const APPLE_FULL_REWRITTEN: &str = "\
    BEGIN:VCARD\n\
    VERSION:3.0\n\
    PRODID:-//Fastmail//Contacts//EN\n\
    UID:4F8A1C2E-0000-4000-8000-000000000001\n\
    FN:Jane Appleseed\n\
    N:Appleseed;Jane;;;\n\
    ORG:Example Corp;\n\
    item7.X-ABRELATEDNAMES;TYPE=PREF:John Appleseed\n\
    ITEM7.X-ABLABEL:_$!<Spouse>!$_\n\
    item2.EMAIL;TYPE=pref,INTERNET,home:jane@example.com\n\
    item2.X-ABLabel:_$!<Home>!$_\n\
    item5.TEL;TYPE=\"CELL\";TYPE=VOICE,pref:+1 (555) 010-0100\n\
    item9.ADR;TYPE=HOME,PREF:;;1 Example Way;Cupertino;CA;95014;United States\n\
    item9.X-ABADR:us\n\
    X-SOCIALPROFILE;TYPE=TWITTER:https://twitter.com/example\n\
    X-CARDIGAN-UNKNOWN;X-P=1:keep me\n\
    PHOTO;TYPE=jpeg;ENCODING=BASE64:QUJDQUJDQUJDQUJDQUJDQUJDQUJDQUJDQUJDQUJDQUJDQUJDQUJDQUJDQUJDQUJDQUJDQU\n\
    \x20JDQUJDQUJDQUJDQUJDQUJDQUJDQUJDQUJDQUJDQUJDQUJDQUJDQUJDQUJDQUJDQUJDQUJDQUJDQUJDQUJDQUJDQUJD\n\
    REV:2026-09-24T10:00:00Z\n\
    END:VCARD\n";

const APPLE_GROUP: &str = "\
    BEGIN:VCARD\n\
    VERSION:3.0\n\
    PRODID:-//Apple Inc.//iPhone OS 18.0//EN\n\
    N:Book Club;;;;\n\
    FN:Book Club\n\
    X-ADDRESSBOOKSERVER-KIND:group\n\
    X-ADDRESSBOOKSERVER-MEMBER:urn:uuid:4F8A1C2E-0000-4000-8000-000000000001\n\
    X-ADDRESSBOOKSERVER-MEMBER:urn:uuid:4F8A1C2E-0000-4000-8000-000000000002\n\
    REV:2026-09-01T00:00:00Z\n\
    UID:4F8A1C2E-0000-4000-8000-0000000000A0\n\
    END:VCARD\n";

const FIXTURES: [(&str, &str); 3] = [
    ("apple_full", APPLE_FULL),
    ("apple_full_rewritten", APPLE_FULL_REWRITTEN),
    ("apple_group", APPLE_GROUP),
];

const EXCLUDE_PHOTO: HashOptions = HashOptions { exclude_photo: true };

fn card(bytes: &[u8]) -> VCard {
    VCard::parse(bytes.to_vec()).expect("fixture parses")
}

fn to_crlf(bytes: &[u8]) -> Vec<u8> {
    std::str::from_utf8(bytes).expect("fixture is UTF-8").replace('\n', "\r\n").into_bytes()
}

/// The fixture with its `PHOTO` property (and continuation lines) removed.
fn without_photo_lines(bytes: &[u8]) -> Vec<u8> {
    let text = std::str::from_utf8(bytes).expect("fixture is UTF-8");
    let mut out = String::new();
    let mut in_photo = false;
    for line in text.split_inclusive('\n') {
        in_photo = line.starts_with("PHOTO") || (in_photo && line.starts_with(' '));
        if !in_photo {
            out.push_str(line);
        }
    }
    out.into_bytes()
}

#[test]
fn fixtures_round_trip_byte_for_byte() {
    for (name, text) in FIXTURES {
        let bytes = text.as_bytes();
        assert_eq!(card(bytes).as_bytes(), bytes, "{name}");
        let crlf = to_crlf(bytes);
        assert_eq!(card(&crlf).as_bytes(), crlf.as_slice(), "{name} (CRLF)");
    }
}

#[test]
fn crlf_and_lf_hash_equal() {
    for (name, text) in FIXTURES {
        let bytes = text.as_bytes();
        assert!(
            card(bytes).canonical_hash(HashOptions::default())
                == card(&to_crlf(bytes)).canonical_hash(HashOptions::default()),
            "{name}"
        );
    }
}

#[test]
fn server_rewrite_hashes_equal_to_original() {
    let original = card(APPLE_FULL.as_bytes());
    let rewritten = card(APPLE_FULL_REWRITTEN.as_bytes());
    assert_eq!(
        original.canonical_form(HashOptions::default()),
        rewritten.canonical_form(HashOptions::default())
    );
    assert!(original.canonical_hash(EXCLUDE_PHOTO) == rewritten.canonical_hash(EXCLUDE_PHOTO));
}

#[test]
fn photo_size_of_fixture() {
    assert_eq!(card(APPLE_FULL.as_bytes()).photo_size(), Some(120));
    assert_eq!(card(APPLE_FULL_REWRITTEN.as_bytes()).photo_size(), Some(120));
    assert_eq!(card(APPLE_GROUP.as_bytes()).photo_size(), None);
}

#[test]
fn strip_photo_keeps_every_other_fixture_byte() {
    let original = card(APPLE_FULL.as_bytes());
    let stripped = original.strip_photo();
    assert_eq!(stripped.as_bytes(), without_photo_lines(APPLE_FULL.as_bytes()).as_slice());
    assert!(stripped.canonical_hash(EXCLUDE_PHOTO) == original.canonical_hash(EXCLUDE_PHOTO));
    for name in ["X-ABLabel", "X-ABADR", "X-SOCIALPROFILE", "X-ABRELATEDNAMES", "X-CARDIGAN-UNKNOWN"] {
        assert_eq!(stripped.properties_named(name).len(), original.properties_named(name).len(), "{name}");
    }
}

#[test]
fn group_card_keeps_members() {
    let group = card(APPLE_GROUP.as_bytes());
    assert_eq!(group.properties_named("X-ADDRESSBOOKSERVER-MEMBER").len(), 2);
    assert_eq!(group.display_identity().to_string(), "Book Club");
}

#[test]
fn identity_of_fixtures() {
    assert_eq!(card(APPLE_FULL.as_bytes()).display_identity().to_string(), "Jane Appleseed (Example Corp)");
    assert!(card(APPLE_FULL.as_bytes()).match_keys().is_match(&card(APPLE_FULL_REWRITTEN.as_bytes()).match_keys()));
    assert!(!card(APPLE_FULL.as_bytes()).match_keys().is_match(&card(APPLE_GROUP.as_bytes()).match_keys()));
}
