use cardigan::vcard::identity::{collapse, looks_like_contact_point, normalize_phone, MatchKeys};
use cardigan::vcard::VCard;

fn card(body: &[&str]) -> VCard {
    let mut lines = vec!["BEGIN:VCARD", "VERSION:3.0", "UID:u1"];
    lines.extend_from_slice(body);
    lines.push("END:VCARD");
    VCard::parse(lines.join("\r\n").into_bytes()).expect("card parses")
}

fn chars(s: &str) -> Vec<char> {
    s.chars().collect()
}

#[test]
fn display_uses_fn_and_first_org_component() {
    let identity = card(&["FN:Jane Doe", "ORG:Acme Corp;Engineering"]).display_identity();
    assert_eq!(identity.to_string(), "Jane Doe (Acme Corp)");
    assert_eq!(identity.name(), Some("Jane Doe"));
    assert_eq!(identity.org(), Some("Acme Corp"));
}

#[test]
fn display_unescapes_and_collapses_whitespace() {
    assert_eq!(
        card(&["FN:Doe\\, Jane", "ORG:Smith\\; Sons"]).display_identity().to_string(),
        "Doe, Jane (Smith; Sons)"
    );
    assert_eq!(card(&["FN:Jane\\n  Doe"]).display_identity().to_string(), "Jane Doe");
}

#[test]
fn display_falls_back_to_n() {
    assert_eq!(card(&["FN:", "N:Doe;Jane;Q;Dr.;Jr."]).display_identity().to_string(), "Dr. Jane Q Doe Jr.");
    assert_eq!(card(&["N:Doe;Jane;;;"]).display_identity().to_string(), "Jane Doe");
}

#[test]
fn display_without_name() {
    assert_eq!(card(&[]).display_identity().to_string(), "<no name>");
    assert_eq!(card(&["ORG:Acme"]).display_identity().to_string(), "<no name> (Acme)");
}

#[test]
fn display_treats_email_or_phone_fn_as_no_name() {
    assert_eq!(card(&["FN:jane@example.com"]).display_identity().to_string(), "<no name>");
    assert_eq!(card(&["FN:+1 (555) 010-0100"]).display_identity().to_string(), "<no name>");
    assert_eq!(card(&["FN:Agent 47"]).display_identity().to_string(), "Agent 47");
}

#[test]
fn display_strips_control_characters() {
    let display = card(&["FN:Jane\u{1b}[31m Doe"]).display_identity().to_string();
    assert!(!display.contains('\u{1b}'), "{display}");
}

#[test]
fn match_keys_normalize_emails_and_phones() {
    let keys = card(&["FN:Jane  DOE", "EMAIL: Jane@Example.COM ", "TEL:+1 (555) 010-0100", "TEL:555.0199", "TEL:ext"]).match_keys();
    assert_eq!(keys.name(), Some("jane doe"));
    assert_eq!(keys.emails(), ["jane@example.com".to_owned()]);
    assert_eq!(keys.phones(), ["+15550100100".to_owned(), "5550199".to_owned()]);
}

#[test]
fn same_name_and_shared_contact_point_match() {
    let a = card(&["FN:Jane Doe", "EMAIL:jane@example.com", "EMAIL:other@example.com"]).match_keys();
    let b = card(&["FN:jane  doe", "EMAIL:JANE@example.com"]).match_keys();
    assert!(a.is_match(&b));
    let c = card(&["FN:Jane Doe", "TEL:+1 555 0100"]).match_keys();
    let d = card(&["FN:Jane Doe", "TEL:+1 (555) 0100", "EMAIL:x@example.com"]).match_keys();
    assert!(c.is_match(&d));
}

#[test]
fn same_name_without_shared_contact_point_does_not_match() {
    let a = card(&["FN:Jane Doe", "EMAIL:a@example.com"]).match_keys();
    let b = card(&["FN:Jane Doe", "EMAIL:b@example.com"]).match_keys();
    assert!(!a.is_match(&b));
    let no_contact = card(&["FN:Jane Doe", "ORG:Acme"]).match_keys();
    assert!(!a.is_match(&no_contact));
}

#[test]
fn different_names_never_match() {
    let a = card(&["FN:Jane Doe", "EMAIL:jane@example.com"]).match_keys();
    let b = card(&["FN:Janet Doe", "EMAIL:jane@example.com"]).match_keys();
    assert!(!a.is_match(&b));
    assert!(!card(&[]).match_keys().is_match(&card(&[]).match_keys()));
}

#[test]
fn org_decides_only_when_neither_card_has_contact_points() {
    let a = card(&["FN:Jane Doe", "ORG:Acme;Sales"]).match_keys();
    let b = card(&["FN:Jane Doe", "ORG:ACME"]).match_keys();
    assert!(a.is_match(&b));
    assert!(!a.is_match(&card(&["FN:Jane Doe", "ORG:Other"]).match_keys()));
    assert!(!card(&["FN:Jane Doe"]).match_keys().is_match(&card(&["FN:Jane Doe"]).match_keys()));
}

#[test]
fn match_keys_debug_is_redacted() {
    let debug = card(&["FN:Jane Doe", "EMAIL:jane@example.com", "TEL:+1 555 0100"]).match_keys().debug_string();
    assert!(!debug.contains("jane"), "{debug}");
    assert!(!debug.contains("555"), "{debug}");
    assert_eq!(debug, "MatchKeys { emails: 1, phones: 1, .. }");
}

#[test]
fn matching_is_symmetric() {
    let cards = [
        card(&["FN:Jane Doe", "EMAIL:jane@example.com"]),
        card(&["FN:jane doe", "TEL:+1 555 0100", "EMAIL:JANE@example.com"]),
        card(&["FN:Jane Doe", "ORG:Acme"]),
        card(&["FN:Jane Doe", "ORG:acme"]),
        card(&["FN:Jane Doe"]),
    ];
    for a in &cards {
        for b in &cards {
            assert_eq!(a.match_keys().is_match(&b.match_keys()), b.match_keys().is_match(&a.match_keys()));
        }
    }
}

#[test]
fn keys_are_sets_in_order() {
    let keys = MatchKeys::from_parts(
        Some("jane".to_owned()),
        vec!["b@x".to_owned(), "".to_owned(), "a@x".to_owned(), "b@x".to_owned()],
        vec!["2".to_owned(), "1".to_owned(), "2".to_owned()],
        None,
    );
    assert_eq!(keys.emails(), ["a@x".to_owned(), "b@x".to_owned()]);
    assert_eq!(keys.phones(), ["1".to_owned(), "2".to_owned()]);
    assert_eq!(keys.org(), None);
}

#[test]
fn collapse_drops_controls_and_extra_space() {
    assert_eq!(collapse(&chars("  a \t b\u{7}c\n ")), chars("a bc"));
    assert_eq!(collapse(&chars("\u{2003}x\u{3000}y")), chars("x y"));
    assert_eq!(collapse(&chars("   ")), chars(""));
}

#[test]
fn contact_points_are_recognised() {
    assert!(looks_like_contact_point(&chars("a@b")));
    assert!(looks_like_contact_point(&chars("(555) 010-0100")));
    assert!(!looks_like_contact_point(&chars("+-()")));
    assert!(!looks_like_contact_point(&chars("Agent 47")));
}

#[test]
fn phones_keep_a_leading_plus_only() {
    assert_eq!(normalize_phone("  +1 (555) 010"), Some("+1555010".to_owned()));
    assert_eq!(normalize_phone("1+2"), Some("12".to_owned()));
    assert_eq!(normalize_phone("ext"), None);
}
