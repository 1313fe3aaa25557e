use cardigan::vcard::{CardHash, HashOptions, VCard, CANONICAL_VERSION};

/// Wraps body lines in BEGIN/VERSION/UID/END, CRLF-terminated.
fn vcf(body: &[&str]) -> String {
    let mut lines = vec!["BEGIN:VCARD", "VERSION:3.0", "UID:u1"];
    lines.extend_from_slice(body);
    lines.push("END:VCARD");
    lines.join("\r\n") + "\r\n"
}

fn parse(text: &str) -> VCard {
    VCard::parse(text.as_bytes().to_vec()).expect("card parses")
}

fn hash(text: &str) -> CardHash {
    parse(text).canonical_hash(HashOptions::default())
}

fn hash_without_photo(text: &str) -> CardHash {
    parse(text).canonical_hash(HashOptions { exclude_photo: true })
}

#[test]
fn canonical_form_is_exact() {
    let text = [
        "BEGIN:VCARD",
        "VERSION:3.0",
        "PRODID:-//Apple Inc.//iPhone OS 18.0//EN",
        "N:Doe;Jane;;;",
        "FN:Jane Doe",
        "item1.EMAIL;type=INTERNET;type=pref:jane@example.com",
        "item1.X-ABLabel:_$!<Other>!$_",
        "TEL;type=CELL;type=VOICE:+1 555 0100",
        "REV:2026-09-01T00:00:00Z",
        "UID:ABC-123",
        "END:VCARD",
        "",
    ]
    .join("\r\n");
    let card = parse(&text);
    assert_eq!(
        card.canonical_form(HashOptions::default()),
        "CANONICAL:1\nBEGIN:VCARD\nEND:VCARD\nFN:Jane \
         Doe\nG1.EMAIL;TYPE=INTERNET,PREF:jane@example.com\nG1.X-ABLABEL:_$!<Other>!$_\nN:Doe;Jane;;;\nTEL;TYPE=CELL,VOICE:+1 555 \
         0100\nUID:ABC-123\nVERSION:3.0\n"
    );
}

#[test]
fn property_order_does_not_matter() {
    assert!(hash(&vcf(&["FN:Jane", "NOTE:x"])) == hash(&vcf(&["NOTE:x", "FN:Jane"])));
}

#[test]
fn rev_and_prodid_churn_is_ignored() {
    assert!(
        hash(&vcf(&["FN:Jane", "REV:2026-01-01T00:00:00Z", "PRODID:-//Apple//EN"]))
            == hash(&vcf(&["FN:Jane", "REV:2026-09-24T10:00:00Z", "PRODID:-//Fastmail//EN"]))
    );
    assert!(hash(&vcf(&["FN:Jane"])) == hash(&vcf(&["FN:Jane", "REV:2026-01-01T00:00:00Z"])));
}

#[test]
fn line_endings_and_folding_do_not_matter() {
    let crlf = vcf(&["NOTE:a fairly long note that one server folds and another does not"]);
    let lf_folded = "BEGIN:VCARD\nVERSION:3.0\nUID:u1\nNOTE:a fairly long note that one\n  server folds and another does not\nEND:VCARD\n";
    assert!(hash(&crlf) == hash(lf_folded));
}

#[test]
fn parameter_spelling_does_not_matter() {
    let expected = hash(&vcf(&["EMAIL;TYPE=HOME,INTERNET:jane@example.com"]));
    assert!(hash(&vcf(&["EMAIL;type=INTERNET;type=home:jane@example.com"])) == expected);
    assert!(hash(&vcf(&["EMAIL;TYPE=\"HOME\";TYPE=internet;TYPE=HOME:jane@example.com"])) == expected);
    assert!(hash(&vcf(&["EMAIL;INTERNET;HOME:jane@example.com"])) == expected);
}

#[test]
fn encoding_b_and_base64_are_equal() {
    assert!(
        hash(&vcf(&["PHOTO;ENCODING=b;TYPE=JPEG:QUJD"])) == hash(&vcf(&["PHOTO;TYPE=jpeg;ENCODING=BASE64:QUJD"]))
    );
}

#[test]
fn escaped_newline_case_does_not_matter() {
    assert!(hash(&vcf(&["NOTE:a\\Nb"])) == hash(&vcf(&["NOTE:a\\nb"])));
    // `\\N` is an escaped backslash followed by a literal N, not a newline.
    assert!(hash(&vcf(&["NOTE:a\\\\Nb"])) != hash(&vcf(&["NOTE:a\\\\nb"])));
}

#[test]
fn multi_valued_order_does_not_matter() {
    assert!(
        hash(&vcf(&["EMAIL:a@example.com", "EMAIL:b@example.com"]))
            == hash(&vcf(&["EMAIL:b@example.com", "EMAIL:a@example.com"]))
    );
}

#[test]
fn apple_group_renumbering_does_not_matter() {
    let original = vcf(&[
        "item1.EMAIL:a@example.com",
        "item1.X-ABLabel:school",
        "item2.TEL:+1 555 0100",
        "item2.X-ABLabel:cabin",
    ]);
    let renumbered = vcf(&[
        "ITEM7.TEL:+1 555 0100",
        "item3.X-ABLabel:school",
        "ITEM7.X-ABLabel:cabin",
        "item3.EMAIL:a@example.com",
    ]);
    assert!(hash(&original) == hash(&renumbered));
}

#[test]
fn moving_a_label_to_another_item_is_a_change() {
    assert!(
        hash(&vcf(&[
            "item1.EMAIL:a@example.com",
            "item1.X-ABLabel:school",
            "item2.EMAIL:b@example.com",
            "item2.X-ABLabel:cabin"
        ])) != hash(&vcf(&[
            "item1.EMAIL:a@example.com",
            "item1.X-ABLabel:cabin",
            "item2.EMAIL:b@example.com",
            "item2.X-ABLabel:school"
        ]))
    );
}

#[test]
fn real_edits_are_changes() {
    let base = hash(&vcf(&["FN:Jane", "EMAIL;TYPE=HOME:jane@example.com"]));
    assert!(base != hash(&vcf(&["FN:Jane", "EMAIL;TYPE=HOME:jane@example.org"])));
    assert!(base != hash(&vcf(&["FN:Jane", "EMAIL;TYPE=WORK:jane@example.com"])));
    assert!(base != hash(&vcf(&["FN:Jane", "EMAIL;TYPE=HOME:jane@example.com", "NOTE:new"])));
    assert!(base != hash(&vcf(&["FN:Jane Doe", "EMAIL;TYPE=HOME:jane@example.com"])));
}

#[test]
fn exclude_photo_ignores_photo() {
    let with_photo = vcf(&["FN:Jane", "PHOTO;ENCODING=b;TYPE=JPEG:QUJD"]);
    let without_photo = vcf(&["FN:Jane"]);
    assert!(hash(&with_photo) != hash(&without_photo));
    assert!(hash_without_photo(&with_photo) == hash_without_photo(&without_photo));
}

#[test]
fn canonical_form_is_versioned() {
    let card = parse(&vcf(&[]));
    assert!(card
        .canonical_form(HashOptions::default())
        .starts_with(&format!("CANONICAL:{CANONICAL_VERSION}\n")));
}

#[test]
fn card_hash_hex_round_trips() {
    let hash = hash(&vcf(&["FN:Jane"]));
    let hex = hash.as_hex();
    assert_eq!(hex.len(), 64);
    assert!(CardHash::from_hex(&hex).expect("valid hex") == hash);
    assert_eq!(hash.to_string(), hex);
    assert_eq!(hash.debug_string(), format!("CardHash({hex})"));
}

#[test]
fn card_hash_from_hex_rejects_bad_input() {
    assert!(CardHash::from_hex("abc").is_err());
    assert!(CardHash::from_hex(&"zz".repeat(32)).is_err());
}

#[test]
fn from_hex_reports_why() {
    let message = |s: &str| match CardHash::from_hex(s) {
        Err(cardigan::Error::Validation(m)) => m,
        _ => panic!("rejected as a validation error"),
    };
    assert_eq!(message("abc"), "CardHash hex must be 64 chars, got 3");
    assert_eq!(message(&"zz".repeat(32)), "invalid digit found in string");
    let mut bad = "00".repeat(31);
    bad.push('é');
    assert_eq!(bad.len(), 64);
    assert_eq!(message(&bad), "invalid digit found in string");
}

#[test]
fn from_hex_accepts_either_case_and_a_plus_sign() {
    let upper = CardHash::from_hex(&"AB".repeat(32)).expect("upper-case hex");
    assert_eq!(upper.as_bytes(), &[0xab; 32]);
    let plus = CardHash::from_hex(&"+f".repeat(32)).expect("a sign is accepted per pair");
    assert_eq!(plus.as_bytes(), &[0x0f; 32]);
    assert_eq!(plus.as_hex(), "0f".repeat(32));
}

#[test]
fn canonical_value_keeps_other_escapes() {
    let card = parse(&vcf(&["NOTE:a\\,b\\Nc\\"]));
    let form = card.canonical_form(HashOptions::default());
    assert!(form.contains("\nNOTE:a\\,b\\nc\\\n"), "{form}");
}

#[test]
fn hash_is_sha256_of_the_canonical_form() {
    let card = parse(&vcf(&[]));
    assert_eq!(
        card.canonical_form(HashOptions::default()),
        "CANONICAL:1\nBEGIN:VCARD\nEND:VCARD\nUID:u1\nVERSION:3.0\n"
    );
    let hash = card.canonical_hash(HashOptions::default());
    assert_eq!(hash.as_hex(), "21a0ae21468cc541e2fda0111fc712e02fd320c14ecf41415a424a183e4c5521");
}

#[test]
fn consistently_renamed_groups_give_the_same_form() {
    let original = vcf(&["a.EMAIL:a@example.com", "A.X-ABLabel:home", "b.TEL:1", "B.X-ABLabel:cell"]);
    let renamed = vcf(&["z.EMAIL:a@example.com", "Z.X-ABLabel:home", "y.TEL:1", "y.X-ABLabel:cell"]);
    assert_eq!(
        parse(&original).canonical_form(HashOptions::default()),
        parse(&renamed).canonical_form(HashOptions::default())
    );
}

#[test]
fn merging_two_groups_is_a_change() {
    let two = vcf(&["a.EMAIL:a@example.com", "b.X-ABLabel:home"]);
    let one = vcf(&["a.EMAIL:a@example.com", "a.X-ABLabel:home"]);
    assert_ne!(
        parse(&two).canonical_form(HashOptions::default()),
        parse(&one).canonical_form(HashOptions::default())
    );
}

#[test]
fn reordered_properties_give_the_same_form() {
    let original = vcf(&["FN:Jane", "a.EMAIL:a@example.com", "NOTE:x", "a.X-ABLabel:home"]);
    let reordered = vcf(&["a.X-ABLabel:home", "NOTE:x", "a.EMAIL:a@example.com", "FN:Jane"]);
    assert_eq!(
        parse(&original).canonical_form(HashOptions::default()),
        parse(&reordered).canonical_form(HashOptions::default())
    );
}

#[test]
fn mixed_line_breaks_and_folds_parse_alike() {
    let crlf = vcf(&["NOTE:one two three"]);
    let mixed = "BEGIN:VCARD\nVERSION:3.0\r\nUID:u1\nNOTE:one t\r\n wo\n\t three\nEND:VCARD";
    let a = parse(&crlf);
    let b = parse(mixed);
    assert_eq!(a.uid().as_str(), b.uid().as_str());
    assert_eq!(a.canonical_form(HashOptions::default()), b.canonical_form(HashOptions::default()));
}

#[test]
fn any_hex_digits_read_back_in_lowercase() {
    let upper = "0123456789ABCDEFabcdef0123456789ABCDEF0123456789abcdefABCDEF0123";
    let hash = CardHash::from_hex(upper).unwrap_or_else(|e| panic!("{}", e.to_string()));
    assert_eq!(hash.as_hex(), upper.to_ascii_lowercase());
}
