use cardigan::vcard::{Property, VCard, VCardError};
use cardigan::{Error, ErrorKind};

const SIMPLE: &str = "BEGIN:VCARD\r\nVERSION:3.0\r\nN:Doe;Jane;;;\r\nFN:Jane \
                      Doe\r\nitem1.EMAIL;type=INTERNET;type=pref:jane@example.com\r\nitem1.X-ABLabel:_$!<Other>!$_\r\nUID:ABC-123\r\nEND:VCARD\r\n";

fn card(text: &str) -> VCard {
    VCard::parse(text.as_bytes().to_vec()).expect("card parses")
}

fn error(text: &[u8]) -> VCardError {
    match VCard::parse(text.to_vec()) {
        Ok(_) => panic!("card is rejected"),
        Err(e) => e,
    }
}

#[test]
fn keeps_raw_bytes_verbatim() {
    assert_eq!(card(SIMPLE).as_bytes(), SIMPLE.as_bytes());
    assert_eq!(card(SIMPLE).into_bytes(), SIMPLE.as_bytes());
}

#[test]
fn parses_group_name_params_and_value() {
    let card = card(SIMPLE);
    let email = &card.properties()[4];
    assert_eq!(email.group(), Some("item1"));
    assert_eq!(email.name(), "EMAIL");
    assert_eq!(email.params().len(), 2);
    assert!(email.params()[1].is("TYPE"));
    assert_eq!(email.params()[1].name(), "type");
    assert_eq!(email.params()[1].values(), ["pref"]);
    assert_eq!(email.value(), "jane@example.com");
    assert_eq!(card.properties_named("x-ablabel").len(), 1);
}

#[test]
fn extracts_uid() {
    assert_eq!(card(SIMPLE).uid().as_str(), "ABC-123");
}

#[test]
fn unfolds_continuation_lines_and_tracks_span() {
    let text = "BEGIN:VCARD\nVERSION:3.0\nUID:u1\nNOTE:hello\n  world\nEND:VCARD\n";
    let card = card(text);
    let note = card.properties_named("NOTE")[0];
    assert_eq!(note.value(), "hello world");
    let (start, end) = note.span();
    assert_eq!(&card.as_bytes()[start..end], b"NOTE:hello\n  world\n");
    assert_eq!(note.line(), 4);
}

#[test]
fn fold_may_split_a_multibyte_character() {
    let raw: &[u8] = b"BEGIN:VCARD\r\nVERSION:3.0\r\nUID:u1\r\nFN:Ren\xC3\r\n \xA9e\r\nEND:VCARD\r\n";
    let card = VCard::parse(raw.to_vec()).expect("card parses");
    assert_eq!(card.properties_named("FN").first().map(|p: &&Property| p.value()), Some("Renée"));
}

#[test]
fn accepts_lf_blank_lines_and_missing_final_newline() {
    let card = card("BEGIN:VCARD\nVERSION:3.0\n\nUID:u1\nEND:VCARD");
    assert_eq!(card.properties().len(), 4);
}

#[test]
fn accepts_lowercase_structure() {
    assert_eq!(card("begin:vcard\nversion:3.0\nuid:u1\nend:vcard\n").uid().as_str(), "u1");
}

#[test]
fn quoted_param_value_may_contain_colon_and_semicolon() {
    let card = card("BEGIN:VCARD\nVERSION:3.0\nUID:u1\nX-TEST;X-PARAM=\"a:b;c\":value:with:colons\nEND:VCARD\n");
    let prop = card.properties_named("X-TEST")[0];
    assert_eq!(prop.params()[0].values(), ["a:b;c"]);
    assert_eq!(prop.value(), "value:with:colons");
}

#[test]
fn splits_comma_lists_and_treats_bare_params_as_type() {
    let card = card("BEGIN:VCARD\nVERSION:3.0\nUID:u1\nTEL;HOME;TYPE=VOICE,CELL:+1 555\nEND:VCARD\n");
    let tel = card.properties_named("TEL")[0];
    assert_eq!(tel.params()[0].name(), "TYPE");
    assert_eq!(tel.params()[0].values(), ["HOME"]);
    assert_eq!(tel.params()[1].values(), ["VOICE", "CELL"]);
}

#[test]
fn rejects_bad_structure() {
    assert_eq!(error(b""), VCardError::MissingBegin);
    assert_eq!(error(b"VERSION:3.0\nBEGIN:VCARD\nUID:u1\nEND:VCARD\n"), VCardError::MissingBegin);
    assert_eq!(error(b"BEGIN:VCARD\nVERSION:3.0\nUID:u1\n"), VCardError::MissingEnd);
    assert_eq!(
        error(b"BEGIN:VCARD\nVERSION:3.0\nUID:u1\nEND:VCARD\nBEGIN:VCARD\nEND:VCARD\n"),
        VCardError::MultipleCards
    );
    assert_eq!(
        error(b"BEGIN:VCARD\nVERSION:3.0\nUID:u1\nEND:VCARD\nNOTE:after\n"),
        VCardError::TrailingContent { line: 5 }
    );
    assert_eq!(error(b"BEGIN:VCARD\nUID:u1\nEND:VCARD\n"), VCardError::MissingVersion);
    assert_eq!(error(b"BEGIN:VCARD\nVERSION:3.0\nUID: \nEND:VCARD\n"), VCardError::MissingUid);
    assert_eq!(error(b"BEGIN:VCARD\nVERSION:3.0\nEND:VCARD\n"), VCardError::MissingUid);
}

#[test]
fn rejects_vcard_4() {
    assert_eq!(
        error(b"BEGIN:VCARD\nVERSION:4.0\nUID:u1\nEND:VCARD\n"),
        VCardError::UnsupportedVersion { version: "4.0".to_owned() }
    );
}

#[test]
fn reports_malformed_and_non_utf8_lines_by_number() {
    assert_eq!(
        error(b"BEGIN:VCARD\nVERSION:3.0\nNOTE no colon\nEND:VCARD\n"),
        VCardError::MalformedLine { line: 3 }
    );
    assert_eq!(error(b"BEGIN:VCARD\nVERSION:3.0\n:no name\nEND:VCARD\n"), VCardError::MalformedLine { line: 3 });
    assert_eq!(error(b"BEGIN:VCARD\nVERSION:3.0\nFN:\xFF\nEND:VCARD\n"), VCardError::InvalidUtf8 { line: 3 });
}

#[test]
fn errors_never_contain_card_content() {
    let malformed = error(b"BEGIN:VCARD\nVERSION:3.0\nNOTE secret-value\nEND:VCARD\n");
    assert!(!malformed.to_string().contains("secret"));
    let version = error(b"BEGIN:VCARD\nVERSION:4.0 secret\nUID:u1\nEND:VCARD\n");
    assert_eq!(version, VCardError::UnsupportedVersion { version: "4.0".to_owned() });
}

#[test]
fn debug_output_is_redacted() {
    let card = card(SIMPLE);
    let properties: Vec<String> = card.properties().iter().map(|p| p.debug_string()).collect();
    let debug = format!("{} {}", card.debug_string(), properties.join(", "));
    assert!(debug.contains("ABC-123"), "UID is loggable: {debug}");
    assert!(!debug.contains("jane@example.com"), "{debug}");
    assert!(!debug.contains("Jane"), "{debug}");
}

#[test]
fn param_debug_output_is_redacted() {
    let card = card("BEGIN:VCARD\nVERSION:3.0\nUID:u1\nX-TEST;X-SECRET=hunter2:v\nEND:VCARD\n");
    let prop = card.properties_named("X-TEST")[0];
    let params: Vec<String> = prop.params().iter().map(|p| p.debug_string()).collect();
    let debug = params.join(", ");
    assert!(!debug.contains("hunter2"), "{debug}");
}

#[test]
fn converts_into_core_error_as_invalid_input() {
    let err: Error = VCardError::MissingUid.into();
    assert_eq!(err.kind(), ErrorKind::InvalidInput);
}

#[test]
fn error_messages_name_the_line() {
    assert_eq!(VCardError::InvalidUtf8 { line: 12 }.to_string(), "vCard line 12 is not valid UTF-8");
    assert_eq!(VCardError::MalformedLine { line: 3 }.to_string(), "vCard line 3 is malformed");
    assert_eq!(
        VCardError::TrailingContent { line: 7 }.to_string(),
        "vCard has content after END:VCARD at line 7"
    );
    assert_eq!(
        VCardError::UnsupportedVersion { version: "4.0".to_owned() }.to_string(),
        "unsupported vCard version 4.0"
    );
    assert_eq!(VCardError::MissingUid.to_string(), "vCard has no UID");
}

#[test]
fn debug_forms_show_counts() {
    let card = card(SIMPLE);
    assert_eq!(
        card.debug_string(),
        format!("VCard {{ uid: Uid(\"ABC-123\"), properties: 8, bytes: {} }}", SIMPLE.len())
    );
    assert_eq!(
        card.properties()[4].debug_string(),
        "Property { group: Some(\"item1\"), name: \"EMAIL\", params: 2, value_len: 16, .. }"
    );
    assert_eq!(card.properties()[4].params()[0].debug_string(), "Param { name: \"type\", values: 1 }");
}

#[test]
fn byte_order_mark_is_skipped() {
    let card = card("\u{feff}BEGIN:VCARD\nVERSION:3.0\nUID:u1\nEND:VCARD\n");
    assert_eq!(card.uid().as_str(), "u1");
    assert_eq!(card.properties()[0].span(), (3, 15));
}

#[test]
fn clone_keeps_the_bytes() {
    let original = card(SIMPLE);
    let copy = original.clone();
    assert!(copy == original);
    assert_eq!(copy.as_bytes(), SIMPLE.as_bytes());
}
