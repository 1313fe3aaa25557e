use cardigan::vcard::photo::decoded_len;
use cardigan::vcard::{HashOptions, VCard};

fn card(text: &str) -> VCard {
    VCard::parse(text.as_bytes().to_vec()).expect("card parses")
}

fn with_body(body: &str) -> String {
    format!("BEGIN:VCARD\r\nVERSION:3.0\r\nUID:u1\r\nFN:Jane\r\n{body}END:VCARD\r\n")
}

#[test]
fn photo_size_estimates_decoded_bytes() {
    assert_eq!(card(&with_body("PHOTO;ENCODING=b;TYPE=JPEG:QUJDQUJD\r\n")).photo_size(), Some(6));
    assert_eq!(card(&with_body("PHOTO;ENCODING=b:QUI=\r\n")).photo_size(), Some(2));
    assert_eq!(card(&with_body("PHOTO;ENCODING=b:QQ==\r\n")).photo_size(), Some(1));
    assert_eq!(card(&with_body("PHOTO;ENCODING=b:QUJD\r\n QUJD\r\n")).photo_size(), Some(6));
    assert_eq!(card(&with_body("photo;encoding=BASE64:QUJD\r\n")).photo_size(), Some(3));
}

#[test]
fn cards_without_embedded_photo_have_no_size() {
    assert_eq!(card(&with_body("")).photo_size(), None);
    assert_eq!(card(&with_body("PHOTO;VALUE=uri:https://example.com/p.jpg\r\n")).photo_size(), None);
}

#[test]
fn strip_photo_removes_only_embedded_photo_lines() {
    let original = with_body("item1.X-ABLabel:keep\r\nPHOTO;ENCODING=b;TYPE=JPEG:QUJD\r\n QUJD\r\nX-UNKNOWN;X-P=1:keep too\r\n");
    let stripped = card(&original).strip_photo();
    assert_eq!(stripped.as_bytes(), with_body("item1.X-ABLabel:keep\r\nX-UNKNOWN;X-P=1:keep too\r\n").as_bytes());
    assert_eq!(stripped.photo_size(), None);
    assert_eq!(stripped.uid().as_str(), "u1");
}

#[test]
fn strip_photo_keeps_uri_photos() {
    let original = with_body("PHOTO;VALUE=uri:https://example.com/p.jpg\r\n");
    assert_eq!(card(&original).strip_photo().as_bytes(), original.as_bytes());
}

#[test]
fn stripped_card_hashes_equal_when_photo_excluded() {
    let original = card(&with_body("PHOTO;ENCODING=b;TYPE=JPEG:QUJD\r\n"));
    let stripped = original.strip_photo();
    let exclude = HashOptions { exclude_photo: true };
    assert!(original.canonical_hash(exclude) == stripped.canonical_hash(exclude));
    assert!(original.canonical_hash(HashOptions::default()) != stripped.canonical_hash(HashOptions::default()));
}

#[test]
fn several_photos_add_up() {
    let text = with_body("PHOTO;ENCODING=b:QUJD\r\nPHOTO;ENCODING=B:QUJDQUJD\r\n");
    assert_eq!(card(&text).photo_size(), Some(9));
    assert_eq!(card(&text).strip_photo().as_bytes(), with_body("").as_bytes());
}

#[test]
fn decoded_length_ignores_white_space_and_padding() {
    assert_eq!(decoded_len("QUJD"), 3);
    assert_eq!(decoded_len(" QU\tJD\r\n"), 3);
    assert_eq!(decoded_len("QQ=="), 1);
    assert_eq!(decoded_len("===="), 0);
    assert_eq!(decoded_len(""), 0);
    assert_eq!(decoded_len("Q"), 0);
}

#[test]
fn strip_photo_keeps_the_other_properties_in_order() {
    let text = with_body("PHOTO;ENCODING=b:QUJD\r\nNOTE:between\r\nPHOTO;ENCODING=b:QUJD\r\n QUJD\r\nX-TAIL:last\r\n");
    let original = card(&text);
    let stripped = original.strip_photo();
    assert_eq!(stripped.uid().as_str(), original.uid().as_str());
    let names: Vec<String> = stripped.properties().iter().map(|p| p.name().to_string()).collect();
    assert_eq!(names, vec!["BEGIN", "VERSION", "UID", "FN", "NOTE", "X-TAIL", "END"]);
    assert_eq!(stripped.properties_named("PHOTO").len(), 0);
}
