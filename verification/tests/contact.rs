use cardigan::contact::{ETag, Href, Side, Uid};

#[test]
fn side_other_flips() {
    assert_eq!(Side::ICloud.other(), Side::Fastmail);
    assert_eq!(Side::Fastmail.other(), Side::ICloud);
}

#[test]
fn side_round_trips_through_str() {
    for side in [Side::ICloud, Side::Fastmail] {
        assert_eq!(side.to_string().parse::<Side>(), Ok(side));
    }
    assert_eq!(Side::ICloud.as_str(), "icloud");
    assert_eq!(Side::Fastmail.as_str(), "fastmail");
}

#[test]
fn side_parse_is_case_insensitive() {
    assert_eq!("iCloud".parse::<Side>(), Ok(Side::ICloud));
    assert_eq!("FASTMAIL".parse::<Side>(), Ok(Side::Fastmail));
}

#[test]
fn side_parse_error_names_both_choices() {
    assert_eq!("google".parse::<Side>(), Err("expected `icloud` or `fastmail`, got `google`".to_owned()));
}

#[test]
fn string_ids_convert_and_display() {
    let uid = Uid::from("ABC-123");
    assert_eq!(uid.as_str(), "ABC-123");
    assert_eq!(uid.to_string(), "ABC-123");
    assert_eq!(Href::new(String::from("/card.vcf")).into_string(), "/card.vcf");
    assert_eq!(ETag::from("\"e1\"").as_str(), "\"e1\"");
}

#[test]
fn taking_the_other_side_twice_gives_the_side_back() {
    for side in [Side::ICloud, Side::Fastmail] {
        assert_ne!(side.other(), side);
        assert_eq!(side.other().other(), side);
    }
}

#[test]
fn side_names_parse_back_in_upper_case() {
    for side in [Side::ICloud, Side::Fastmail] {
        assert_eq!(Side::parse(&side.as_str().to_uppercase()), Ok(side));
    }
    assert_eq!(Side::parse(" icloud"), Err("expected `icloud` or `fastmail`, got ` icloud`".to_owned()));
}
