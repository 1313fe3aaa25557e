use cardigan::text::join_with_exec;
use cardigan::vcard::escape::{split_components, unescape};

#[test]
fn unescape_handles_rfc_2426_escapes() {
    assert_eq!(unescape("a\\,b\\;c\\\\d\\ne\\Nf"), "a,b;c\\d\ne\nf");
    assert_eq!(unescape("trailing\\"), "trailing\\");
}

#[test]
fn split_components_ignores_escaped_semicolons() {
    assert_eq!(split_components("Smith\\; Sons;Sales;"), ["Smith\\; Sons", "Sales", ""]);
    assert_eq!(split_components("single"), ["single"]);
}

#[test]
fn split_components_always_has_a_first_component() {
    assert_eq!(split_components(""), [""]);
    assert_eq!(split_components(";"), ["", ""]);
}

#[test]
fn join_with_separates_by_the_text() {
    assert_eq!(join_with_exec(&vec!["A", "B", "C"], ", "), "A, B, C");
    assert_eq!(join_with_exec(&vec!["only"], ", "), "only");
    assert_eq!(join_with_exec(&vec![], ", "), "");
}
