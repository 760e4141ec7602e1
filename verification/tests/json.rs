//! Documents as the JSON parser reads them.

use roomeq_temporal::ieee::Double;
use roomeq_temporal::json::{parse, parse_with_member_text, Json, JsonNumber};

fn value(text: &str) -> Json {
    parse(text.as_bytes()).unwrap()
}

#[test]
fn members_and_items_are_found_or_null() {
    let document = value(r#"{"a":[1,-2,0.5,"x",true,null],"b":{"c":"d"}}"#);
    assert_eq!(document.member("b").member("c").as_text(), Some("d"));
    assert!(document.member("b").is_text("c") == false);
    assert!(document.member("b").member("c").is_text("d"));
    assert!(document.member("missing").is_null());
    assert!(document.member("a").member("a").is_null());
    let items = document.member("a");
    assert_eq!(items.as_items().unwrap().len(), 6);
    assert_eq!(items.item(0).as_integer(), Some(1));
    assert!(items.item(0).is_integer(1));
    assert_eq!(items.item(1).as_integer(), None);
    assert_eq!(items.item(2).as_integer(), None);
    assert_eq!(items.item(2).as_double(), Some(Double { bits: 0.5_f64.to_bits() }));
    assert_eq!(items.item(1).as_double(), Some(Double { bits: (-2.0_f64).to_bits() }));
    assert_eq!(items.item(0).as_double(), Some(Double { bits: 1.0_f64.to_bits() }));
    assert_eq!(items.item(3).as_double(), None);
    assert!(items.item(4).is_true());
    assert!(items.item(5).is_null());
    assert!(items.item(6).is_null());
    assert!(document.as_items().is_none());
}

#[test]
fn numbers_keep_their_kind() {
    assert!(matches!(value("3"), Json::Number(JsonNumber::Unsigned(3))));
    assert!(matches!(value("-3"), Json::Number(JsonNumber::Negative(-3))));
    assert!(matches!(value("3.0"), Json::Number(JsonNumber::Fraction(_))));
    assert!(matches!(
        value("18446744073709551615"),
        Json::Number(JsonNumber::Unsigned(u64::MAX))
    ));
}

#[test]
fn values_are_the_same_whatever_the_order_of_members() {
    assert!(value(r#"{"a":1,"b":[2,{"c":null}]}"#).same(&value(r#"{"b":[2,{"c":null}],"a":1}"#)));
    assert!(!value(r#"{"a":1}"#).same(&value(r#"{"a":1.0}"#)));
    assert!(!value(r#"{"a":1}"#).same(&value(r#"{"a":1,"b":2}"#)));
    assert!(!value("[1,2]").same(&value("[2,1]")));
    assert!(value("0.0").same(&value("-0.0")));
    assert!(value("\"x\"").same(&value("\"x\"")));
    assert!(!value("true").same(&value("null")));
}

#[test]
fn the_last_of_equal_members_counts() {
    assert_eq!(value(r#"{"a":1,"a":2}"#).member("a").as_integer(), Some(2));
}

#[test]
fn text_that_is_no_document_is_refused() {
    for text in ["", "{", "[1,]", "{\"a\"}", "nul", "1 2"] {
        assert!(parse(text.as_bytes()).is_err(), "{text:?}");
    }
    assert!(parse_with_member_text(b"{", "a").is_err());
}

#[test]
fn a_member_is_written_out_compactly() {
    let (document, text) =
        parse_with_member_text(b"{ \"b\" : [ 1, { \"z\" : 1.50, \"a\" : \"\\u00e9\" } ] }", "b")
            .unwrap();
    assert_eq!(document.member("b").item(0).as_integer(), Some(1));
    assert_eq!(String::from_utf8(text).unwrap(), "[1,{\"z\":1.5,\"a\":\"\u{e9}\"}]");
    let (_, text) = parse_with_member_text(b"{}", "b").unwrap();
    assert_eq!(text, b"null");
}
