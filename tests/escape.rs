use xlsx_headers::escape::{escaped_string, escaped_string_from, escaped_u8, escaped_u8_from};

#[test]
fn escaped_tab_is_one_byte() {
    assert_eq!(escaped_u8("\\t"), Ok(9));
    assert_eq!(escaped_u8(","), Ok(b','));
    assert_eq!(escaped_u8("\\x1f"), Ok(0x1f));
}

#[test]
fn escaped_u8_rejects_malformed_escape() {
    assert_eq!(escaped_u8("\\q"), Err("`\\q` is not a valid escape string.".to_string()));
}

#[test]
fn escaped_u8_rejects_more_than_one_byte() {
    assert_eq!(escaped_u8("ab"), Err("Specified by ASCII characters.".to_string()));
    assert_eq!(escaped_u8("\u{e9}"), Err("Specified by ASCII characters.".to_string()));
    assert_eq!(escaped_u8(""), Err("Specified by ASCII characters.".to_string()));
}

#[test]
fn escaped_u8_from_resolved_text() {
    assert_eq!(escaped_u8_from("x", Some(";".to_string())), Ok(b';'));
    assert_eq!(escaped_u8_from("\\z", None), Err("`\\z` is not a valid escape string.".to_string()));
}

#[test]
fn escaped_string_resolves_escapes() {
    assert_eq!(escaped_string("a\\nb\\t"), Ok("a\nb\t".to_string()));
    assert_eq!(escaped_string("\\u00e9"), Ok("\u{e9}".to_string()));
    assert_eq!(escaped_string("bad\\"), Err("`bad\\` is not a valid escape string.".to_string()));
}

#[test]
fn escaped_string_from_resolved_text() {
    assert_eq!(escaped_string_from("k", Some("v".to_string())), Ok("v".to_string()));
    assert_eq!(escaped_string_from("k", None), Err("`k` is not a valid escape string.".to_string()));
}
