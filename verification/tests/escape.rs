use workbench::escape::{comment_safe, safe_segment, short_hash, short_hash_text, urlencode, xml_escape};

#[test]
fn urlencode_keeps_unreserved_bytes_and_encodes_the_rest() {
    assert_eq!(urlencode("main"), "main");
    assert_eq!(urlencode("a-b_c.d~e"), "a-b_c.d~e");
    assert_eq!(urlencode("a&b c/d"), "a%26b%20c%2Fd");
    assert_eq!(urlencode("é"), "%C3%A9");
    assert_eq!(urlencode(""), "");
}

#[test]
fn xml_escape_covers_the_markup_characters() {
    assert_eq!(xml_escape(r#"<a href="x">Tom & 'Jerry'</a>"#), "&lt;a href=&quot;x&quot;&gt;Tom &amp; &#39;Jerry&#39;&lt;/a&gt;");
    assert_eq!(xml_escape("plain"), "plain");
}

#[test]
fn a_comment_body_never_holds_a_double_hyphen_or_a_newline() {
    assert_eq!(comment_safe("a--b"), "a- -b");
    assert_eq!(comment_safe("x---y"), "x- - -y");
    assert_eq!(comment_safe("one\ntwo\rthree"), "one two three");
    assert_eq!(comment_safe("-\n-"), "- -");
}

#[test]
fn a_path_segment_keeps_only_safe_characters() {
    assert_eq!(safe_segment("Coffee Machine/v2.xmi"), "Coffee_Machine_v2.xmi");
    assert_eq!(safe_segment("ok-name_1.0"), "ok-name_1.0");
    assert_eq!(safe_segment("é"), "_");
}

#[test]
fn a_short_hash_is_its_first_eight_bytes() {
    assert_eq!(short_hash("0123456789abcdef"), "01234567");
    assert_eq!(short_hash("abc"), "abc");
    assert_eq!(short_hash_text("0123456789abcdef"), "01234567");
    assert_eq!(short_hash("ééééé"), "éééé");
    assert_eq!(short_hash("aéééé"), "aéééé");
}

#[test]
fn every_escape_is_a_percent_and_two_upper_case_hex_digits() {
    let encoded = urlencode("a%41 ü/\u{7f}");
    assert_eq!(encoded, "a%2541%20%C3%BC%2F%7F");
    let bytes = encoded.as_bytes();
    for (i, b) in bytes.iter().enumerate() {
        if *b == b'%' {
            assert!(bytes[i + 1].is_ascii_hexdigit() && !bytes[i + 1].is_ascii_lowercase());
            assert!(bytes[i + 2].is_ascii_hexdigit() && !bytes[i + 2].is_ascii_lowercase());
        }
    }
    assert_ne!(urlencode("a%41"), "a%41");
}
