use xlsx_img_locator::strutil::basename_of;
use xlsx_img_locator::strutil::ext_lower;
use xlsx_img_locator::strutil::ext_of;
use xlsx_img_locator::strutil::i64_to_string;
use xlsx_img_locator::strutil::join_path;
use xlsx_img_locator::strutil::parse_i64;
use xlsx_img_locator::strutil::str_ends_with;
use xlsx_img_locator::strutil::str_eq;
use xlsx_img_locator::strutil::to_ascii_lower;
use xlsx_img_locator::strutil::u64_to_string;

#[test]
fn parse_i64_plain_digits() {
    assert_eq!(parse_i64("0"), Some(0));
    assert_eq!(parse_i64("42"), Some(42));
    assert_eq!(parse_i64("0012"), Some(12));
}

#[test]
fn parse_i64_signs() {
    assert_eq!(parse_i64("-12"), Some(-12));
    assert_eq!(parse_i64("+7"), Some(7));
    assert_eq!(parse_i64("-0"), Some(0));
}

#[test]
fn parse_i64_rejects_malformed() {
    assert_eq!(parse_i64(""), None);
    assert_eq!(parse_i64("-"), None);
    assert_eq!(parse_i64("+"), None);
    assert_eq!(parse_i64("12a"), None);
    assert_eq!(parse_i64(" 12"), None);
    assert_eq!(parse_i64("1.5"), None);
}

#[test]
fn parse_i64_range_edges() {
    assert_eq!(parse_i64("9223372036854775807"), Some(i64::MAX));
    assert_eq!(parse_i64("9223372036854775808"), None);
    assert_eq!(parse_i64("-9223372036854775808"), Some(i64::MIN));
    assert_eq!(parse_i64("-9223372036854775809"), None);
    assert_eq!(parse_i64("00000000000000000000001"), Some(1));
    assert_eq!(parse_i64("99999999999999999999"), None);
}

#[test]
fn parse_i64_agrees_with_std() {
    for s in ["17", "-300", "abc", "2147483648", "000", "+0009"] {
        assert_eq!(parse_i64(s), s.parse::<i64>().ok());
    }
}

#[test]
fn int_to_string_renders_decimal() {
    assert_eq!(u64_to_string(0).as_str(), "0");
    assert_eq!(u64_to_string(907).as_str(), "907");
    assert_eq!(i64_to_string(-35).as_str(), "-35");
    assert_eq!(i64_to_string(i64::MIN).as_str(), "-9223372036854775808");
    assert_eq!(i64_to_string(i64::MAX).as_str(), "9223372036854775807");
}

#[test]
fn basename_takes_final_component() {
    assert_eq!(basename_of("../media/image1.png"), "image1.png");
    assert_eq!(basename_of("image1.png"), "image1.png");
    assert_eq!(basename_of("a/b/"), "");
    assert_eq!(basename_of(""), "");
}

#[test]
fn ext_takes_part_after_last_dot() {
    assert_eq!(ext_of("a/b/sheet1.xml.rels"), "rels");
    assert_eq!(ext_of("book.XLSX"), "XLSX");
    assert_eq!(ext_of("noext"), "");
    assert_eq!(ext_of(".hidden"), "");
    assert_eq!(ext_of("dir.d/noext"), "");
}

#[test]
fn ext_lower_lowercases_ascii() {
    assert_eq!(ext_lower("Book1.XLSX").as_str(), "xlsx");
    assert_eq!(ext_lower("x.Rels").as_str(), "rels");
    assert_eq!(to_ascii_lower("AbC-09z").as_str(), "abc-09z");
}

#[test]
fn join_inserts_separator() {
    assert_eq!(join_path("/tmp/stage/xl/media", "image1.png").as_str(), "/tmp/stage/xl/media/image1.png");
}

#[test]
fn string_comparisons() {
    assert!(str_eq("abc", "abc"));
    assert!(!str_eq("abc", "abd"));
    assert!(!str_eq("abc", "ab"));
    assert!(str_ends_with("relationships/drawing", "/drawing"));
    assert!(!str_ends_with("drawing", "relationships/drawing"));
}
