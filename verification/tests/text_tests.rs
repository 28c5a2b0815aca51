use voxelshape_conv::text::decimal_string;
use voxelshape_conv::text::find_char;
use voxelshape_conv::text::find_str;
use voxelshape_conv::text::repeat_char;
use voxelshape_conv::text::starts_with;
use voxelshape_conv::text::str_eq;
use voxelshape_conv::text::trim;

#[test]
fn find_char_first_hit() {
    assert_eq!(find_char("abcabc", 'b'), Some(1));
    assert_eq!(find_char("abc", 'z'), None);
    assert_eq!(find_char("", 'a'), None);
}

#[test]
fn find_str_first_hit() {
    assert_eq!(find_str("one two two", "two"), Some(4));
    assert_eq!(find_str("abc", "abcd"), None);
    assert_eq!(find_str("abc", ""), Some(0));
    assert_eq!(find_str("aaab", "ab"), Some(2));
}

#[test]
fn str_eq_compares_contents() {
    assert!(str_eq("same", "same"));
    assert!(!str_eq("same", "Same"));
    assert!(!str_eq("ab", "abc"));
    assert!(str_eq("", ""));
}

#[test]
fn starts_with_checks_prefix() {
    assert!(starts_with("blockstate", "block"));
    assert!(!starts_with("blob", "block"));
    assert!(starts_with("x", ""));
}

#[test]
fn trim_strips_both_ends() {
    assert_eq!(trim("  padded \t"), "padded");
    assert_eq!(trim("bare"), "bare");
    assert_eq!(trim(" \t\r\n "), "");
    assert_eq!(trim(""), "");
}

#[test]
fn repeat_char_builds_runs() {
    assert_eq!(repeat_char('x', 3), "xxx");
    assert_eq!(repeat_char('x', 0), "");
}

#[test]
fn decimal_rendering() {
    assert_eq!(decimal_string(0), "0");
    assert_eq!(decimal_string(7), "7");
    assert_eq!(decimal_string(42), "42");
    assert_eq!(decimal_string(1000), "1000");
    assert_eq!(decimal_string(2147483646), "2147483646");
}
