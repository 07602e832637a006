use mission_center::text::{
    chars_of, decimal_string, has_prefix, hex4_string, join_strings, lex_less,
    same_ignoring_ascii_case, signed_decimal_string, split_nonempty,
};

fn strings(list: &[&str]) -> Vec<String> {
    list.iter().map(|s| s.to_string()).collect()
}

#[test]
fn splitting_keeps_the_non_empty_pieces_in_order() {
    assert_eq!(split_nonempty("a;b;;c", ';'), strings(&["a", "b", "c"]));
    assert_eq!(split_nonempty(";a;", ';'), strings(&["a"]));
    assert_eq!(split_nonempty("abc", ';'), strings(&["abc"]));
    assert_eq!(split_nonempty("", ';'), Vec::<String>::new());
    assert_eq!(split_nonempty("é;ü", ';'), strings(&["é", "ü"]));
}

#[test]
fn splitting_undoes_joining() {
    let parts = strings(&["disk-sda", "net-eth0", "cpu"]);
    let text = join_strings(&parts, ";");
    assert_eq!(text, "disk-sda;net-eth0;cpu");
    assert_eq!(split_nonempty(&text, ';'), parts);
}

#[test]
fn numbers_render_as_display_prints_them() {
    assert_eq!(decimal_string(0), "0");
    assert_eq!(decimal_string(1234567890), "1234567890");
    assert_eq!(signed_decimal_string(-15), "-15");
    assert_eq!(signed_decimal_string(i32::MIN), "-2147483648");
    assert_eq!(hex4_string(0x1c), "001c");
    assert_eq!(hex4_string(0x10de), "10de");
    assert_eq!(hex4_string(0x12345), "12345");
}

#[test]
fn string_comparisons() {
    assert!(lex_less(&chars_of("disk-a"), &chars_of("disk-b")));
    assert!(lex_less(&chars_of("disk"), &chars_of("disk-a")));
    assert!(!lex_less(&chars_of("net"), &chars_of("disk")));
    assert!(has_prefix(&chars_of("memory"), "mem"));
    assert!(!has_prefix(&chars_of("me"), "mem"));
    assert!(same_ignoring_ascii_case(&chars_of("Not Specified"), "not specified"));
    assert!(!same_ignoring_ascii_case(&chars_of("None "), "none"));
}
