use rustc_auto_publish::patcher::{
    alter_lib_rs, chars_of, find, find_opener, inject_feature, matches_at, opener_at,
    strip_diagnostics,
};

#[test]
fn feature_is_put_first_into_the_list() {
    assert_eq!(alter_lib_rs("\n#![feature(foo)]"), "\n#![feature(rustc_private, foo)]");
}

#[test]
fn other_lines_stay_as_they_are() {
    let text = "//! Docs.\n#![allow(dead_code)]\n#![feature(box_syntax, nll)]\n\npub mod ast;\n";
    let want =
        "//! Docs.\n#![allow(dead_code)]\n#![feature(rustc_private, box_syntax, nll)]\n\npub mod ast;\n";
    assert_eq!(alter_lib_rs(text), want);
}

#[test]
fn only_the_first_feature_list_is_changed() {
    let text = "\n#![feature(a)]\n#![feature(b)]\n";
    assert_eq!(alter_lib_rs(text), "\n#![feature(rustc_private, a)]\n#![feature(b)]\n");
}

#[test]
fn feature_list_on_the_first_line_is_patched() {
    assert_eq!(
        alter_lib_rs("#![feature(foo)]\nfn f() {}\n"),
        "#![feature(rustc_private, foo)]\nfn f() {}\n"
    );
    assert_eq!(alter_lib_rs("#![feature("), "#![feature(rustc_private, ");
}

#[test]
fn first_line_comes_before_later_lines() {
    let text = "#![feature(a)]\n#![feature(b)]\n";
    assert_eq!(alter_lib_rs(text), "#![feature(rustc_private, a)]\n#![feature(b)]\n");
}

#[test]
fn opener_inside_a_line_is_not_an_opener() {
    let text = "// #![feature(foo)]\n  #![feature(bar)]\nfn main() {}\n";
    assert_eq!(alter_lib_rs(text), text);
    let text = "x#![feature(a)]\n#![feature(b)]\n";
    assert_eq!(alter_lib_rs(text), "x#![feature(a)]\n#![feature(rustc_private, b)]\n");
}

#[test]
fn opener_is_found_at_the_start_of_lines_only() {
    assert_eq!(find_opener(&chars_of("#![feature(a)]")), Some(0));
    assert_eq!(find_opener(&chars_of("\n#![feature(a)]")), Some(1));
    assert_eq!(find_opener(&chars_of(" #![feature(a)]\n\n#![feature(")), Some(17));
    assert_eq!(find_opener(&chars_of(" #![feature(a)]")), None);
    assert_eq!(find_opener(&chars_of("#![feature")), None);
    assert_eq!(find_opener(&chars_of("")), None);
    let opener = chars_of("#![feature(");
    assert!(opener_at(&chars_of("a\n#![feature(x"), &opener, 2));
    assert!(!opener_at(&chars_of("ab#![feature(x"), &opener, 2));
    assert!(!opener_at(&chars_of("a\n#![featurf(x"), &opener, 2));
}

#[test]
fn macro_call_and_what_follows_is_cut() {
    let text = "pub mod a;\n\n__build_diagnostic_array! { librustc, DIAGNOSTICS }\npub mod b;\n";
    assert_eq!(alter_lib_rs(text), "pub mod a;\n\nfn _foo() {}\n");
}

#[test]
fn both_patterns() {
    let text = "// x\n#![feature(foo)]\nmod m;\n__build_diagnostic_array! { a, B }\n";
    assert_eq!(alter_lib_rs(text), "// x\n#![feature(rustc_private, foo)]\nmod m;\nfn _foo() {}\n");
}

#[test]
fn text_without_patterns_is_unchanged() {
    let text = "pub fn f() -> u32 { 1 }\n";
    assert_eq!(alter_lib_rs(text), text);
    assert_eq!(alter_lib_rs(""), "");
}

#[test]
fn patched_text_without_macro_is_patched_once_more_only_in_the_feature_list() {
    let once = alter_lib_rs("mod a;\n__build_diagnostic_array! { x }\n");
    assert_eq!(once, "mod a;\nfn _foo() {}\n");
    assert_eq!(alter_lib_rs(&once), once);
}

#[test]
fn text_beyond_ascii() {
    let text = "// caf\u{e9} \u{1f980}\n#![feature(foo)]\n// \u{3b1}\n__build_diagnostic_array! {}";
    let want = "// caf\u{e9} \u{1f980}\n#![feature(rustc_private, foo)]\n// \u{3b1}\nfn _foo() {}\n";
    assert_eq!(alter_lib_rs(text), want);
}

#[test]
fn the_two_steps_alone() {
    assert_eq!(inject_feature("a\n#![feature(x)]"), "a\n#![feature(rustc_private, x)]");
    assert_eq!(inject_feature("nothing"), "nothing");
    assert_eq!(strip_diagnostics("a __build_diagnostic_array! { b"), "a fn _foo() {}\n");
    assert_eq!(strip_diagnostics("__build_diagnostic_array!"), "__build_diagnostic_array!");
}

#[test]
fn find_gives_the_first_position() {
    let text = chars_of("abcabc");
    assert_eq!(find(&text, &chars_of("bc")), Some(1));
    assert_eq!(find(&text, &chars_of("abc")), Some(0));
    assert_eq!(find(&text, &chars_of("c")), Some(2));
    assert_eq!(find(&text, &chars_of("cb")), None);
    assert_eq!(find(&text, &chars_of("abcabcd")), None);
    assert_eq!(find(&text, &chars_of("abcabc")), Some(0));
    assert_eq!(find(&text, &chars_of("")), Some(0));
    assert_eq!(find(&chars_of(""), &chars_of("")), Some(0));
    assert_eq!(find(&chars_of(""), &chars_of("a")), None);
}

#[test]
fn matches_at_compares_in_place() {
    let text = chars_of("hello");
    assert!(matches_at(&text, &chars_of("ell"), 1));
    assert!(!matches_at(&text, &chars_of("ell"), 2));
    assert!(matches_at(&text, &chars_of(""), 5));
}

#[test]
fn chars_of_counts_characters() {
    assert_eq!(chars_of("a\u{e9}\u{1f980}"), vec!['a', '\u{e9}', '\u{1f980}']);
}
