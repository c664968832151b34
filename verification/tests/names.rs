use call_stack::names::{dehash, is_outlined_function, is_tag, strip_version, Escaper};
use call_stack::shorten::hash_prefix;
use call_stack::target::Target;

#[test]
fn dehash_strips_a_hash_suffix() {
    assert_eq!(dehash("foo::bar::hfc5adc5d79855638"), Some("foo::bar"));
    assert_eq!(dehash("a::h0123456789ABCDEF"), Some("a"));
}

#[test]
fn dehash_leaves_other_names_alone() {
    assert_eq!(dehash("foo::bar"), None);
    assert_eq!(dehash(""), None);
    // nothing stands before the suffix
    assert_eq!(dehash("::hfc5adc5d79855638"), None);
    // fifteen digits only
    assert_eq!(dehash("foo::hfc5adc5d7985563"), None);
    // the suffix does not start with the introducer
    assert_eq!(dehash("foo:.hfc5adc5d79855638"), None);
    // not a hexadecimal digit
    assert_eq!(dehash("foo::hfc5adc5d7985563g"), None);
}

#[test]
fn outlined_functions_are_recognised() {
    assert!(is_outlined_function("OUTLINED_FUNCTION_0"));
    assert!(is_outlined_function("OUTLINED_FUNCTION_123"));
    assert!(!is_outlined_function("OUTLINED_FUNCTION_"));
    assert!(!is_outlined_function("OUTLINED_FUNCTION_1a"));
    assert!(!is_outlined_function("OUTLINED_FUNCTION"));
    assert!(!is_outlined_function("outlined_function_1"));
    assert!(!is_outlined_function("main"));
}

#[test]
fn tags_are_recognised() {
    assert!(is_tag("$a"));
    assert!(is_tag("$a.12"));
    assert!(is_tag("$x"));
    assert!(is_tag("$x.0"));
    assert!(!is_tag("$t"));
    assert!(!is_tag("$d.3"));
    assert!(!is_tag("$ab"));
    assert!(!is_tag("main"));
    assert!(!is_tag(""));
}

#[test]
fn versions_are_stripped() {
    assert_eq!(strip_version("memcpy@@GLIBC_2.14"), "memcpy");
    assert_eq!(strip_version("memcpy"), "memcpy");
    assert_eq!(strip_version("memcpy@GLIBC_2.2.5"), "memcpy@GLIBC_2.2.5");
    assert_eq!(strip_version("a@@b@@c"), "a");
    assert_eq!(strip_version("a@@@b"), "a");
    assert_eq!(strip_version("a@b@@c"), "a@b");
    assert_eq!(strip_version("@@v"), "");
    assert_eq!(strip_version(""), "");
}

#[test]
fn escaper_puts_a_backslash_before_quotes() {
    let mut e = Escaper::new(String::from("label="));
    e.write_str("say \"hi\"");
    e.write_char('"');
    e.write_char('x');
    assert_eq!(e.finish(), "label=say \\\"hi\\\"\\\"x");
}

#[test]
fn escaper_keeps_other_text() {
    let mut e = Escaper::new(String::new());
    e.write_str("<T as core::fmt::Debug>::fmt");
    assert_eq!(e.finish(), "<T as core::fmt::Debug>::fmt");
}

#[test]
fn thumb_targets_are_told_from_others() {
    assert!(Target::Thumbv6m.is_thumb());
    assert!(Target::Thumbv7m.is_thumb());
    assert!(!Target::Other.is_thumb());
    assert_eq!(Target::from_triple("thumbv6m-none-eabi"), Target::Thumbv6m);
    assert_eq!(Target::from_triple("thumbv7m-none-eabi"), Target::Thumbv7m);
    assert_eq!(Target::from_triple("thumbv7em-none-eabi"), Target::Thumbv7m);
    assert_eq!(Target::from_triple("thumbv7em-none-eabihf"), Target::Thumbv7m);
    assert_eq!(Target::from_triple("x86_64-unknown-linux-gnu"), Target::Other);
    assert_eq!(Target::from_triple(""), Target::Other);
}

#[test]
fn hash_prefix_demangles_first() {
    assert_eq!(
        hash_prefix("_ZN3foo3bar17h0123456789abcdefE"),
        Some(String::from("foo::bar"))
    );
    assert_eq!(hash_prefix("main"), None);
    assert_eq!(hash_prefix("_ZN3foo3barE"), None);
}
