use blockcheckw::firewall::nftables::{remove_rule_args, RuleHandle};
use blockcheckw::text::{join_strings, owned, str_eq};

#[test]
fn decimal_numerals() {
    assert_eq!(remove_rule_args("t", RuleHandle(0))[6], "0");
    assert_eq!(remove_rule_args("t", RuleHandle(7))[6], "7");
    assert_eq!(remove_rule_args("t", RuleHandle(1234567890))[6], "1234567890");
    assert_eq!(remove_rule_args("t", RuleHandle(u32::MAX))[6], u32::MAX.to_string());
}

#[test]
fn joining() {
    let parts = vec!["a".to_string(), "bc".to_string(), "".to_string()];
    assert_eq!(join_strings(&parts, ", "), "a, bc, ");
    assert_eq!(join_strings(&vec![], ", "), "");
    assert_eq!(join_strings(&vec!["x".to_string()], " "), "x");
}

#[test]
fn string_helpers() {
    assert_eq!(owned("héllo"), "héllo");
    assert!(str_eq("arm", "arm"));
    assert!(!str_eq("arm", "arm64"));
    assert!(!str_eq("abc", "abd"));
}
