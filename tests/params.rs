use web_dispatcher::Params;

fn one(name: &str, value: &str) -> Params {
    let mut p = Params::new();
    p.insert(name.to_string(), value.to_string());
    p
}

#[test]
fn stored_integer_reads_back() {
    let p = one("age", "42");
    assert_eq!(p.to_int("age"), Some(42));
    assert_eq!(p.to_i64("age"), Some(42));
    assert_eq!(p.to_u8("age"), Some(42));
}

#[test]
fn unparsable_integer_is_absent() {
    let p = one("age", "abc");
    assert_eq!(p.to_int("age"), None);
    assert_eq!(p.to_u32("age"), None);
}

#[test]
fn stored_boolean_reads_back() {
    let p = one("flag", "true");
    assert_eq!(p.to_bool("flag"), Some(true));
    assert_eq!(one("flag", "false").to_bool("flag"), Some(false));
    assert_eq!(one("flag", "True").to_bool("flag"), None);
    assert_eq!(one("flag", "1").to_bool("flag"), None);
}

#[test]
fn missing_key_is_absent() {
    let p = Params::new();
    assert_eq!(p.to_int("age"), None);
    assert_eq!(p.to_bool("age"), None);
    assert_eq!(p.to_string("age"), None);
    assert!(p.get("age").is_none());
}

#[test]
fn signs_follow_the_integer_grammar() {
    assert_eq!(one("n", "-17").to_i32("n"), Some(-17));
    assert_eq!(one("n", "+17").to_i32("n"), Some(17));
    assert_eq!(one("n", "+17").to_u16("n"), Some(17));
    assert_eq!(one("n", "-17").to_u16("n"), None);
    assert_eq!(one("n", "-0").to_uint("n"), None);
    assert_eq!(one("n", "-").to_i8("n"), None);
    assert_eq!(one("n", "+").to_i8("n"), None);
    assert_eq!(one("n", "").to_i8("n"), None);
    assert_eq!(one("n", "1 2").to_i8("n"), None);
    assert_eq!(one("n", "007").to_i8("n"), Some(7));
}

#[test]
fn integers_out_of_range_are_absent() {
    assert_eq!(one("n", "127").to_i8("n"), Some(127));
    assert_eq!(one("n", "128").to_i8("n"), None);
    assert_eq!(one("n", "-128").to_i8("n"), Some(-128));
    assert_eq!(one("n", "-129").to_i8("n"), None);
    assert_eq!(one("n", "255").to_u8("n"), Some(255));
    assert_eq!(one("n", "256").to_u8("n"), None);
    assert_eq!(one("n", "65535").to_u16("n"), Some(65535));
    assert_eq!(one("n", "-2147483648").to_i32("n"), Some(i32::MIN));
    assert_eq!(one("n", "4294967295").to_u32("n"), Some(u32::MAX));
    assert_eq!(one("n", "18446744073709551615").to_u64("n"), Some(u64::MAX));
    assert_eq!(one("n", "18446744073709551616").to_u64("n"), None);
    assert_eq!(one("n", "-9223372036854775808").to_i64("n"), Some(i64::MIN));
    assert_eq!(one("n", "9223372036854775808").to_i64("n"), None);
    assert_eq!(one("n", "99999999999999999999999999999999999999999").to_u64("n"), None);
    assert_eq!(one("n", "-99999999999999999999999999999999999999999").to_i64("n"), None);
}

#[test]
fn insert_replaces_and_keeps_keys_unique() {
    let mut p = Params::new();
    p.insert("a".to_string(), "1".to_string());
    p.insert("b".to_string(), "2".to_string());
    p.insert("a".to_string(), "3".to_string());
    assert_eq!(p.len(), 2);
    assert_eq!(p.get("a"), Some(&"3".to_string()));
    assert_eq!(p.to_string("b"), Some("2".to_string()));
}

#[test]
fn overlay_prefers_the_overlaid_map() {
    let mut base = Params::new();
    base.insert("a".to_string(), "1".to_string());
    base.insert("b".to_string(), "2".to_string());
    let mut top = Params::new();
    top.insert("b".to_string(), "20".to_string());
    top.insert("c".to_string(), "30".to_string());
    base.overlay(&top);
    assert_eq!(base.len(), 3);
    assert_eq!(base.to_int("a"), Some(1));
    assert_eq!(base.to_int("b"), Some(20));
    assert_eq!(base.to_int("c"), Some(30));
}

#[test]
fn from_pairs_keeps_the_last_value_of_a_name() {
    let pairs = vec![
        ("x".to_string(), "1".to_string()),
        ("y".to_string(), "2".to_string()),
        ("x".to_string(), "3".to_string()),
    ];
    let p = Params::from_pairs(&pairs);
    assert_eq!(p.len(), 2);
    assert_eq!(p.to_int("x"), Some(3));
    assert_eq!(p.to_int("y"), Some(2));
}
