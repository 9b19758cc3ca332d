use redis_subscribe::Registry;

#[test]
fn registry_holds_each_name_once() {
    let mut r = Registry::new();
    r.add_channel("a".to_string());
    r.add_channel("b".to_string());
    r.add_channel("a".to_string());
    r.add_pattern("a".to_string());
    assert_eq!(r.channels(), vec!["a".to_string(), "b".to_string()]);
    assert_eq!(r.patterns(), vec!["a".to_string()]);
}

#[test]
fn registry_removal_tells_whether_the_name_was_there() {
    let mut r = Registry::new();
    r.add_channel("a".to_string());
    r.add_channel("b".to_string());
    assert!(!r.remove_channel(&"c".to_string()));
    assert!(r.remove_channel(&"a".to_string()));
    assert!(!r.remove_channel(&"a".to_string()));
    assert_eq!(r.channels(), vec!["b".to_string()]);
    assert!(!r.remove_pattern(&"b".to_string()));
    r.add_pattern("p*".to_string());
    assert!(r.remove_pattern(&"p*".to_string()));
    assert!(r.patterns().is_empty());
}
