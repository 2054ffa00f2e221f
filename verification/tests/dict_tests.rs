use opencc_jieba_rs::DictMap;

#[test]
fn dict_map_insert_and_get_test() {
    let mut d = DictMap::new();
    d.insert_with_len("漢字".to_string(), "汉字".to_string(), 2);
    assert_eq!(d.get("漢字"), Some("汉字"));
    assert_eq!(d.get("漢"), None);
    assert!(d.has_key_len(2));
    assert!(!d.has_key_len(1));
}

#[test]
fn dict_map_last_write_wins_test() {
    let mut d = DictMap::new();
    d.insert_with_len("里".to_string(), "裏".to_string(), 1);
    d.insert_with_len("里".to_string(), "裡".to_string(), 1);
    assert_eq!(d.get("里"), Some("裡"));
}

#[test]
fn dict_map_key_len_gating_test() {
    let mut d = DictMap::new();
    d.insert_with_len("a".to_string(), "x".to_string(), 1);
    d.insert_with_len("ab".to_string(), "xy".to_string(), 2);
    let k64: String = std::iter::repeat('k').take(64).collect();
    let k65: String = std::iter::repeat('k').take(65).collect();
    d.insert_with_len(k64, "v".to_string(), 64);
    d.insert_with_len(k65, "v".to_string(), 65);
    assert!(!d.has_key_len(0));
    assert!(d.has_key_len(1));
    assert!(d.has_key_len(2));
    assert!(!d.has_key_len(3));
    assert!(d.has_key_len(64));
    assert!(d.has_key_len(65));
    assert!(!d.has_key_len(66));
    assert_eq!(d.min_len, 1);
    assert_eq!(d.max_len, 65);
}

#[test]
fn dict_map_empty_test() {
    let d = DictMap::new();
    assert_eq!(d.min_len, 0);
    assert_eq!(d.max_len, 0);
    assert_eq!(d.get("anything"), None);
    for n in 0..70u16 {
        assert!(!d.has_key_len(n));
    }
}

#[test]
fn from_text_basic_test() {
    let d = DictMap::from_text("漢字 汉字\n龍 龙 ignored surplus\n");
    assert_eq!(d.get("漢字"), Some("汉字"));
    assert_eq!(d.get("龍"), Some("龙"));
    assert!(d.has_key_len(1));
    assert!(d.has_key_len(2));
}

#[test]
fn from_text_malformed_lines_test() {
    // single-token and empty lines are skipped, later lines override
    let d = DictMap::from_text("lonely\n\n   \nkey v1\nkey v2\n");
    assert_eq!(d.get("lonely"), None);
    assert_eq!(d.get("key"), Some("v2"));
}

#[test]
fn from_text_crlf_test() {
    let d = DictMap::from_text("龍 龙\r\n馬 马\r\n");
    assert_eq!(d.get("龍"), Some("龙"));
    assert_eq!(d.get("馬"), Some("马"));
}

#[test]
fn from_text_empty_test() {
    let d = DictMap::from_text("");
    assert_eq!(d.get(""), None);
    assert_eq!(d.min_len, 0);
    assert_eq!(d.max_len, 0);
}
