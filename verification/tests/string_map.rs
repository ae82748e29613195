use zjide_manager::text::{push_decimal, str_less, to_chars, trim_range};
use zjide_manager::StrMap;

#[test]
fn map_keeps_keys_in_order_and_replaces() {
    let mut m: StrMap<u32> = StrMap::new();
    m.insert("zen".to_string(), 1);
    m.insert("BASE".to_string(), 2);
    m.insert("no_sidebar".to_string(), 3);
    m.insert("zen".to_string(), 4);
    assert_eq!(m.len(), 3);
    let keys: Vec<&str> = (0..m.len()).map(|i| m.key_at(i).as_str()).collect();
    assert_eq!(keys, vec!["BASE", "no_sidebar", "zen"]);
    assert_eq!(m.get("zen"), Some(&4));
    assert_eq!(m.get("BASE"), Some(&2));
    assert_eq!(m.get("base"), None);
    assert!(m.contains_key("no_sidebar"));
    assert_eq!(m.find("no_sidebar"), Some(1));
}

#[test]
fn string_order_is_btreemap_order() {
    let words = ["b", "a", "B", "ab", "", "\u{e9}", "z", "zen", "ze"];
    for x in words {
        for y in words {
            assert_eq!(str_less(x, y), x < y, "{x:?} {y:?}");
        }
    }
}

#[test]
fn decimal_digits() {
    let mut s = String::from("x=");
    push_decimal(&mut s, 0);
    assert_eq!(s, "x=0");
    let mut s = String::new();
    push_decimal(&mut s, 18446744073709551615);
    assert_eq!(s, "18446744073709551615");
    let mut s = String::new();
    push_decimal(&mut s, 1020);
    assert_eq!(s, "1020");
}

#[test]
fn trim_matches_str_trim() {
    let raw = " \u{3000}\t a b \u{85}\n";
    let v = to_chars(raw);
    let (a, b) = trim_range(&v, 0, v.len());
    let got: String = v[a..b].iter().collect();
    assert_eq!(got, raw.trim());
}

#[test]
fn map_clone_keeps_entries() {
    let mut m: StrMap<String> = StrMap::new();
    m.insert("b".to_string(), "two".to_string());
    m.insert("a".to_string(), "one".to_string());
    let c = m.clone();
    m.insert("a".to_string(), "changed".to_string());
    assert_eq!(c.len(), 2);
    assert_eq!(c.key_at(0), "a");
    assert_eq!(c.get("a").unwrap(), "one");
    assert_eq!(c.get("b").unwrap(), "two");
    assert_eq!(m.get("a").unwrap(), "changed");
}
