use redundant_env::order::{bytes_less, text_eq, text_less};
use redundant_env::{Entry, Environment};

#[test]
fn a_new_environment_is_empty() {
    let env = Environment::new();
    assert_eq!(env.len(), 0);
    assert!(env.is_empty());
    assert_eq!(env.get("bootdelay"), None);
    assert!(env.entries().is_empty());
}

#[test]
fn insert_sets_a_key_and_returns_what_it_had() {
    let mut env = Environment::new();
    assert_eq!(env.insert("bootdelay".to_string(), "0".to_string()), None);
    assert_eq!(env.get("bootdelay"), Some("0"));
    assert_eq!(env.insert("bootdelay".to_string(), "5".to_string()), Some("0".to_string()));
    assert_eq!(env.get("bootdelay"), Some("5"));
    assert_eq!(env.len(), 1);
    assert!(!env.is_empty());
}

#[test]
fn insert_leaves_the_other_keys_alone() {
    let mut env = Environment::new();
    env.insert("b".to_string(), "2".to_string());
    env.insert("a".to_string(), "1".to_string());
    env.insert("c".to_string(), "3".to_string());
    env.insert("b".to_string(), "two".to_string());
    assert_eq!(env.len(), 3);
    assert_eq!(env.get("a"), Some("1"));
    assert_eq!(env.get("b"), Some("two"));
    assert_eq!(env.get("c"), Some("3"));
    assert_eq!(env.get("d"), None);
    assert_eq!(env.get("ab"), None);
}

#[test]
fn entries_come_in_ascending_key_order() {
    let mut env = Environment::new();
    for key in ["m", "z", "a", "mm", "", "B", "é", "b"] {
        env.insert(key.to_string(), key.to_uppercase());
    }
    let keys: Vec<&str> = env.entries().iter().map(|e| e.key.as_str()).collect();
    assert_eq!(keys, vec!["", "B", "a", "b", "m", "mm", "z", "é"]);
    assert_eq!(
        env.entries()[1],
        Entry { key: "B".to_string(), value: "B".to_string() }
    );
}

#[test]
fn environments_with_the_same_entries_are_equal() {
    let mut one = Environment::new();
    one.insert("a".to_string(), "1".to_string());
    one.insert("b".to_string(), "2".to_string());
    let mut other = Environment::new();
    other.insert("b".to_string(), "0".to_string());
    other.insert("a".to_string(), "1".to_string());
    assert_ne!(one, other);
    other.insert("b".to_string(), "2".to_string());
    assert_eq!(one, other);
}

#[test]
fn a_clone_has_the_same_entries() {
    let mut env = Environment::new();
    env.insert("a".to_string(), "1".to_string());
    env.insert("b".to_string(), "2".to_string());
    let copy = env.clone();
    assert_eq!(copy, env);
    env.insert("a".to_string(), "0".to_string());
    assert_eq!(copy.get("a"), Some("1"));
    assert_eq!(copy.entries()[1].clone(), Entry { key: "b".to_string(), value: "2".to_string() });
}

#[test]
fn bytes_are_ordered_lexicographically() {
    assert!(bytes_less(b"", b"a"));
    assert!(!bytes_less(b"", b""));
    assert!(!bytes_less(b"a", b""));
    assert!(bytes_less(b"a", b"b"));
    assert!(!bytes_less(b"b", b"a"));
    assert!(bytes_less(b"ab", b"b"));
    assert!(bytes_less(b"a", b"ab"));
    assert!(!bytes_less(b"ab", b"a"));
    assert!(!bytes_less(b"ab", b"ab"));
    assert!(bytes_less(b"a\x7f", b"a\x80"));
    assert!(bytes_less(b"abc", b"abd"));
}

#[test]
fn texts_are_ordered_by_their_bytes() {
    assert!(text_less("Z", "a"));
    assert!(text_less("boot", "bootdelay"));
    assert!(text_less("z", "é"));
    assert!(!text_less("é", "z"));
    assert!(!text_less("same", "same"));
}

#[test]
fn texts_are_equal_when_their_characters_are() {
    assert!(text_eq("", ""));
    assert!(text_eq("bootdelay", "bootdelay"));
    assert!(!text_eq("bootdelay", "bootdela"));
    assert!(!text_eq("bootdelay", "bootdelaz"));
    assert!(!text_eq("", "a"));
}
