use kvs::KvStore;

#[test]
fn fresh_store_get_is_absent() {
    let kvs = KvStore::new();
    assert_eq!(kvs.get(String::from("foo")), None);
}

#[test]
fn set_then_get() {
    let mut kvs = KvStore::new();
    kvs.set(String::from("foo"), String::from("bar"));
    assert_eq!(kvs.get(String::from("foo")), Some(String::from("bar")));
}

#[test]
fn set_twice_last_write_wins() {
    let mut kvs = KvStore::new();
    kvs.set(String::from("foo"), String::from("bar"));
    kvs.set(String::from("foo"), String::from("baz"));
    assert_eq!(kvs.get(String::from("foo")), Some(String::from("baz")));
}

#[test]
fn set_then_remove_makes_absent() {
    let mut kvs = KvStore::new();
    kvs.set(String::from("foo"), String::from("bar"));
    kvs.remove(String::from("foo"));
    assert_eq!(kvs.get(String::from("foo")), None);
}

#[test]
fn remove_missing_on_empty_is_noop() {
    let mut kvs = KvStore::new();
    kvs.remove(String::from("missing"));
    assert_eq!(kvs.get(String::from("missing")), None);
    assert_eq!(kvs.get(String::from("foo")), None);
}

#[test]
fn remove_never_set_key_leaves_state_unchanged() {
    let mut kvs = KvStore::new();
    kvs.set(String::from("kept"), String::from("value"));
    kvs.remove(String::from("never-set"));
    assert_eq!(kvs.get(String::from("kept")), Some(String::from("value")));
    assert_eq!(kvs.get(String::from("never-set")), None);
}

#[test]
fn get_is_idempotent() {
    let mut kvs = KvStore::new();
    kvs.set(String::from("foo"), String::from("bar"));
    let first = kvs.get(String::from("foo"));
    let second = kvs.get(String::from("foo"));
    let third = kvs.get(String::from("foo"));
    assert_eq!(first, second);
    assert_eq!(second, third);
    assert_eq!(first, Some(String::from("bar")));
    let absent_first = kvs.get(String::from("other"));
    let absent_second = kvs.get(String::from("other"));
    assert_eq!(absent_first, absent_second);
    assert_eq!(absent_first, None);
}

#[test]
fn stored_value_independent_of_caller_strings() {
    let mut source = String::from("bar");
    let mut kvs = KvStore::new();
    kvs.set(String::from("foo"), source.clone());
    source.push('X');
    source.clear();
    assert_eq!(kvs.get(String::from("foo")), Some(String::from("bar")));
}

#[test]
fn returned_value_independent_of_store() {
    let mut kvs = KvStore::new();
    kvs.set(String::from("foo"), String::from("bar"));
    let mut fetched = kvs.get(String::from("foo")).unwrap();
    fetched.push_str("mutated");
    assert_eq!(kvs.get(String::from("foo")), Some(String::from("bar")));
}

#[test]
fn empty_key_and_empty_value_are_valid() {
    let mut kvs = KvStore::new();
    kvs.set(String::from(""), String::from(""));
    assert_eq!(kvs.get(String::from("")), Some(String::from("")));
    kvs.set(String::from(""), String::from("non-empty"));
    assert_eq!(kvs.get(String::from("")), Some(String::from("non-empty")));
    kvs.remove(String::from(""));
    assert_eq!(kvs.get(String::from("")), None);
}

#[test]
fn keys_are_kept_apart() {
    let mut kvs = KvStore::new();
    kvs.set(String::from("a"), String::from("1"));
    kvs.set(String::from("b"), String::from("2"));
    kvs.set(String::from("c"), String::from("3"));
    assert_eq!(kvs.get(String::from("a")), Some(String::from("1")));
    assert_eq!(kvs.get(String::from("b")), Some(String::from("2")));
    assert_eq!(kvs.get(String::from("c")), Some(String::from("3")));
    kvs.remove(String::from("b"));
    assert_eq!(kvs.get(String::from("a")), Some(String::from("1")));
    assert_eq!(kvs.get(String::from("b")), None);
    assert_eq!(kvs.get(String::from("c")), Some(String::from("3")));
}

#[test]
fn set_again_after_remove() {
    let mut kvs = KvStore::new();
    kvs.set(String::from("foo"), String::from("bar"));
    kvs.remove(String::from("foo"));
    kvs.set(String::from("foo"), String::from("again"));
    assert_eq!(kvs.get(String::from("foo")), Some(String::from("again")));
}

#[test]
fn remove_twice_is_harmless() {
    let mut kvs = KvStore::new();
    kvs.set(String::from("foo"), String::from("bar"));
    kvs.remove(String::from("foo"));
    kvs.remove(String::from("foo"));
    assert_eq!(kvs.get(String::from("foo")), None);
}
