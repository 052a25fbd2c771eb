use merovingian::counter::Counter;

#[test]
fn util_test_most_common() {
    let mut c = Counter::new();
    c.add("hello");
    assert_eq!(c.most_common(), vec![&"hello"]);
    c.add("hey");
    assert_eq!(c.most_common().len(), 2);
    c.add("hello");
    assert_eq!(c.most_common(), vec![&"hello"]);
}

#[test]
fn imdb_test_most_common() {
    let mut c = Counter::new();
    c.add("hello");
    assert_eq!(c.most_common(), vec![&"hello"]);
    c.add("hey");
    assert_eq!(c.most_common().len(), 2);
    c.add("hello");
    assert_eq!(c.most_common(), vec![&"hello"]);
}

#[test]
fn most_common_of_empty_counter_is_empty() {
    let c: Counter<u32> = Counter::new();
    assert_eq!(c.most_common().len(), 0);
}

#[test]
fn most_common_keeps_first_seen_order() {
    let mut c = Counter::new();
    c.add(7u32);
    c.add(5u32);
    c.add(7u32);
    c.add(5u32);
    c.add(9u32);
    assert_eq!(c.most_common(), vec![&7u32, &5u32]);
}
