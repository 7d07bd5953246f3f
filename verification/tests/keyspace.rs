use bytes::Bytes;
use my_redis::db::{Db, Delivery, KeyAndValue, Pushed, Side};
use my_redis::error::Error;
use std::collections::VecDeque;

fn key(name: &str) -> String {
    name.to_string()
}

fn keys(names: &[&str]) -> Vec<String> {
    names.iter().map(|name| name.to_string()).collect()
}

fn values(items: &[&str]) -> VecDeque<Bytes> {
    items.iter().map(|item| Bytes::from(item.to_string())).collect()
}

fn package(name: &str, value: &str) -> KeyAndValue {
    KeyAndValue { key: name.to_string(), value: Bytes::from(value.to_string()) }
}

fn plain(count: u64) -> Result<Pushed, Error> {
    Ok(Pushed { count, deliveries: vec![] })
}

/// Pops at the front until the list at `name` is gone.
fn drain(db: &mut Db, name: &str) -> Vec<String> {
    let mut items = vec![];
    while db.get(&key(name)) == Err(Error::WrongType) {
        match db.pop(&keys(&[name]), Side::Front, 0) {
            Some(found) => items.push(String::from_utf8(found.value.to_vec()).unwrap()),
            None => panic!("the key holds a waiter queue"),
        }
    }
    items
}

#[test]
fn get_on_an_absent_key_is_nothing() {
    let db = Db::new();
    assert_eq!(db.get(&key("k")), Ok(None));
}

#[test]
fn set_then_get_gives_the_value() {
    let mut db = Db::new();
    db.set(key("k"), Bytes::from("v"));
    assert_eq!(db.get(&key("k")), Ok(Some(Bytes::from("v"))));
    db.set(key("k"), Bytes::from("w"));
    assert_eq!(db.get(&key("k")), Ok(Some(Bytes::from("w"))));
    assert_eq!(db.get(&key("other")), Ok(None));
}

#[test]
fn get_on_a_list_is_wrong_type() {
    let mut db = Db::new();
    assert_eq!(db.push(key("k"), values(&["a"]), Side::Back), plain(1));
    assert_eq!(db.get(&key("k")), Err(Error::WrongType));
}

#[test]
fn get_on_a_waiter_queue_is_wrong_type() {
    let mut db = Db::new();
    assert_eq!(db.pop(&keys(&["k"]), Side::Front, 1), None);
    assert_eq!(db.get(&key("k")), Err(Error::WrongType));
}

#[test]
fn set_replaces_a_list() {
    let mut db = Db::new();
    assert_eq!(db.push(key("k"), values(&["a", "b"]), Side::Back), plain(2));
    db.set(key("k"), Bytes::from("v"));
    assert_eq!(db.get(&key("k")), Ok(Some(Bytes::from("v"))));
}

#[test]
fn set_drops_waiters_without_notice() {
    let mut db = Db::new();
    assert_eq!(db.pop(&keys(&["k"]), Side::Front, 1), None);
    db.set(key("k"), Bytes::from("v"));
    assert_eq!(db.get(&key("k")), Ok(Some(Bytes::from("v"))));
    assert_eq!(db.push(key("k"), values(&["a"]), Side::Back), Err(Error::WrongType));
}

#[test]
fn exists_counts_present_keys() {
    let mut db = Db::new();
    assert_eq!(db.count_present(&keys(&[])), 0);
    assert_eq!(db.count_present(&keys(&["a", "b"])), 0);
    db.set(key("a"), Bytes::from("1"));
    assert_eq!(db.push(key("b"), values(&["x"]), Side::Front), plain(1));
    assert_eq!(db.pop(&keys(&["c"]), Side::Front, 1), None);
    assert_eq!(db.count_present(&keys(&["a"])), 1);
    assert_eq!(db.count_present(&keys(&["a", "b", "c"])), 3);
    assert_eq!(db.count_present(&keys(&["a", "missing", "b"])), 2);
    assert_eq!(db.count_present(&keys(&["a", "a", "a"])), 3);
    assert_eq!(db.count_present(&keys(&[])), 0);
}

#[test]
fn lpush_puts_later_values_in_front() {
    let mut db = Db::new();
    assert_eq!(db.push(key("k"), values(&["v1", "v2"]), Side::Front), plain(2));
    assert_eq!(db.push(key("k"), values(&["v3"]), Side::Front), plain(3));
    assert_eq!(drain(&mut db, "k"), vec!["v3", "v2", "v1"]);
}

#[test]
fn rpush_keeps_the_order_of_arrival() {
    let mut db = Db::new();
    assert_eq!(db.push(key("k"), values(&["v1", "v2"]), Side::Back), plain(2));
    assert_eq!(db.push(key("k"), values(&["v3"]), Side::Back), plain(3));
    assert_eq!(drain(&mut db, "k"), vec!["v1", "v2", "v3"]);
}

#[test]
fn pushes_add_up() {
    let mut db = Db::new();
    assert_eq!(db.push(key("k"), values(&["a", "b"]), Side::Front), plain(2));
    assert_eq!(db.push(key("k"), values(&["c", "d", "e"]), Side::Back), plain(5));
    assert_eq!(db.push(key("k"), values(&[]), Side::Back), plain(5));
    assert_eq!(db.push(key("k"), values(&["f"]), Side::Front), plain(6));
    assert_eq!(drain(&mut db, "k"), vec!["f", "b", "a", "c", "d", "e"]);
}

#[test]
fn push_of_nothing_creates_nothing() {
    let mut db = Db::new();
    assert_eq!(db.push(key("k"), values(&[]), Side::Front), plain(0));
    assert_eq!(db.count_present(&keys(&["k"])), 0);
    assert_eq!(db.get(&key("k")), Ok(None));
}

#[test]
fn push_on_a_byte_string_is_wrong_type() {
    let mut db = Db::new();
    db.set(key("k"), Bytes::from("v"));
    assert_eq!(db.push(key("k"), values(&["a"]), Side::Front), Err(Error::WrongType));
    assert_eq!(db.push(key("k"), values(&["a"]), Side::Back), Err(Error::WrongType));
    assert_eq!(db.get(&key("k")), Ok(Some(Bytes::from("v"))));
}

#[test]
fn pop_takes_from_a_list_at_once() {
    let mut db = Db::new();
    assert_eq!(db.push(key("k"), values(&["a", "b"]), Side::Back), plain(2));
    assert_eq!(db.pop(&keys(&["k"]), Side::Front, 9), Some(package("k", "a")));
    assert_eq!(drain(&mut db, "k"), vec!["b"]);
}

#[test]
fn pop_at_the_back_takes_the_last() {
    let mut db = Db::new();
    assert_eq!(db.push(key("k"), values(&["a", "b", "c"]), Side::Back), plain(3));
    assert_eq!(db.pop(&keys(&["k"]), Side::Back, 9), Some(package("k", "c")));
    assert_eq!(drain(&mut db, "k"), vec!["a", "b"]);
}

#[test]
fn pop_of_the_last_element_removes_the_key() {
    let mut db = Db::new();
    assert_eq!(db.push(key("k"), values(&["a"]), Side::Back), plain(1));
    assert_eq!(db.pop(&keys(&["k"]), Side::Front, 9), Some(package("k", "a")));
    assert_eq!(db.count_present(&keys(&["k"])), 0);
    assert_eq!(db.get(&key("k")), Ok(None));
}

#[test]
fn pop_takes_the_first_key_with_data() {
    let mut db = Db::new();
    db.set(key("s"), Bytes::from("v"));
    assert_eq!(db.push(key("b"), values(&["1"]), Side::Back), plain(1));
    assert_eq!(db.push(key("c"), values(&["2"]), Side::Back), plain(1));
    assert_eq!(db.pop(&keys(&["absent", "s", "c", "b"]), Side::Front, 9), Some(package("c", "2")));
    assert_eq!(db.count_present(&keys(&["absent", "s", "b", "c"])), 2);
    assert_eq!(db.get(&key("s")), Ok(Some(Bytes::from("v"))));
}

#[test]
fn pop_without_data_queues_the_consumer_at_every_key() {
    let mut db = Db::new();
    db.set(key("s"), Bytes::from("v"));
    assert_eq!(db.pop(&keys(&["a", "s", "b"]), Side::Front, 7), None);
    assert_eq!(db.count_present(&keys(&["a", "b"])), 2);
    assert_eq!(db.get(&key("s")), Ok(Some(Bytes::from("v"))));
    assert_eq!(
        db.push(key("a"), values(&["x"]), Side::Back),
        Ok(Pushed { count: 1, deliveries: vec![Delivery { waiter: 7, package: package("a", "x") }] })
    );
    assert_eq!(
        db.push(key("b"), values(&["y"]), Side::Back),
        Ok(Pushed { count: 1, deliveries: vec![Delivery { waiter: 7, package: package("b", "y") }] })
    );
    assert_eq!(db.count_present(&keys(&["a", "b"])), 0);
}

#[test]
fn push_hands_the_front_of_the_batch_to_a_front_waiter() {
    let mut db = Db::new();
    assert_eq!(db.pop(&keys(&["k"]), Side::Front, 1), None);
    assert_eq!(
        db.push(key("k"), values(&["x", "y"]), Side::Back),
        Ok(Pushed { count: 2, deliveries: vec![Delivery { waiter: 1, package: package("k", "x") }] })
    );
    assert_eq!(db.get(&key("k")), Err(Error::WrongType));
    assert_eq!(drain(&mut db, "k"), vec!["y"]);
}

#[test]
fn push_hands_the_back_of_the_batch_to_a_back_waiter() {
    let mut db = Db::new();
    assert_eq!(db.pop(&keys(&["k"]), Side::Back, 1), None);
    assert_eq!(
        db.push(key("k"), values(&["x", "y", "z"]), Side::Back),
        Ok(Pushed { count: 3, deliveries: vec![Delivery { waiter: 1, package: package("k", "z") }] })
    );
    assert_eq!(drain(&mut db, "k"), vec!["x", "y"]);
}

#[test]
fn lpush_leaves_what_is_left_in_push_order() {
    let mut db = Db::new();
    assert_eq!(db.pop(&keys(&["k"]), Side::Front, 1), None);
    assert_eq!(
        db.push(key("k"), values(&["a", "b", "c"]), Side::Front),
        Ok(Pushed { count: 3, deliveries: vec![Delivery { waiter: 1, package: package("k", "a") }] })
    );
    assert_eq!(drain(&mut db, "k"), vec!["c", "b"]);
}

#[test]
fn waiters_are_served_oldest_first() {
    let mut db = Db::new();
    assert_eq!(db.pop(&keys(&["k"]), Side::Front, 1), None);
    assert_eq!(db.pop(&keys(&["k"]), Side::Back, 2), None);
    assert_eq!(db.pop(&keys(&["k"]), Side::Front, 3), None);
    assert_eq!(
        db.push(key("k"), values(&["a", "b", "c", "d"]), Side::Back),
        Ok(Pushed {
            count: 4,
            deliveries: vec![
                Delivery { waiter: 1, package: package("k", "a") },
                Delivery { waiter: 2, package: package("k", "d") },
                Delivery { waiter: 3, package: package("k", "b") },
            ],
        })
    );
    assert_eq!(drain(&mut db, "k"), vec!["c"]);
}

#[test]
fn a_batch_that_serves_every_waiter_exactly_removes_the_key() {
    let mut db = Db::new();
    assert_eq!(db.pop(&keys(&["k"]), Side::Front, 1), None);
    assert_eq!(db.pop(&keys(&["k"]), Side::Front, 2), None);
    assert_eq!(
        db.push(key("k"), values(&["a", "b"]), Side::Front),
        Ok(Pushed {
            count: 2,
            deliveries: vec![
                Delivery { waiter: 1, package: package("k", "a") },
                Delivery { waiter: 2, package: package("k", "b") },
            ],
        })
    );
    assert_eq!(db.count_present(&keys(&["k"])), 0);
    assert_eq!(db.get(&key("k")), Ok(None));
}

#[test]
fn waiters_that_get_nothing_stay_queued() {
    let mut db = Db::new();
    assert_eq!(db.pop(&keys(&["k"]), Side::Front, 1), None);
    assert_eq!(db.pop(&keys(&["k"]), Side::Front, 2), None);
    assert_eq!(
        db.push(key("k"), values(&["a"]), Side::Back),
        Ok(Pushed { count: 1, deliveries: vec![Delivery { waiter: 1, package: package("k", "a") }] })
    );
    assert_eq!(db.get(&key("k")), Err(Error::WrongType));
    assert_eq!(
        db.push(key("k"), values(&["b"]), Side::Back),
        Ok(Pushed { count: 1, deliveries: vec![Delivery { waiter: 2, package: package("k", "b") }] })
    );
    assert_eq!(db.count_present(&keys(&["k"])), 0);
}

#[test]
fn push_of_nothing_leaves_waiters_queued() {
    let mut db = Db::new();
    assert_eq!(db.pop(&keys(&["k"]), Side::Front, 1), None);
    assert_eq!(db.push(key("k"), values(&[]), Side::Back), plain(0));
    assert_eq!(
        db.push(key("k"), values(&["a"]), Side::Back),
        Ok(Pushed { count: 1, deliveries: vec![Delivery { waiter: 1, package: package("k", "a") }] })
    );
}

#[test]
fn a_key_asked_twice_queues_its_consumer_twice() {
    let mut db = Db::new();
    assert_eq!(db.pop(&keys(&["k", "k"]), Side::Front, 5), None);
    assert_eq!(
        db.push(key("k"), values(&["a", "b", "c"]), Side::Back),
        Ok(Pushed {
            count: 3,
            deliveries: vec![
                Delivery { waiter: 5, package: package("k", "a") },
                Delivery { waiter: 5, package: package("k", "b") },
            ],
        })
    );
    assert_eq!(drain(&mut db, "k"), vec!["c"]);
}

#[test]
fn keys_do_not_disturb_each_other() {
    let mut db = Db::new();
    for i in 0..40 {
        db.set(format!("k{}", i), Bytes::from(format!("v{}", i)));
    }
    for i in (0..40).step_by(3) {
        assert_eq!(db.push(format!("l{}", i), values(&["x"]), Side::Back), plain(1));
    }
    for i in (0..40).step_by(2) {
        db.set(format!("k{}", i), Bytes::from(format!("w{}", i)));
    }
    for i in 0..40 {
        let expected = if i % 2 == 0 { format!("w{}", i) } else { format!("v{}", i) };
        assert_eq!(db.get(&format!("k{}", i)), Ok(Some(Bytes::from(expected))));
    }
    assert_eq!(db.count_present(&(0..40).map(|i| format!("l{}", i)).collect()), 14);
}
