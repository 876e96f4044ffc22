use conch::Conch;

#[test]
fn it_should_work_even_with_one_bucket() {
    let mut conch = Conch::new(1);
    conch.update("foo", "bar");
    conch.update("bing", "baz");
    conch.update("barf", "bong");
    assert_eq!(conch.get("foo"), Some("bar"));
    assert_eq!(conch.get("bing"), Some("baz"));
    assert_eq!(conch.get("barf"), Some("bong"));
    conch.remove(&"barf");
    assert_eq!(conch.get("barf"), None);
}

#[test]
fn one_shard_scenario() {
    let mut conch = Conch::new(1);
    conch.update("foo", "bar");
    conch.update("bing", "baz");
    conch.update("barf", "bong");
    assert_eq!(conch.get("foo"), Some("bar"));
    assert_eq!(conch.get("bing"), Some("baz"));
    assert_eq!(conch.get("barf"), Some("bong"));
    assert_eq!(conch.remove(&"barf"), Some("bong"));
    assert_eq!(conch.get("barf"), None);
}

#[test]
fn round_trip_single_key() {
    let mut conch = Conch::new(7);
    conch.update("answer", 42usize);
    assert_eq!(conch.get("answer"), Some(42));
}

#[test]
fn overwrite_keeps_latest_value() {
    let mut conch = Conch::new(8);
    conch.update("k", 1usize);
    conch.update("k", 2usize);
    assert_eq!(conch.get("k"), Some(2));
    assert_eq!(conch.remove(&"k"), Some(2));
}

#[test]
fn absent_key_is_absent() {
    let mut conch: Conch<&str, usize> = Conch::new(4);
    conch.update("present", 7);
    assert_eq!(conch.get("missing"), None);
    assert_eq!(conch.remove(&"missing"), None);
    assert_eq!(conch.get("present"), Some(7));
}

#[test]
fn remove_then_get_is_absent() {
    let mut conch = Conch::new(16);
    conch.update("k", "v");
    assert_eq!(conch.remove(&"k"), Some("v"));
    assert_eq!(conch.get("k"), None);
}

#[test]
fn shard_count_invariance() {
    let counts: [usize; 4] = [1, 2, 32, 1000];
    for c in 0..counts.len() {
        let mut conch: Conch<String, usize> = Conch::new(counts[c]);
        let n: usize = 200;
        for i in 0..n {
            conch.update(format!("key-{}", i), i);
        }
        for i in 0..n {
            assert_eq!(conch.get(format!("key-{}", i)), Some(i));
        }
    }
}

#[test]
fn disjoint_key_ranges_keep_final_state() {
    let mut conch: Conch<String, usize> = Conch::new(8);
    let owners: usize = 4;
    let per: usize = 25;
    let rounds: usize = 3;
    for round in 0..rounds {
        for t in 0..owners {
            for m in 0..per {
                let key = format!("owner{}-{}", t, m);
                let value = round * 1000 + t * 100 + m;
                conch.update(key.clone(), value);
                assert_eq!(conch.get(key.clone()), Some(value));
                if m % 2 == 0 {
                    assert_eq!(conch.remove(&key), Some(value));
                }
            }
        }
    }
    for t in 0..owners {
        for m in 0..per {
            let key = format!("owner{}-{}", t, m);
            if m % 2 == 0 {
                assert_eq!(conch.get(key), None);
            } else {
                assert_eq!(conch.get(key), Some((rounds - 1) * 1000 + t * 100 + m));
            }
        }
    }
}

#[test]
fn string_and_str_keys_share_byte_form() {
    let mut with_str: Conch<&str, usize> = Conch::new(5);
    let mut with_string: Conch<String, usize> = Conch::new(5);
    with_str.update("same", 1);
    with_string.update(String::from("same"), 1);
    assert_eq!(with_str.get("same"), Some(1));
    assert_eq!(with_string.get(String::from("same")), Some(1));
}

#[test]
fn multibyte_keys_are_distinct() {
    let mut conch: Conch<&str, usize> = Conch::new(3);
    conch.update("gr\u{00fc}n", 1);
    conch.update("gr\u{00fc}\u{00df}", 2);
    assert_eq!(conch.get("gr\u{00fc}n"), Some(1));
    assert_eq!(conch.get("gr\u{00fc}\u{00df}"), Some(2));
    assert_eq!(conch.remove(&"gr\u{00fc}n"), Some(1));
    assert_eq!(conch.get("gr\u{00fc}n"), None);
    assert_eq!(conch.get("gr\u{00fc}\u{00df}"), Some(2));
}
