use std::collections::HashMap;

use rusty_trees::RadixTrie;

fn pairs(trie: &RadixTrie<String, i32>) -> Vec<(String, i32)> {
    trie.iter().into_iter().map(|(k, v)| (k, *v)).collect()
}

fn owned(list: &[(&str, i32)]) -> Vec<(String, i32)> {
    list.iter().map(|(k, v)| (k.to_string(), *v)).collect()
}

#[test]
fn shared_prefix_keys_split_and_keep_values() {
    let mut trie: RadixTrie<String, i32> = RadixTrie::new();
    assert_eq!(None, trie.insert("dog".to_owned(), 2));
    assert_eq!(None, trie.insert("dots".to_owned(), 3));
    assert_eq!(None, trie.get("do"));
    assert_eq!(Some(&2), trie.get("dog"));
    assert_eq!(Some(&3), trie.get("dots"));
    assert_eq!(None, trie.get("dolt"));
    assert_eq!(None, trie.insert("d".to_owned(), 9));
    assert_eq!(Some(&9), trie.get("d"));
    assert_eq!(Some(&2), trie.get("dog"));
}

#[test]
fn iter_test_works() {
    let mut trie: RadixTrie<String, i32> = RadixTrie::new();
    trie.insert("".into(), 1);
    assert_eq!(owned(&[("", 1)]), pairs(&trie));
    trie.insert("a".into(), 2);
    assert_eq!(owned(&[("", 1), ("a", 2)]), pairs(&trie));
    trie.insert("b".into(), 3);
    assert_eq!(owned(&[("", 1), ("a", 2), ("b", 3)]), pairs(&trie));
    trie.insert("abc".into(), 4);
    assert_eq!(owned(&[("", 1), ("a", 2), ("abc", 4), ("b", 3)]), pairs(&trie));
    trie.insert("ab".into(), 5);
    assert_eq!(
        owned(&[("", 1), ("a", 2), ("ab", 5), ("abc", 4), ("b", 3)]),
        pairs(&trie)
    );
}

#[test]
fn removal_merges_a_lone_interior_node() {
    let mut trie: RadixTrie<String, i32> = RadixTrie::new();
    trie.insert("abb".into(), 1);
    trie.insert("ac".into(), 2);
    assert_eq!(Some(1), trie.remove("abb"));
    assert_eq!(owned(&[("ac", 2)]), pairs(&trie));
    assert_eq!(None, trie.get("a"));
    assert_eq!(None, trie.get("ab"));
    assert_eq!(Some(&2), trie.get("ac"));
}

#[test]
fn insert_then_get_round_trips() {
    let mut trie: RadixTrie<String, i32> = RadixTrie::new();
    for (i, key) in ["", "x", "xy", "xz", "yx", "Юx", "Юy"].iter().enumerate() {
        trie.insert(key.to_string(), i as i32);
        assert_eq!(Some(&(i as i32)), trie.get(key));
    }
}

#[test]
fn remove_returns_latest_value_and_clears() {
    let mut trie: RadixTrie<String, i32> = RadixTrie::new();
    trie.insert("key".into(), 1);
    trie.insert("keys".into(), 2);
    assert_eq!(Some(1), trie.insert("key".into(), 3));
    assert_eq!(Some(3), trie.remove("key"));
    assert_eq!(None, trie.get("key"));
    assert_eq!(Some(&2), trie.get("keys"));
}

#[test]
fn removing_an_absent_key_changes_nothing() {
    let mut trie: RadixTrie<String, i32> = RadixTrie::new();
    trie.insert("abc".into(), 1);
    trie.insert("abd".into(), 2);
    let before = pairs(&trie);
    assert_eq!(None, trie.remove("ab"));
    assert_eq!(None, trie.remove("abcd"));
    assert_eq!(None, trie.remove("zzz"));
    assert_eq!(None, trie.remove(""));
    assert_eq!(before, pairs(&trie));
}

#[test]
fn matches_a_hash_map_on_a_mixed_sequence() {
    let mut trie: RadixTrie<String, i32> = RadixTrie::new();
    let mut truth: HashMap<String, i32> = HashMap::new();
    let keys = ["", "a", "ab", "abc", "abd", "b", "ba", "Юa", "Юab", "Яb"];
    let mut step: i32 = 0;
    for round in 0..3 {
        for (i, key) in keys.iter().enumerate() {
            step += 1;
            match (i + round) % 3 {
                0 => assert_eq!(truth.insert(key.to_string(), step), trie.insert(key.to_string(), step)),
                1 => assert_eq!(truth.get(*key), trie.get(key)),
                _ => assert_eq!(truth.remove(*key), trie.remove(key)),
            }
        }
    }
    let mut seen: HashMap<String, i32> = HashMap::new();
    for (key, value) in trie.iter() {
        assert!(seen.insert(key, *value).is_none());
    }
    assert_eq!(truth, seen);
}

#[test]
fn keys_differing_inside_a_multibyte_character_stay_apart() {
    let mut trie: RadixTrie<String, i32> = RadixTrie::new();
    trie.insert("Юa".into(), 1);
    trie.insert("Яa".into(), 2);
    assert_eq!(Some(&1), trie.get("Юa"));
    assert_eq!(Some(&2), trie.get("Яa"));
    assert_eq!(owned(&[("Юa", 1), ("Яa", 2)]), pairs(&trie));
    assert_eq!(Some(1), trie.remove("Юa"));
    assert_eq!(owned(&[("Яa", 2)]), pairs(&trie));
}

#[test]
fn invariant_check_holds_after_every_operation() {
    let mut trie: RadixTrie<String, i32> = RadixTrie::new();
    assert!(trie.check_invariants());
    for (i, key) in ["abc", "abd", "ab", "a", "", "b", "abcd"].iter().enumerate() {
        trie.insert(key.to_string(), i as i32);
        assert!(trie.check_invariants());
    }
    for key in ["ab", "abc", "zz", "a", "abd", "", "b", "abcd"].iter() {
        trie.remove(key);
        assert!(trie.check_invariants());
    }
    assert!(pairs(&trie).is_empty());
}

#[test]
fn iter_mut_test_works() {
    let mut trie = RadixTrie::<String, i32>::new();
    trie.insert("ab".into(), 1);
    trie.insert("abc".into(), 2);
    trie.insert("abd".into(), 3);
    trie.insert("".into(), 4);

    for (_, elem) in trie.iter_mut() {
        *elem += 1;
    }

    assert_eq!(
        owned(&[("", 5), ("ab", 2), ("abc", 3), ("abd", 4)]),
        pairs(&trie)
    );
}

#[test]
fn iter_mut_hands_out_keys_in_pre_order() {
    let mut trie = RadixTrie::<String, i32>::new();
    trie.insert("b".into(), 1);
    trie.insert("a".into(), 2);
    trie.insert("ab".into(), 3);
    let keys: Vec<String> = trie.iter_mut().into_iter().map(|(k, _)| k).collect();
    assert_eq!(vec!["b".to_owned(), "a".to_owned(), "ab".to_owned()], keys);
    assert!(trie.check_invariants());
}
