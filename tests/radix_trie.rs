use rusty_trees::{KeyRef, RadixTrie};

fn get_test_trie() -> RadixTrie<String, i32> {
    // a root with one child "do", which forks into "g" -> 1 and "ts" -> 2
    let mut trie = RadixTrie::new();
    trie.insert("dog".to_owned(), 1);
    trie.insert("dots".to_owned(), 2);
    trie
}

#[test]
fn test_can_print_debug() {
    let mut trie: RadixTrie<String, i32> = RadixTrie::default();
    trie.insert("".to_owned(), 5);
    trie.insert("foo".to_owned(), 6);
    let text = format!("{:?}", trie);
    assert!(text.contains("foo"));
}

#[test]
fn key_string_impl_test_works() {
    assert_eq!(("", "", ""), KeyRef::prefix("", ""));
    assert_eq!(("", "a", "b"), KeyRef::prefix("a", "b"));
    assert_eq!(("a", "", "b"), KeyRef::prefix("a", "ab"));
    assert_eq!(("ab", "", ""), KeyRef::prefix("ab", "ab"));
    assert_eq!(("foo", "123", "456"), KeyRef::prefix("foo123", "foo456"));
}

#[test]
fn prefix_keeps_multibyte_characters_whole() {
    // "Ю" and "Я" share their first UTF-8 byte but are different characters
    assert_eq!(("", "Юa", "Яb"), KeyRef::prefix("Юa", "Яb"));
    assert_eq!(("Ю", "a", "b"), KeyRef::prefix("Юa", "Юb"));
}

#[test]
fn test_get() {
    let trie = get_test_trie();
    assert_eq!(None, trie.get(""));
    assert_eq!(None, trie.get("a"));
    assert_eq!(None, trie.get("as"));
    assert_eq!(None, trie.get("do"));
    assert_eq!(Some(&1), trie.get("dog"));
    assert_eq!(Some(&1), trie.get(&"dog".to_owned()));
    assert_eq!(Some(&2), trie.get("dots"));
    assert_eq!(None, trie.get("dolt"));
}

#[test]
fn test_insert() {
    let mut trie = get_test_trie();
    // split a node
    assert_eq!(None, trie.insert("d".into(), 9));
    assert_eq!(Some(&9), trie.get("d"));
    assert_eq!(None, trie.get("do"));
    assert_eq!(Some(&1), trie.get("dog"));

    // split a node, check right value is returned
    assert_eq!(Some(1), trie.insert("dog".into(), 10));
    assert_eq!(Some(&10), trie.get("dog"));

    // create a new forking node
    assert_eq!(None, trie.insert("dotty".into(), 11));
    assert_eq!(Some(&11), trie.get("dotty"));
}

#[test]
fn test_fuzzer_1() {
    let mut trie: RadixTrie<String, ()> = RadixTrie::new();
    assert_eq!(None, trie.insert("".to_owned(), ()));
    assert_eq!(Some(()), trie.insert("".to_owned(), ()));
}

#[test]
fn test_fuzzer_2() {
    let mut trie: RadixTrie<String, ()> = RadixTrie::new();
    assert_eq!(None, trie.insert("k".to_owned(), ()));
    assert_eq!(None, trie.insert("a".to_owned(), ()));
    assert_eq!(None, trie.insert("".to_owned(), ()));
    assert_eq!(Some(()), trie.insert("a".to_owned(), ()));
}

#[test]
fn test_remove() {
    let mut trie: RadixTrie<String, usize> = RadixTrie::new();
    assert_eq!(None, trie.remove(""));
    assert_eq!(None, trie.remove("a"));

    assert_eq!(None, trie.insert("".to_owned(), 1));
    assert_eq!(Some(1), trie.remove(""));
    assert_eq!(None, trie.remove(""));
}

#[test]
fn test_fuzzer_3() {
    let mut trie: RadixTrie<String, usize> = RadixTrie::new();
    assert_eq!(None, trie.insert("aa".to_owned(), 1));
    assert_eq!(None, trie.insert("abaa".to_owned(), 2));
    assert_eq!(None, trie.insert("ab".to_owned(), 3));
    assert_eq!(Some(3), trie.remove("ab"));
}

#[test]
fn test_fuzzer_4() {
    let mut trie: RadixTrie<String, usize> = RadixTrie::new();
    assert_eq!(None, trie.insert("abb".to_owned(), 1));
    assert_eq!(None, trie.insert("ac".to_owned(), 2));
    assert_eq!(Some(1), trie.remove("abb"));
    assert_eq!(Some(2), trie.insert("ac".to_owned(), 4));
    assert_eq!(Some(4), trie.remove("ac"));
}

#[test]
fn test_fuzzer_5() {
    let mut trie: RadixTrie<String, usize> = RadixTrie::new();
    assert_eq!(None, trie.insert("a".to_owned(), 1));
    assert_eq!(None, trie.insert("abc".to_owned(), 2));
    assert_eq!(Some(2), trie.remove("abc"));
    assert_eq!(Some(1), trie.insert("a".to_owned(), 3));
}

#[test]
fn test_fuzzer_6() {
    let mut trie: RadixTrie<String, usize> = RadixTrie::new();
    assert_eq!(None, trie.insert("a".to_owned(), 1));
    assert_eq!(None, trie.insert("abc".to_owned(), 2));
    assert_eq!(Some(1), trie.remove("a"));
}

#[test]
fn test_fuzzer_7() {
    let mut trie: RadixTrie<String, usize> = RadixTrie::new();
    assert_eq!(None, trie.insert("Юa".to_owned(), 5859475934558632553));
    assert_eq!(None, trie.insert("Юab".to_owned(), 0));
}

#[test]
fn fuzzer_test_8() {
    let mut trie: RadixTrie<String, usize> = RadixTrie::new();
    assert_eq!(None, trie.get(""));
    assert_eq!(None, trie.get("\n"));
    assert_eq!(None, trie.insert("ЮQQQQQ".to_owned(), 18446744073709551615));
    assert_eq!(None, trie.remove("+{a\na\0\nr\u{11}:\0\0\0\0\0+"));
    assert_eq!(
        None,
        trie.insert("ЮQQQQQQ+++".to_owned(), 5859552552105803775)
    );
    assert_eq!(None, trie.insert("".to_owned(), 1375731711));
}

#[test]
fn fuzzer_test_9() {
    let mut trie: RadixTrie<String, usize> = RadixTrie::new();
    assert_eq!(None, trie.insert("".to_owned(), 18446462603027808001));
    assert_eq!(Some(18446462603027808001), trie.insert("".to_owned(), 0));
}
