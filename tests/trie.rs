use rusty_trees::Trie;

fn sample_trie() -> Trie<String, i32> {
    Trie::from_component_val_children(
        "do",
        1,
        vec![
            Trie::from_component_val('g', 2),
            Trie::from_component_val("ts", 3),
        ],
    )
}

fn iter_pairs(trie: &Trie<String, i32>) -> Vec<(String, i32)> {
    trie.iter().into_iter().map(|(k, v)| (k, *v)).collect()
}

#[test]
fn lib_test_works() {
    let trie = sample_trie();
    println!("trie:\n{:?}", trie);
    assert_eq!(
        vec![("do".to_owned(), 1), ("dog".to_owned(), 2), ("dots".to_owned(), 3)],
        iter_pairs(&trie)
    );
    assert_eq!(Some(&3), trie.get("dots".to_owned()));
}

#[test]
fn mod_test_works() {
    let trie = sample_trie();
    assert_eq!(
        vec![("do".to_owned(), 1), ("dog".to_owned(), 2), ("dots".to_owned(), 3)],
        iter_pairs(&trie)
    );
    assert_eq!(Some(&3), trie.get("dots".to_owned()));
}

#[test]
fn trie_get_follows_components() {
    let trie = sample_trie();
    assert_eq!(Some(&1), trie.get("do".to_owned()));
    assert_eq!(Some(&2), trie.get("dog".to_owned()));
    assert_eq!(None, trie.get("d".to_owned()));
    assert_eq!(None, trie.get("dot".to_owned()));
    assert_eq!(None, trie.get("dolt".to_owned()));
    assert_eq!(None, trie.get("xo".to_owned()));
}

#[test]
fn trie_counts_nodes_and_values() {
    let trie = sample_trie();
    // d, o, g, t, s
    assert_eq!(5, trie.num_nodes());
    assert_eq!(3, trie.num_values());
    let bare: Trie<String, i32> = Trie::from_component("abc");
    assert_eq!(3, bare.num_nodes());
    assert_eq!(0, bare.num_values());
    let with_children: Trie<String, i32> =
        Trie::from_component_children("a", vec![Trie::from_component_val('b', 7)]);
    assert_eq!(2, with_children.num_nodes());
    assert_eq!(Some(&7), with_children.get("ab".to_owned()));
    assert_eq!(None, with_children.get("a".to_owned()));
}
