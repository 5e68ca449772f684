pub mod key;
pub mod node_path;
pub mod radix_trie;
pub mod trie;

pub use key::{Key, KeyRef};
pub use node_path::{IntoComponents, NodePath};
pub use radix_trie::RadixTrie;
pub use trie::Trie;
