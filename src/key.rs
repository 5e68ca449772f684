//! The key abstraction of the radix trie: an owned key type and its
//! borrowed form, both viewed as a sequence of atomic elements.
use vstd::prelude::*;
use vstd::string::*;

verus! {

/// Owned key of a `RadixTrie`. `Ref` is its borrowed form (`str` for `String`).
pub trait Key: Sized {
    /// Borrowed form of the key.
    type Ref: KeyRef<Self> + ?Sized;

    /// Borrow this key in its reference form.
    fn as_key_ref(&self) -> (r: &Self::Ref)
        ensures
            r.ref_view() == Self::Ref::owned_view(self),
    ;

    /// Concatenate this key with another.
    fn concat(self, other: Self) -> (r: Self)
        ensures
            Self::Ref::owned_view(&r) == Self::Ref::owned_view(&self) + Self::Ref::owned_view(
                &other,
            ),
    ;
}

/// Borrowed form of a key. All trie operations work on this form.
pub trait KeyRef<K> {
    /// The atomic unit of a key (a `char` for text): a key is never split
    /// inside one.
    type Elem;

    /// The key as a sequence of atomic units.
    spec fn ref_view(&self) -> Seq<Self::Elem>;

    /// The owned key as a sequence of atomic units.
    spec fn owned_view(k: &K) -> Seq<Self::Elem>;

    /// Is the key empty?
    fn is_empty(&self) -> (r: bool)
        ensures
            r == (self.ref_view().len() == 0),
    ;

    /// For keys `a` and `b`, the longest common prefix of the two and the
    /// parts of `a` and of `b` that remain after it.
    fn prefix<'a>(a: &'a Self, b: &'a Self) -> (r: (&'a Self, &'a Self, &'a Self))
        ensures
            a.ref_view() == r.0.ref_view() + r.1.ref_view(),
            b.ref_view() == r.0.ref_view() + r.2.ref_view(),
            r.1.ref_view().len() == 0 || r.2.ref_view().len() == 0 || r.1.ref_view()[0]
                != r.2.ref_view()[0],
    ;

    /// An owned copy of the key.
    fn to_key(&self) -> (r: K)
        ensures
            Self::owned_view(&r) == self.ref_view(),
    ;

    /// Concatenate a sequence of key fragments into an owned key.
    fn concat(parts: &Vec<&Self>) -> (r: K)
        ensures
            Self::owned_view(&r) == parts@.map_values(|p: &Self| p.ref_view()).flatten(),
    ;
}

impl Key for String {
    type Ref = str;

    fn as_key_ref(&self) -> (r: &str) {
        self.as_str()
    }

    fn concat(self, other: String) -> (r: String) {
        let mut s = self;
        s.append(other.as_str());
        s
    }
}

/// The concatenation of the texts of `parts`, in order.
pub open spec fn concat_texts(parts: Seq<&str>) -> Seq<char>
    decreases parts.len(),
{
    if parts.len() == 0 {
        Seq::empty()
    } else {
        concat_texts(parts.drop_last()) + parts.last()@
    }
}

/// Relies on `itertools::Itertools::join` with an empty separator: the
/// fragments written one after another.
#[verifier::external_body]
fn join_texts(parts: &Vec<&str>) -> (r: String)
    ensures
        r@ == concat_texts(parts@),
{
    itertools::Itertools::join(&mut parts.iter(), "")
}

impl KeyRef<String> for str {
    type Elem = char;

    open spec fn ref_view(&self) -> Seq<char> {
        self@
    }

    open spec fn owned_view(k: &String) -> Seq<char> {
        k@
    }

    fn is_empty(&self) -> (r: bool) {
        self.unicode_len() == 0
    }

    fn prefix<'a>(a: &'a str, b: &'a str) -> (r: (&'a str, &'a str, &'a str)) {
        let a_len = a.unicode_len();
        let b_len = b.unicode_len();
        let mut n: usize = 0;
        while n < a_len && n < b_len && a.get_char(n) == b.get_char(n)
            invariant
                a_len == a@.len(),
                b_len == b@.len(),
                n <= a_len,
                n <= b_len,
                a@.subrange(0, n as int) == b@.subrange(0, n as int),
            decreases a_len - n,
        {
            n = n + 1;
        }
        let common = a.substring_char(0, n);
        let a_rest = a.substring_char(n, a_len);
        let b_rest = b.substring_char(n, b_len);
        assert(a@ == common@ + a_rest@);
        assert(b@ == common@ + b_rest@);
        (common, a_rest, b_rest)
    }

    fn to_key(&self) -> (r: String) {
        self.to_owned()
    }

    fn concat(parts: &Vec<&str>) -> (r: String) {
        let r = join_texts(parts);
        proof {
            lemma_concat_texts(parts@);
            assert(parts@.map_values(|p: &str| p.ref_view()) =~= parts@.map_values(|p: &str| p@));
        }
        r
    }
}

proof fn lemma_concat_texts(parts: Seq<&str>)
    ensures
        concat_texts(parts) == parts.map_values(|p: &str| p@).flatten(),
    decreases parts.len(),
{
    if parts.len() > 0 {
        lemma_concat_texts(parts.drop_last());
        let views = parts.map_values(|p: &str| p@);
        assert(parts.drop_last().map_values(|p: &str| p@) == views.drop_last());
        views.lemma_flatten_and_flatten_alt_are_equivalent();
        views.drop_last().lemma_flatten_and_flatten_alt_are_equivalent();
    }
}

} // verus!
