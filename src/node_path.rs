//! Paths that a `Trie` is keyed by: a path is a sequence of components, one
//! per level of the trie.
use vstd::prelude::*;
use vstd::string::*;

verus! {

/// A path made of components.
pub trait NodePath: Sized {
    /// One step of a path (a `char` for text).
    type Component;

    /// The components of the path, in order.
    spec fn components(&self) -> Seq<Self::Component>;

    /// Are two components the same?
    fn same_component(a: &Self::Component, b: &Self::Component) -> (r: bool)
        ensures
            r == (*a == *b),
    ;

    /// The path made of `components`.
    fn from_components(components: &Vec<&Self::Component>) -> (r: Self)
        ensures
            r.components() == components@.map_values(|c: &Self::Component| *c),
    ;

    /// The components of the path.
    fn to_components(&self) -> (r: Vec<Self::Component>)
        ensures
            r@ == self.components(),
    ;
}

/// A value that can be split into the components of a path of type `P`.
pub trait IntoComponents<P: NodePath> {
    /// The components that the value splits into.
    spec fn component_seq(&self) -> Seq<P::Component>;

    fn into_components(&self) -> (r: Vec<P::Component>)
        ensures
            r@ == self.component_seq(),
    ;
}

/// Relies on `String::push`: appends one character.
#[verifier::external_body]
fn push_char(s: &mut String, c: char)
    ensures
        final(s)@ == old(s)@.push(c),
{
    s.push(c)
}

/// The text made of `chars`, in order.
fn string_from_chars(chars: &Vec<&char>) -> (r: String)
    ensures
        r@ == chars@.map_values(|c: &char| *c),
{
    let mut s = String::new();
    let mut i: usize = 0;
    while i < chars.len()
        invariant
            i <= chars@.len(),
            s@ == chars@.subrange(0, i as int).map_values(|c: &char| *c),
        decreases chars@.len() - i,
    {
        push_char(&mut s, *chars[i]);
        i = i + 1;
        proof {
            assert(s@ =~= chars@.subrange(0, i as int).map_values(|c: &char| *c));
        }
    }
    proof {
        assert(chars@.subrange(0, i as int) =~= chars@);
    }
    s
}

/// The characters of `s`, in order.
fn chars_of(s: &str) -> (r: Vec<char>)
    ensures
        r@ == s@,
{
    let n = s.unicode_len();
    let mut out: Vec<char> = Vec::with_capacity(n);
    let mut i: usize = 0;
    while i < n
        invariant
            n == s@.len(),
            i <= n,
            out@ == s@.subrange(0, i as int),
        decreases n - i,
    {
        out.push(s.get_char(i));
        i = i + 1;
        proof {
            assert(out@ =~= s@.subrange(0, i as int));
        }
    }
    proof {
        assert(s@.subrange(0, n as int) =~= s@);
    }
    out
}

impl NodePath for String {
    type Component = char;

    open spec fn components(&self) -> Seq<char> {
        self@
    }

    fn same_component(a: &char, b: &char) -> (r: bool) {
        *a == *b
    }

    fn from_components(components: &Vec<&char>) -> (r: String) {
        string_from_chars(components)
    }

    fn to_components(&self) -> (r: Vec<char>) {
        chars_of(self.as_str())
    }
}

impl IntoComponents<String> for String {
    open spec fn component_seq(&self) -> Seq<char> {
        self@
    }

    fn into_components(&self) -> (r: Vec<char>) {
        self.to_components()
    }
}

impl IntoComponents<String> for &str {
    open spec fn component_seq(&self) -> Seq<char> {
        (*self)@
    }

    fn into_components(&self) -> (r: Vec<char>) {
        chars_of(*self)
    }
}

impl IntoComponents<String> for char {
    open spec fn component_seq(&self) -> Seq<char> {
        seq![*self]
    }

    fn into_components(&self) -> (r: Vec<char>) {
        let mut v: Vec<char> = Vec::new();
        v.push(*self);
        v
    }
}

} // verus!
