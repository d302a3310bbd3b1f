use vstd::prelude::*;

verus! {

broadcast use vstd::string::group_string_axioms;

/// A token value that is a sequence of atomic symbols: it can be read back
/// as its symbols and built from a sequence of them.
pub trait TokenIter: Sized {
    type Item;

    /// The atomic symbols that make up this token, in order.
    spec fn atoms(&self) -> Seq<Self::Item>;

    /// The atomic symbols of this token, in order.
    fn token_iter(&self) -> (r: Vec<Self::Item>)
        ensures
            r@ == self.atoms(),
    ;

    /// The token whose atomic symbols are `items`, in order.
    fn from_atoms(items: Vec<Self::Item>) -> (r: Self)
        ensures
            r.atoms() == items@,
    ;
}

/// Relies on `String::push`: appends one character at the end.
#[verifier::external_body]
pub(crate) fn push_char(s: &mut String, c: char)
    ensures
        final(s)@ == old(s)@.push(c),
{
    s.push(c)
}

impl TokenIter for String {
    type Item = char;

    open spec fn atoms(&self) -> Seq<char> {
        self@
    }

    fn token_iter(&self) -> (r: Vec<char>) {
        let mut out: Vec<char> = Vec::new();
        for c in it: self.as_str().chars()
            invariant
                out@ == it.seq().subrange(0, it.index() as int),
                it.seq() == self@,
        {
            out.push(c);
        }
        out
    }

    fn from_atoms(items: Vec<char>) -> (r: String) {
        let mut s = String::new();
        for i in 0..items.len()
            invariant
                s@ == items@.subrange(0, i as int),
        {
            push_char(&mut s, items[i]);
            assert(items@.subrange(0, i + 1) == items@.subrange(0, i as int).push(items@[i as int]));
        }
        assert(items@.subrange(0, items@.len() as int) == items@);
        s
    }
}

} // verus!
