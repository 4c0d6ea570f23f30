//! What the trie asks of the key element type: that `==` tells equal
//! elements from different ones.

use vstd::prelude::*;
use vstd::laws_eq::obeys_concrete_eq;

verus! {

/// Whatever a call of `==` on two values of `K` returns, it returns `true`
/// exactly when the two values are equal.
pub open spec fn equality_is_eq<K: PartialEq>() -> bool {
    forall|a: K, b: K, r: bool| #[trigger]
        call_ensures(<K as PartialEq>::eq, (&a, &b), r) ==> r == (a == b)
}

/// `char`'s `PartialEq::eq` in std, to which vstd gives no specification.
/// Two `char`s compare equal exactly when they are the same Unicode scalar
/// value, which is what equality of `char`s means in contracts. Believed,
/// not proved.
pub assume_specification[ <char as PartialEq>::eq ](a: &char, b: &char) -> (r: bool)
    ensures
        r == (*a == *b),
;

/// `char` keys are admitted.
pub proof fn lemma_char_equality()
    ensures
        equality_is_eq::<char>(),
{
}

/// Every type whose `==` vstd knows to be equality is admitted: the
/// integers, `bool`, and the tuples and options of such types.
pub proof fn lemma_concrete_equality<K: PartialEq>()
    requires
        obeys_concrete_eq::<K>(),
    ensures
        equality_is_eq::<K>(),
{
    reveal(obeys_concrete_eq);
}

} // verus!
