//! Keys which are made of three texts.

use crate::text::{comes_before, lemma_text_before_chain, lemma_text_before_once, same_text, text_before};
use vstd::prelude::*;

verus! {

pub type TextTriple = (Seq<char>, Seq<char>, Seq<char>);

/// Whether a key comes before another one: the first text in which they differ
/// decides.
pub open spec fn triple_before(a: TextTriple, b: TextTriple) -> bool {
    if a.0 != b.0 {
        text_before(a.0, b.0)
    } else if a.1 != b.1 {
        text_before(a.1, b.1)
    } else {
        text_before(a.2, b.2)
    }
}

/// Of two different keys exactly one comes before the other.
pub proof fn lemma_triple_before_once(a: TextTriple, b: TextTriple)
    ensures
        triple_before(a, b) ==> !triple_before(b, a) && a != b,
        !triple_before(a, b) && !triple_before(b, a) ==> a == b,
{
    lemma_text_before_once(a.0, b.0);
    lemma_text_before_once(a.1, b.1);
    lemma_text_before_once(a.2, b.2);
}

/// What comes before a key comes before everything that key comes before.
pub proof fn lemma_triple_before_chain(a: TextTriple, b: TextTriple, c: TextTriple)
    ensures
        triple_before(a, b) && triple_before(b, c) ==> triple_before(a, c),
{
    lemma_text_before_chain(a.0, b.0, c.0);
    lemma_text_before_chain(a.1, b.1, c.1);
    lemma_text_before_chain(a.2, b.2, c.2);
    lemma_text_before_once(a.0, b.0);
    lemma_text_before_once(a.1, b.1);
    lemma_text_before_once(b.0, c.0);
    lemma_text_before_once(b.1, c.1);
}

/// What may stand in front of a key may stand in front of everything that key may
/// stand in front of.
pub proof fn lemma_triple_not_before_chain(a: TextTriple, b: TextTriple, c: TextTriple)
    ensures
        !triple_before(b, a) && !triple_before(c, b) ==> !triple_before(c, a),
{
    lemma_triple_before_chain(c, a, b);
    lemma_triple_before_chain(c, b, a);
    lemma_triple_before_once(a, b);
    lemma_triple_before_once(b, c);
    lemma_triple_before_once(a, c);
}

/// Whether a key comes before another one.
pub fn triple_comes_before(a: (&str, &str, &str), b: (&str, &str, &str)) -> (r: bool)
    ensures
        r == triple_before((a.0@, a.1@, a.2@), (b.0@, b.1@, b.2@)),
{
    if !same_text(a.0, b.0) {
        comes_before(a.0, b.0)
    } else if !same_text(a.1, b.1) {
        comes_before(a.1, b.1)
    } else {
        comes_before(a.2, b.2)
    }
}

}
