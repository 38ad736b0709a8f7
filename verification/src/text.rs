//! Strings: the few operations on them everything else is built from.

use vstd::prelude::*;
use vstd::utf8::{
    decode_utf8, encode_utf8, encode_utf8_decode_utf8, is_ascii_chars, is_ascii_chars_encode_utf8,
    valid_utf8,
};

verus! {

/// `String::push`: the character is appended to the text.
pub assume_specification[ String::push ](s: &mut String, c: char)
    ensures
        final(s)@ == old(s)@.push(c),
;

/// `String::from_utf8`: the bytes become a text exactly when they are valid
/// UTF-8, and then they are the encoding of that text.
#[verifier::external_body]
pub(crate) fn text_from_utf8(bytes: Vec<u8>) -> (r: Option<String>)
    ensures
        r is Some <==> valid_utf8(bytes@),
        r matches Some(s) ==> s@ == decode_utf8(bytes@),
{
    String::from_utf8(bytes).ok()
}

/// The decimal digit of a number below ten.
pub open spec fn digit_char(n: nat) -> char {
    (('0' as nat) + n) as char
}

/// A number as it is written in decimal, with no leading zeros.
pub open spec fn decimal(n: nat) -> Seq<char>
    decreases n,
{
    if n < 10 {
        seq![digit_char(n)]
    } else {
        decimal(n / 10).push(digit_char(n % 10))
    }
}

/// A number as it is written in decimal, with a minus sign where it is
/// negative.
pub open spec fn signed_decimal(n: int) -> Seq<char> {
    if n < 0 {
        seq!['-'] + decimal((-n) as nat)
    } else {
        decimal(n as nat)
    }
}

fn digit_to_char(n: u8) -> (c: char)
    requires
        n < 10,
    ensures
        c == digit_char(n as nat),
{
    (48u8 + n) as char
}

/// Writes a number in decimal at the end of a text.
pub fn append_decimal(dest: &mut String, n: u128)
    ensures
        final(dest)@ == old(dest)@ + decimal(n as nat),
    decreases n,
{
    if n >= 10 {
        append_decimal(dest, n / 10);
    }
    dest.push(digit_to_char((n % 10) as u8));
    assert(dest@ =~= old(dest)@ + decimal(n as nat));
}

/// Writes a number in decimal at the end of a text.
pub fn append_signed_decimal(dest: &mut String, n: i128)
    requires
        i128::MIN < n,
    ensures
        final(dest)@ == old(dest)@ + signed_decimal(n as int),
{
    if n < 0 {
        dest.push('-');
        append_decimal(dest, (-n) as u128);
        assert(dest@ =~= old(dest)@ + signed_decimal(n as int));
    } else {
        append_decimal(dest, n as u128);
    }
}

/// Whether some bytes come before others, byte by byte.
pub open spec fn bytes_before(a: Seq<u8>, b: Seq<u8>) -> bool
    decreases a.len(),
{
    if b.len() == 0 {
        false
    } else if a.len() == 0 {
        true
    } else {
        a[0] < b[0] || a[0] == b[0] && bytes_before(a.drop_first(), b.drop_first())
    }
}

/// Whether a text comes before another one.
pub open spec fn text_before(a: Seq<char>, b: Seq<char>) -> bool {
    bytes_before(encode_utf8(a), encode_utf8(b))
}

proof fn lemma_bytes_before_once(a: Seq<u8>, b: Seq<u8>)
    ensures
        bytes_before(a, b) ==> !bytes_before(b, a) && a != b,
        !bytes_before(a, b) && !bytes_before(b, a) ==> a == b,
    decreases a.len(),
{
    if a.len() == 0 || b.len() == 0 {
        if a.len() == b.len() {
            assert(a =~= b);
        }
    } else {
        lemma_bytes_before_once(a.drop_first(), b.drop_first());
        if a[0] == b[0] && a.drop_first() == b.drop_first() {
            assert(seq![a[0]] + a.drop_first() =~= a);
            assert(seq![b[0]] + b.drop_first() =~= b);
        }
    }
}

proof fn lemma_bytes_before_chain(a: Seq<u8>, b: Seq<u8>, c: Seq<u8>)
    ensures
        bytes_before(a, b) && bytes_before(b, c) ==> bytes_before(a, c),
    decreases a.len(),
{
    if a.len() > 0 && b.len() > 0 && c.len() > 0 {
        lemma_bytes_before_chain(a.drop_first(), b.drop_first(), c.drop_first());
    }
}

/// Of two texts one comes before the other unless they are the same.
pub proof fn lemma_text_before_once(a: Seq<char>, b: Seq<char>)
    ensures
        text_before(a, b) ==> !text_before(b, a) && a != b,
        !text_before(a, b) && !text_before(b, a) ==> a == b,
{
    lemma_bytes_before_once(encode_utf8(a), encode_utf8(b));
    encode_utf8_decode_utf8(a);
    encode_utf8_decode_utf8(b);
}

/// What comes before a text comes before everything that text comes before.
pub proof fn lemma_text_before_chain(a: Seq<char>, b: Seq<char>, c: Seq<char>)
    ensures
        text_before(a, b) && text_before(b, c) ==> text_before(a, c),
{
    lemma_bytes_before_chain(encode_utf8(a), encode_utf8(b), encode_utf8(c));
}

/// Whether a text comes before another one.
pub fn comes_before(a: &str, b: &str) -> (r: bool)
    ensures
        r == text_before(a@, b@),
{
    let left = a.as_bytes();
    let right = b.as_bytes();
    let mut i: usize = 0;
    assert(left@.skip(0) =~= left@);
    assert(right@.skip(0) =~= right@);
    while i < left.len() && i < right.len()
        invariant
            i <= left.len(),
            i <= right.len(),
            left@ == encode_utf8(a@),
            right@ == encode_utf8(b@),
            bytes_before(left@, right@) == bytes_before(
                left@.skip(i as int),
                right@.skip(i as int),
            ),
        decreases left.len() - i,
    {
        if left[i] != right[i] {
            return left[i] < right[i];
        }
        assert(left@.skip(i as int).drop_first() =~= left@.skip(i + 1));
        assert(right@.skip(i as int).drop_first() =~= right@.skip(i + 1));
        i = i + 1;
    }
    i < right.len()
}

/// Whether two texts are the same.
pub fn same_text(a: &str, b: &str) -> (r: bool)
    ensures
        r == (a@ == b@),
{
    proof {
        lemma_text_before_once(a@, b@);
    }
    !comes_before(a, b) && !comes_before(b, a)
}

/// The characters of a text.
pub fn chars_of(text: &str) -> (r: Vec<char>)
    ensures
        r@ == text@,
{
    let mut r: Vec<char> = Vec::new();
    for c in it: text.chars()
        invariant
            it.seq() == text@,
            r@ == text@.take(it.index() as int),
    {
        r.push(c);
        assert(r@ =~= text@.take(it.index() + 1));
    }
    assert(text@.take(text@.len() as int) =~= text@);
    r
}

/// The bytes of two texts in a row are those of the one and then of the other.
pub proof fn lemma_encode_concat(a: Seq<char>, b: Seq<char>)
    ensures
        encode_utf8(a + b) == encode_utf8(a) + encode_utf8(b),
    decreases a.len(),
{
    if a.len() == 0 {
        assert(a + b =~= b);
        assert(encode_utf8(a) + encode_utf8(b) =~= encode_utf8(b));
    } else {
        lemma_encode_concat(a.drop_first(), b);
        assert((a + b).drop_first() =~= a.drop_first() + b);
        assert(encode_utf8(a + b) =~= encode_utf8(a) + encode_utf8(b));
    }
}

proof fn lemma_bytes_common_front(front: Seq<u8>, a: Seq<u8>, b: Seq<u8>)
    ensures
        bytes_before(front + a, front + b) == bytes_before(a, b),
    decreases front.len(),
{
    if front.len() == 0 {
        assert(front + a =~= a);
        assert(front + b =~= b);
    } else {
        lemma_bytes_common_front(front.drop_first(), a, b);
        assert((front + a).drop_first() =~= front.drop_first() + a);
        assert((front + b).drop_first() =~= front.drop_first() + b);
    }
}

proof fn lemma_bytes_front_decides(a: Seq<u8>, b: Seq<u8>, x: Seq<u8>, y: Seq<u8>)
    requires
        bytes_before(a, b),
        a.len() == b.len(),
    ensures
        bytes_before(a + x, b + y),
    decreases a.len(),
{
    if a.len() > 0 {
        assert((a + x).drop_first() =~= a.drop_first() + x);
        assert((b + y).drop_first() =~= b.drop_first() + y);
        if a[0] == b[0] {
            lemma_bytes_front_decides(a.drop_first(), b.drop_first(), x, y);
        }
    }
}

/// Texts which start alike are in the order of what follows.
pub proof fn lemma_common_front(front: Seq<char>, a: Seq<char>, b: Seq<char>)
    ensures
        text_before(front + a, front + b) == text_before(a, b),
{
    lemma_encode_concat(front, a);
    lemma_encode_concat(front, b);
    lemma_bytes_common_front(encode_utf8(front), encode_utf8(a), encode_utf8(b));
}

/// Texts whose fronts are of the same length and in order are in that order.
pub proof fn lemma_front_decides(a: Seq<char>, b: Seq<char>, x: Seq<char>, y: Seq<char>)
    requires
        text_before(a, b),
        encode_utf8(a).len() == encode_utf8(b).len(),
    ensures
        text_before(a + x, b + y),
{
    lemma_encode_concat(a, x);
    lemma_encode_concat(b, y);
    lemma_bytes_front_decides(encode_utf8(a), encode_utf8(b), encode_utf8(x), encode_utf8(y));
}

/// Of two texts with different first characters below 128 the one with the lower
/// one comes first.
pub proof fn lemma_first_char_decides(a: Seq<char>, first: char, b: Seq<char>, second: char)
    requires
        a.len() > 0,
        b.len() > 0,
        a[0] == first,
        b[0] == second,
        first < second,
        second < '\u{80}',
    ensures
        text_before(a, b),
{
    let (x, y) = (seq![first], seq![second]);
    assert(is_ascii_chars(x) && is_ascii_chars(y));
    is_ascii_chars_encode_utf8(x);
    is_ascii_chars_encode_utf8(y);
    assert(x[0] as u8 == encode_utf8(x)[0] && y[0] as u8 == encode_utf8(y)[0]);
    assert(a =~= x + a.drop_first());
    assert(b =~= y + b.drop_first());
    lemma_encode_concat(x, a.drop_first());
    lemma_encode_concat(y, b.drop_first());
}

/// A number written in decimal is made of digits, and of at least one.
pub proof fn lemma_decimal_digits(n: nat)
    ensures
        decimal(n).len() > 0,
        forall|i: int|
            0 <= i < decimal(n).len() ==> '0' <= #[trigger] decimal(n)[i] && decimal(n)[i] <= '9',
    decreases n,
{
    if n >= 10 {
        lemma_decimal_digits(n / 10);
        let front = decimal(n / 10);
        assert forall|i: int| 0 <= i < decimal(n).len() implies '0' <= #[trigger] decimal(n)[i]
            && decimal(n)[i] <= '9' by {
            if i < front.len() {
                assert(decimal(n)[i] == front[i]);
            }
        }
    }
}

/// Different numbers are written differently.
pub proof fn lemma_decimal_tells_apart(a: nat, b: nat)
    requires
        decimal(a) == decimal(b),
    ensures
        a == b,
    decreases a,
{
    lemma_decimal_digits(a / 10);
    lemma_decimal_digits(b / 10);
    assert(decimal(a).last() == digit_char(a % 10));
    assert(decimal(b).last() == digit_char(b % 10));
    if a < 10 {
        assert(decimal(a).len() == 1);
        if b >= 10 {
            assert(decimal(b).len() == decimal(b / 10).len() + 1);
        }
    } else {
        assert(decimal(a).len() == decimal(a / 10).len() + 1);
        if b >= 10 {
            assert(decimal(a).drop_last() =~= decimal(a / 10));
            assert(decimal(b).drop_last() =~= decimal(b / 10));
            lemma_decimal_tells_apart(a / 10, b / 10);
        } else {
            assert(decimal(b).len() == 1);
        }
    }
}

/// Whether a text says something somewhere.
pub open spec fn mentions(text: Seq<char>, what: Seq<char>) -> bool {
    exists|before: Seq<char>, after: Seq<char>| text == #[trigger] (before + what + after)
}

/// Texts are in the order of their bytes: where one goes on behind the other it comes later,
/// and else the first byte in which they differ decides.
pub proof fn texts_are_in_the_order_of_their_bytes(a: Seq<char>, b: Seq<char>)
    ensures
        text_before(a, b) <==> exists|k: int| #[trigger]
            is_decided_at(encode_utf8(a), encode_utf8(b), k),
{
    lemma_bytes_in_order(encode_utf8(a), encode_utf8(b));
}

/// Whether two runs of bytes are alike up to a place, and what stands there puts the first
/// one in front: it ends there, or has the lower byte.
pub open spec fn is_decided_at(a: Seq<u8>, b: Seq<u8>, k: int) -> bool {
    &&& 0 <= k <= a.len()
    &&& k < b.len()
    &&& a.take(k) == b.take(k)
    &&& k == a.len() || a[k] < b[k]
}

proof fn lemma_bytes_in_order(a: Seq<u8>, b: Seq<u8>)
    ensures
        bytes_before(a, b) <==> exists|k: int| #[trigger] is_decided_at(a, b, k),
    decreases a.len(),
{
    if b.len() > 0 {
        if a.len() == 0 {
            assert(a.take(0) =~= b.take(0));
            assert(is_decided_at(a, b, 0));
        } else {
            let (x, y) = (a.drop_first(), b.drop_first());
            lemma_bytes_in_order(x, y);
            if a[0] < b[0] {
                assert(a.take(0) =~= b.take(0));
                assert(is_decided_at(a, b, 0));
            }
            if a[0] == b[0] && bytes_before(x, y) {
                let k = choose|k: int| #[trigger] is_decided_at(x, y, k);
                assert(a.take(k + 1) =~= seq![a[0]] + x.take(k));
                assert(b.take(k + 1) =~= seq![b[0]] + y.take(k));
                assert(is_decided_at(a, b, k + 1));
            }
            if exists|k: int| #[trigger] is_decided_at(a, b, k) {
                let k = choose|k: int| #[trigger] is_decided_at(a, b, k);
                if k > 0 {
                    assert(a.take(k)[0] == b.take(k)[0]);
                    assert(x.take(k - 1) =~= a.take(k).drop_first());
                    assert(y.take(k - 1) =~= b.take(k).drop_first());
                    assert(is_decided_at(x, y, k - 1));
                }
            }
        }
    }
}

}
