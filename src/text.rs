use vstd::prelude::*;
use vstd::utf8::{encode_scalar, encode_utf8};
use vstd::std_specs::iter::IteratorSpec;

verus! {

/// Number of UTF-8 bytes of a character.
pub open spec fn char_len(c: char) -> nat {
    encode_scalar(c as u32).len()
}

/// Upper-case hexadecimal digit of a value below 16.
pub open spec fn hex_digit(n: u8) -> char {
    if n < 10 {
        (48 + n) as char
    } else {
        (55 + n) as char
    }
}

/// The vocabulary name of a raw byte, `<0xNN>` with two upper-case hex digits.
pub open spec fn byte_token(b: u8) -> Seq<char> {
    seq!['<', '0', 'x', hex_digit(b / 16), hex_digit(b % 16), '>']
}

pub fn char_byte_len(c: char) -> (r: usize)
    ensures
        r == char_len(c),
        1 <= r <= 4,
{
    let v = c as u32;
    if v <= 0x7F {
        1
    } else if v <= 0x7FF {
        2
    } else if v <= 0xFFFF && !(0xD800 <= v && v <= 0xDFFF) {
        3
    } else {
        4
    }
}

fn hex_char(n: u8) -> (r: char)
    requires
        n < 16,
    ensures
        r == hex_digit(n),
{
    if n < 10 {
        (48 + n) as char
    } else {
        (55 + n) as char
    }
}

/// Relies on String::push: appends one character.
#[verifier::external_body]
pub(crate) fn push_char(s: &mut String, c: char)
    ensures
        final(s)@ == old(s)@.push(c),
{
    s.push(c)
}

/// Builds the name `<0xNN>` of a byte.
pub fn byte_token_string(b: u8) -> (r: String)
    ensures
        r@ == byte_token(b),
{
    let mut s = String::new();
    push_char(&mut s, '<');
    push_char(&mut s, '0');
    push_char(&mut s, 'x');
    push_char(&mut s, hex_char(b / 16));
    push_char(&mut s, hex_char(b % 16));
    push_char(&mut s, '>');
    assert(s@ =~= byte_token(b));
    s
}

/// Copies a string's characters into a vector.
pub fn chars_of(s: &str) -> (r: Vec<char>)
    ensures
        r@ == s@,
{
    broadcast use vstd::string::group_string_axioms;

    let mut it = s.chars();
    let mut r: Vec<char> = Vec::new();
    loop
        invariant
            r@ + it.remaining() == s@,
            it.obeys_prophetic_iter_laws(),
            it.decrease() is Some,
        ensures
            r@ == s@,
        decreases it.decrease()->0,
    {
        match it.next() {
            Some(c) => {
                assert(r@.push(c) + it.remaining() =~= s@);
                r.push(c);
            },
            None => {
                assert(r@ =~= s@);
                break;
            },
        }
    }
    r
}

pub proof fn lemma_encode_concat(a: Seq<char>, b: Seq<char>)
    ensures
        encode_utf8(a + b) == encode_utf8(a) + encode_utf8(b),
    decreases a.len(),
{
    if a.len() == 0 {
        assert(a + b =~= b);
        assert(encode_utf8(a) =~= Seq::<u8>::empty());
        assert(encode_utf8(a) + encode_utf8(b) =~= encode_utf8(b));
    } else {
        lemma_encode_concat(a.drop_first(), b);
        assert((a + b).drop_first() =~= a.drop_first() + b);
        assert(encode_utf8(a + b) =~= encode_scalar(a[0] as u32) + encode_utf8(a.drop_first() + b));
    }
}

/// The UTF-8 length of a prefix grows strictly with the number of characters taken.
pub proof fn lemma_encode_take_grows(cs: Seq<char>, j1: int, j2: int)
    requires
        0 <= j1 < j2 <= cs.len(),
    ensures
        encode_utf8(cs.take(j1)).len() < encode_utf8(cs.take(j2)).len(),
    decreases j2 - j1,
{
    lemma_encode_at(cs, j2 - 1);
    if j1 < j2 - 1 {
        lemma_encode_take_grows(cs, j1, j2 - 1);
    }
}

/// The bytes of character `k` sit right after those of the characters before it.
pub proof fn lemma_encode_at(cs: Seq<char>, k: int)
    requires
        0 <= k < cs.len(),
    ensures
        encode_utf8(cs.take(k + 1)) == encode_utf8(cs.take(k)) + encode_scalar(cs[k] as u32),
        encode_utf8(cs.take(k + 1)).len() == encode_utf8(cs.take(k)).len() + char_len(cs[k]),
        encode_utf8(cs.take(k + 1)).len() <= encode_utf8(cs).len(),
        encode_utf8(cs).subrange(
            encode_utf8(cs.take(k)).len() as int,
            encode_utf8(cs.take(k + 1)).len() as int,
        ) == encode_scalar(cs[k] as u32),
{
    lemma_encode_concat(cs.take(k), seq![cs[k]]);
    assert(cs.take(k + 1) =~= cs.take(k) + seq![cs[k]]);
    assert(seq![cs[k]].drop_first() =~= Seq::<char>::empty());
    assert(encode_utf8(seq![cs[k]]) =~= encode_scalar(cs[k] as u32) + encode_utf8(
        Seq::<char>::empty(),
    ));
    assert(encode_utf8(Seq::<char>::empty()) =~= Seq::<u8>::empty());
    lemma_encode_concat(cs.take(k + 1), cs.skip(k + 1));
    assert(cs =~= cs.take(k + 1) + cs.skip(k + 1));
    let e = encode_utf8(cs);
    assert(e.subrange(
        encode_utf8(cs.take(k)).len() as int,
        encode_utf8(cs.take(k + 1)).len() as int,
    ) =~= encode_scalar(cs[k] as u32));
}

} // verus!
