//! The mathematical model of a text: how many UTF-8 bytes and how many
//! UTF-16 code units its characters take.

use vstd::prelude::*;
use vstd::utf8::*;

verus! {

/// The number of bytes in the UTF-8 encoding of `c`.
pub open spec fn char_utf8_len(c: char) -> nat {
    if (c as u32) < 0x80 {
        1
    } else if (c as u32) < 0x800 {
        2
    } else if (c as u32) < 0x10000 {
        3
    } else {
        4
    }
}

/// The number of code units in the UTF-16 encoding of `c`.
pub open spec fn char_utf16_len(c: char) -> nat {
    if (c as u32) < 0x10000 {
        1
    } else {
        2
    }
}

/// The number of bytes in the UTF-8 encoding of `s`.
pub open spec fn utf8_len(s: Seq<char>) -> nat
    decreases s.len(),
{
    if s.len() == 0 {
        0
    } else {
        utf8_len(s.drop_last()) + char_utf8_len(s.last())
    }
}

/// The number of code units in the UTF-16 encoding of `s`.
pub open spec fn utf16_len(s: Seq<char>) -> nat
    decreases s.len(),
{
    if s.len() == 0 {
        0
    } else {
        utf16_len(s.drop_last()) + char_utf16_len(s.last())
    }
}

pub proof fn lemma_utf8_len_concat(a: Seq<char>, b: Seq<char>)
    ensures
        utf8_len(a + b) == utf8_len(a) + utf8_len(b),
    decreases b.len(),
{
    if b.len() == 0 {
        assert(a + b =~= a);
    } else {
        lemma_utf8_len_concat(a, b.drop_last());
        assert((a + b).drop_last() =~= a + b.drop_last());
    }
}

pub proof fn lemma_utf16_len_concat(a: Seq<char>, b: Seq<char>)
    ensures
        utf16_len(a + b) == utf16_len(a) + utf16_len(b),
    decreases b.len(),
{
    if b.len() == 0 {
        assert(a + b =~= a);
    } else {
        lemma_utf16_len_concat(a, b.drop_last());
        assert((a + b).drop_last() =~= a + b.drop_last());
    }
}

/// The byte count of `str::len` is the UTF-8 length of the characters.
pub proof fn lemma_encode_utf8_len(s: Seq<char>)
    ensures
        encode_utf8(s).len() == utf8_len(s),
    decreases s.len(),
{
    if s.len() > 0 {
        lemma_encode_utf8_len(s.drop_first());
        let c = s[0];
        assert(is_scalar(c as u32)) by {
            char_is_scalar(c);
        }
        assert(encode_scalar(c as u32).len() == char_utf8_len(c));
        assert(s =~= seq![c] + s.drop_first());
        lemma_utf8_len_concat(seq![c], s.drop_first());
        assert(seq![c].drop_last() =~= Seq::<char>::empty());
        assert(utf8_len(Seq::<char>::empty()) == 0);
        assert(seq![c].last() == c);
        assert(utf8_len(seq![c]) == char_utf8_len(c));
        assert(encode_utf8(s) == encode_scalar(c as u32) + encode_utf8(s.drop_first())) by {
            reveal_with_fuel(encode_utf8, 2);
        }
    }
}

/// The UTF-8 length of a character followed by more text.
pub proof fn lemma_utf8_len_cons(c: char, t: Seq<char>)
    ensures
        utf8_len(seq![c] + t) == char_utf8_len(c) + utf8_len(t),
{
    lemma_utf8_len_concat(seq![c], t);
    assert(seq![c].drop_last() =~= Seq::<char>::empty());
    assert(utf8_len(Seq::<char>::empty()) == 0);
    assert(seq![c].last() == c);
}

/// The shape of the UTF-8 encoding of one character: its length; a lone
/// byte equal to the character below U+0080; otherwise a leading byte from
/// 0xC0 on that tells the length, followed by continuation bytes.
pub proof fn lemma_encode_scalar_bytes(c: char)
    ensures
        ({
            let e = encode_scalar(c as u32);
            &&& e.len() == char_utf8_len(c)
            &&& ((c as u32) < 0x80 ==> e[0] as u32 == c as u32)
            &&& ((c as u32) >= 0x80 ==> e[0] >= 0xC0)
            &&& forall|i: int| 1 <= i < e.len() ==> is_continuation_byte(#[trigger] e[i])
            &&& (e.len() == 2 <==> 0xC0 <= e[0] < 0xE0)
            &&& (e.len() == 3 <==> 0xE0 <= e[0] < 0xF0)
            &&& (e.len() == 4 <==> 0xF0 <= e[0])
        }),
{
    char_is_scalar(c);
    let v = c as u32;
    let e = encode_scalar(v);
    if has_width_1_encoding(v) {
        assert(leading_byte_width_1(v) as u32 == v) by (bit_vector)
            requires
                v <= 0x7F,
        ;
    } else if has_width_2_encoding(v) {
        assert(0xC0 <= leading_byte_width_2(v) < 0xE0 && is_continuation_byte(
            last_continuation_byte(v),
        )) by (bit_vector)
            requires
                0x80 <= v <= 0x7FF,
        ;
    } else if has_width_3_encoding(v) {
        assert(0xE0 <= leading_byte_width_3(v) < 0xF0 && is_continuation_byte(
            second_last_continuation_byte(v),
        ) && is_continuation_byte(last_continuation_byte(v))) by (bit_vector)
            requires
                0x800 <= v <= 0xFFFF,
        ;
    } else {
        assert(0xF0 <= leading_byte_width_4(v) && is_continuation_byte(
            third_last_continuation_byte(v),
        ) && is_continuation_byte(second_last_continuation_byte(v)) && is_continuation_byte(
            last_continuation_byte(v),
        )) by (bit_vector)
            requires
                0x10000 <= v <= 0x10FFFF,
        ;
    }
}

/// Two characters with the same UTF-8 encoding are the same.
pub proof fn lemma_encode_scalar_injective(a: char, b: char)
    requires
        encode_scalar(a as u32) == encode_scalar(b as u32),
    ensures
        a == b,
{
    encode_utf8_first_scalar(seq![a]);
    encode_utf8_first_scalar(seq![b]);
    assert(seq![a].drop_first() =~= Seq::<char>::empty());
    assert(seq![b].drop_first() =~= Seq::<char>::empty());
    assert(encode_utf8(seq![a]) =~= encode_scalar(a as u32)) by {
        reveal_with_fuel(encode_utf8, 2);
    }
    assert(encode_utf8(seq![b]) =~= encode_scalar(b as u32)) by {
        reveal_with_fuel(encode_utf8, 2);
    }
    char_u32_cast(a, a as u32);
    char_u32_cast(b, b as u32);
}

/// The encoding of a non-empty text is that of its first character followed
/// by that of the rest.
pub proof fn lemma_encode_utf8_first(s: Seq<char>)
    requires
        s.len() > 0,
    ensures
        encode_utf8(s) == encode_scalar(s[0] as u32) + encode_utf8(s.drop_first()),
{
    reveal_with_fuel(encode_utf8, 2);
}

/// Every character takes at least one byte.
pub proof fn lemma_utf8_len_at_least_len(s: Seq<char>)
    ensures
        utf8_len(s) >= s.len(),
    decreases s.len(),
{
    if s.len() > 0 {
        lemma_utf8_len_at_least_len(s.drop_last());
    }
}

/// No character takes more UTF-16 code units than UTF-8 bytes.
pub proof fn lemma_utf16_len_le_utf8_len(s: Seq<char>)
    ensures
        utf16_len(s) <= utf8_len(s),
    decreases s.len(),
{
    if s.len() > 0 {
        lemma_utf16_len_le_utf8_len(s.drop_last());
    }
}

/// Longer prefixes take more bytes, at least one more per character, and
/// no fewer UTF-16 code units.
pub proof fn lemma_take_monotone(s: Seq<char>, j: int, k: int)
    requires
        0 <= j <= k <= s.len(),
    ensures
        utf8_len(s.take(j)) + (k - j) <= utf8_len(s.take(k)),
        utf16_len(s.take(j)) <= utf16_len(s.take(k)),
{
    let mid = s.subrange(j, k);
    assert(s.take(k) =~= s.take(j) + mid);
    lemma_utf8_len_concat(s.take(j), mid);
    lemma_utf16_len_concat(s.take(j), mid);
    lemma_utf8_len_at_least_len(mid);
}

/// The encoding of two texts one after the other is the encoding of the
/// first followed by that of the second.
pub proof fn lemma_encode_utf8_concat(a: Seq<char>, b: Seq<char>)
    ensures
        encode_utf8(a + b) == encode_utf8(a) + encode_utf8(b),
    decreases a.len(),
{
    if a.len() == 0 {
        assert(a + b =~= b);
        assert(encode_utf8(a) =~= Seq::<u8>::empty());
        assert(encode_utf8(a) + encode_utf8(b) =~= encode_utf8(b));
    } else {
        lemma_encode_utf8_concat(a.drop_first(), b);
        assert((a + b).drop_first() =~= a.drop_first() + b);
        lemma_encode_utf8_first(a + b);
        lemma_encode_utf8_first(a);
        assert((a + b)[0] == a[0]);
        assert(encode_utf8(a + b) =~= encode_utf8(a) + encode_utf8(b));
    }
}

/// The characters of `s`, in order.
pub(crate) fn chars_of(s: &str) -> (r: Vec<char>)
    ensures
        r@ == s@,
{
    let mut v: Vec<char> = Vec::new();
    for c in iter: s.chars()
        invariant
            v@ == iter.seq().take(iter.index()),
    {
        v.push(c);
    }
    v
}

} // verus!
