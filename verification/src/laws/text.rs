//! Strings: a text and its bytes determine each other.

use crate::grammar::{cstring, done, lemma_text_len, lemma_text_len_is, text_len};
use vstd::prelude::*;
use vstd::utf8::{
    char_is_scalar, decode_utf8_encode_utf8, encode_scalar, encode_utf8, encode_utf8_decode_utf8,
    encode_utf8_valid_utf8, has_width_1_encoding, last_continuation_byte, leading_byte_width_1,
    leading_byte_width_2, leading_byte_width_3, leading_byte_width_4,
    second_last_continuation_byte, third_last_continuation_byte,
};

verus! {

/// No byte of `s` is zero.
pub open spec fn no_zero_byte(s: Seq<u8>) -> bool {
    forall|i: int| 0 <= i < s.len() ==> s[i] != 0
}

/// No character of `text` is the null character.
pub open spec fn no_nul_char(text: Seq<char>) -> bool {
    forall|i: int| 0 <= i < text.len() ==> text[i] != '\0'
}

/// The encoding of a character holds a zero byte only if the character is
/// the null character, whose encoding is one zero byte.
pub proof fn lemma_encode_scalar_zero(c: char)
    ensures
        c != '\0' ==> no_zero_byte(encode_scalar(c as u32)),
        c == '\0' ==> encode_scalar(c as u32) == seq![0u8],
{
    let v = c as u32;
    char_is_scalar(c);
    assert(v <= 0x7F ==> (leading_byte_width_1(v) == 0 <==> v == 0)) by (bit_vector);
    assert(leading_byte_width_2(v) != 0) by (bit_vector);
    assert(leading_byte_width_3(v) != 0) by (bit_vector);
    assert(leading_byte_width_4(v) != 0) by (bit_vector);
    assert(last_continuation_byte(v) != 0) by (bit_vector);
    assert(second_last_continuation_byte(v) != 0) by (bit_vector);
    assert(third_last_continuation_byte(v) != 0) by (bit_vector);
    if c == '\0' {
        assert(has_width_1_encoding(v));
        assert(encode_scalar(v) =~= seq![0u8]);
    }
}

/// The encoding of a text holds a zero byte if and only if the text holds
/// the null character.
pub proof fn lemma_encode_utf8_zero(text: Seq<char>)
    ensures
        no_nul_char(text) <==> no_zero_byte(encode_utf8(text)),
    decreases text.len(),
{
    if text.len() > 0 {
        let head = encode_scalar(text[0] as u32);
        let tail = text.drop_first();
        lemma_encode_scalar_zero(text[0]);
        lemma_encode_utf8_zero(tail);
        let all = encode_utf8(text);
        assert(all == head + encode_utf8(tail));
        if no_nul_char(text) {
            assert forall|i: int| 0 <= i < tail.len() implies tail[i] != '\0' by {
                assert(tail[i] == text[i + 1]);
            }
            assert forall|j: int| 0 <= j < all.len() implies all[j] != 0 by {
                if j < head.len() {
                    assert(all[j] == head[j]);
                } else {
                    assert(all[j] == encode_utf8(tail)[j - head.len()]);
                }
            }
        }
        if no_zero_byte(all) {
            assert forall|j: int| 0 <= j < encode_utf8(tail).len() implies encode_utf8(tail)[j]
                != 0 by {
                assert(encode_utf8(tail)[j] == all[j + head.len()]);
            }
            if text[0] == '\0' {
                assert(all[0] == head[0]);
            }
            assert forall|i: int| 0 <= i < text.len() implies text[i] != '\0' by {
                if i > 0 {
                    assert(text[i] == tail[i - 1]);
                }
            }
        }
    }
}

/// A text without the null character, encoded as UTF-8 and followed by a
/// zero byte, decodes to the same text, and the cursor is left behind the
/// zero byte.
pub proof fn lemma_string_round_trip(text: Seq<char>, tail: Seq<u8>)
    requires
        no_nul_char(text),
    ensures
        cstring(encode_utf8(text) + seq![0u8] + tail) == done(text, tail),
{
    let bytes = encode_utf8(text);
    let s = bytes + seq![0u8] + tail;
    let n = bytes.len() as int;
    lemma_encode_utf8_zero(text);
    assert forall|i: int| 0 <= i < n implies s[i] != 0 by {
        assert(s[i] == bytes[i]);
    }
    assert(s[n] == 0);
    lemma_text_len_is(s, n);
    assert(s.take(n) =~= bytes);
    assert(s.skip(n + 1) =~= tail);
    encode_utf8_valid_utf8(text);
    encode_utf8_decode_utf8(text);
}

/// A decoded text never holds the null character: the zero byte that ends a
/// string is no part of it.
pub proof fn lemma_text_has_no_nul(s: Seq<u8>)
    ensures
        cstring(s).result matches Ok(text) ==> no_nul_char(text),
{
    if let Ok(text) = cstring(s).result {
        let n = text_len(s) as int;
        let bytes = s.take(n);
        lemma_text_len(s);
        decode_utf8_encode_utf8(bytes);
        assert forall|i: int| 0 <= i < bytes.len() implies bytes[i] != 0 by {
            assert(bytes[i] == s[i]);
        }
        lemma_encode_utf8_zero(text);
    }
}

} // verus!
