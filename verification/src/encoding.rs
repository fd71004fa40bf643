//! How runs of characters show in the bytes of a text.
//!
//! A text is kept as the UTF-8 encoding of its characters. Every character
//! that the grammar looks for is encoded as one byte below 0x80, and every
//! byte of any other encoding is 0x80 or more, so a text can be read byte
//! by byte and cut where a run of characters ends.
use vstd::prelude::*;
use vstd::utf8::*;
use crate::grammar::{span, CharClass, Text};

verus! {

impl CharClass {
    /// Whether a byte belongs to the encoding of a character of the class:
    /// below 0x80 it is the character; from 0x80 on it is part of a
    /// character that is no blank and no line break and that may stand in
    /// any name.
    pub open spec fn has_byte(self, b: u8) -> bool {
        if b < 0x80 {
            self.has(b as char)
        } else {
            self != CharClass::Blank
        }
    }
}

/// The length of the longest prefix of `bytes` made of bytes of `class`.
pub open spec fn byte_span(bytes: Seq<u8>, class: CharClass) -> nat
    decreases bytes.len(),
{
    if bytes.len() > 0 && class.has_byte(bytes[0]) {
        1 + byte_span(bytes.drop_first(), class)
    } else {
        0
    }
}

/// `byte_span` is the one length up to which every byte belongs to the
/// class and at which the bytes end or a byte outside the class stands.
pub proof fn lemma_byte_span_is(bytes: Seq<u8>, class: CharClass, n: int)
    requires
        0 <= n <= bytes.len(),
        forall|j: int| 0 <= j < n ==> class.has_byte(#[trigger] bytes[j]),
        n < bytes.len() ==> !class.has_byte(bytes[n]),
    ensures
        byte_span(bytes, class) == n,
    decreases bytes.len(),
{
    if n > 0 {
        let t = bytes.drop_first();
        assert forall|j: int| 0 <= j < n - 1 implies class.has_byte(#[trigger] t[j]) by {
            assert(t[j] == bytes[j + 1]);
        }
        lemma_byte_span_is(t, class, n - 1);
    }
}

/// A byte with its highest bit set is 0x80 or more.
proof fn lemma_high_bytes(y: u8)
    by (bit_vector)
    ensures
        0x80u8 | y >= 0x80u8,
        0xC0u8 | y >= 0x80u8,
        0xE0u8 | y >= 0x80u8,
        0xF0u8 | y >= 0x80u8,
{
}

/// A value below 0x80 is its own lowest seven bits.
proof fn lemma_low_byte(v: u32)
    by (bit_vector)
    requires
        v <= 0x7F,
    ensures
        (v & 0x7F) as u8 == v as u8,
        v as u8 <= 0x7Fu8,
{
}

/// The encoding of a character below 0x80 is that one byte; every byte of
/// the encoding of another is 0x80 or more.
pub proof fn lemma_char_bytes(c: char)
    ensures
        encode_scalar(c as u32).len() >= 1,
        (c as u32) < 0x80 ==> {
            &&& encode_scalar(c as u32) == seq![c as u8]
            &&& (c as u8) < 0x80
            &&& (c as u8) as char == c
        },
        (c as u32) >= 0x80 ==> forall|j: int|
            0 <= j < encode_scalar(c as u32).len() ==> #[trigger] encode_scalar(c as u32)[j]
                >= 0x80,
{
    let v = c as u32;
    char_is_scalar(c);
    if has_width_1_encoding(v) {
        lemma_low_byte(v);
        assert(encode_scalar(v) =~= seq![c as u8]);
    } else {
        lemma_high_bytes(((v >> 6) & 0x1F) as u8);
        lemma_high_bytes(((v >> 12) & 0x0F) as u8);
        lemma_high_bytes(((v >> 18) & 0x7) as u8);
        lemma_high_bytes((v & 0x3F) as u8);
        lemma_high_bytes(((v >> 6) & 0x3F) as u8);
        lemma_high_bytes(((v >> 12) & 0x3F) as u8);
    }
}

/// Every byte of the encoding of a character belongs to a class exactly
/// where the character does.
pub proof fn lemma_class_bytes(c: char, class: CharClass)
    ensures
        forall|j: int|
            0 <= j < encode_scalar(c as u32).len() ==> class.has_byte(
                #[trigger] encode_scalar(c as u32)[j],
            ) == class.has(c),
{
    lemma_char_bytes(c);
}

/// The encoding of two texts, one behind the other, is the encoding of the
/// one behind that of the other.
pub proof fn lemma_encode_concat(a: Text, b: Text)
    ensures
        encode_utf8(a + b) == encode_utf8(a) + encode_utf8(b),
    decreases a.len(),
{
    if a.len() == 0 {
        assert(a + b =~= b);
        assert(encode_utf8(a) + encode_utf8(b) =~= encode_utf8(b));
    } else {
        lemma_encode_concat(a.drop_first(), b);
        assert((a + b).drop_first() =~= a.drop_first() + b);
        assert(encode_utf8(a + b) =~= encode_utf8(a) + encode_utf8(b));
    }
}

/// Two texts with the same encoding are the same.
pub proof fn lemma_encode_injective(a: Text, b: Text)
    requires
        encode_utf8(a) == encode_utf8(b),
    ensures
        a == b,
{
    encode_utf8_decode_utf8(a);
    encode_utf8_decode_utf8(b);
}

/// Where the encoding of one text ends and that of the next begins, a
/// character begins.
pub proof fn lemma_boundary(a: Text, b: Text)
    ensures
        is_char_boundary(encode_utf8(a + b), encode_utf8(a).len() as int),
    decreases a.len(),
{
    let bytes = encode_utf8(a + b);
    encode_utf8_valid_utf8(a + b);
    if a.len() > 0 {
        let s = a + b;
        lemma_char_bytes(a[0]);
        encode_utf8_first_scalar(s);
        assert(s[0] == a[0]);
        assert(s.drop_first() =~= a.drop_first() + b);
        assert(pop_first_scalar(bytes) =~= encode_utf8(s.drop_first()));
        lemma_boundary(a.drop_first(), b);
        lemma_encode_concat(a, b);
    }
}

/// A text that is cut where a character begins is the one part behind the
/// other: `head` and `tail` are the texts whose encodings are the bytes
/// before and behind the cut.
pub proof fn lemma_cut(s: Text, head: Text, tail: Text, at: int)
    requires
        is_char_boundary(encode_utf8(s), at),
        encode_utf8(head) == encode_utf8(s).subrange(0, at),
        encode_utf8(tail) == encode_utf8(s).subrange(at, encode_utf8(s).len() as int),
    ensures
        s == head + tail,
{
    let bytes = encode_utf8(s);
    encode_utf8_valid_utf8(s);
    decode_utf8_split(bytes, at);
    encode_utf8_decode_utf8(s);
    encode_utf8_decode_utf8(head);
    encode_utf8_decode_utf8(tail);
}

/// What `byte_span` returns: see `lemma_byte_span_is`.
pub proof fn lemma_byte_span(bytes: Seq<u8>, class: CharClass)
    ensures
        byte_span(bytes, class) <= bytes.len(),
        forall|j: int| 0 <= j < byte_span(bytes, class) ==> class.has_byte(#[trigger] bytes[j]),
        byte_span(bytes, class) < bytes.len() ==> !class.has_byte(
            bytes[byte_span(bytes, class) as int],
        ),
    decreases bytes.len(),
{
    if bytes.len() > 0 && class.has_byte(bytes[0]) {
        let t = bytes.drop_first();
        lemma_byte_span(t, class);
        assert forall|j: int| 0 <= j < byte_span(bytes, class) implies class.has_byte(
            #[trigger] bytes[j],
        ) by {
            if j > 0 {
                assert(bytes[j] == t[j - 1]);
            }
        }
        if byte_span(bytes, class) < bytes.len() {
            assert(bytes[byte_span(bytes, class) as int] == t[byte_span(t, class) as int]);
        }
    }
}

/// The bytes of the longest run of characters of a class are the longest
/// run of bytes of the class.
pub proof fn lemma_spans_agree(s: Text, class: CharClass)
    ensures
        byte_span(encode_utf8(s), class) == encode_utf8(s.take(span(s, class) as int)).len(),
    decreases s.len(),
{
    if s.len() == 0 {
        assert(s.take(0) =~= s);
    } else {
        let c = s[0];
        let e = encode_scalar(c as u32);
        let rest = s.drop_first();
        let bytes = encode_utf8(s);
        let after = encode_utf8(rest);
        lemma_char_bytes(c);
        lemma_class_bytes(c, class);
        assert(bytes[0] == e[0]);
        if class.has(c) {
            lemma_spans_agree(rest, class);
            lemma_byte_span(after, class);
            crate::grammar::lemma_span(rest, class);
            let n = span(rest, class) as int;
            let run = encode_utf8(rest.take(n));
            assert(s.take(n + 1)[0] == c);
            assert(s.take(n + 1).drop_first() =~= rest.take(n));
            assert(encode_utf8(s.take(n + 1)) == e + run);
            let m = (e.len() + run.len()) as int;
            assert forall|j: int| 0 <= j < m implies class.has_byte(#[trigger] bytes[j]) by {
                if j < e.len() {
                    assert(bytes[j] == e[j]);
                } else {
                    assert(bytes[j] == after[j - e.len()]);
                }
            }
            if m < bytes.len() {
                assert(bytes[m] == after[run.len() as int]);
            }
            lemma_byte_span_is(bytes, class, m);
        } else {
            assert(s.take(0) =~= Seq::<char>::empty());
            lemma_byte_span_is(bytes, class, 0);
        }
    }
}

/// A text ends in a backslash exactly where its encoding ends in the byte
/// of one.
pub proof fn lemma_last_byte(s: Text)
    ensures
        crate::grammar::is_continued(s) <==> encode_utf8(s).len() > 0 && encode_utf8(s).last()
            == 0x5Cu8,
{
    if s.len() > 0 {
        let c = s.last();
        let front = s.drop_last();
        assert(s =~= front + seq![c]);
        lemma_encode_concat(front, seq![c]);
        lemma_char_bytes(c);
        assert(seq![c].drop_first() =~= Seq::<char>::empty());
        assert(encode_utf8(Seq::<char>::empty()) =~= Seq::<u8>::empty());
        assert(seq![c][0] == c);
        assert(encode_utf8(seq![c]) =~= encode_scalar(c as u32));
        let e = encode_scalar(c as u32);
        assert(encode_utf8(s).last() == e.last());
        assert('\\' as u32 == 0x5C);
    }
}

} // verus!
