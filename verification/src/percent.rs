//! Percent-encoding of text, by the `percent_encoding` crate.

use vstd::prelude::*;
use vstd::slice::slice_subrange;
use vstd::utf8::*;

use crate::text;

verus! {

// ---------------------------------------------------------------------------
// Encoding
// ---------------------------------------------------------------------------

/// The upper-case hexadecimal digit of a number below 16.
pub open spec fn hex_digit(n: int) -> char {
    if n < 10 {
        ('0' as int + n) as char
    } else {
        ('A' as int + n - 10) as char
    }
}

/// The bytes that are written as `%` and two digits: those outside ASCII, the
/// ASCII controls and the reserved ones.
pub open spec fn escaped_byte(byte: u8, reserved: Set<u8>) -> bool {
    byte >= 0x80 || byte < 0x20 || byte == 0x7f || reserved.contains(byte)
}

/// `%` and the two hexadecimal digits of a byte.
pub open spec fn byte_escape(byte: u8) -> Seq<char> {
    seq!['%', hex_digit(byte as int / 16), hex_digit(byte as int % 16)]
}

/// How bytes are written, one after the other.
pub open spec fn encoded_bytes(bytes: Seq<u8>, reserved: Set<u8>) -> Seq<char>
    decreases bytes.len(),
{
    if bytes.len() == 0 {
        Seq::empty()
    } else if escaped_byte(bytes.first(), reserved) {
        byte_escape(bytes.first()) + encoded_bytes(bytes.drop_first(), reserved)
    } else {
        seq![bytes.first() as char] + encoded_bytes(bytes.drop_first(), reserved)
    }
}

/// `percent_encoding::percent_encode_byte` writes any byte as `%` and its two
/// upper-case hexadecimal digits.
pub assume_specification[ percent_encoding::percent_encode_byte ](byte: u8) -> (r: &'static str)
    ensures
        r@ == byte_escape(byte),
;

/// Percent-encodes the UTF-8 bytes of `s` with `percent_encoding::utf8_percent_encode`
/// and its set `CONTROLS`. Claimed of it: each byte that is an ASCII control
/// or outside ASCII becomes `%` and two upper-case hexadecimal digits, and
/// every other byte stays as it is.
#[verifier::external_body]
fn percent_encode_controls(s: &str) -> (r: String)
    ensures
        r@ == encoded_bytes(encode_utf8(s@), Set::empty()),
{
    percent_encoding::utf8_percent_encode(s, percent_encoding::CONTROLS).to_string()
}

proof fn lemma_encode_utf8_concat(a: Seq<char>, b: Seq<char>)
    ensures
        encode_utf8(a + b) == encode_utf8(a) + encode_utf8(b),
    decreases a.len(),
{
    if a.len() == 0 {
        assert(a + b =~= b);
        assert(encode_utf8(a) + encode_utf8(b) =~= encode_utf8(b));
    } else {
        lemma_encode_utf8_concat(a.drop_first(), b);
        assert((a + b).drop_first() =~= a.drop_first() + b);
        let head = encode_scalar(a[0] as u32);
        assert(head + (encode_utf8(a.drop_first()) + encode_utf8(b)) =~= head + encode_utf8(
            a.drop_first(),
        ) + encode_utf8(b));
    }
}

proof fn lemma_encoded_concat(a: Seq<u8>, b: Seq<u8>, reserved: Set<u8>)
    ensures
        encoded_bytes(a + b, reserved) == encoded_bytes(a, reserved) + encoded_bytes(b, reserved),
    decreases a.len(),
{
    if a.len() == 0 {
        assert(a + b =~= b);
        assert(encoded_bytes(a, reserved) + encoded_bytes(b, reserved) =~= encoded_bytes(
            b,
            reserved,
        ));
    } else {
        lemma_encoded_concat(a.drop_first(), b, reserved);
        assert((a + b).drop_first() =~= a.drop_first() + b);
        let head = if escaped_byte(a.first(), reserved) {
            byte_escape(a.first())
        } else {
            seq![a.first() as char]
        };
        assert(head + (encoded_bytes(a.drop_first(), reserved) + encoded_bytes(b, reserved))
            =~= head + encoded_bytes(a.drop_first(), reserved) + encoded_bytes(b, reserved));
    }
}

/// The UTF-8 encoding of an ASCII character is that one byte, and the encoding
/// of any other character has no ASCII byte.
proof fn lemma_ascii_bytes_of_scalar(c: char)
    ensures
        (c as u32) < 0x80 ==> encode_scalar(c as u32) == seq![c as u8],
        c as u32 >= 0x80 ==> forall|i: int|
            0 <= i < encode_scalar(c as u32).len() ==> #[trigger] encode_scalar(c as u32)[i]
                >= 0x80,
{
    let v = c as u32;
    char_is_scalar(c);
    if v < 0x80 {
        assert(v < 0x80 ==> (v & 0x7F) as u8 == v as u8) by (bit_vector);
    } else {
        assert(0xC0u8 | ((v >> 6) & 0x1F) as u8 >= 0x80) by (bit_vector);
        assert(0xE0u8 | ((v >> 12) & 0x0F) as u8 >= 0x80) by (bit_vector);
        assert(0xF0u8 | ((v >> 18) & 0x7) as u8 >= 0x80) by (bit_vector);
        assert(0x80u8 | (v & 0x3F) as u8 >= 0x80) by (bit_vector);
        assert(0x80u8 | ((v >> 6) & 0x3F) as u8 >= 0x80) by (bit_vector);
        assert(0x80u8 | ((v >> 12) & 0x3F) as u8 >= 0x80) by (bit_vector);
    }
}

/// Reserving characters that a text does not hold changes nothing in how the
/// text is written.
proof fn lemma_unreserved(s: Seq<char>, reserved: Set<u8>)
    requires
        forall|i: int|
            0 <= i < s.len() && (#[trigger] s[i] as u32) < 0x80 ==> !reserved.contains(s[i] as u8),
    ensures
        encoded_bytes(encode_utf8(s), reserved) == encoded_bytes(encode_utf8(s), Set::empty()),
    decreases s.len(),
{
    if s.len() > 0 {
        let head = encode_scalar(s[0] as u32);
        let rest = encode_utf8(s.drop_first());
        assert forall|i: int|
            0 <= i < s.drop_first().len() && (#[trigger] s.drop_first()[i] as u32)
                < 0x80 implies !reserved.contains(s.drop_first()[i] as u8) by {
            assert(s.drop_first()[i] == s[i + 1]);
        }
        lemma_unreserved(s.drop_first(), reserved);
        lemma_ascii_bytes_of_scalar(s[0]);
        lemma_unreserved_bytes(head, reserved);
        lemma_encoded_concat(head, rest, reserved);
        lemma_encoded_concat(head, rest, Set::empty());
    }
}

proof fn lemma_unreserved_bytes(bytes: Seq<u8>, reserved: Set<u8>)
    requires
        forall|i: int|
            0 <= i < bytes.len() && #[trigger] bytes[i] < 0x80 ==> !reserved.contains(bytes[i]),
    ensures
        encoded_bytes(bytes, reserved) == encoded_bytes(bytes, Set::empty()),
    decreases bytes.len(),
{
    if bytes.len() > 0 {
        lemma_unreserved_bytes(bytes.drop_first(), reserved);
    }
}

proof fn lemma_distinct_ascii(c: char, d: char)
    requires
        (c as u32) < 0x80,
        (d as u32) < 0x80,
        c != d,
    ensures
        c as u8 != d as u8,
{
}

proof fn lemma_piece_unreserved(piece: Seq<char>, a: char, b: char)
    requires
        (a as u32) < 0x80,
        (b as u32) < 0x80,
        forall|k: int| 0 <= k < piece.len() ==> piece[k] != a && piece[k] != b,
    ensures
        encoded_bytes(encode_utf8(piece), set![a as u8, b as u8]) == encoded_bytes(
            encode_utf8(piece),
            Set::empty(),
        ),
{
    let reserved = set![a as u8, b as u8];
    assert forall|k: int| 0 <= k < piece.len() && (#[trigger] piece[k] as u32) < 0x80 implies
        !reserved.contains(piece[k] as u8) by {
        lemma_distinct_ascii(piece[k], a);
        lemma_distinct_ascii(piece[k], b);
    }
    lemma_unreserved(piece, reserved);
}

/// Percent-encodes the UTF-8 bytes of `s`: those outside ASCII, the ASCII
/// controls and two reserved characters become `%` and two hexadecimal digits.
///
/// The sets of `percent_encoding` are constants, so the characters that only
/// this call reserves are escaped one by one, between the pieces that hold
/// none of them.
pub fn percent_encode(s: &str, a: char, b: char) -> (r: String)
    requires
        (a as u32) < 0x80,
        (b as u32) < 0x80,
    ensures
        r@ == encoded_bytes(encode_utf8(s@), set![a as u8, b as u8]),
{
    let ghost reserved = set![a as u8, b as u8];
    let cs = text::chars_of(s);
    let cs = cs.as_slice();
    let mut out = String::new();
    let mut start: usize = 0;
    let mut i: usize = 0;
    assert(cs@.take(0) =~= Seq::empty());
    while i < cs.len()
        invariant
            reserved == set![a as u8, b as u8],
            (a as u32) < 0x80,
            (b as u32) < 0x80,
            start <= i <= cs@.len(),
            forall|k: int| start <= k < i ==> cs@[k] != a && cs@[k] != b,
            out@ == encoded_bytes(encode_utf8(cs@.take(start as int)), reserved),
        decreases cs.len() - i,
    {
        let c = cs[i];
        if c == a || c == b {
            let piece = slice_subrange(cs, start, i);
            out.append(percent_encode_controls(text::string_of(piece).as_str()).as_str());
            out.append(percent_encoding::percent_encode_byte(c as u8));
            proof {
                let done = cs@.take(start as int);
                lemma_piece_unreserved(piece@, a, b);
                lemma_ascii_bytes_of_scalar(c);
                reveal_with_fuel(encode_utf8, 2);
                reveal_with_fuel(encoded_bytes, 2);
                assert(encode_utf8(seq![c]) =~= seq![c as u8]);
                assert(encoded_bytes(seq![c as u8], reserved) =~= byte_escape(c as u8));
                assert(cs@.take(i + 1) =~= done + piece@ + seq![c]);
                lemma_encode_utf8_concat(done + piece@, seq![c]);
                lemma_encode_utf8_concat(done, piece@);
                lemma_encoded_concat(
                    encode_utf8(done) + encode_utf8(piece@),
                    seq![c as u8],
                    reserved,
                );
                lemma_encoded_concat(encode_utf8(done), encode_utf8(piece@), reserved);
            }
            start = i + 1;
        }
        i += 1;
    }
    let piece = slice_subrange(cs, start, i);
    out.append(percent_encode_controls(text::string_of(piece).as_str()).as_str());
    proof {
        let done = cs@.take(start as int);
        lemma_piece_unreserved(piece@, a, b);
        assert(cs@ =~= done + piece@);
        lemma_encode_utf8_concat(done, piece@);
        lemma_encoded_concat(encode_utf8(done), encode_utf8(piece@), reserved);
    }
    out
}

// ---------------------------------------------------------------------------
// Decoding
// ---------------------------------------------------------------------------

/// The value of a hexadecimal digit, of either case.
pub open spec fn hex_value(byte: u8) -> Option<u8> {
    if 0x30 <= byte <= 0x39 {
        Some((byte - 0x30) as u8)
    } else if 0x41 <= byte <= 0x46 {
        Some((byte - 0x41 + 10) as u8)
    } else if 0x61 <= byte <= 0x66 {
        Some((byte - 0x61 + 10) as u8)
    } else {
        None
    }
}

/// The bytes that percent-encoded bytes stand for: `%` and two hexadecimal
/// digits are one byte, and every other byte stands for itself.
pub open spec fn decoded_bytes(bytes: Seq<u8>) -> Seq<u8>
    decreases bytes.len(),
{
    if bytes.len() == 0 {
        Seq::empty()
    } else if bytes.len() >= 3 && bytes[0] == 0x25 && hex_value(bytes[1]) is Some && hex_value(
        bytes[2],
    ) is Some {
        seq![(hex_value(bytes[1])->0 * 16 + hex_value(bytes[2])->0) as u8] + decoded_bytes(
            bytes.skip(3),
        )
    } else {
        seq![bytes[0]] + decoded_bytes(bytes.drop_first())
    }
}

/// The text that `PercentDecode::decode_utf8_lossy` makes of bytes that are
/// not UTF-8.
pub uninterp spec fn lossy_text(bytes: Seq<u8>) -> Seq<char>;

/// The text that decoded bytes stand for: that of which they are the UTF-8
/// encoding, or an approximation of it.
pub open spec fn text_of_bytes(bytes: Seq<u8>) -> Seq<char> {
    if valid_utf8(bytes) {
        decode_utf8(bytes)
    } else {
        lossy_text(bytes)
    }
}

/// Decodes percent-encoded text with `percent_encoding::percent_decode_str` and
/// `decode_utf8_lossy`. Claimed of them: `%` and two hexadecimal digits are
/// decoded to one byte; where the bytes are UTF-8 the result is their text,
/// and where they are not it is a function of the bytes, which holds U+FFFD.
#[verifier::external_body]
pub(crate) fn percent_decode(s: &str) -> (r: String)
    ensures
        valid_utf8(decoded_bytes(encode_utf8(s@))) ==> r@ == decode_utf8(
            decoded_bytes(encode_utf8(s@)),
        ),
        !valid_utf8(decoded_bytes(encode_utf8(s@))) ==> r@ == lossy_text(
            decoded_bytes(encode_utf8(s@)),
        ) && r@.contains('\u{fffd}'),
{
    percent_encoding::percent_decode_str(s).decode_utf8_lossy().into_owned()
}

// ---------------------------------------------------------------------------
// Laws
// ---------------------------------------------------------------------------

/// What starts the encoding of `bytes`.
spec fn first_encoded(bytes: Seq<u8>, reserved: Set<u8>) -> Seq<char> {
    if escaped_byte(bytes.first(), reserved) {
        byte_escape(bytes.first())
    } else {
        seq![bytes.first() as char]
    }
}

proof fn lemma_byte_escape(byte: u8)
    ensures
        is_ascii_chars(byte_escape(byte)),
        byte_escape(byte)[0] as u8 == 0x25,
        hex_value(byte_escape(byte)[1] as u8) == Some((byte / 16) as u8),
        hex_value(byte_escape(byte)[2] as u8) == Some((byte % 16) as u8),
{
}

/// Encoded text is plain ASCII.
pub proof fn law_encoded_is_ascii(bytes: Seq<u8>, reserved: Set<u8>)
    ensures
        is_ascii_chars(encoded_bytes(bytes, reserved)),
    decreases bytes.len(),
{
    if bytes.len() > 0 {
        law_encoded_is_ascii(bytes.drop_first(), reserved);
        lemma_byte_escape(bytes.first());
        let head = first_encoded(bytes, reserved);
        let rest = encoded_bytes(bytes.drop_first(), reserved);
        assert(is_ascii_chars(head));
        assert(is_ascii_chars(head + rest)) by {
            assert forall|i: int| 0 <= i < (head + rest).len() implies '\0' <= #[trigger] (head
                + rest)[i] <= '\u{7f}' by {
                if i < head.len() {
                    assert(head[i] <= '\u{7f}');
                } else {
                    assert(rest[i - head.len()] <= '\u{7f}');
                }
            }
        }
    }
}

/// A reserved character does not occur in encoded text, as long as it is
/// neither `%` nor an upper-case hexadecimal digit.
pub proof fn law_encoded_avoids_reserved(bytes: Seq<u8>, reserved: Set<u8>, c: char)
    requires
        (c as u32) < 0x80,
        reserved.contains(c as u8),
        c != '%',
        !('0' <= c <= '9'),
        !('A' <= c <= 'F'),
    ensures
        !encoded_bytes(bytes, reserved).contains(c),
    decreases bytes.len(),
{
    if bytes.len() > 0 {
        law_encoded_avoids_reserved(bytes.drop_first(), reserved, c);
        let head = first_encoded(bytes, reserved);
        let rest = encoded_bytes(bytes.drop_first(), reserved);
        assert forall|i: int| 0 <= i < (head + rest).len() implies (head + rest)[i] != c by {
            if i < head.len() {
                assert(head[i] != c);
            } else {
                assert(rest[i - head.len()] != c);
            }
        }
    }
}

proof fn lemma_decoded_encoded(bytes: Seq<u8>, reserved: Set<u8>, ascii: Seq<u8>)
    requires
        reserved.contains(0x25),
        ascii.len() == encoded_bytes(bytes, reserved).len(),
        forall|i: int|
            0 <= i < ascii.len() ==> #[trigger] ascii[i] == encoded_bytes(bytes, reserved)[i] as u8,
    ensures
        decoded_bytes(ascii) == bytes,
    decreases bytes.len(),
{
    if bytes.len() == 0 {
        assert(decoded_bytes(ascii) =~= bytes);
    } else {
        let head = first_encoded(bytes, reserved);
        let rest = encoded_bytes(bytes.drop_first(), reserved);
        let tail = ascii.skip(head.len() as int);
        assert(encoded_bytes(bytes, reserved) == head + rest);
        assert forall|i: int| 0 <= i < tail.len() implies #[trigger] tail[i] == rest[i] as u8 by {
            assert(tail[i] == ascii[i + head.len()]);
        }
        lemma_decoded_encoded(bytes.drop_first(), reserved, tail);
        lemma_byte_escape(bytes.first());
        assert(ascii[0] == head[0] as u8);
        if escaped_byte(bytes.first(), reserved) {
            assert(ascii[1] == head[1] as u8);
            assert(ascii[2] == head[2] as u8);
        } else {
            assert(ascii.drop_first() =~= tail);
        }
        assert(decoded_bytes(ascii) =~= seq![bytes.first()] + bytes.drop_first());
        assert(seq![bytes.first()] + bytes.drop_first() =~= bytes);
    }
}

/// Decoding gives back the bytes that were encoded, as long as `%` is
/// reserved.
pub proof fn law_decoded_encoded_bytes(bytes: Seq<u8>, reserved: Set<u8>)
    requires
        reserved.contains(0x25),
    ensures
        decoded_bytes(encode_utf8(encoded_bytes(bytes, reserved))) == bytes,
{
    law_encoded_is_ascii(bytes, reserved);
    is_ascii_chars_encode_utf8(encoded_bytes(bytes, reserved));
    lemma_decoded_encoded(bytes, reserved, encode_utf8(encoded_bytes(bytes, reserved)));
}

/// Only empty text decodes to empty text.
pub proof fn lemma_decoded_nonempty(s: Seq<char>)
    ensures
        decoded_bytes(encode_utf8(s)).len() == 0 <==> s.len() == 0,
        valid_utf8(decoded_bytes(encode_utf8(s))) ==> (decode_utf8(
            decoded_bytes(encode_utf8(s)),
        ).len() == 0 <==> s.len() == 0),
{
    if s.len() > 0 {
        char_is_scalar(s[0]);
        assert(encode_scalar(s[0] as u32).len() > 0);
    }
}

// ---------------------------------------------------------------------------
// Laws of single bytes
// ---------------------------------------------------------------------------

/// The hexadecimal digits, in order.
pub proof fn law_hex_digits(n: int)
    requires
        0 <= n < 16,
    ensures
        hex_digit(n) == "0123456789ABCDEF"@[n],
{
    reveal_strlit("0123456789ABCDEF");
}

proof fn lemma_hex_digit_value(v: u8)
    requires
        v < 16,
    ensures
        hex_value("0123456789ABCDEF"@[v as int] as u8) == Some(v),
        hex_value("0123456789abcdef"@[v as int] as u8) == Some(v),
{
    reveal_strlit("0123456789ABCDEF");
    reveal_strlit("0123456789abcdef");
}

/// The value of a hexadecimal digit is its place among the digits, in either
/// case, and no other byte has a value.
pub proof fn law_hex_values(byte: u8, v: u8)
    ensures
        hex_value(byte) == Some(v) <==> v < 16 && ("0123456789ABCDEF"@[v as int] as u8 == byte
            || "0123456789abcdef"@[v as int] as u8 == byte),
{
    reveal_strlit("0123456789ABCDEF");
    reveal_strlit("0123456789abcdef");
    if v < 16 {
        lemma_hex_digit_value(v);
    }
}

/// A printable ASCII byte that is not reserved is written as it is, and any
/// other byte as `%` and its two digits.
pub proof fn law_encoded_byte(byte: u8, reserved: Set<u8>)
    ensures
        encoded_bytes(Seq::empty(), reserved).len() == 0,
        byte_escape(byte) == seq![
            '%',
            "0123456789ABCDEF"@[byte as int / 16],
            "0123456789ABCDEF"@[byte as int % 16],
        ],
        0x20 <= byte <= 0x7e && !reserved.contains(byte) ==> encoded_bytes(seq![byte], reserved)
            == seq![byte as char],
        byte < 0x20 || byte > 0x7e || reserved.contains(byte) ==> encoded_bytes(
            seq![byte],
            reserved,
        ) == byte_escape(byte),
{
    law_hex_digits(byte as int / 16);
    law_hex_digits(byte as int % 16);
    let none = Seq::<u8>::empty();
    assert(seq![byte].drop_first() =~= none);
    assert(encoded_bytes(none, reserved) =~= Seq::empty());
    assert(byte_escape(byte) + encoded_bytes(none, reserved) =~= byte_escape(byte));
    assert(seq![byte as char] + encoded_bytes(none, reserved) =~= seq![byte as char]);
}

/// Bytes are written one after the other.
pub proof fn law_encoded_in_order(a: Seq<u8>, b: Seq<u8>, reserved: Set<u8>)
    ensures
        encoded_bytes(a + b, reserved) == encoded_bytes(a, reserved) + encoded_bytes(b, reserved),
{
    lemma_encoded_concat(a, b, reserved);
}

/// `%` and two hexadecimal digits are read as one byte, the first digit being
/// the high one.
pub proof fn law_decoded_escape(high: u8, low: u8, rest: Seq<u8>)
    requires
        hex_value(high) is Some,
        hex_value(low) is Some,
    ensures
        decoded_bytes(seq![0x25u8, high, low] + rest) == seq![
            (hex_value(high)->0 * 16 + hex_value(low)->0) as u8,
        ] + decoded_bytes(rest),
{
    assert((seq![0x25u8, high, low] + rest).skip(3) =~= rest);
}

/// Any other byte, a `%` without two hexadecimal digits behind it among them,
/// is read as itself.
pub proof fn law_decoded_byte(byte: u8, rest: Seq<u8>)
    requires
        byte != 0x25 || rest.len() < 2 || hex_value(rest[0]) is None || hex_value(rest[1]) is None,
    ensures
        decoded_bytes(Seq::empty()).len() == 0,
        decoded_bytes(seq![byte] + rest) == seq![byte] + decoded_bytes(rest),
{
    let bytes = seq![byte] + rest;
    assert(bytes.drop_first() =~= rest);
    if rest.len() >= 2 {
        assert(bytes[1] == rest[0] && bytes[2] == rest[1]);
    }
}

/// Bytes without `%` are read as they are.
pub proof fn law_decoded_without_percent(bytes: Seq<u8>)
    requires
        !bytes.contains(0x25),
    ensures
        decoded_bytes(bytes) == bytes,
    decreases bytes.len(),
{
    if bytes.len() > 0 {
        let rest = bytes.drop_first();
        assert(bytes.contains(bytes[0]));
        assert forall|k: int| 0 <= k < rest.len() implies rest[k] != 0x25 by {
            assert(bytes.contains(bytes[k + 1]));
        }
        law_decoded_without_percent(rest);
        assert(seq![bytes[0]] + rest =~= bytes);
    } else {
        assert(decoded_bytes(bytes) =~= bytes);
    }
}

/// The UTF-8 bytes of a text are read as that text, and bytes that are not
/// UTF-8 as their approximation.
pub proof fn law_text_of_bytes(s: Seq<char>, bytes: Seq<u8>)
    ensures
        text_of_bytes(encode_utf8(s)) == s,
        !valid_utf8(bytes) ==> text_of_bytes(bytes) == lossy_text(bytes),
{
    encode_utf8_valid_utf8(s);
    encode_utf8_decode_utf8(s);
}

/// The UTF-8 bytes of a text hold an ASCII byte only where the text holds that
/// character.
pub proof fn lemma_bytes_without(s: Seq<char>, c: char)
    requires
        (c as u32) < 0x80,
        !s.contains(c),
    ensures
        !encode_utf8(s).contains(c as u8),
    decreases s.len(),
{
    if s.len() > 0 {
        let rest = s.drop_first();
        let head = encode_scalar(s[0] as u32);
        assert(s.contains(s[0]));
        assert forall|k: int| 0 <= k < rest.len() implies rest[k] != c by {
            assert(s.contains(s[k + 1]));
        }
        lemma_bytes_without(rest, c);
        lemma_ascii_bytes_of_scalar(s[0]);
        if (s[0] as u32) < 0x80 {
            lemma_distinct_ascii(s[0], c);
        }
        let all = head + encode_utf8(rest);
        assert forall|k: int| 0 <= k < all.len() implies all[k] != c as u8 by {
            if k < head.len() {
                assert(all[k] == head[k]);
            } else {
                assert(encode_utf8(rest).contains(encode_utf8(rest)[k - head.len()]));
            }
        }
    }
}

/// The UTF-8 bytes of a text that consists of two are those of both.
pub proof fn lemma_bytes_in_order(a: Seq<char>, b: Seq<char>)
    ensures
        encode_utf8(a + b) == encode_utf8(a) + encode_utf8(b),
{
    lemma_encode_utf8_concat(a, b);
}

/// The UTF-8 bytes of an ASCII character are that one byte.
pub proof fn lemma_bytes_of_ascii(c: char)
    requires
        (c as u32) < 0x80,
    ensures
        encode_utf8(seq![c]) == seq![c as u8],
{
    lemma_ascii_bytes_of_scalar(c);
    reveal_with_fuel(encode_utf8, 2);
    assert(encode_utf8(seq![c]) =~= seq![c as u8]);
}

} // verus!
