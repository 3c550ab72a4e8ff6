//! Percent-encoded texts.
use crate::text::utf8_text;
use vstd::prelude::*;
use vstd::utf8::{
    decode_utf8, decode_utf8_encode_utf8, encode_scalar, encode_utf8, encode_utf8_decode_utf8,
    encode_utf8_valid_utf8, is_ascii_chars, is_ascii_chars_encode_utf8, valid_utf8,
};

verus! {

/// Why a percent-encoded text cannot be decoded.
#[derive(Clone, Copy, Debug, PartialEq, Eq, Structural)]
pub enum DecodeError {
    /// The two bytes behind a percent sign are not UTF-8.
    EscapeNotText,
    /// The two bytes behind a percent sign are not a hexadecimal number.
    EscapeNotHex,
    /// The decoded bytes are not UTF-8.
    NotUtf8,
}

/// The value of a hexadecimal digit.
pub open spec fn hex_value(b: u8) -> Option<int> {
    if 48 <= b <= 57 {
        Some(b - 48)
    } else if 97 <= b <= 102 {
        Some(b - 87)
    } else if 65 <= b <= 70 {
        Some(b - 55)
    } else {
        None
    }
}

/// The byte that a percent sign followed by `hi` and `lo` stands for. A plus sign may
/// take the place of the first digit.
pub open spec fn escaped_byte(hi: u8, lo: u8) -> Result<u8, DecodeError> {
    if !valid_utf8(seq![hi, lo]) {
        Err(DecodeError::EscapeNotText)
    } else {
        match (if hi == 43 { Some(0) } else { hex_value(hi) }, hex_value(lo)) {
            (Some(h), Some(l)) => Ok((h * 16 + l) as u8),
            _ => Err(DecodeError::EscapeNotHex),
        }
    }
}

/// Byte `i` of `bytes`, or zero behind its end.
pub open spec fn byte_or_zero(bytes: Seq<u8>, i: int) -> u8 {
    if i < bytes.len() {
        bytes[i]
    } else {
        0
    }
}

/// `bytes` with every percent sign and the two bytes behind it replaced by the byte that
/// they stand for; the first escape that stands for none decides the error.
pub open spec fn unescaped(bytes: Seq<u8>) -> Result<Seq<u8>, DecodeError>
    decreases bytes.len(),
{
    if bytes.len() == 0 {
        Ok(Seq::empty())
    } else if bytes[0] == 37 {
        match escaped_byte(byte_or_zero(bytes, 1), byte_or_zero(bytes, 2)) {
            Err(e) => Err(e),
            Ok(b) => match unescaped(
                bytes.skip(
                    if bytes.len() < 3 {
                        bytes.len() as int
                    } else {
                        3
                    },
                ),
            ) {
                Err(e) => Err(e),
                Ok(rest) => Ok(seq![b] + rest),
            },
        }
    } else {
        match unescaped(bytes.skip(1)) {
            Err(e) => Err(e),
            Ok(rest) => Ok(seq![bytes[0]] + rest),
        }
    }
}

/// The text that `data` encodes.
pub open spec fn decoded(data: Seq<char>) -> Result<Seq<char>, DecodeError> {
    match unescaped(encode_utf8(data)) {
        Err(e) => Err(e),
        Ok(bytes) => if valid_utf8(bytes) {
            Ok(decode_utf8(bytes))
        } else {
            Err(DecodeError::NotUtf8)
        },
    }
}

fn hex_digit(b: u8) -> (r: Option<u8>)
    ensures
        match r {
            Some(v) => v < 16 && hex_value(b) == Some(v as int),
            None => hex_value(b) is None,
        },
{
    if 48 <= b && b <= 57 {
        Some(b - 48)
    } else if 97 <= b && b <= 102 {
        Some(b - 87)
    } else if 65 <= b && b <= 70 {
        Some(b - 55)
    } else {
        None
    }
}

fn decode_escape(hi: u8, lo: u8) -> (r: Result<u8, DecodeError>)
    ensures
        r == escaped_byte(hi, lo),
{
    let mut pair: Vec<u8> = Vec::new();
    pair.push(hi);
    pair.push(lo);
    assert(pair@ =~= seq![hi, lo]);
    if utf8_text(pair.as_slice()).is_none() {
        return Err(DecodeError::EscapeNotText);
    }
    let high = if hi == 43 {
        Some(0)
    } else {
        hex_digit(hi)
    };
    match (high, hex_digit(lo)) {
        (Some(h), Some(l)) => Ok(h * 16 + l),
        _ => Err(DecodeError::EscapeNotHex),
    }
}

/// Decodes a percent-encoded text.
pub fn decode_percent_encoded_data(data: &str) -> (r: Result<String, DecodeError>)
    ensures
        match r {
            Ok(text) => decoded(data@) == Ok::<Seq<char>, DecodeError>(text@),
            Err(e) => decoded(data@) == Err::<Seq<char>, DecodeError>(e),
        },
{
    let bytes = data.as_bytes();
    let ghost all = encode_utf8(data@);
    let mut out: Vec<u8> = Vec::new();
    let mut i: usize = 0;
    assert(all.skip(0) =~= all);
    proof {
        if let Ok(rest) = unescaped(all) {
            assert(out@ + rest =~= rest);
        }
    }
    while i < bytes.len()
        invariant
            i <= bytes@.len(),
            bytes@ == all,
            all == encode_utf8(data@),
            unescaped(all) == (match unescaped(all.skip(i as int)) {
                Err(e) => Err::<Seq<u8>, DecodeError>(e),
                Ok(rest) => Ok(out@ + rest),
            }),
        decreases bytes@.len() - i,
    {
        let ghost here = all.skip(i as int);
        let ghost done = out@;
        let ghost step: int = if all[i as int] == 37 {
            if here.len() < 3 { here.len() as int } else { 3 }
        } else {
            1
        };
        assert(here.skip(step) =~= all.skip(i + step));
        let left: usize = bytes.len() - i;
        let b = bytes[i];
        if b == 37 {
            let hi: u8 = if left > 1 { bytes[i + 1] } else { 0 };
            let lo: u8 = if left > 2 { bytes[i + 2] } else { 0 };
            match decode_escape(hi, lo) {
                Err(e) => {
                    return Err(e);
                },
                Ok(v) => {
                    out.push(v);
                    proof {
                        if let Ok(rest) = unescaped(here.skip(step)) {
                            assert(done + (seq![v] + rest) =~= out@ + rest);
                        }
                    }
                },
            }
            i = if left < 3 { bytes.len() } else { i + 3 };
        } else {
            out.push(b);
            proof {
                if let Ok(rest) = unescaped(here.skip(step)) {
                    assert(done + (seq![b] + rest) =~= out@ + rest);
                }
            }
            i += 1;
        }
    }
    assert(all.skip(i as int) =~= Seq::empty());
    assert(out@ + Seq::<u8>::empty() =~= out@);
    match utf8_text(out.as_slice()) {
        Some(text) => Ok(text),
        None => Err(DecodeError::NotUtf8),
    }
}

proof fn lemma_scalar_bytes(u: u32)
    requires
        u != 37,
    ensures
        !encode_scalar(u).contains(37u8),
{
    assert(u <= 0x7f ==> (u & 0x7f) as u8 == u) by (bit_vector);
    assert((0xC0 | ((u >> 6) & 0x1F) as u8) >= 0x80u8) by (bit_vector);
    assert((0xE0 | ((u >> 12) & 0x0F) as u8) >= 0x80u8) by (bit_vector);
    assert((0xF0 | ((u >> 18) & 0x7) as u8) >= 0x80u8) by (bit_vector);
    assert((0x80 | (u & 0x3F) as u8) >= 0x80u8) by (bit_vector);
    assert((0x80 | ((u >> 6) & 0x3F) as u8) >= 0x80u8) by (bit_vector);
    assert((0x80 | ((u >> 12) & 0x3F) as u8) >= 0x80u8) by (bit_vector);
}

proof fn lemma_no_percent_byte(data: Seq<char>)
    requires
        !data.contains('%'),
    ensures
        !encode_utf8(data).contains(37u8),
    decreases data.len(),
{
    if data.len() > 0 {
        let rest = data.drop_first();
        if rest.contains('%') {
            let k = choose|k: int| 0 <= k < rest.len() && rest[k] == '%';
            assert(data[k + 1] == '%');
        }
        lemma_no_percent_byte(rest);
        assert(data[0] != '%');
        let u = data[0] as u32;
        vstd::utf8::char_u32_cast(data[0], u);
        assert(37u32 as char == '%');
        lemma_scalar_bytes(u);
        let all = encode_utf8(data);
        if all.contains(37u8) {
            let k = choose|k: int| 0 <= k < all.len() && all[k] == 37u8;
            let head = encode_scalar(u);
            if k < head.len() {
                assert(head[k] == 37u8);
            } else {
                assert(encode_utf8(rest)[k - head.len()] == 37u8);
            }
        }
    }
}

proof fn lemma_plain_bytes(bytes: Seq<u8>)
    requires
        !bytes.contains(37u8),
    ensures
        unescaped(bytes) == Ok::<Seq<u8>, DecodeError>(bytes),
    decreases bytes.len(),
{
    if bytes.len() > 0 {
        assert(bytes[0] != 37);
        let rest = bytes.skip(1);
        if rest.contains(37u8) {
            let k = choose|k: int| 0 <= k < rest.len() && rest[k] == 37u8;
            assert(bytes[k + 1] == 37u8);
        }
        lemma_plain_bytes(rest);
        assert(seq![bytes[0]] + rest =~= bytes);
    } else {
        assert(bytes =~= Seq::empty());
    }
}

/// A text without a percent sign decodes to itself.
pub proof fn law_plain_text_decodes_to_itself(data: Seq<char>)
    requires
        !data.contains('%'),
    ensures
        decoded(data) == Ok::<Seq<char>, DecodeError>(data),
{
    lemma_no_percent_byte(data);
    lemma_plain_bytes(encode_utf8(data));
    encode_utf8_valid_utf8(data);
    encode_utf8_decode_utf8(data);
}

/// The upper-case hexadecimal digit of a number below sixteen.
pub open spec fn hex_char(v: int) -> char {
    if v < 10 {
        (48 + v) as u8 as char
    } else {
        (55 + v) as u8 as char
    }
}

/// Every byte written as a percent sign and two hexadecimal digits.
pub open spec fn percent_encoded(bytes: Seq<u8>) -> Seq<char>
    decreases bytes.len(),
{
    if bytes.len() == 0 {
        Seq::empty()
    } else {
        seq!['%', hex_char(bytes[0] as int / 16), hex_char(bytes[0] as int % 16)]
            + percent_encoded(bytes.skip(1))
    }
}

proof fn lemma_percent_encoded(bytes: Seq<u8>)
    ensures
        is_ascii_chars(percent_encoded(bytes)),
        unescaped(encode_utf8(percent_encoded(bytes))) == Ok::<Seq<u8>, DecodeError>(bytes),
    decreases bytes.len(),
{
    let text = percent_encoded(bytes);
    let all = encode_utf8(text);
    if bytes.len() == 0 {
        assert(bytes =~= Seq::empty());
        assert(all =~= Seq::empty());
    } else {
        let rest = bytes.skip(1);
        let tail = percent_encoded(rest);
        lemma_percent_encoded(rest);
        let hi = bytes[0] as int / 16;
        let lo = bytes[0] as int % 16;
        assert forall|i: int| 0 <= i < text.len() implies '\0' <= #[trigger] text[i]
            <= '\u{7f}' by {
            if i >= 3 {
                assert(text[i] == tail[i - 3]);
            }
        }
        is_ascii_chars_encode_utf8(text);
        is_ascii_chars_encode_utf8(tail);
        assert(all.skip(3) =~= encode_utf8(tail)) by {
            assert forall|i: int| 0 <= i < tail.len() implies all.skip(3)[i] == encode_utf8(
                tail,
            )[i] by {
                assert(text[i + 3] == tail[i]);
            }
        }
        assert(text[0] == '%');
        assert(all[0] == 37);
        let h = hex_char(hi) as u8;
        let l = hex_char(lo) as u8;
        assert(text[1] == hex_char(hi) && text[2] == hex_char(lo));
        assert(all[1] == h && all[2] == l);
        crate::text::lemma_ascii_is_utf8(seq![h, l]);
        assert(hex_value(h) == Some(hi));
        assert(hex_value(l) == Some(lo));
        assert(escaped_byte(h, l) == Ok::<u8, DecodeError>(bytes[0]));
        assert(seq![bytes[0]] + rest =~= bytes);
    }
}

/// A text whose bytes are all percent-encoded decodes to the text.
pub proof fn law_percent_encoded_text_decodes_back(text: Seq<char>)
    ensures
        decoded(percent_encoded(encode_utf8(text))) == Ok::<Seq<char>, DecodeError>(text),
{
    lemma_percent_encoded(encode_utf8(text));
    encode_utf8_valid_utf8(text);
    encode_utf8_decode_utf8(text);
}

proof fn lemma_unescaped_concat(a: Seq<u8>, b: Seq<u8>)
    requires
        unescaped(a) is Ok,
    ensures
        unescaped(a + b) == (match unescaped(b) {
            Err(e) => Err::<Seq<u8>, DecodeError>(e),
            Ok(rest) => Ok(unescaped(a)->Ok_0 + rest),
        }),
    decreases a.len(),
{
    if a.len() == 0 {
        assert(a + b =~= b);
        if let Ok(rest) = unescaped(b) {
            assert(unescaped(a)->Ok_0 + rest =~= rest);
        }
    } else {
        let step: int = if a[0] == 37 {
            3
        } else {
            1
        };
        assert(a.len() >= step);
        let tail = a.skip(step);
        lemma_unescaped_concat(tail, b);
        assert((a + b).skip(step) =~= tail + b);
        if let Ok(rest) = unescaped(b) {
            let first = unescaped(a)->Ok_0[0];
            assert(seq![first] + (unescaped(tail)->Ok_0 + rest) =~= (seq![first] + unescaped(
                tail,
            )->Ok_0) + rest);
        }
    }
}

proof fn lemma_encode_concat(a: Seq<char>, b: Seq<char>)
    ensures
        encode_utf8(a + b) == encode_utf8(a) + encode_utf8(b),
    decreases a.len(),
{
    if a.len() == 0 {
        assert(a + b =~= b);
        assert(encode_utf8(a) + encode_utf8(b) =~= encode_utf8(b));
    } else {
        lemma_encode_concat(a.drop_first(), b);
        assert((a + b).drop_first() =~= a.drop_first() + b);
        assert(encode_utf8(a + b) =~= encode_utf8(a) + encode_utf8(b));
    }
}

/// Two texts that can be decoded are decoded together as one after the other.
pub proof fn law_decoding_goes_piece_by_piece(a: Seq<char>, b: Seq<char>)
    requires
        decoded(a) is Ok,
        decoded(b) is Ok,
    ensures
        decoded(a + b) == Ok::<Seq<char>, DecodeError>(decoded(a)->Ok_0 + decoded(b)->Ok_0),
{
    let x = unescaped(encode_utf8(a))->Ok_0;
    let y = unescaped(encode_utf8(b))->Ok_0;
    let text = decode_utf8(x) + decode_utf8(y);
    lemma_encode_concat(a, b);
    lemma_unescaped_concat(encode_utf8(a), encode_utf8(b));
    decode_utf8_encode_utf8(x);
    decode_utf8_encode_utf8(y);
    lemma_encode_concat(decode_utf8(x), decode_utf8(y));
    encode_utf8_valid_utf8(text);
    encode_utf8_decode_utf8(text);
}

/// `digit` is the hexadecimal digit for `v`, in either case.
pub open spec fn digit_for(digit: u8, v: int) -> bool {
    ||| 0 <= v < 10 && digit == 48 + v
    ||| 10 <= v < 16 && (digit == 55 + v || digit == 87 + v)
}

/// `token` writes `b`: as it is, unless it is a percent sign, or as a percent sign and two
/// hexadecimal digits in either case.
pub open spec fn writes(token: Seq<u8>, b: u8) -> bool {
    ||| b != 37 && token == seq![b]
    ||| {
        &&& token.len() == 3
        &&& token[0] == 37
        &&& digit_for(token[1], b as int / 16)
        &&& digit_for(token[2], b as int % 16)
    }
}

/// The tokens one after the other.
pub open spec fn strung(tokens: Seq<Seq<u8>>) -> Seq<u8>
    decreases tokens.len(),
{
    if tokens.len() == 0 {
        Seq::empty()
    } else {
        tokens[0] + strung(tokens.skip(1))
    }
}

proof fn lemma_strung_tokens(tokens: Seq<Seq<u8>>, bytes: Seq<u8>)
    requires
        tokens.len() == bytes.len(),
        forall|i: int| 0 <= i < bytes.len() ==> writes(#[trigger] tokens[i], bytes[i]),
    ensures
        unescaped(strung(tokens)) == Ok::<Seq<u8>, DecodeError>(bytes),
    decreases bytes.len(),
{
    if bytes.len() == 0 {
        assert(bytes =~= Seq::empty());
    } else {
        let token = tokens[0];
        let b = bytes[0];
        let rest = tokens.skip(1);
        assert(writes(tokens[0], b));
        assert forall|i: int| 0 <= i < bytes.skip(1).len() implies writes(
            #[trigger] rest[i],
            bytes.skip(1)[i],
        ) by {
            assert(writes(tokens[i + 1], bytes[i + 1]));
        }
        lemma_strung_tokens(rest, bytes.skip(1));
        let all = strung(tokens);
        assert(all.skip(token.len() as int) =~= strung(rest));
        assert(all[0] == token[0]);
        if token.len() == 3 {
            assert(all[1] == token[1] && all[2] == token[2]);
            crate::text::lemma_ascii_is_utf8(seq![token[1], token[2]]);
            assert(escaped_byte(token[1], token[2]) == Ok::<u8, DecodeError>(b));
        }
        assert(seq![b] + bytes.skip(1) =~= bytes);
    }
}

/// A text of which any bytes, among them every percent sign, are percent-encoded, with digits in
/// either case, decodes to the text.
pub proof fn law_partly_encoded_text_decodes_back(
    text: Seq<char>,
    tokens: Seq<Seq<u8>>,
    data: Seq<char>,
)
    requires
        tokens.len() == encode_utf8(text).len(),
        forall|i: int|
            0 <= i < tokens.len() ==> writes(#[trigger] tokens[i], encode_utf8(text)[i]),
        encode_utf8(data) == strung(tokens),
    ensures
        decoded(data) == Ok::<Seq<char>, DecodeError>(text),
{
    lemma_strung_tokens(tokens, encode_utf8(text));
    encode_utf8_valid_utf8(text);
    encode_utf8_decode_utf8(text);
}

/// A percent sign is followed by two hexadecimal digits, of which the first may be a plus sign, or
/// the text cannot be decoded: two bytes that are not text and two that are no such digits are
/// told apart, and where bytes are missing, zeros stand for them.
pub proof fn law_wrong_escape_is_refused(front: Seq<u8>, hi: u8, lo: u8, back: Seq<u8>)
    requires
        unescaped(front) is Ok,
    ensures
        !valid_utf8(seq![hi, lo]) ==> unescaped(front + seq![37u8, hi, lo] + back) == Err::<
            Seq<u8>,
            DecodeError,
        >(DecodeError::EscapeNotText),
        valid_utf8(seq![hi, lo]) && (forall|v: int| !#[trigger] digit_for(lo, v)) ==> unescaped(
            front + seq![37u8, hi, lo] + back,
        ) == Err::<Seq<u8>, DecodeError>(DecodeError::EscapeNotHex),
        valid_utf8(seq![hi, lo]) && hi != 43 && (forall|v: int| !#[trigger] digit_for(hi, v))
            ==> unescaped(front + seq![37u8, hi, lo] + back) == Err::<Seq<u8>, DecodeError>(
            DecodeError::EscapeNotHex,
        ),
        unescaped(front + seq![37u8]) is Err,
        unescaped(front + seq![37u8, hi]) is Err,
{
    let escape = seq![37u8, hi, lo];
    assert(front + escape + back =~= front + (escape + back));
    lemma_unescaped_concat(front, escape + back);
    lemma_unescaped_concat(front, seq![37u8]);
    lemma_unescaped_concat(front, seq![37u8, hi]);
    let tail = escape + back;
    assert(tail[0] == 37 && tail[1] == hi && tail[2] == lo);
    lemma_hex_value(hi);
    lemma_hex_value(lo);
}

proof fn lemma_hex_value(b: u8)
    ensures
        match hex_value(b) {
            Some(v) => digit_for(b, v),
            None => forall|v: int| !#[trigger] digit_for(b, v),
        },
{
}

/// `token` writes `b`, or writes it with a plus sign for the first digit.
pub open spec fn may_write(token: Seq<u8>, b: u8) -> bool {
    ||| writes(token, b)
    ||| token.len() == 3 && token[0] == 37 && token[1] == 43 && digit_for(token[2], b as int)
}

/// What can be decoded is nothing but written bytes: it falls into tokens, each of which writes
/// one byte of the result.
pub proof fn law_decoded_bytes_were_written(bytes: Seq<u8>) -> (tokens: Seq<Seq<u8>>)
    requires
        unescaped(bytes) is Ok,
    ensures
        strung(tokens) == bytes,
        tokens.len() == unescaped(bytes)->Ok_0.len(),
        forall|i: int|
            0 <= i < tokens.len() ==> may_write(#[trigger] tokens[i], unescaped(bytes)->Ok_0[i]),
    decreases bytes.len(),
{
    if bytes.len() == 0 {
        assert(bytes =~= Seq::empty());
        Seq::empty()
    } else {
        let step: int = if bytes[0] == 37 {
            3
        } else {
            1
        };
        assert(bytes.len() >= step);
        let token = bytes.take(step);
        let rest = bytes.skip(step);
        let tail = law_decoded_bytes_were_written(rest);
        let out = unescaped(bytes)->Ok_0;
        let tokens = seq![token] + tail;
        assert(tokens.skip(1) =~= tail);
        assert(strung(tokens) =~= bytes);
        if step == 3 {
            lemma_hex_value(bytes[1]);
            lemma_hex_value(bytes[2]);
        } else {
            assert(token =~= seq![bytes[0]]);
        }
        assert forall|i: int| 0 <= i < tokens.len() implies may_write(
            #[trigger] tokens[i],
            out[i],
        ) by {
            if i > 0 {
                assert(tokens[i] == tail[i - 1]);
                assert(out[i] == unescaped(rest)->Ok_0[i - 1]);
            }
        }
        tokens
    }
}

/// Decoded bytes that are UTF-8 give their text, and others none.
pub proof fn law_decoded_text_is_that_of_the_bytes(data: Seq<char>, text: Seq<char>)
    ensures
        unescaped(encode_utf8(data)) matches Err(e) ==> decoded(data) == Err::<
            Seq<char>,
            DecodeError,
        >(e),
        unescaped(encode_utf8(data)) == Ok::<Seq<u8>, DecodeError>(encode_utf8(text)) ==> decoded(
            data,
        ) == Ok::<Seq<char>, DecodeError>(text),
        unescaped(encode_utf8(data)) is Ok && !valid_utf8(unescaped(encode_utf8(data))->Ok_0)
            ==> decoded(data) == Err::<Seq<char>, DecodeError>(DecodeError::NotUtf8),
{
    encode_utf8_valid_utf8(text);
    encode_utf8_decode_utf8(text);
}

} // verus!
