//! PDF text strings: decoding raw string bytes to text and encoding text for
//! a content stream.
use vstd::prelude::*;
use vstd::utf8::*;
use crate::cmap::{ToUnicodeCMap, be_units, map_code_spec};
use crate::unicode::{decode_utf16, encode_utf16};

verus! {

/// Bytes whose even positions all hold 0 and whose length is even and at
/// least 2: read as 2-byte character codes.
pub open spec fn is_two_byte_codes(b: Seq<u8>) -> bool {
    b.len() >= 2 && b.len() % 2 == 0 && forall|i: int| 0 <= i < b.len() && i % 2 == 0 ==> #[trigger] b[i] == 0
}

/// Text of one character code: its CMap mapping, else the character with
/// that code point, else `?`.
pub open spec fn code_text(cmap: ToUnicodeCMap, code: u32) -> Seq<char> {
    match map_code_spec(cmap.chars_model(), cmap.range_map@, code) {
        Some(s) => s,
        None => if crate::unicode::is_scalar_value(code as int) {
            seq![code as char]
        } else {
            seq!['?']
        },
    }
}

/// Text of the first `k` 2-byte codes of `b`.
pub open spec fn two_byte_text(cmap: ToUnicodeCMap, b: Seq<u8>, k: int) -> Seq<char>
    decreases k,
{
    if k <= 0 {
        Seq::empty()
    } else {
        two_byte_text(cmap, b, k - 1) + code_text(
            cmap,
            ((b[2 * k - 2] as int) * 256 + (b[2 * k - 1] as int)) as u32,
        )
    }
}

/// Text of the first `k` bytes of `b` read as 1-byte codes, `None` as soon as
/// one has no mapping.
pub open spec fn one_byte_text(cmap: ToUnicodeCMap, b: Seq<u8>, k: int) -> Option<Seq<char>>
    decreases k,
{
    if k <= 0 {
        Some(Seq::empty())
    } else {
        match one_byte_text(cmap, b, k - 1) {
            None => None,
            Some(prev) => match map_code_spec(cmap.chars_model(), cmap.range_map@, b[k - 1] as u32) {
                Some(s) => Some(prev + s),
                None => None,
            },
        }
    }
}

/// How a PDF string's bytes are read as text: a UTF-16BE byte-order mark,
/// a UTF-8 byte-order mark, the font's ToUnicode CMap, UTF-8, and finally
/// Windows-1252, the first that applies.
pub open spec fn decode_pdf_string_spec(b: Seq<u8>, to_unicode: Option<ToUnicodeCMap>) -> Seq<char> {
    let tail2 = b.subrange(2, b.len() as int);
    let tail3 = b.subrange(3, b.len() as int);
    if b.len() >= 2 && b[0] == 0xFE && b[1] == 0xFF && decode_utf16(be_units(tail2)) is Some {
        decode_utf16(be_units(tail2))->0
    } else if b.len() >= 3 && b[0] == 0xEF && b[1] == 0xBB && b[2] == 0xBF && valid_utf8(tail3) {
        decode_utf8(tail3)
    } else if to_unicode is Some && is_two_byte_codes(b) {
        two_byte_text(to_unicode->0, b, (b.len() / 2) as int)
    } else if to_unicode is Some && one_byte_text(to_unicode->0, b, b.len() as int) is Some
        && one_byte_text(to_unicode->0, b, b.len() as int)->0.len() > 0 {
        one_byte_text(to_unicode->0, b, b.len() as int)->0
    } else if valid_utf8(b) {
        decode_utf8(b)
    } else {
        crate::unicode::windows_1252_decoding(b)
    }
}

/// Byte `2k + 1` of a string read as 2-byte codes: the code of its `k`-th
/// character (the byte before it is 0).
pub open spec fn second_byte(b: Seq<u8>, k: int) -> u8 {
    b[2 * k + 1]
}

/// Every code that the 1-byte reading of the first `k` bytes looks up can
/// be mapped without overflow: the reading looks up a byte while all the
/// bytes before it mapped.
pub open spec fn one_byte_lookups_safe(cmap: ToUnicodeCMap, b: Seq<u8>, k: int) -> bool
    decreases k,
{
    if k <= 0 {
        true
    } else {
        one_byte_lookups_safe(cmap, b, k - 1) && (one_byte_text(cmap, b, k - 1) is Some
            ==> cmap.maps_without_overflow(b[k - 1] as u32))
    }
}

/// Every CMap lookup that decoding makes can be computed without
/// arithmetic overflow. Decoding that ends at a byte-order mark makes
/// none; 2-byte codes are all looked up; 1-byte codes are looked up until
/// one has no mapping.
pub open spec fn decodes_without_overflow(b: Seq<u8>, to_unicode: Option<ToUnicodeCMap>) -> bool {
    let tail2 = b.subrange(2, b.len() as int);
    let tail3 = b.subrange(3, b.len() as int);
    if b.len() >= 2 && b[0] == 0xFE && b[1] == 0xFF && decode_utf16(be_units(tail2)) is Some {
        true
    } else if b.len() >= 3 && b[0] == 0xEF && b[1] == 0xBB && b[2] == 0xBF && valid_utf8(tail3) {
        true
    } else {
        match to_unicode {
            None => true,
            Some(c) => if is_two_byte_codes(b) {
                forall|k: int| 0 <= k < b.len() / 2 ==> c.maps_without_overflow(#[trigger] second_byte(b, k) as u32)
            } else {
                one_byte_lookups_safe(c, b, b.len() as int)
            },
        }
    }
}

proof fn lemma_one_byte_safe_prefix(cmap: ToUnicodeCMap, b: Seq<u8>, k: int, n: int)
    requires
        0 <= k <= n,
        one_byte_lookups_safe(cmap, b, n),
    ensures
        one_byte_lookups_safe(cmap, b, k),
    decreases n - k,
{
    if k < n {
        lemma_one_byte_safe_prefix(cmap, b, k, n - 1);
    }
}

proof fn lemma_one_byte_safe_after_none(cmap: ToUnicodeCMap, b: Seq<u8>, k: int, n: int)
    requires
        0 < k <= n,
        one_byte_lookups_safe(cmap, b, k),
        one_byte_text(cmap, b, k) is None,
    ensures
        one_byte_lookups_safe(cmap, b, n),
    decreases n - k,
{
    if k < n {
        lemma_one_byte_safe_after_none(cmap, b, k + 1, n);
    }
}

fn copy_tail(bytes: &[u8], from: usize) -> (r: Vec<u8>)
    requires
        from <= bytes@.len(),
    ensures
        r@ == bytes@.subrange(from as int, bytes@.len() as int),
{
    let mut r: Vec<u8> = Vec::new();
    let mut i = from;
    while i < bytes.len()
        invariant
            from <= i <= bytes@.len(),
            r@ == bytes@.subrange(from as int, i as int),
        decreases bytes@.len() - i,
    {
        r.push(bytes[i]);
        assert(bytes@.subrange(from as int, i + 1) =~= bytes@.subrange(from as int, i as int).push(
            bytes@[i as int],
        ));
        i = i + 1;
    }
    r
}

fn be_units_of(b: &Vec<u8>) -> (u: Vec<u16>)
    ensures
        u@ == be_units(b@),
{
    let bl = b.len();
    let n = bl / 2;
    let mut u: Vec<u16> = Vec::new();
    let mut m: usize = 0;
    while m < n
        invariant
            bl == b@.len(),
            n == bl / 2,
            m <= n,
            u@ == be_units(b@).subrange(0, m as int),
        decreases n - m,
    {
        let hi = b[2 * m] as u16;
        let lo = b[2 * m + 1] as u16;
        u.push(hi * 256 + lo);
        assert(be_units(b@).subrange(0, m + 1) =~= be_units(b@).subrange(0, m as int).push(
            ((b@[2 * m as int] as int) * 256 + (b@[2 * m + 1] as int)) as u16,
        ));
        m = m + 1;
    }
    assert(be_units(b@).subrange(0, n as int) =~= be_units(b@));
    u
}

/// Decodes a raw PDF string to text (see [`decode_pdf_string`]), or
/// `None` exactly when a CMap lookup that decoding makes would overflow.
#[verifier::loop_isolation(false)]
pub fn decode_pdf_string_checked(bytes: &[u8], to_unicode: Option<&ToUnicodeCMap>) -> (r: Option<String>)
    ensures
        match r {
            Some(s) => decodes_without_overflow(bytes@, opt_cmap(to_unicode)) && s@ == decode_pdf_string_spec(
                bytes@,
                opt_cmap(to_unicode),
            ),
            None => !decodes_without_overflow(bytes@, opt_cmap(to_unicode)),
        },
{
    let n = bytes.len();
    if n >= 2 && bytes[0] == 0xFE && bytes[1] == 0xFF {
        let tail = copy_tail(bytes, 2);
        let units = be_units_of(&tail);
        match crate::unicode::string_from_utf16(&units) {
            Some(s) => {
                return Some(s);
            },
            None => {},
        }
    }
    if n >= 3 && bytes[0] == 0xEF && bytes[1] == 0xBB && bytes[2] == 0xBF {
        let tail = copy_tail(bytes, 3);
        match crate::unicode::utf8_to_string(tail.as_slice()) {
            Some(s) => {
                return Some(s);
            },
            None => {},
        }
    }
    match to_unicode {
        Some(cmap) => {
            let mut result = String::new();
            let mut two = n >= 2 && n % 2 == 0;
            let mut i: usize = 0;
            while i < n
                invariant
                    n == bytes@.len(),
                    i <= n,
                    i % 2 == 0 || i == n,
                    two == (n >= 2 && n % 2 == 0 && forall|j: int| 0 <= j < i && j % 2 == 0 ==> #[trigger] bytes@[j] == 0),
                decreases n - i,
            {
                if bytes[i] != 0 {
                    two = false;
                }
                if n - i >= 2 {
                    i = i + 2;
                } else {
                    i = n;
                }
            }
            if two {
                let mut k: usize = 0;
                while k < n / 2
                    invariant
                        n == bytes@.len(),
                        is_two_byte_codes(bytes@),
                        k <= n / 2,
                        forall|j: int| 0 <= j < k ==> cmap.maps_without_overflow(#[trigger] second_byte(bytes@, j) as u32),
                        result@ == two_byte_text(*cmap, bytes@, k as int),
                    decreases n / 2 - k,
                {
                    assert(bytes@[2 * k as int] == 0);
                    let code = bytes[2 * k + 1] as u32;
                    assert(code == ((bytes@[2 * k as int] as int) * 256 + (bytes@[2 * k + 1] as int)) as u32);
                    assert(code == second_byte(bytes@, k as int) as u32);
                    if !cmap.can_map(code) {
                        return None;
                    }
                    match cmap.map_code(code) {
                        Some(mapped) => {
                            result.append(mapped.as_str());
                        },
                        None => {
                            match crate::unicode::char_from_u32(code) {
                                Some(c) => {
                                    crate::text::string_push(&mut result, c);
                                    proof {
                                        vstd::utf8::char_u32_cast(c, code);
                                    }
                                    assert(result@ =~= two_byte_text(*cmap, bytes@, k as int) + seq![c]);
                                },
                                None => {
                                    crate::text::string_push(&mut result, '?');
                                },
                            }
                        },
                    }
                    k = k + 1;
                }
                return Some(result);
            } else {
                let mut mapped_all = true;
                let mut k: usize = 0;
                while k < n
                    invariant
                        n == bytes@.len(),
                        k <= n,
                        mapped_all,
                        one_byte_text(*cmap, bytes@, k as int) == Some(result@),
                        one_byte_lookups_safe(*cmap, bytes@, k as int),
                    decreases n - k,
                {
                    let code = bytes[k] as u32;
                    if !cmap.can_map(code) {
                        proof {
                            if one_byte_lookups_safe(*cmap, bytes@, n as int) {
                                lemma_one_byte_safe_prefix(*cmap, bytes@, k + 1, n as int);
                            }
                        }
                        return None;
                    }
                    match cmap.map_code(code) {
                        Some(mapped) => {
                            result.append(mapped.as_str());
                            k = k + 1;
                        },
                        None => {
                            mapped_all = false;
                            proof {
                                lemma_one_byte_none_stays(*cmap, bytes@, k + 1, n as int);
                                lemma_one_byte_safe_after_none(*cmap, bytes@, k + 1, n as int);
                            }
                            break;
                        },
                    }
                }
                if mapped_all && result.unicode_len() > 0 {
                    return Some(result);
                }
            }
        },
        None => {},
    }
    match crate::unicode::utf8_to_string(bytes) {
        Some(s) => Some(s),
        None => Some(crate::unicode::windows_1252_decode(bytes)),
    }
}

pub open spec fn opt_cmap(to_unicode: Option<&ToUnicodeCMap>) -> Option<ToUnicodeCMap> {
    match to_unicode {
        Some(c) => Some(*c),
        None => None,
    }
}

/// Decodes a raw PDF string to text: UTF-16BE after a `FE FF` mark, UTF-8
/// after an `EF BB BF` mark, else through the font's ToUnicode CMap (2-byte
/// codes when every even byte is 0, otherwise 1-byte codes if all of them
/// map to non-empty text), else as UTF-8 if valid, else as Windows-1252.
/// The font's declared encoding is not consulted.
pub fn decode_pdf_string(bytes: &[u8], to_unicode: Option<&ToUnicodeCMap>, _encoding: Option<&str>) -> (r: String)
    requires
        decodes_without_overflow(bytes@, opt_cmap(to_unicode)),
    ensures
        r@ == decode_pdf_string_spec(bytes@, opt_cmap(to_unicode)),
{
    match decode_pdf_string_checked(bytes, to_unicode) {
        Some(s) => s,
        None => {
            proof {
                assert(false);
            }
            String::new()
        },
    }
}

proof fn lemma_one_byte_none_stays(cmap: ToUnicodeCMap, b: Seq<u8>, k: int, n: int)
    requires
        0 < k <= n,
        one_byte_text(cmap, b, k) is None,
    ensures
        one_byte_text(cmap, b, n) is None,
    decreases n - k,
{
    if k < n {
        lemma_one_byte_none_stays(cmap, b, k + 1, n);
    }
}

} // verus!

verus! {

/// Big-endian bytes of 16-bit units.
pub open spec fn be_bytes(u: Seq<u16>) -> Seq<u8> {
    Seq::new(2 * u.len(), |i: int| if i % 2 == 0 { (u[i / 2] / 256) as u8 } else { (u[i / 2] % 256) as u8 })
}

/// All bytes below 0x80.
pub open spec fn is_ascii_bytes(b: Seq<u8>) -> bool {
    forall|i: int| 0 <= i < b.len() ==> #[trigger] b[i] < 0x80
}

/// How text is written into a PDF string: its UTF-8 bytes when they are all
/// ASCII, else a `FE FF` mark followed by its UTF-16BE code units.
pub open spec fn encode_pdf_string_spec(text: Seq<char>) -> Seq<u8> {
    if is_ascii_bytes(encode_utf8(text)) {
        encode_utf8(text)
    } else {
        seq![0xFEu8, 0xFFu8] + be_bytes(encode_utf16(text))
    }
}

/// Encodes text for a PDF string: the bytes themselves when pure ASCII, else
/// UTF-16BE with a `FE FF` byte-order mark.
pub fn encode_pdf_string(text: &str) -> (r: Vec<u8>)
    ensures
        r@ == encode_pdf_string_spec(text@),
{
    let bytes = text.as_bytes();
    let mut is_pure_ascii = true;
    let mut i: usize = 0;
    while i < bytes.len()
        invariant
            bytes@ == encode_utf8(text@),
            i <= bytes@.len(),
            is_pure_ascii == (forall|j: int| 0 <= j < i ==> #[trigger] bytes@[j] < 0x80),
        decreases bytes@.len() - i,
    {
        if bytes[i] >= 0x80 {
            is_pure_ascii = false;
        }
        i = i + 1;
    }
    if is_pure_ascii {
        text.as_bytes_vec()
    } else {
        let units = crate::unicode::utf16_of(text);
        let mut out: Vec<u8> = Vec::new();
        out.push(0xFE);
        out.push(0xFF);
        let mut k: usize = 0;
        while k < units.len()
            invariant
                k <= units@.len(),
                out@ == seq![0xFEu8, 0xFFu8] + be_bytes(units@.subrange(0, k as int)),
            decreases units@.len() - k,
        {
            let u = units[k];
            out.push((u / 256) as u8);
            out.push((u % 256) as u8);
            assert(be_bytes(units@.subrange(0, k + 1)) =~= be_bytes(units@.subrange(0, k as int)).push(
                (u / 256) as u8,
            ).push((u % 256) as u8));
            k = k + 1;
        }
        assert(units@.subrange(0, units@.len() as int) =~= units@);
        out
    }
}

proof fn lemma_be_roundtrip(u: Seq<u16>)
    ensures
        be_units(be_bytes(u)) == u,
{
    let b = be_bytes(u);
    assert forall|i: int| 0 <= i < u.len() implies #[trigger] be_units(b)[i] == u[i] by {
        assert(b[2 * i] == (u[i] / 256) as u8);
        assert(b[2 * i + 1] == (u[i] % 256) as u8);
        let x = u[i] as int;
        assert((x / 256) * 256 + x % 256 == x) by (nonlinear_arith);
        assert(x / 256 < 256) by (nonlinear_arith)
            requires
                0 <= x < 65536,
        ;
    }
    assert(be_units(b) =~= u);
}

/// Decoding what `encode_pdf_string` wrote gives the text back, when no
/// ToUnicode CMap is involved; for text that is not pure ASCII (written as
/// UTF-16BE with a byte-order mark) it does so with any CMap.
pub proof fn law_pdf_string_roundtrip(text: Seq<char>, to_unicode: Option<ToUnicodeCMap>)
    requires
        to_unicode is None || !is_ascii_bytes(encode_utf8(text)),
    ensures
        decode_pdf_string_spec(encode_pdf_string_spec(text), to_unicode) == text,
{
    let b = encode_pdf_string_spec(text);
    vstd::utf8::encode_utf8_valid_utf8(text);
    vstd::utf8::encode_utf8_decode_utf8(text);
    if is_ascii_bytes(encode_utf8(text)) {
        if b.len() >= 2 {
            assert(b[0] < 0x80);
        }
        if b.len() >= 3 {
            assert(b[0] < 0x80);
        }
    } else {
        let u = encode_utf16(text);
        assert(b.subrange(2, b.len() as int) =~= be_bytes(u));
        lemma_be_roundtrip(u);
        crate::unicode::lemma_utf16_roundtrip(text);
    }
}

} // verus!
