//! UTF-16 encoding and decoding, and the conversions from bytes to text that
//! the engine takes from std and encoding_rs.
use vstd::prelude::*;
use vstd::utf8::*;

verus! {

/// Unicode scalar values: the code points a `char` can hold.
pub open spec fn is_scalar_value(u: int) -> bool {
    0 <= u <= 0x10FFFF && !(0xD800 <= u <= 0xDFFF)
}

/// `char::from_u32`: `Some(c)` with `c as u32 == u` exactly when `u` is a
/// Unicode scalar value, `None` otherwise.
#[verifier::external_body]
pub(crate) fn char_from_u32(u: u32) -> (r: Option<char>)
    ensures
        r is Some <==> is_scalar_value(u as int),
        r matches Some(c) ==> c as u32 == u,
{
    char::from_u32(u)
}

/// `std::str::from_utf8` followed by `to_string`: `Some` exactly when the
/// bytes are valid UTF-8, holding the characters they encode.
#[verifier::external_body]
pub(crate) fn utf8_to_string(bytes: &[u8]) -> (r: Option<String>)
    ensures
        r is Some <==> valid_utf8(bytes@),
        r matches Some(s) ==> s@ == decode_utf8(bytes@),
{
    match std::str::from_utf8(bytes) {
        Ok(s) => Some(s.to_string()),
        Err(_) => None,
    }
}

/// What `String::from_utf8_lossy` returns: the bytes decoded as UTF-8 with
/// each maximal invalid subsequence replaced by U+FFFD.
pub uninterp spec fn utf8_lossy(bytes: Seq<u8>) -> Seq<char>;

/// Calls `String::from_utf8_lossy`. The replacement rule for invalid input
/// is named, not written out; what is stated is that valid UTF-8 is decoded
/// unchanged.
#[verifier::external_body]
pub(crate) fn utf8_lossy_string(bytes: &[u8]) -> (s: String)
    ensures
        s@ == utf8_lossy(bytes@),
        valid_utf8(bytes@) ==> s@ == decode_utf8(bytes@),
{
    String::from_utf8_lossy(bytes).into_owned()
}

/// What `encoding_rs::WINDOWS_1252.decode` returns for the given bytes
/// (including its byte-order-mark sniffing).
pub uninterp spec fn windows_1252_decoding(bytes: Seq<u8>) -> Seq<char>;

/// Calls `encoding_rs::WINDOWS_1252.decode` and keeps the decoded text. The
/// decoding table is named, not written out.
#[verifier::external_body]
pub(crate) fn windows_1252_decode(bytes: &[u8]) -> (s: String)
    ensures
        s@ == windows_1252_decoding(bytes@),
{
    let (cow, _, _) = encoding_rs::WINDOWS_1252.decode(bytes);
    cow.into_owned()
}

pub open spec fn is_high_surrogate(u: u16) -> bool {
    0xD800 <= u <= 0xDBFF
}

pub open spec fn is_low_surrogate(u: u16) -> bool {
    0xDC00 <= u <= 0xDFFF
}

pub open spec fn is_surrogate(u: u16) -> bool {
    0xD800 <= u <= 0xDFFF
}

/// The code point of a surrogate pair.
pub open spec fn surrogate_pair_value(hi: u16, lo: u16) -> int {
    0x10000 + (hi - 0xD800) * 0x400 + (lo - 0xDC00)
}

/// UTF-16 decoding as `String::from_utf16` does it: `None` when an unpaired
/// surrogate occurs.
pub open spec fn decode_utf16(u: Seq<u16>) -> Option<Seq<char>>
    decreases u.len(),
{
    if u.len() == 0 {
        Some(Seq::empty())
    } else if !is_surrogate(u[0]) {
        match decode_utf16(u.drop_first()) {
            Some(r) => Some(seq![(u[0] as u32) as char] + r),
            None => None,
        }
    } else if is_high_surrogate(u[0]) && u.len() >= 2 && is_low_surrogate(u[1]) {
        match decode_utf16(u.subrange(2, u.len() as int)) {
            Some(r) => Some(seq![(surrogate_pair_value(u[0], u[1]) as u32) as char] + r),
            None => None,
        }
    } else {
        None
    }
}

/// UTF-16 code units of one character.
pub open spec fn utf16_units(c: char) -> Seq<u16> {
    let u = c as u32;
    if u < 0x10000 {
        seq![u as u16]
    } else {
        seq![(0xD800 + (u - 0x10000) / 0x400) as u16, (0xDC00 + (u - 0x10000) % 0x400) as u16]
    }
}

/// UTF-16 encoding of a character sequence.
pub open spec fn encode_utf16(s: Seq<char>) -> Seq<u16>
    decreases s.len(),
{
    if s.len() == 0 {
        Seq::empty()
    } else {
        utf16_units(s[0]) + encode_utf16(s.drop_first())
    }
}

pub proof fn lemma_encode_utf16_concat(a: Seq<char>, b: Seq<char>)
    ensures
        encode_utf16(a + b) == encode_utf16(a) + encode_utf16(b),
    decreases a.len(),
{
    if a.len() == 0 {
        assert(a + b =~= b);
    } else {
        assert((a + b).drop_first() =~= a.drop_first() + b);
        lemma_encode_utf16_concat(a.drop_first(), b);
        assert(utf16_units(a[0]) + (encode_utf16(a.drop_first()) + encode_utf16(b)) =~= (utf16_units(a[0])
            + encode_utf16(a.drop_first())) + encode_utf16(b));
    }
}

proof fn lemma_pair_roundtrip(c: char)
    requires
        (c as u32) >= 0x10000,
    ensures
        is_high_surrogate(utf16_units(c)[0]),
        is_low_surrogate(utf16_units(c)[1]),
        (surrogate_pair_value(utf16_units(c)[0], utf16_units(c)[1]) as u32) as char == c,
{
    let u = c as u32;
    vstd::utf8::char_is_scalar(c);
    assert(u <= 0x10FFFF);
    let v = u - 0x10000;
    assert(0 <= v / 0x400 < 0x400) by (nonlinear_arith)
        requires
            0 <= v <= 0xFFFFF,
    ;
    assert(0 <= v % 0x400 < 0x400) by (nonlinear_arith)
        requires
            0 <= v,
    ;
    assert((v / 0x400) * 0x400 + v % 0x400 == v) by (nonlinear_arith)
        requires
            0 <= v,
    ;
    vstd::utf8::char_u32_cast(c, u);
}

/// Decoding the UTF-16 encoding of any text gives the text back.
pub proof fn lemma_utf16_roundtrip(s: Seq<char>)
    ensures
        decode_utf16(encode_utf16(s)) == Some(s),
    decreases s.len(),
{
    if s.len() > 0 {
        let c = s[0];
        let rest = s.drop_first();
        lemma_utf16_roundtrip(rest);
        let u = encode_utf16(s);
        let units = utf16_units(c);
        vstd::utf8::char_is_scalar(c);
        vstd::utf8::char_u32_cast(c, c as u32);
        if (c as u32) < 0x10000 {
            assert(u[0] == units[0]);
            assert(u.drop_first() =~= encode_utf16(rest));
            assert(((units[0] as u32) as char) == c);
        } else {
            lemma_pair_roundtrip(c);
            assert(u[0] == units[0]);
            assert(u[1] == units[1]);
            assert(u.subrange(2, u.len() as int) =~= encode_utf16(rest));
        }
        assert(seq![c] + rest =~= s);
    } else {
        assert(s =~= Seq::<char>::empty());
    }
}

/// Decodes UTF-16 code units (`String::from_utf16`); `None` on an unpaired
/// surrogate.
pub fn string_from_utf16(units: &Vec<u16>) -> (r: Option<String>)
    ensures
        match decode_utf16(units@) {
            Some(s) => r matches Some(x) && x@ == s,
            None => r is None,
        },
{
    let mut out = String::new();
    let mut i: usize = 0;
    let n = units.len();
    proof {
        assert(units@.subrange(0, n as int) =~= units@);
        match decode_utf16(units@) {
            Some(r) => {
                assert(out@ + r =~= r);
            },
            None => {},
        }
    }
    while i < n
        invariant
            n == units@.len(),
            i <= n,
            decode_utf16(units@) == (match decode_utf16(units@.subrange(i as int, n as int)) {
                Some(r) => Some(out@ + r),
                None => None::<Seq<char>>,
            }),
        decreases n - i,
    {
        let ghost rest = units@.subrange(i as int, n as int);
        let u = units[i];
        if u < 0xD800 || u > 0xDFFF {
            let c = match char_from_u32(u as u32) {
                Some(c) => c,
                None => {
                    assert(false);
                    return None;
                },
            };
            assert(rest.drop_first() =~= units@.subrange(i + 1, n as int));
            crate::text::string_push(&mut out, c);
            proof {
                vstd::utf8::char_u32_cast(c, u as u32);
            }
            i = i + 1;
        } else if u <= 0xDBFF && i + 1 < n && units[i + 1] >= 0xDC00 && units[i + 1] <= 0xDFFF {
            let lo = units[i + 1];
            let v: u32 = 0x10000 + ((u as u32) - 0xD800) * 0x400 + ((lo as u32) - 0xDC00);
            let c = match char_from_u32(v) {
                Some(c) => c,
                None => {
                    assert(false);
                    return None;
                },
            };
            assert(rest.subrange(2, rest.len() as int) =~= units@.subrange(i + 2, n as int));
            crate::text::string_push(&mut out, c);
            proof {
                vstd::utf8::char_u32_cast(c, v);
            }
            i = i + 2;
        } else {
            return None;
        }
    }
    assert(units@.subrange(n as int, n as int) =~= Seq::<u16>::empty());
    assert(out@ + Seq::<char>::empty() =~= out@);
    Some(out)
}

/// UTF-16 code units of the characters of `s` (`str::encode_utf16`).
pub fn utf16_of(s: &str) -> (units: Vec<u16>)
    ensures
        units@ == encode_utf16(s@),
{
    let cs = crate::text::chars_of(s);
    let mut out: Vec<u16> = Vec::new();
    let mut i: usize = 0;
    while i < cs.len()
        invariant
            i <= cs@.len(),
            cs@ == s@,
            out@ == encode_utf16(cs@.subrange(0, i as int)),
        decreases cs@.len() - i,
    {
        let c = cs[i];
        let u = c as u32;
        proof {
            vstd::utf8::char_is_scalar(c);
            lemma_encode_utf16_concat(cs@.subrange(0, i as int), seq![c]);
            assert(cs@.subrange(0, i + 1) =~= cs@.subrange(0, i as int) + seq![c]);
            assert(seq![c].drop_first() =~= Seq::<char>::empty());
            assert(encode_utf16(seq![c].drop_first()) =~= Seq::<u16>::empty());
            assert(utf16_units(c) + Seq::<u16>::empty() =~= utf16_units(c));
            assert(encode_utf16(seq![c]) =~= utf16_units(c));
        }
        if u < 0x10000 {
            out.push(u as u16);
        } else {
            let v = u - 0x10000;
            out.push((0xD800 + v / 0x400) as u16);
            out.push((0xDC00 + v % 0x400) as u16);
        }
        i = i + 1;
    }
    assert(cs@.subrange(0, cs@.len() as int) =~= cs@);
    out
}

} // verus!
