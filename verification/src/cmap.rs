//! ToUnicode CMaps: parsing `bfchar` / `bfrange` blocks and mapping
//! character codes to text.
use std::collections::HashMap;
use vstd::prelude::*;
use vstd::utf8::*;
use crate::text::{is_unicode_whitespace, skip_ws_forward, trim};
use crate::unicode::{decode_utf16, is_scalar_value};

verus! {

/* Hexadecimal numbers, as `from_str_radix(_, 16)` reads them. */

pub open spec fn is_hex_digit(c: char) -> bool {
    ('0' <= c && c <= '9') || ('a' <= c && c <= 'f') || ('A' <= c && c <= 'F')
}

pub open spec fn hex_digit_value(c: char) -> nat {
    if '0' <= c && c <= '9' {
        ((c as u32) - ('0' as u32)) as nat
    } else if 'a' <= c && c <= 'f' {
        ((c as u32) - ('a' as u32) + 10) as nat
    } else {
        ((c as u32) - ('A' as u32) + 10) as nat
    }
}

/// Value of a sequence of hexadecimal digits.
pub open spec fn hex_value(d: Seq<char>) -> nat
    decreases d.len(),
{
    if d.len() == 0 {
        0
    } else {
        hex_value(d.drop_last()) * 16 + hex_digit_value(d.last())
    }
}

/// The digits of a number: `s` without one leading `+`.
pub open spec fn radix_digits(s: Seq<char>) -> Seq<char> {
    if s.len() > 0 && s[0] == '+' {
        s.drop_first()
    } else {
        s
    }
}

pub open spec fn all_hex_digits(d: Seq<char>) -> bool {
    forall|i: int| 0 <= i < d.len() ==> is_hex_digit(#[trigger] d[i])
}

/// `from_str_radix(s, 16)` for an unsigned type whose largest value is `max`:
/// an optional leading `+`, then at least one hexadecimal digit, and a value
/// that fits.
pub open spec fn parse_radix16(s: Seq<char>, max: nat) -> Option<nat> {
    if s.len() == 0 {
        None
    } else {
        let d = radix_digits(s);
        if d.len() == 0 {
            None
        } else if !all_hex_digits(d) {
            None
        } else if hex_value(d) > max {
            None
        } else {
            Some(hex_value(d))
        }
    }
}

pub open spec fn is_angle(c: char) -> bool {
    c == '<' || c == '>'
}

pub open spec fn skip_angles_forward(s: Seq<char>, i: int) -> int
    decreases s.len() - i,
{
    if 0 <= i < s.len() && is_angle(s[i]) {
        skip_angles_forward(s, i + 1)
    } else {
        i
    }
}

pub open spec fn skip_angles_backward(s: Seq<char>, lo: int, j: int) -> int
    decreases j - lo,
{
    if lo < j <= s.len() && is_angle(s[j - 1]) {
        skip_angles_backward(s, lo, j - 1)
    } else {
        j
    }
}

/// `s.trim_matches(|c| c == '<' || c == '>')`.
pub open spec fn strip_angles(s: Seq<char>) -> Seq<char> {
    let a = skip_angles_forward(s, 0);
    s.subrange(a, skip_angles_backward(s, a, s.len() as int))
}

proof fn lemma_skip_angles(s: Seq<char>, i: int, lo: int, j: int)
    requires
        0 <= i <= s.len(),
        0 <= lo <= j <= s.len(),
    ensures
        i <= skip_angles_forward(s, i) <= s.len(),
        lo <= skip_angles_backward(s, lo, j) <= j,
    decreases s.len() - i + j - lo,
{
    if i < s.len() && is_angle(s[i]) {
        lemma_skip_angles(s, i + 1, lo, j);
    } else if lo < j && is_angle(s[j - 1]) {
        lemma_skip_angles(s, i, lo, j - 1);
    }
}

/// `parse_hex_u32`: the token without its angle brackets, read as a
/// hexadecimal `u32`.
pub open spec fn hex_u32(tok: Seq<char>) -> Option<u32> {
    match parse_radix16(strip_angles(tok), 0xFFFF_FFFF) {
        Some(v) => Some(v as u32),
        None => None,
    }
}

/// Bytes read from the first `k` pairs of hexadecimal digits of `d`; pairs
/// that are not a valid `u8` are skipped.
pub open spec fn hex_pair_bytes(d: Seq<char>, k: int) -> Seq<u8>
    decreases k,
{
    if k <= 0 {
        Seq::empty()
    } else {
        let prev = hex_pair_bytes(d, k - 1);
        match parse_radix16(d.subrange(2 * k - 2, 2 * k), 255) {
            Some(v) => prev.push(v as u8),
            None => prev,
        }
    }
}

/// Big-endian 16-bit units of a byte sequence of even length.
pub open spec fn be_units(b: Seq<u8>) -> Seq<u16> {
    Seq::new(b.len() / 2, |i: int| ((b[2 * i] as int) * 256 + (b[2 * i + 1] as int)) as u16)
}

/// `parse_hex_to_string`: the token's hexadecimal bytes decoded as UTF-16BE
/// when there are two or more and an even number of them, else as UTF-8.
pub open spec fn hex_string(tok: Seq<char>) -> Option<Seq<char>> {
    let d = strip_angles(tok);
    let bytes = hex_pair_bytes(d, (d.len() / 2) as int);
    if bytes.len() >= 2 && bytes.len() % 2 == 0 {
        decode_utf16(be_units(bytes))
    } else if valid_utf8(bytes) {
        Some(decode_utf8(bytes))
    } else {
        None
    }
}

} // verus!

verus! {

fn is_hex_digit_exec(c: char) -> (b: bool)
    ensures
        b == is_hex_digit(c),
{
    ('0' <= c && c <= '9') || ('a' <= c && c <= 'f') || ('A' <= c && c <= 'F')
}

fn hex_digit_value_exec(c: char) -> (v: u64)
    requires
        is_hex_digit(c),
    ensures
        v == hex_digit_value(c),
        v < 16,
{
    if '0' <= c && c <= '9' {
        (c as u32 - '0' as u32) as u64
    } else if 'a' <= c && c <= 'f' {
        (c as u32 - 'a' as u32 + 10) as u64
    } else {
        (c as u32 - 'A' as u32 + 10) as u64
    }
}

/// `from_str_radix(_, 16)` on the characters `v[a..b]`, for a type whose
/// largest value is `max`.
fn parse_radix16_range(v: &Vec<char>, a: usize, b: usize, max: u32) -> (r: Option<u32>)
    requires
        a <= b <= v@.len(),
    ensures
        match parse_radix16(v@.subrange(a as int, b as int), max as nat) {
            Some(x) => r == Some(x as u32),
            None => r is None,
        },
{
    let ghost s = v@.subrange(a as int, b as int);
    if a == b {
        return None;
    }
    let mut i = a;
    assert(s[0] == v@[a as int]);
    if v[a] == '+' {
        i = a + 1;
        assert(s.drop_first() =~= v@.subrange(i as int, b as int));
    } else {
        assert(s =~= v@.subrange(i as int, b as int));
    }
    let ghost d = v@.subrange(i as int, b as int);
    if i == b {
        return None;
    }
    let start = i;
    let mut value: u64 = 0;
    let mut overflow = false;
    while i < b
        invariant
            a <= start <= i <= b <= v@.len(),
            d == v@.subrange(start as int, b as int),
            s == v@.subrange(a as int, b as int),
            s.len() > 0,
            d.len() > 0,
            radix_digits(s) == d,
            forall|k: int| start <= k < i ==> is_hex_digit(#[trigger] v@[k]),
            !overflow ==> value == hex_value(v@.subrange(start as int, i as int)) && value <= max,
            overflow ==> hex_value(v@.subrange(start as int, i as int)) > max,
        decreases b - i,
    {
        let c = v[i];
        if !is_hex_digit_exec(c) {
            assert(d[i - start] == c);
            assert(!is_hex_digit(d[(i - start) as int]));
            return None;
        }
        let dv = hex_digit_value_exec(c);
        let ghost prev = v@.subrange(start as int, i as int);
        assert(v@.subrange(start as int, i + 1).drop_last() == prev);
        if !overflow {
            value = value * 16 + dv;
            if value > max as u64 {
                overflow = true;
            }
        } else {
            assert(hex_value(prev) * 16 >= hex_value(prev)) by (nonlinear_arith);
        }
        i = i + 1;
    }
    assert forall|k: int| 0 <= k < d.len() implies is_hex_digit(#[trigger] d[k]) by {
        assert(d[k] == v@[start + k]);
    }
    if overflow {
        None
    } else {
        Some(value as u32)
    }
}

/// Bounds of `v[a..b]` without leading and trailing `<` and `>`.
fn strip_angles_range(v: &Vec<char>, a: usize, b: usize) -> (r: (usize, usize))
    requires
        a <= b <= v@.len(),
    ensures
        a <= r.0 <= r.1 <= b,
        v@.subrange(r.0 as int, r.1 as int) == strip_angles(v@.subrange(a as int, b as int)),
{
    let ghost s = v@.subrange(a as int, b as int);
    let mut i = a;
    while i < b && (v[i] == '<' || v[i] == '>')
        invariant
            a <= i <= b <= v@.len(),
            s == v@.subrange(a as int, b as int),
            skip_angles_forward(s, i - a) == skip_angles_forward(s, 0),
        decreases b - i,
    {
        i = i + 1;
    }
    let mut j = b;
    while j > i && (v[j - 1] == '<' || v[j - 1] == '>')
        invariant
            a <= i <= j <= b <= v@.len(),
            s == v@.subrange(a as int, b as int),
            i - a == skip_angles_forward(s, 0),
            skip_angles_backward(s, i - a, j - a) == skip_angles_backward(s, i - a, s.len() as int),
        decreases j,
    {
        j = j - 1;
    }
    assert(v@.subrange(i as int, j as int) =~= s.subrange(i - a, j - a));
    (i, j)
}

/// `parse_hex_u32` on the characters `v[a..b]`.
fn hex_u32_range(v: &Vec<char>, a: usize, b: usize) -> (r: Option<u32>)
    requires
        a <= b <= v@.len(),
    ensures
        r == hex_u32(v@.subrange(a as int, b as int)),
{
    let (i, j) = strip_angles_range(v, a, b);
    parse_radix16_range(v, i, j, 0xFFFF_FFFF)
}

/// Reads a `<hex>` token as a `u32` (`None` when it is not a hexadecimal
/// number that fits).
pub fn parse_hex_u32(hex_str: &str) -> (r: Option<u32>)
    ensures
        r == hex_u32(hex_str@),
{
    let v = crate::text::chars_of(hex_str);
    assert(v@.subrange(0, v@.len() as int) =~= v@);
    hex_u32_range(&v, 0, v.len())
}

} // verus!

verus! {

proof fn lemma_hex_pair_bytes_len(d: Seq<char>, k: int)
    requires
        k >= 0,
    ensures
        hex_pair_bytes(d, k).len() <= k,
    decreases k,
{
    if k > 0 {
        lemma_hex_pair_bytes_len(d, k - 1);
    }
}

/// `parse_hex_to_string` on the characters `v[a..b]`.
fn hex_string_range(v: &Vec<char>, a: usize, b: usize) -> (r: Option<String>)
    requires
        a <= b <= v@.len(),
    ensures
        match hex_string(v@.subrange(a as int, b as int)) {
            Some(s) => r matches Some(x) && x@ == s,
            None => r is None,
        },
{
    let (i, j) = strip_angles_range(v, a, b);
    let ghost d = v@.subrange(i as int, j as int);
    let npairs = (j - i) / 2;
    let mut bytes: Vec<u8> = Vec::new();
    let mut k: usize = 0;
    while k < npairs
        invariant
            i <= j <= v@.len(),
            d == v@.subrange(i as int, j as int),
            npairs == (j - i) / 2,
            k <= npairs,
            bytes@ == hex_pair_bytes(d, k as int),
        decreases npairs - k,
    {
        let p = i + 2 * k;
        assert(v@.subrange(p as int, p + 2) =~= d.subrange(2 * k as int, 2 * k + 2));
        match parse_radix16_range(v, p, p + 2, 255) {
            Some(x) => {
                bytes.push(x as u8);
            },
            None => {},
        }
        k = k + 1;
    }
    proof {
        lemma_hex_pair_bytes_len(d, npairs as int);
    }
    let n = bytes.len();
    if n >= 2 && n % 2 == 0 {
        let mut units: Vec<u16> = Vec::new();
        let mut m: usize = 0;
        while m < n / 2
            invariant
                n == bytes@.len(),
                n % 2 == 0,
                m <= n / 2,
                units@ == be_units(bytes@).subrange(0, m as int),
            decreases n / 2 - m,
        {
            let hi = bytes[2 * m] as u16;
            let lo = bytes[2 * m + 1] as u16;
            units.push(hi * 256 + lo);
            assert(be_units(bytes@).subrange(0, m + 1) =~= be_units(bytes@).subrange(0, m as int).push(
                ((bytes@[2 * m as int] as int) * 256 + (bytes@[2 * m + 1] as int)) as u16,
            ));
            m = m + 1;
        }
        assert(be_units(bytes@).subrange(0, (n / 2) as int) =~= be_units(bytes@));
        crate::unicode::string_from_utf16(&units)
    } else {
        crate::unicode::utf8_to_string(bytes.as_slice())
    }
}

/// Reads a `<hex>` token as text: UTF-16BE when it holds two or more bytes
/// and an even number of them, UTF-8 otherwise; `None` when that fails.
pub fn parse_hex_to_string(hex_str: &str) -> (r: Option<String>)
    ensures
        match hex_string(hex_str@) {
            Some(s) => r matches Some(x) && x@ == s,
            None => r is None,
        },
{
    let v = crate::text::chars_of(hex_str);
    assert(v@.subrange(0, v@.len() as int) =~= v@);
    hex_string_range(&v, 0, v.len())
}

} // verus!

verus! {

/// End of the word (maximal run of non-whitespace) starting at `i`.
pub open spec fn scan_word(s: Seq<char>, i: int) -> int
    decreases s.len() - i,
{
    if 0 <= i < s.len() && !is_unicode_whitespace(s[i]) {
        scan_word(s, i + 1)
    } else {
        i
    }
}

pub proof fn lemma_scan_word(s: Seq<char>, i: int)
    requires
        0 <= i <= s.len(),
    ensures
        i <= scan_word(s, i) <= s.len(),
        i < s.len() && !is_unicode_whitespace(s[i]) ==> scan_word(s, i) > i,
    decreases s.len() - i,
{
    if i < s.len() && !is_unicode_whitespace(s[i]) {
        lemma_scan_word(s, i + 1);
    }
}

/// A word of the form `<...>`.
pub open spec fn is_angle_token(w: Seq<char>) -> bool {
    w.len() > 0 && w[0] == '<' && w.last() == '>'
}

/// The whitespace-separated words of `s` from `from` on that start with `<`
/// and end with `>`, in order.
pub open spec fn angle_tokens(s: Seq<char>, from: int) -> Seq<Seq<char>>
    decreases s.len() - from,
{
    if from < 0 || from >= s.len() {
        Seq::empty()
    } else {
        let a = skip_ws_forward(s, from);
        proof {
            crate::text::lemma_skip_ws_forward(s, from);
        }
        if a >= s.len() {
            Seq::empty()
        } else {
            let e = scan_word(s, a);
            proof {
                lemma_scan_word(s, a);
            }
            let rest = angle_tokens(s, e);
            if is_angle_token(s.subrange(a, e)) {
                seq![s.subrange(a, e)] + rest
            } else {
                rest
            }
        }
    }
}

/// Whether `needle` occurs in `hay`.
pub open spec fn contains(hay: Seq<char>, needle: Seq<char>) -> bool {
    exists|i: int| 0 <= i && i + needle.len() <= hay.len() && #[trigger] hay.subrange(i, i + needle.len()) == needle
}

/// The state of the reader: which block it is in, and what has been read.
pub struct CMapModel {
    pub in_bfchar: bool,
    pub in_bfrange: bool,
    pub chars: Map<u32, Seq<char>>,
    pub ranges: Seq<(u32, u32, u32)>,
}

/// Reading one line of a CMap.
pub open spec fn cmap_step(st: CMapModel, line: Seq<char>) -> CMapModel {
    let tr = trim(line);
    if contains(tr, "beginbfchar"@) {
        CMapModel { in_bfchar: true, in_bfrange: false, chars: st.chars, ranges: st.ranges }
    } else if contains(tr, "endbfchar"@) {
        CMapModel { in_bfchar: false, in_bfrange: st.in_bfrange, chars: st.chars, ranges: st.ranges }
    } else if contains(tr, "beginbfrange"@) {
        CMapModel { in_bfchar: false, in_bfrange: true, chars: st.chars, ranges: st.ranges }
    } else if contains(tr, "endbfrange"@) {
        CMapModel { in_bfchar: st.in_bfchar, in_bfrange: false, chars: st.chars, ranges: st.ranges }
    } else if st.in_bfchar {
        let parts = angle_tokens(tr, 0);
        if parts.len() >= 2 && hex_u32(parts[0]) is Some && hex_string(parts[1]) is Some {
            CMapModel {
                in_bfchar: st.in_bfchar,
                in_bfrange: st.in_bfrange,
                chars: st.chars.insert(hex_u32(parts[0])->0, hex_string(parts[1])->0),
                ranges: st.ranges,
            }
        } else {
            st
        }
    } else if st.in_bfrange {
        let parts = angle_tokens(tr, 0);
        if parts.len() >= 3 && hex_u32(parts[0]) is Some && hex_u32(parts[1]) is Some && hex_u32(
            parts[2],
        ) is Some {
            CMapModel {
                in_bfchar: st.in_bfchar,
                in_bfrange: st.in_bfrange,
                chars: st.chars,
                ranges: st.ranges.push(
                    (hex_u32(parts[0])->0, hex_u32(parts[1])->0, hex_u32(parts[2])->0),
                ),
            }
        } else {
            st
        }
    } else {
        st
    }
}

/// A line without one trailing carriage return.
pub open spec fn strip_cr(line: Seq<char>) -> Seq<char> {
    if line.len() > 0 && line.last() == '\r' {
        line.drop_last()
    } else {
        line
    }
}

/// Reading the lines of `text` from position `start` (as `str::lines`
/// splits them: at `\n`, dropping a `\r` before it).
pub open spec fn cmap_fold(text: Seq<char>, start: int, st: CMapModel) -> CMapModel
    decreases text.len() - start,
{
    if start < 0 || start >= text.len() {
        st
    } else {
        let nl = crate::expression::scan_until(text, start, '\n');
        proof {
            crate::expression::lemma_scan_until(text, start, '\n');
        }
        if nl < text.len() {
            cmap_fold(text, nl + 1, cmap_step(st, strip_cr(text.subrange(start, nl))))
        } else {
            cmap_step(st, text.subrange(start, text.len() as int))
        }
    }
}

pub open spec fn empty_cmap_model() -> CMapModel {
    CMapModel { in_bfchar: false, in_bfrange: false, chars: Map::empty(), ranges: Seq::empty() }
}

/// The mappings read from a CMap's text.
pub open spec fn cmap_of_text(text: Seq<char>) -> CMapModel {
    cmap_fold(text, 0, empty_cmap_model())
}

} // verus!

verus! {

/// Parsed ToUnicode CMap: single-code mappings and code ranges
/// `(start, end, first code point)`.
#[derive(Clone, Debug)]
pub struct ToUnicodeCMap {
    pub char_map: HashMap<u32, String>,
    pub range_map: Vec<(u32, u32, u32)>,
}

impl Default for ToUnicodeCMap {
    fn default() -> (r: Self)
        ensures
            r.char_map@ == Map::<u32, String>::empty(),
            r.range_map@ == Seq::<(u32, u32, u32)>::empty(),
    {
        ToUnicodeCMap { char_map: HashMap::new(), range_map: Vec::new() }
    }
}

/// The characters `v[a..b]` as a new vector.
fn subvec(v: &Vec<char>, a: usize, b: usize) -> (r: Vec<char>)
    requires
        a <= b <= v@.len(),
    ensures
        r@ == v@.subrange(a as int, b as int),
{
    let mut r: Vec<char> = Vec::new();
    let mut i = a;
    while i < b
        invariant
            a <= i <= b <= v@.len(),
            r@ == v@.subrange(a as int, i as int),
        decreases b - i,
    {
        r.push(v[i]);
        assert(v@.subrange(a as int, i + 1) =~= v@.subrange(a as int, i as int).push(v@[i as int]));
        i = i + 1;
    }
    r
}

/// Whether `needle` occurs in `hay`.
pub fn contains_chars(hay: &Vec<char>, needle: &Vec<char>) -> (b: bool)
    ensures
        b == contains(hay@, needle@),
{
    let n = needle.len();
    let h = hay.len();
    if n > h {
        return false;
    }
    let mut i: usize = 0;
    while i <= h - n
        invariant
            n == needle@.len(),
            h == hay@.len(),
            n <= h,
            i <= h - n + 1,
            forall|k: int| 0 <= k < i ==> #[trigger] hay@.subrange(k, k + n) != needle@,
        decreases h - i,
    {
        let mut j: usize = 0;
        let mut same = true;
        while j < n
            invariant
                n == needle@.len(),
                h == hay@.len(),
                i + n <= h,
                j <= n,
                same == (forall|m: int| 0 <= m < j ==> hay@[i + m] == needle@[m]),
            decreases n - j,
        {
            if hay[i + j] != needle[j] {
                same = false;
            }
            j = j + 1;
        }
        if same {
            assert(hay@.subrange(i as int, i + n) =~= needle@);
            return true;
        }
        assert(hay@.subrange(i as int, i + n) != needle@) by {
            let m = choose|m: int| 0 <= m < n && hay@[i + m] != needle@[m];
            assert(hay@.subrange(i as int, i + n)[m] == hay@[i + m]);
        }
        i = i + 1;
    }
    false
}

/// Bounds of the `<...>` words of `s`, in order.
fn angle_token_bounds(s: &Vec<char>) -> (r: Vec<(usize, usize)>)
    ensures
        r@.len() == angle_tokens(s@, 0).len(),
        forall|k: int|
            0 <= k < r@.len() ==> (#[trigger] r@[k]).0 <= r@[k].1 <= s@.len() && s@.subrange(
                r@[k].0 as int,
                r@[k].1 as int,
            ) == angle_tokens(s@, 0)[k],
{
    let mut r: Vec<(usize, usize)> = Vec::new();
    let mut pos: usize = 0;
    let n = s.len();
    while pos < n
        invariant
            n == s@.len(),
            pos <= n,
            r@.len() + angle_tokens(s@, pos as int).len() == angle_tokens(s@, 0).len(),
            forall|k: int|
                0 <= k < r@.len() ==> (#[trigger] r@[k]).0 <= r@[k].1 <= n && s@.subrange(
                    r@[k].0 as int,
                    r@[k].1 as int,
                ) == angle_tokens(s@, 0)[k],
            forall|k: int|
                0 <= k < angle_tokens(s@, pos as int).len() ==> #[trigger] angle_tokens(s@, pos as int)[k]
                    == angle_tokens(s@, 0)[r@.len() + k],
        decreases n - pos,
    {
        let ghost rest = angle_tokens(s@, pos as int);
        proof {
            crate::text::lemma_skip_ws_forward(s@, pos as int);
        }
        let mut a = pos;
        while a < n && crate::text::is_whitespace_char(s[a])
            invariant
                n == s@.len(),
                pos <= a <= n,
                skip_ws_forward(s@, a as int) == skip_ws_forward(s@, pos as int),
            decreases n - a,
        {
            a = a + 1;
        }
        if a >= n {
            pos = n;
            assert(rest =~= Seq::<Seq<char>>::empty());
        } else {
            proof {
                lemma_scan_word(s@, a as int);
            }
            let mut e = a;
            while e < n && !crate::text::is_whitespace_char(s[e])
                invariant
                    n == s@.len(),
                    a <= e <= n,
                    scan_word(s@, e as int) == scan_word(s@, a as int),
                decreases n - e,
            {
                e = e + 1;
            }
            let ghost w = s@.subrange(a as int, e as int);
            let ghost after = angle_tokens(s@, e as int);
            if s[a] == '<' && s[e - 1] == '>' {
                assert(rest == seq![w] + after);
                let ghost old_len = r@.len();
                assert(rest[0] == angle_tokens(s@, 0)[old_len as int]);
                r.push((a, e));
                assert forall|k: int| 0 <= k < after.len() implies #[trigger] after[k] == angle_tokens(
                    s@,
                    0,
                )[r@.len() + k] by {
                    assert(rest[k + 1] == after[k]);
                    assert(rest[k + 1] == angle_tokens(s@, 0)[old_len + k + 1]);
                }
                assert(r@[old_len as int] == (a, e));
            } else {
                assert(rest == after);
            }
            pos = e;
        }
    }
    r
}

impl ToUnicodeCMap {
    /// The mappings held, with the text of each as characters.
    pub open spec fn chars_model(&self) -> Map<u32, Seq<char>> {
        self.char_map@.map_values(|s: String| s@)
    }

    /// Reads `beginbfchar`/`endbfchar` and `beginbfrange`/`endbfrange` blocks
    /// of a ToUnicode CMap stream. Lines that do not parse are skipped.
    pub fn parse(stream_data: &[u8]) -> (cmap: Self)
        ensures
            cmap.chars_model() == cmap_of_text(crate::unicode::utf8_lossy(stream_data@)).chars,
            cmap.range_map@ == cmap_of_text(crate::unicode::utf8_lossy(stream_data@)).ranges,
            vstd::utf8::valid_utf8(stream_data@) ==> cmap.chars_model() == cmap_of_text(
                vstd::utf8::decode_utf8(stream_data@),
            ).chars,
            vstd::utf8::valid_utf8(stream_data@) ==> cmap.range_map@ == cmap_of_text(
                vstd::utf8::decode_utf8(stream_data@),
            ).ranges,
    {
        let mut cmap = ToUnicodeCMap::default();
        let text = crate::unicode::utf8_lossy_string(stream_data);
        let v = crate::text::chars_of(text.as_str());
        let ghost t = v@;
        let begin_bfchar = crate::text::chars_of("beginbfchar");
        let end_bfchar = crate::text::chars_of("endbfchar");
        let begin_bfrange = crate::text::chars_of("beginbfrange");
        let end_bfrange = crate::text::chars_of("endbfrange");
        let mut in_bfchar = false;
        let mut in_bfrange = false;
        let n = v.len();
        let mut start: usize = 0;
        proof {
            assert(cmap.chars_model() =~= Map::<u32, Seq<char>>::empty());
        }
        while start < n
            invariant
                n == t.len(),
                t == v@,
                start <= n,
                begin_bfchar@ == "beginbfchar"@,
                end_bfchar@ == "endbfchar"@,
                begin_bfrange@ == "beginbfrange"@,
                end_bfrange@ == "endbfrange"@,
                cmap_fold(t, start as int, reader_model(in_bfchar, in_bfrange, cmap))
                    == cmap_of_text(t),
            decreases n - start,
        {
            let ghost st = reader_model(in_bfchar, in_bfrange, cmap);
            proof {
                crate::expression::lemma_scan_until(t, start as int, '\n');
            }
            let mut nl = start;
            while nl < n && v[nl] != '\n'
                invariant
                    n == t.len(),
                    t == v@,
                    start <= nl <= n,
                    crate::expression::scan_until(t, nl as int, '\n') == crate::expression::scan_until(
                        t,
                        start as int,
                        '\n',
                    ),
                decreases n - nl,
            {
                nl = nl + 1;
            }
            let mut le = nl;
            if nl < n && le > start && v[le - 1] == '\r' {
                le = le - 1;
            }
            let line = subvec(&v, start, le);
            proof {
                if nl < n {
                    let raw = t.subrange(start as int, nl as int);
                    if raw.len() > 0 && raw.last() == '\r' {
                        assert(line@ =~= raw.drop_last());
                    } else {
                        assert(line@ =~= raw);
                    }
                }
            }
            let (ta, tb) = crate::text::trim_bounds(&line);
            let tr = subvec(&line, ta, tb);
            assert(tr@ == trim(line@));
            let (b1, b2) = self_step(
                &mut cmap,
                in_bfchar,
                in_bfrange,
                &tr,
                &begin_bfchar,
                &end_bfchar,
                &begin_bfrange,
                &end_bfrange,
            );
            proof {
                assert(cmap_step(st, line@) == reader_model(b1, b2, cmap));
            }
            in_bfchar = b1;
            in_bfrange = b2;
            if nl < n {
                start = nl + 1;
            } else {
                start = n;
            }
        }
        cmap
    }
}

/// The reader's state: its flags and the mappings read into `cmap`.
pub open spec fn reader_model(in_bfchar: bool, in_bfrange: bool, cmap: ToUnicodeCMap) -> CMapModel {
    CMapModel { in_bfchar, in_bfrange, chars: cmap.chars_model(), ranges: cmap.range_map@ }
}

/// One line of the reader on `cmap`, given the trimmed line `tr`.
fn self_step(
    cmap: &mut ToUnicodeCMap,
    in_bfchar: bool,
    in_bfrange: bool,
    tr: &Vec<char>,
    begin_bfchar: &Vec<char>,
    end_bfchar: &Vec<char>,
    begin_bfrange: &Vec<char>,
    end_bfrange: &Vec<char>,
) -> (r: (bool, bool))
    requires
        begin_bfchar@ == "beginbfchar"@,
        end_bfchar@ == "endbfchar"@,
        begin_bfrange@ == "beginbfrange"@,
        end_bfrange@ == "endbfrange"@,
    ensures
        forall|line: Seq<char>|
            trim(line) == tr@ ==> #[trigger] cmap_step(reader_model(in_bfchar, in_bfrange, *old(cmap)), line)
                == reader_model(r.0, r.1, *final(cmap)),
{
    let ghost st = reader_model(in_bfchar, in_bfrange, *old(cmap));
    if contains_chars(tr, begin_bfchar) {
        return (true, false);
    }
    if contains_chars(tr, end_bfchar) {
        return (false, in_bfrange);
    }
    if contains_chars(tr, begin_bfrange) {
        return (false, true);
    }
    if contains_chars(tr, end_bfrange) {
        return (in_bfchar, false);
    }
    if in_bfchar {
        let parts = angle_token_bounds(tr);
        if parts.len() >= 2 {
            let code = hex_u32_range(tr, parts[0].0, parts[0].1);
            let uni = hex_string_range(tr, parts[1].0, parts[1].1);
            match (code, uni) {
                (Some(c), Some(u)) => {
                    let ghost uv = u@;
                    cmap.char_map.insert(c, u);
                    proof {
                        assert(final(cmap).chars_model() =~= st.chars.insert(c, uv)) by {
                            assert(cmap.char_map@ == old(cmap).char_map@.insert(c, u));
                        }
                    }
                },
                _ => {},
            }
        }
    } else if in_bfrange {
        let parts = angle_token_bounds(tr);
        if parts.len() >= 3 {
            let s = hex_u32_range(tr, parts[0].0, parts[0].1);
            let e = hex_u32_range(tr, parts[1].0, parts[1].1);
            let u = hex_u32_range(tr, parts[2].0, parts[2].1);
            match (s, e, u) {
                (Some(s), Some(e), Some(u)) => {
                    cmap.range_map.push((s, e, u));
                },
                _ => {},
            }
        }
    }
    (in_bfchar, in_bfrange)
}

} // verus!

verus! {

/// The first range `(start, end, first)` from index `i` on that holds `code`
/// and maps it to a valid character `first + (code - start)`.
pub open spec fn range_lookup(r: Seq<(u32, u32, u32)>, i: int, code: u32) -> Option<Seq<char>>
    decreases r.len() - i,
{
    if i < 0 || i >= r.len() {
        None
    } else {
        let (s, e, u) = r[i];
        if s <= code <= e && is_scalar_value(u + (code - s)) {
            Some(seq![((u + (code - s)) as u32) as char])
        } else {
            range_lookup(r, i + 1, code)
        }
    }
}

/// Whether looking `code` up in the ranges from index `i` reaches a range
/// whose computed code point `first + (code - start)` exceeds `u32::MAX`
/// (an arithmetic overflow).
pub open spec fn range_lookup_overflows(r: Seq<(u32, u32, u32)>, i: int, code: u32) -> bool
    decreases r.len() - i,
{
    if i < 0 || i >= r.len() {
        false
    } else {
        let (s, e, u) = r[i];
        if s <= code <= e {
            if u + (code - s) > u32::MAX {
                true
            } else if is_scalar_value(u + (code - s)) {
                false
            } else {
                range_lookup_overflows(r, i + 1, code)
            }
        } else {
            range_lookup_overflows(r, i + 1, code)
        }
    }
}

/// Text for a character code: the single-code mapping if there is one, else
/// the first matching range.
pub open spec fn map_code_spec(chars: Map<u32, Seq<char>>, ranges: Seq<(u32, u32, u32)>, code: u32) -> Option<Seq<char>> {
    if chars.contains_key(code) {
        Some(chars[code])
    } else {
        range_lookup(ranges, 0, code)
    }
}

impl ToUnicodeCMap {
    /// Whether `map_code(code)` can be computed without arithmetic overflow.
    pub open spec fn maps_without_overflow(&self, code: u32) -> bool {
        !self.chars_model().contains_key(code) ==> !range_lookup_overflows(self.range_map@, 0, code)
    }

    /// The text a character code stands for, if the CMap maps it.
    pub fn map_code(&self, code: u32) -> (r: Option<String>)
        requires
            self.maps_without_overflow(code),
        ensures
            match map_code_spec(self.chars_model(), self.range_map@, code) {
                Some(s) => r matches Some(x) && x@ == s,
                None => r is None,
            },
    {
        match self.char_map.get(&code) {
            Some(s) => {
                return Some(s.clone());
            },
            None => {},
        }
        assert(!self.chars_model().contains_key(code));
        let n = self.range_map.len();
        let mut i: usize = 0;
        while i < n
            invariant
                n == self.range_map@.len(),
                i <= n,
                !self.chars_model().contains_key(code),
                range_lookup(self.range_map@, 0, code) == range_lookup(self.range_map@, i as int, code),
                !range_lookup_overflows(self.range_map@, i as int, code),
            decreases n - i,
        {
            let (start, end, uni_start) = self.range_map[i];
            if code >= start && code <= end {
                let offset = code - start;
                let uni = uni_start + offset;
                match crate::unicode::char_from_u32(uni) {
                    Some(c) => {
                        let mut out = String::new();
                        crate::text::string_push(&mut out, c);
                        proof {
                            vstd::utf8::char_u32_cast(c, uni);
                        }
                        assert(out@ =~= seq![c]);
                        return Some(out);
                    },
                    None => {},
                }
            }
            i = i + 1;
        }
        None
    }
}

impl ToUnicodeCMap {
    /// Whether looking `code` up reaches a range whose computed code point
    /// overflows (see [`range_lookup_overflows`]).
    fn range_overflows(&self, code: u32) -> (b: bool)
        ensures
            b == range_lookup_overflows(self.range_map@, 0, code),
    {
        let n = self.range_map.len();
        let mut i: usize = 0;
        while i < n
            invariant
                n == self.range_map@.len(),
                i <= n,
                range_lookup_overflows(self.range_map@, 0, code) == range_lookup_overflows(
                    self.range_map@,
                    i as int,
                    code,
                ),
            decreases n - i,
        {
            let (start, end, uni_start) = self.range_map[i];
            if code >= start && code <= end {
                let offset = code - start;
                if uni_start > u32::MAX - offset {
                    return true;
                }
                if crate::unicode::char_from_u32(uni_start + offset).is_some() {
                    return false;
                }
            }
            i = i + 1;
        }
        false
    }

    /// Whether `map_code(code)` can be computed without overflow.
    pub fn can_map(&self, code: u32) -> (b: bool)
        ensures
            b == self.maps_without_overflow(code),
    {
        self.char_map.contains_key(&code) || !self.range_overflows(code)
    }
}

} // verus!
