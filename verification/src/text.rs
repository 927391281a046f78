//! Character classes and whitespace trimming used throughout the engine.
use vstd::prelude::*;

verus! {

/// The Unicode `White_Space` property, as used by `char::is_whitespace`.
pub open spec fn is_unicode_whitespace(c: char) -> bool {
    let u = c as u32;
    ||| 0x09 <= u <= 0x0D
    ||| u == 0x20
    ||| u == 0x85
    ||| u == 0xA0
    ||| u == 0x1680
    ||| 0x2000 <= u <= 0x200A
    ||| u == 0x2028
    ||| u == 0x2029
    ||| u == 0x202F
    ||| u == 0x205F
    ||| u == 0x3000
}

/// Executable test for the Unicode `White_Space` property.
pub fn is_whitespace_char(c: char) -> (b: bool)
    ensures
        b == is_unicode_whitespace(c),
{
    let u = c as u32;
    (0x09 <= u && u <= 0x0D) || u == 0x20 || u == 0x85 || u == 0xA0 || u == 0x1680
        || (0x2000 <= u && u <= 0x200A) || u == 0x2028 || u == 0x2029 || u == 0x202F
        || u == 0x205F || u == 0x3000
}

/// What `str::to_lowercase` returns: the string with every character mapped
/// to its Unicode lowercase form.
pub uninterp spec fn lowercase(s: Seq<char>) -> Seq<char>;

/// Calls `str::to_lowercase`. The Unicode case mapping is named, not written
/// out.
#[verifier::external_body]
pub(crate) fn to_lowercase(s: &str) -> (r: String)
    ensures
        r@ == lowercase(s@),
{
    s.to_lowercase()
}

/// What `str::to_uppercase` returns: the string with every character mapped
/// to its Unicode uppercase form.
pub uninterp spec fn uppercase(s: Seq<char>) -> Seq<char>;

/// Calls `str::to_uppercase`. The Unicode case mapping is named, not written
/// out.
#[verifier::external_body]
pub(crate) fn to_uppercase(s: &str) -> (r: String)
    ensures
        r@ == uppercase(s@),
{
    s.to_uppercase()
}

} // verus!


verus! {

/// The characters of a string slice, in order.
pub fn chars_of(s: &str) -> (v: Vec<char>)
    ensures
        v@ == s@,
{
    let mut v: Vec<char> = Vec::new();
    for c in it: s.chars()
        invariant
            v@ == it.seq().take(it.index() as int),
            it.seq() == s@,
    {
        v.push(c);
    }
    v
}

} // verus!

verus! {

/// Index of the first non-whitespace character of `s` at or after `from`
/// (or `s.len()` when there is none).
pub open spec fn skip_ws_forward(s: Seq<char>, from: int) -> int
    decreases s.len() - from,
{
    if from < 0 || from >= s.len() {
        from
    } else if is_unicode_whitespace(s[from]) {
        skip_ws_forward(s, from + 1)
    } else {
        from
    }
}

/// One past the last non-whitespace character of `s` before `to`, not going
/// below `lo`.
pub open spec fn skip_ws_backward(s: Seq<char>, lo: int, to: int) -> int
    decreases to - lo,
{
    if to <= lo || to > s.len() {
        to
    } else if is_unicode_whitespace(s[to - 1]) {
        skip_ws_backward(s, lo, to - 1)
    } else {
        to
    }
}

/// `s` without leading and trailing Unicode whitespace.
pub open spec fn trim(s: Seq<char>) -> Seq<char> {
    let a = skip_ws_forward(s, 0);
    let b = skip_ws_backward(s, a, s.len() as int);
    s.subrange(a, b)
}

pub proof fn lemma_skip_ws_forward(s: Seq<char>, from: int)
    requires
        0 <= from <= s.len(),
    ensures
        from <= skip_ws_forward(s, from) <= s.len(),
        forall|i: int| from <= i < skip_ws_forward(s, from) ==> is_unicode_whitespace(#[trigger] s[i]),
        skip_ws_forward(s, from) < s.len() ==> !is_unicode_whitespace(s[skip_ws_forward(s, from)]),
    decreases s.len() - from,
{
    if from < s.len() && is_unicode_whitespace(s[from]) {
        lemma_skip_ws_forward(s, from + 1);
    }
}

pub proof fn lemma_skip_ws_backward(s: Seq<char>, lo: int, to: int)
    requires
        0 <= lo <= to <= s.len(),
    ensures
        lo <= skip_ws_backward(s, lo, to) <= to,
        forall|i: int| skip_ws_backward(s, lo, to) <= i < to ==> is_unicode_whitespace(#[trigger] s[i]),
        skip_ws_backward(s, lo, to) > lo ==> !is_unicode_whitespace(s[skip_ws_backward(s, lo, to) - 1]),
    decreases to - lo,
{
    if to > lo && is_unicode_whitespace(s[to - 1]) {
        lemma_skip_ws_backward(s, lo, to - 1);
    }
}

/// Character bounds `(a, b)` of the trimmed part of `s`.
pub fn trim_bounds(s: &Vec<char>) -> (r: (usize, usize))
    ensures
        r.0 == skip_ws_forward(s@, 0),
        r.1 == skip_ws_backward(s@, r.0 as int, s@.len() as int),
        r.0 <= r.1 <= s.len(),
{
    let mut a: usize = 0;
    while a < s.len() && is_whitespace_char(s[a])
        invariant
            a <= s.len(),
            skip_ws_forward(s@, a as int) == skip_ws_forward(s@, 0),
        decreases s.len() - a,
    {
        a = a + 1;
    }
    let mut b: usize = s.len();
    while b > a && is_whitespace_char(s[b - 1])
        invariant
            a <= b <= s.len(),
            skip_ws_backward(s@, a as int, b as int) == skip_ws_backward(s@, a as int, s@.len() as int),
        decreases b,
    {
        b = b - 1;
    }
    (a, b)
}

/// The string slice without leading and trailing Unicode whitespace
/// (the behaviour of `str::trim`).
pub fn trim_str(s: &str) -> (t: &str)
    ensures
        t@ == trim(s@),
{
    let cs = chars_of(s);
    let (a, b) = trim_bounds(&cs);
    s.substring_char(a, b)
}

} // verus!

verus! {

/// `String::push`: the string afterwards is the string before with `c`
/// appended.
#[verifier::external_body]
pub(crate) fn string_push(s: &mut String, c: char)
    ensures
        final(s)@ == old(s)@.push(c),
{
    s.push(c);
}

/// Decimal digit character for `d < 10`.
pub open spec fn digit_char(d: nat) -> char {
    (('0' as u32) + d) as char
}

/// Decimal representation of a natural number, without leading zeros.
pub open spec fn decimal(n: nat) -> Seq<char>
    decreases n,
{
    if n < 10 {
        seq![digit_char(n)]
    } else {
        decimal(n / 10).push(digit_char(n % 10))
    }
}

fn digit_to_char(d: usize) -> (c: char)
    requires
        d < 10,
    ensures
        c == digit_char(d as nat),
{
    if d == 0 { '0' } else if d == 1 { '1' } else if d == 2 { '2' } else if d == 3 { '3' }
    else if d == 4 { '4' } else if d == 5 { '5' } else if d == 6 { '6' } else if d == 7 { '7' }
    else if d == 8 { '8' } else { '9' }
}

/// Appends the decimal representation of `n` to `s`.
pub fn push_decimal(s: &mut String, n: usize)
    ensures
        final(s)@ == old(s)@ + decimal(n as nat),
    decreases n,
{
    if n < 10 {
        string_push(s, digit_to_char(n));
        assert(decimal(n as nat) == seq![digit_char(n as nat)]);
    } else {
        push_decimal(s, n / 10);
        string_push(s, digit_to_char(n % 10));
        assert(old(s)@ + decimal(n as nat) == old(s)@ + decimal((n / 10) as nat) + seq![digit_char((n % 10) as nat)]);
    }
}

/// A new `String` holding the characters of `s`.
pub fn to_owned_string(s: &str) -> (r: String)
    ensures
        r@ == s@,
{
    String::from_str(s)
}

} // verus!

verus! {

/// Whether every character of `s` is Unicode whitespace.
pub open spec fn all_whitespace(s: Seq<char>) -> bool {
    forall|k: int| 0 <= k < s.len() ==> is_unicode_whitespace(#[trigger] s[k])
}

/// `trim(x)` is the part of `x` between a whitespace prefix and a whitespace
/// suffix whose ends are not whitespace.
pub proof fn lemma_trim_characterization(x: Seq<char>, i: int, j: int)
    requires
        0 <= i <= j <= x.len(),
        forall|k: int| 0 <= k < i ==> is_unicode_whitespace(#[trigger] x[k]),
        forall|k: int| j <= k < x.len() ==> is_unicode_whitespace(#[trigger] x[k]),
        i < j ==> !is_unicode_whitespace(x[i]) && !is_unicode_whitespace(x[j - 1]),
        i == j ==> all_whitespace(x),
    ensures
        trim(x) == x.subrange(i, j),
{
    lemma_skip_ws_forward(x, 0);
    let a = skip_ws_forward(x, 0);
    if i < j {
        if a < i {
            assert(is_unicode_whitespace(x[a]));
        }
        if a > i {
            assert(is_unicode_whitespace(x[i]));
        }
        assert(a == i);
        lemma_skip_ws_backward(x, a, x.len() as int);
        let b = skip_ws_backward(x, a, x.len() as int);
        if b < j {
            assert(is_unicode_whitespace(x[j - 1]));
        }
        if b > j {
            assert(is_unicode_whitespace(x[b - 1]));
        }
    } else {
        if a < x.len() {
            assert(is_unicode_whitespace(x[a]));
        }
        lemma_skip_ws_backward(x, a, x.len() as int);
        assert(x.subrange(i, j) =~= Seq::<char>::empty());
        assert(x.subrange(a, x.len() as int) =~= Seq::<char>::empty());
    }
}

/// Surrounding whitespace does not change what `trim` keeps.
pub proof fn lemma_trim_padding(a: Seq<char>, s: Seq<char>, b: Seq<char>)
    requires
        all_whitespace(a),
        all_whitespace(b),
    ensures
        trim(a + s + b) == trim(s),
{
    let x = a + s + b;
    lemma_skip_ws_forward(s, 0);
    let i = skip_ws_forward(s, 0);
    lemma_skip_ws_backward(s, i, s.len() as int);
    let j = skip_ws_backward(s, i, s.len() as int);
    assert(trim(s) == s.subrange(i, j));
    if i < j {
        assert forall|k: int| 0 <= k < a.len() + i implies is_unicode_whitespace(#[trigger] x[k]) by {
            if k < a.len() {
                assert(x[k] == a[k]);
            } else {
                assert(x[k] == s[k - a.len()]);
            }
        }
        assert forall|k: int| a.len() + j <= k < x.len() implies is_unicode_whitespace(#[trigger] x[k]) by {
            if k < a.len() + s.len() {
                assert(x[k] == s[k - a.len()]);
            } else {
                assert(x[k] == b[k - a.len() - s.len()]);
            }
        }
        assert(x[a.len() + i] == s[i]);
        assert(x[a.len() + j - 1] == s[j - 1]);
        lemma_trim_characterization(x, a.len() + i, a.len() + j);
        assert(x.subrange(a.len() + i, a.len() + j) =~= s.subrange(i, j));
    } else {
        assert(all_whitespace(s)) by {
            assert forall|k: int| 0 <= k < s.len() implies is_unicode_whitespace(#[trigger] s[k]) by {
                if k >= i {
                    assert(k >= j);
                }
            }
        }
        assert(all_whitespace(x)) by {
            assert forall|k: int| 0 <= k < x.len() implies is_unicode_whitespace(#[trigger] x[k]) by {
                if k < a.len() {
                    assert(x[k] == a[k]);
                } else if k < a.len() + s.len() {
                    assert(x[k] == s[k - a.len()]);
                } else {
                    assert(x[k] == b[k - a.len() - s.len()]);
                }
            }
        }
        lemma_trim_characterization(x, 0, 0);
        assert(s.subrange(i, j) =~= Seq::<char>::empty());
        assert(x.subrange(0, 0) =~= Seq::<char>::empty());
    }
}

} // verus!
