//! Font metric rules that need no arithmetic on sizes: the standard
//! Helvetica advance widths and how a glyph's advance is looked up.
use vstd::prelude::*;

verus! {

/// Advance width of `c` in standard Helvetica, in thousandths of the font
/// size; 500 for characters outside the table.
pub open spec fn helvetica_advance_spec(c: char) -> u16 {
    if c == ' ' || c == '!' || c == ',' || c == '.' || c == '/' || c == ':' || c == ';'
        || c == 'I' || c == '[' || c == '\\' || c == ']' || c == 'f' || c == 't' {
        278
    } else if c == '"' {
        355
    } else if c == '#' || c == '$' || ('0' <= c && c <= '9') || c == '?' || c == 'L' || c == '_'
        || c == 'a' || c == 'b' || c == 'd' || c == 'e' || c == 'g' || c == 'h' || c == 'n'
        || c == 'o' || c == 'p' || c == 'q' || c == 'u' {
        556
    } else if c == '%' {
        889
    } else if c == '&' || c == 'A' || c == 'B' || c == 'E' || c == 'H' || c == 'K' || c == 'P'
        || c == 'R' || c == 'S' || c == 'V' || c == 'X' || c == 'Y' {
        667
    } else if c == '\'' || c == '`' || c == 'i' || c == 'j' || c == 'l' {
        222
    } else if c == '(' || c == ')' || c == '-' || c == 'r' {
        333
    } else if c == '*' {
        389
    } else if c == '+' || c == '<' || c == '=' || c == '>' || c == '~' {
        584
    } else if c == '@' {
        1015
    } else if c == 'C' || c == 'D' || c == 'N' || c == 'U' || c == 'w' {
        722
    } else if c == 'F' || c == 'T' || c == 'Z' {
        611
    } else if c == 'G' || c == 'O' || c == 'Q' {
        778
    } else if c == 'J' || c == 'c' || c == 'k' || c == 's' || c == 'v' || c == 'x' || c == 'y'
        || c == 'z' {
        500
    } else if c == 'M' || c == 'm' {
        833
    } else if c == 'W' {
        944
    } else if c == '^' {
        469
    } else if c == '{' || c == '}' {
        334
    } else if c == '|' {
        260
    } else {
        500
    }
}

/// Advance width of `c` in standard Helvetica, in thousandths of the font
/// size.
pub fn standard_helvetica_advance(c: char) -> (w: u16)
    ensures
        w == helvetica_advance_spec(c),
{
    if c == ' ' || c == '!' || c == ',' || c == '.' || c == '/' || c == ':' || c == ';'
        || c == 'I' || c == '[' || c == '\\' || c == ']' || c == 'f' || c == 't' {
        278
    } else if c == '"' {
        355
    } else if c == '#' || c == '$' || ('0' <= c && c <= '9') || c == '?' || c == 'L' || c == '_'
        || c == 'a' || c == 'b' || c == 'd' || c == 'e' || c == 'g' || c == 'h' || c == 'n'
        || c == 'o' || c == 'p' || c == 'q' || c == 'u' {
        556
    } else if c == '%' {
        889
    } else if c == '&' || c == 'A' || c == 'B' || c == 'E' || c == 'H' || c == 'K' || c == 'P'
        || c == 'R' || c == 'S' || c == 'V' || c == 'X' || c == 'Y' {
        667
    } else if c == '\'' || c == '`' || c == 'i' || c == 'j' || c == 'l' {
        222
    } else if c == '(' || c == ')' || c == '-' || c == 'r' {
        333
    } else if c == '*' {
        389
    } else if c == '+' || c == '<' || c == '=' || c == '>' || c == '~' {
        584
    } else if c == '@' {
        1015
    } else if c == 'C' || c == 'D' || c == 'N' || c == 'U' || c == 'w' {
        722
    } else if c == 'F' || c == 'T' || c == 'Z' {
        611
    } else if c == 'G' || c == 'O' || c == 'Q' {
        778
    } else if c == 'J' || c == 'c' || c == 'k' || c == 's' || c == 'v' || c == 'x' || c == 'y'
        || c == 'z' {
        500
    } else if c == 'M' || c == 'm' {
        833
    } else if c == 'W' {
        944
    } else if c == '^' {
        469
    } else if c == '{' || c == '}' {
        334
    } else if c == '|' {
        260
    } else {
        500
    }
}

/// Index into a font's `Widths` array for a 1-byte code: the code must lie
/// in `first_char..=last_char` and the array must be non-empty and long
/// enough.
pub open spec fn width_index_spec(code: u32, first_char: u32, last_char: u32, widths_len: nat) -> Option<nat> {
    if first_char <= code <= last_char && widths_len > 0 && ((code - first_char) as nat) < widths_len {
        Some((code - first_char) as nat)
    } else {
        None
    }
}

/// Where a code's advance is found in the font's `Widths` array, if there.
pub fn width_index(code: u32, first_char: u32, last_char: u32, widths_len: usize) -> (r: Option<usize>)
    ensures
        match width_index_spec(code, first_char, last_char, widths_len as nat) {
            Some(i) => r == Some(i as usize),
            None => r is None,
        },
{
    if code >= first_char && code <= last_char && widths_len > 0 {
        let idx = (code - first_char) as usize;
        if idx < widths_len {
            return Some(idx);
        }
    }
    None
}

/// Fonts whose lowercased base name mentions `courier` or `mono` are
/// treated as monospaced.
pub open spec fn is_monospace_spec(base_font: Seq<char>) -> bool {
    crate::cmap::contains(crate::text::lowercase(base_font), "courier"@) || crate::cmap::contains(
        crate::text::lowercase(base_font),
        "mono"@,
    )
}

/// Whether a base font name denotes a monospaced font (every glyph 600
/// units wide).
pub fn is_monospace_font(base_font: &str) -> (b: bool)
    ensures
        b == is_monospace_spec(base_font@),
{
    let lower = crate::text::to_lowercase(base_font);
    let v = crate::text::chars_of(lower.as_str());
    crate::cmap::contains_chars(&v, &crate::text::chars_of("courier")) || crate::cmap::contains_chars(
        &v,
        &crate::text::chars_of("mono"),
    )
}

/// Where a glyph's advance width comes from.
#[derive(Clone, Copy, Debug, PartialEq, Eq, Structural)]
pub enum AdvanceSource {
    /// The entry at this index of the font's `Widths` array.
    Widths(usize),
    /// The fixed advance of a monospaced font, 600 units.
    Monospace,
    /// The standard Helvetica advance, in thousandths of the font size.
    Standard(u16),
}

/// The advance of a character: from the `Widths` array where its 1-byte
/// code has an entry, else 600 for a monospaced font, else the standard
/// Helvetica width.
pub open spec fn advance_source_spec(
    c: char,
    byte_code: Option<u8>,
    first_char: u32,
    last_char: u32,
    widths_len: nat,
    base_font: Seq<char>,
) -> AdvanceSource {
    let from_widths = match byte_code {
        Some(b) => width_index_spec(b as u32, first_char, last_char, widths_len),
        None => None,
    };
    match from_widths {
        Some(i) => AdvanceSource::Widths(i as usize),
        None => if is_monospace_spec(base_font) {
            AdvanceSource::Monospace
        } else {
            AdvanceSource::Standard(helvetica_advance_spec(c))
        },
    }
}

/// Where the advance of `c` comes from in a font (see
/// [`advance_source_spec`]).
pub fn advance_source(
    c: char,
    byte_code: Option<u8>,
    first_char: u32,
    last_char: u32,
    widths_len: usize,
    base_font: &str,
) -> (r: AdvanceSource)
    ensures
        r == advance_source_spec(c, byte_code, first_char, last_char, widths_len as nat, base_font@),
{
    if let Some(b) = byte_code {
        if let Some(i) = width_index(b as u32, first_char, last_char, widths_len) {
            return AdvanceSource::Widths(i);
        }
    }
    if is_monospace_font(base_font) {
        AdvanceSource::Monospace
    } else {
        AdvanceSource::Standard(standard_helvetica_advance(c))
    }
}

} // verus!
