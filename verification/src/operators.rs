//! The content-stream operators that text extraction interprets.
use vstd::prelude::*;
use crate::text::chars_of;

verus! {

/// What a content-stream operator does to the state that text extraction
/// keeps.
#[derive(Clone, Copy, Debug, PartialEq, Eq, Structural)]
pub enum OperatorKind {
    /// `q`: push the graphics state.
    SaveState,
    /// `Q`: pop the graphics state.
    RestoreState,
    /// `cm`: concatenate a matrix to the current transformation.
    ConcatMatrix,
    /// `rg`, `RG`: set an RGB color.
    SetRgbColor,
    /// `g`, `G`: set a gray level.
    SetGrayColor,
    /// `k`, `K`: set a CMYK color.
    SetCmykColor,
    /// `BT`, `ET`: begin or end a text object; both reset the text matrices.
    ResetTextMatrices,
    /// `Tf`: set font and size.
    SetFont,
    /// `Tm`: set the text and line matrices.
    SetTextMatrix,
    /// `Td`: move to the next line by an offset.
    MoveText,
    /// `TD`: move by an offset and set the leading.
    MoveTextSetLeading,
    /// `T*`: move to the next line.
    NextLine,
    /// `TL`: set the leading.
    SetLeading,
    /// `Tc`: set the character spacing.
    SetCharSpacing,
    /// `Tw`: set the word spacing.
    SetWordSpacing,
    /// `Tz`: set the horizontal scaling.
    SetHorizontalScaling,
    /// `Tj`: show a string.
    ShowText,
    /// `'`: move to the next line and show a string.
    NextLineShowText,
    /// `"`: set word and character spacing, move to the next line and show
    /// a string.
    SpacedNextLineShowText,
    /// `TJ`: show strings with position adjustments.
    ShowTextArray,
    /// Anything else.
    Other,
}

/// The kind of an operator, by its name.
pub open spec fn operator_kind_spec(op: Seq<char>) -> OperatorKind {
    if op == "q"@ {
        OperatorKind::SaveState
    } else if op == "Q"@ {
        OperatorKind::RestoreState
    } else if op == "cm"@ {
        OperatorKind::ConcatMatrix
    } else if op == "rg"@ || op == "RG"@ {
        OperatorKind::SetRgbColor
    } else if op == "g"@ || op == "G"@ {
        OperatorKind::SetGrayColor
    } else if op == "k"@ || op == "K"@ {
        OperatorKind::SetCmykColor
    } else if op == "BT"@ || op == "ET"@ {
        OperatorKind::ResetTextMatrices
    } else if op == "Tf"@ {
        OperatorKind::SetFont
    } else if op == "Tm"@ {
        OperatorKind::SetTextMatrix
    } else if op == "Td"@ {
        OperatorKind::MoveText
    } else if op == "TD"@ {
        OperatorKind::MoveTextSetLeading
    } else if op == "T*"@ {
        OperatorKind::NextLine
    } else if op == "TL"@ {
        OperatorKind::SetLeading
    } else if op == "Tc"@ {
        OperatorKind::SetCharSpacing
    } else if op == "Tw"@ {
        OperatorKind::SetWordSpacing
    } else if op == "Tz"@ {
        OperatorKind::SetHorizontalScaling
    } else if op == "Tj"@ {
        OperatorKind::ShowText
    } else if op == "'"@ {
        OperatorKind::NextLineShowText
    } else if op == "\""@ {
        OperatorKind::SpacedNextLineShowText
    } else if op == "TJ"@ {
        OperatorKind::ShowTextArray
    } else {
        OperatorKind::Other
    }
}

/// Whether the characters `op` spell `name`.
pub fn spells(op: &Vec<char>, name: &str) -> (b: bool)
    ensures
        b == (op@ == name@),
{
    let n = chars_of(name);
    if op.len() != n.len() {
        return false;
    }
    let mut i: usize = 0;
    while i < op.len()
        invariant
            op@.len() == n@.len(),
            n@ == name@,
            i <= op@.len(),
            forall|j: int| 0 <= j < i ==> op@[j] == n@[j],
        decreases op@.len() - i,
    {
        if op[i] != n[i] {
            return false;
        }
        i = i + 1;
    }
    assert(op@ =~= n@);
    true
}

/// The kind of a content-stream operator (see [`operator_kind_spec`]).
pub fn operator_kind(operator: &str) -> (r: OperatorKind)
    ensures
        r == operator_kind_spec(operator@),
{
    let op = chars_of(operator);
    if spells(&op, "q") {
        OperatorKind::SaveState
    } else if spells(&op, "Q") {
        OperatorKind::RestoreState
    } else if spells(&op, "cm") {
        OperatorKind::ConcatMatrix
    } else if spells(&op, "rg") || spells(&op, "RG") {
        OperatorKind::SetRgbColor
    } else if spells(&op, "g") || spells(&op, "G") {
        OperatorKind::SetGrayColor
    } else if spells(&op, "k") || spells(&op, "K") {
        OperatorKind::SetCmykColor
    } else if spells(&op, "BT") || spells(&op, "ET") {
        OperatorKind::ResetTextMatrices
    } else if spells(&op, "Tf") {
        OperatorKind::SetFont
    } else if spells(&op, "Tm") {
        OperatorKind::SetTextMatrix
    } else if spells(&op, "Td") {
        OperatorKind::MoveText
    } else if spells(&op, "TD") {
        OperatorKind::MoveTextSetLeading
    } else if spells(&op, "T*") {
        OperatorKind::NextLine
    } else if spells(&op, "TL") {
        OperatorKind::SetLeading
    } else if spells(&op, "Tc") {
        OperatorKind::SetCharSpacing
    } else if spells(&op, "Tw") {
        OperatorKind::SetWordSpacing
    } else if spells(&op, "Tz") {
        OperatorKind::SetHorizontalScaling
    } else if spells(&op, "Tj") {
        OperatorKind::ShowText
    } else if spells(&op, "'") {
        OperatorKind::NextLineShowText
    } else if spells(&op, "\"") {
        OperatorKind::SpacedNextLineShowText
    } else if spells(&op, "TJ") {
        OperatorKind::ShowTextArray
    } else {
        OperatorKind::Other
    }
}

} // verus!
