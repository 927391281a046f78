//! Verified core of a PDF template engine: expression parsing, placeholder
//! detection on text lines, PDF string and ToUnicode CMap decoding.
use vstd::prelude::*;

pub mod text;
pub mod expression;
pub mod unicode;
pub mod cmap;
pub mod pdf_string;
pub mod template;
pub mod detect;
pub mod rewrite;
pub mod metrics;
pub mod json;
pub mod evaluate;
pub mod operators;

verus! {

/// Version of the template engine core.
pub fn version() -> (v: &'static str)
    ensures
        v@ == "0.1.0"@,
{
    let v = "0.1.0";
    proof {
        reveal_strlit("0.1.0");
    }
    v
}

} // verus!
