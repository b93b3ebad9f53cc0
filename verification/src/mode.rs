//! The choice between plain and Markdown-aware reflow.

use crate::bytes::{eq_ignore_case, same_ignoring_case, word};
use vstd::prelude::*;

verus! {

/// Whether reflow is Markdown-aware: never where it is switched off,
/// always where it is switched on and not off, and else for a file whose
/// extension is `bs` in any case.
pub open spec fn markdown_on(disable: bool, enable: bool, extension: Seq<u8>) -> bool {
    !disable && (enable || same_ignoring_case(extension, word("bs")))
}

/// Decides the mode from the two switches and the extension of the input
/// file's name, without its dot; an empty extension stands for none.
pub fn markdown_enabled(disable: bool, enable: bool, extension: &[u8]) -> (r: bool)
    ensures
        r == markdown_on(disable, enable, extension@),
{
    if disable {
        false
    } else if enable {
        true
    } else {
        eq_ignore_case(extension, "bs".as_bytes())
    }
}

} // verus!
