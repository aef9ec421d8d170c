//! Line-comment toggling: a line counts as commented when, past its
//! indentation, it opens with the language's comment token.

use vstd::prelude::*;

use crate::chars::{chars_of, starts_with, starts_with_at, trim_start, trim_start_chars};

verus! {

/// Whether a line is already commented with `token` (ignoring indentation).
pub fn is_commented(line: &str, token: &str) -> (b: bool)
    ensures
        b == starts_with(trim_start(line@), token@),
{
    let v = chars_of(line);
    let t = trim_start_chars(v.as_slice());
    let b = starts_with_at(t.as_slice(), 0, token);
    assert(t@.skip(0) =~= t@);
    b
}

} // verus!
