//! The capture vocabulary handed to every grammar's highlight
//! configuration; queries' dotted captures fall back to their longest
//! configured prefix.

use vstd::prelude::*;

use crate::chars::{chars_of, eq_str, slice_vec};

verus! {

/// Recognized capture names, in the order the syntax cache indexes them.
pub open spec fn spec_captures() -> Seq<Seq<char>> {
    seq![
        "none"@,
        "attribute"@,
        "boolean"@,
        "comment"@,
        "constant"@,
        "constructor"@,
        "escape"@,
        "function"@,
        "keyword"@,
        "label"@,
        "number"@,
        "operator"@,
        "property"@,
        "punctuation"@,
        "string.escape"@,
        "string.special"@,
        "string"@,
        "type"@,
        "variable.builtin"@,
        "variable.parameter"@,
        "text.title"@,
        "text.emphasis"@,
        "text.strong"@,
        "text.literal"@,
        "text.uri"@,
        "text.reference"@,
    ]
}

/// The recognized capture names.
pub fn captures() -> (v: Vec<&'static str>)
    ensures
        v@.map_values(|s: &str| s@) == spec_captures(),
{
    let mut v: Vec<&'static str> = Vec::new();
    v.push("none");
    v.push("attribute");
    v.push("boolean");
    v.push("comment");
    v.push("constant");
    v.push("constructor");
    v.push("escape");
    v.push("function");
    v.push("keyword");
    v.push("label");
    v.push("number");
    v.push("operator");
    v.push("property");
    v.push("punctuation");
    v.push("string.escape");
    v.push("string.special");
    v.push("string");
    v.push("type");
    v.push("variable.builtin");
    v.push("variable.parameter");
    v.push("text.title");
    v.push("text.emphasis");
    v.push("text.strong");
    v.push("text.literal");
    v.push("text.uri");
    v.push("text.reference");
    assert(v@.map_values(|s: &str| s@) =~= spec_captures());
    v
}

/// Index of the first capture at or after `i` named `name`.
pub open spec fn capture_from(name: Seq<char>, i: int) -> Option<int>
    decreases spec_captures().len() - i,
{
    if i < 0 || i >= spec_captures().len() {
        None
    } else if spec_captures()[i] == name {
        Some(i)
    } else {
        capture_from(name, i + 1)
    }
}

pub proof fn lemma_capture_from_range(name: Seq<char>, i: int)
    requires
        0 <= i,
    ensures
        capture_from(name, i) matches Some(j) ==> i <= j < spec_captures().len(),
    decreases spec_captures().len() - i,
{
    if i < spec_captures().len() && spec_captures()[i] != name {
        lemma_capture_from_range(name, i + 1);
    }
}

fn capture_position(name: &[char]) -> (r: Option<usize>)
    ensures
        r == (match capture_from(name@, 0) {
            Some(i) => Some(i as usize),
            None => None,
        }),
{
    proof {
        lemma_capture_from_range(name@, 0);
    }
    let caps = captures();
    let mut i: usize = 0;
    while i < caps.len()
        invariant
            i <= caps@.len(),
            caps@.map_values(|s: &str| s@) == spec_captures(),
            capture_from(name@, 0) == capture_from(name@, i as int),
        decreases caps@.len() - i,
    {
        assert(caps@[i as int]@ == spec_captures()[i as int]);
        if eq_str(name, caps[i]) {
            return Some(i);
        }
        i += 1;
    }
    None
}

/// Index of a capture name.
pub fn capture_index(name: &str) -> (r: Option<usize>)
    ensures
        r == (match capture_from(name@, 0) {
            Some(i) => Some(i as usize),
            None => None,
        }),
{
    let v = chars_of(name);
    capture_position(v.as_slice())
}

/// Index of the last `.` in a name, if any.
pub open spec fn last_dot(s: Seq<char>) -> Option<int>
    decreases s.len(),
{
    if s.len() == 0 {
        None
    } else if s.last() == '.' {
        Some(s.len() - 1)
    } else {
        last_dot(s.drop_last())
    }
}

pub proof fn lemma_last_dot_range(s: Seq<char>)
    ensures
        last_dot(s) matches Some(d) ==> 0 <= d < s.len(),
    decreases s.len(),
{
    if s.len() > 0 && s.last() != '.' {
        lemma_last_dot_range(s.drop_last());
    }
}

/// Longest dotted-prefix match: `keyword.control` falls back to `keyword`.
pub open spec fn spec_theme_index(name: Seq<char>) -> Option<int>
    decreases name.len(),
{
    match capture_from(name, 0) {
        Some(i) => Some(i),
        None => match last_dot(name) {
            None => None,
            Some(d) => {
                proof {
                    lemma_last_dot_range(name);
                }
                spec_theme_index(name.take(d))
            },
        },
    }
}

fn last_dot_of(s: &[char]) -> (r: Option<usize>)
    ensures
        r is None <==> last_dot(s@) is None,
        r matches Some(d) ==> last_dot(s@) == Some(d as int) && d < s@.len(),
{
    proof {
        lemma_last_dot_range(s@);
    }
    let mut k = s.len();
    assert(s@.take(k as int) =~= s@);
    while k > 0
        invariant
            k <= s@.len(),
            last_dot(s@) == last_dot(s@.take(k as int)),
        decreases k,
    {
        if s[k - 1] == '.' {
            return Some(k - 1);
        }
        assert(s@.take(k as int).drop_last() =~= s@.take(k - 1));
        k -= 1;
    }
    None
}

/// The theme capture a query capture name maps to: the longest configured
/// dotted prefix of it.
pub fn theme_index(capture: &str) -> (r: Option<u16>)
    ensures
        r == (match spec_theme_index(capture@) {
            Some(i) => Some(i as u16),
            None => None,
        }),
{
    let mut name = chars_of(capture);
    loop
        invariant
            spec_theme_index(capture@) == spec_theme_index(name@),
        decreases name@.len(),
    {
        proof {
            lemma_capture_from_range(name@, 0);
        }
        if let Some(i) = capture_position(name.as_slice()) {
            return Some(i as u16);
        }
        match last_dot_of(name.as_slice()) {
            None => return None,
            Some(d) => {
                proof {
                    lemma_last_dot_range(name@);
                }
                let ghost before = name@;
                name = slice_vec(name.as_slice(), 0, d);
                assert(name@ =~= before.take(d as int));
                assert(capture_from(before, 0) is None);
                assert(last_dot(before) == Some(d as int));
                assert(spec_theme_index(before) == spec_theme_index(before.take(d as int)));
            },
        }
    }
}

} // verus!
