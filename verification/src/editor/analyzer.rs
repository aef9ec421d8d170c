//! Editor-side glue for the language server: identifiers under the cursor,
//! column conversions between chars and utf-8 bytes, the completion menu
//! and its ranking.

use vstd::prelude::*;

use crate::chars::{
    chars_of, lower_seq, spec_ascii_upper, to_lower, unicode_alphabetic, unicode_alphanumeric,
    utf8_size,
};
use crate::editing::text::{char_class, spec_char_class, CharClass};
use crate::lsp::{CompletionItem, Severity};

verus! {

/// Diagnostics of one buffer, converted to char columns for rendering.
pub struct DiagView {
    pub version: u64,
    /// line → styled underline spans (start_char, end_char, severity).
    pub spans: Vec<(usize, Vec<(u32, u32, Severity)>)>,
    /// line → the ghost text shown at end of line (severity, message).
    pub ghost_text: Vec<(usize, (Severity, String))>,
    /// (errors, warnings)
    pub counts: (usize, usize),
}

/// A code action offered by the server: its title and its raw JSON.
pub struct Action {
    pub title: String,
    pub raw: String,
}

/// A menu of code actions awaiting a choice.
pub struct ActionsMenu {
    pub actions: Vec<Action>,
    pub selected: usize,
}

/// The active completion popup: the full candidate list from the server
/// and a filtered `shown` view (indices into `all`) that narrows as the
/// user keeps typing.
pub struct CompletionMenu {
    pub all: Vec<CompletionItem>,
    pub shown: Vec<usize>,
    pub selected: usize,
    pub anchor_line: usize,
    /// Char column where the completed identifier begins.
    pub anchor_col: usize,
}

impl CompletionMenu {
    /// Number of shown candidates.
    pub fn len(&self) -> (n: usize)
        ensures
            n == self.shown@.len(),
    {
        self.shown.len()
    }

    /// Whether no candidate is shown.
    pub fn is_empty(&self) -> (b: bool)
        ensures
            b == (self.shown@.len() == 0),
    {
        self.shown.len() == 0
    }

    /// The `i`-th shown candidate's index into `all`, if it names one.
    pub open spec fn spec_item(&self, i: int) -> Option<int> {
        if 0 <= i < self.shown@.len() && self.shown@[i] < self.all@.len() {
            Some(self.shown@[i] as int)
        } else {
            None
        }
    }

    fn item(&self, i: usize) -> (r: Option<&CompletionItem>)
        ensures
            r is None <==> self.spec_item(i as int) is None,
            r matches Some(it) ==> self.spec_item(i as int) matches Some(k) && *it
                == self.all@[k],
    {
        if i < self.shown.len() && self.shown[i] < self.all.len() {
            Some(&self.all[self.shown[i]])
        } else {
            None
        }
    }

    /// The selected candidate, if any.
    pub fn selected_item(&self) -> (r: Option<&CompletionItem>)
        ensures
            r is None <==> self.spec_item(self.selected as int) is None,
            r matches Some(it) ==> self.spec_item(self.selected as int) matches Some(k) && *it
                == self.all@[k],
    {
        self.item(self.selected)
    }

    /// Visible (label, detail) pairs, for rendering: one per shown index
    /// that names a candidate, in order.
    pub fn rows(&self) -> (v: Vec<(&str, Option<&str>)>)
        ensures
            v@.len() == shown_rows(self.all@, self.shown@).len(),
            forall|j: int|
                0 <= j < v@.len() ==> {
                    let it = self.all@[shown_rows(self.all@, self.shown@)[j] as int];
                    &&& (#[trigger] v@[j]).0@ == it.label@
                    &&& v@[j].1 is Some <==> it.detail is Some
                    &&& (v@[j].1 matches Some(d) ==> it.detail matches Some(e) && d@ == e@)
                },
    {
        let mut v: Vec<(&str, Option<&str>)> = Vec::new();
        let mut i: usize = 0;
        while i < self.shown.len()
            invariant
                i <= self.shown@.len(),
                v@.len() == shown_rows(self.all@, self.shown@.take(i as int)).len(),
                forall|j: int|
                    0 <= j < v@.len() ==> {
                        let it = self.all@[shown_rows(self.all@, self.shown@.take(i as int))[j] as int];
                        &&& (#[trigger] v@[j]).0@ == it.label@
                        &&& v@[j].1 is Some <==> it.detail is Some
                        &&& (v@[j].1 matches Some(d) ==> it.detail matches Some(e) && d@ == e@)
                    },
            decreases self.shown@.len() - i,
        {
            let ghost before = shown_rows(self.all@, self.shown@.take(i as int));
            assert(self.shown@.take(i + 1).drop_last() =~= self.shown@.take(i as int));
            let k = self.shown[i];
            if k < self.all.len() {
                let it = &self.all[k];
                let d: Option<&str> = match &it.detail {
                    Some(s) => Some(s.as_str()),
                    None => None,
                };
                v.push((it.label.as_str(), d));
            }
            i += 1;
            proof {
                let after = shown_rows(self.all@, self.shown@.take(i as int));
                if k < self.all@.len() {
                    assert(after == before.push(k));
                } else {
                    assert(after == before);
                }
            }
        }
        assert(self.shown@.take(self.shown@.len() as int) =~= self.shown@);
        v
    }
}

/// The shown indices that name a candidate, in order.
pub open spec fn shown_rows(all: Seq<CompletionItem>, shown: Seq<usize>) -> Seq<usize>
    decreases shown.len(),
{
    if shown.len() == 0 {
        seq![]
    } else {
        let init = shown_rows(all, shown.drop_last());
        if shown.last() < all.len() {
            init.push(shown.last())
        } else {
            init
        }
    }
}

/// Whether the char at `i` is part of a word.
pub open spec fn is_word_at(s: Seq<char>, i: int) -> bool {
    0 <= i < s.len() && spec_char_class(s[i], false) == CharClass::Word
}

/// Start of the word run ending at `a` (inclusive).
pub open spec fn run_start(s: Seq<char>, a: int) -> int
    decreases a,
{
    if a > 0 && is_word_at(s, a - 1) {
        run_start(s, a - 1)
    } else {
        a
    }
}

/// End (exclusive) of the word run continuing at `e`.
pub open spec fn run_end(s: Seq<char>, e: int) -> int
    decreases s.len() - e,
{
    if 0 <= e < s.len() && is_word_at(s, e) {
        run_end(s, e + 1)
    } else {
        e
    }
}

/// The identifier under (or just before) a char column: char range
/// `start..end`, or None on blank or punctuation.
pub open spec fn spec_identifier_at(s: Seq<char>, col: int) -> Option<(int, int)> {
    let last = if s.len() > 0 {
        s.len() - 1
    } else {
        0
    };
    let at0 = if col < last {
        col
    } else {
        last
    };
    let at = if is_word_at(s, at0) {
        Some(at0)
    } else if at0 > 0 && is_word_at(s, at0 - 1) {
        Some(at0 - 1)
    } else {
        None
    };
    match at {
        Some(a) => Some((run_start(s, a), run_end(s, a + 1))),
        None => None,
    }
}

fn word_at(v: &Vec<char>, i: usize) -> (b: bool)
    ensures
        b == is_word_at(v@, i as int),
{
    i < v.len() && char_class(v[i], false) == CharClass::Word
}

/// The identifier under (or just before) a char column.
pub fn identifier_at(line: &str, col: usize) -> (r: Option<(usize, usize)>)
    ensures
        match (r, spec_identifier_at(line@, col as int)) {
            (Some((a, b)), Some((x, y))) => a == x && b == y,
            (None, None) => true,
            _ => false,
        },
{
    let v = chars_of(line);
    let n = v.len();
    let last = if n > 0 {
        n - 1
    } else {
        0
    };
    let mut at = if col < last {
        col
    } else {
        last
    };
    if !word_at(&v, at) {
        if at > 0 && word_at(&v, at - 1) {
            at -= 1;
        } else {
            return None;
        }
    }
    let mut start = at;
    while start > 0 && word_at(&v, start - 1)
        invariant
            start <= at < v@.len(),
            run_start(v@, at as int) == run_start(v@, start as int),
        decreases start,
    {
        start -= 1;
    }
    let mut end = at + 1;
    while word_at(&v, end)
        invariant
            at < end <= v@.len(),
            run_end(v@, at + 1) == run_end(v@, end as int),
        decreases v@.len() - end,
    {
        assert(end < v.len());
        end += 1;
    }
    Some((start, end))
}

/// A plain identifier: a letter or `_`, then letters, digits or `_`.
pub open spec fn spec_plain_identifier(s: Seq<char>) -> bool {
    &&& s.len() > 0
    &&& (s[0] == '_' || unicode_alphabetic(s[0]))
    &&& forall|i: int| 1 <= i < s.len() ==> (#[trigger] s[i] == '_' || unicode_alphanumeric(s[i]))
}

/// Whether a string is a plain identifier.
pub fn is_plain_identifier(s: &str) -> (b: bool)
    ensures
        b == spec_plain_identifier(s@),
{
    let v = chars_of(s);
    if v.len() == 0 {
        return false;
    }
    if !(v[0] == '_' || v[0].is_alphabetic()) {
        return false;
    }
    let mut i: usize = 1;
    while i < v.len()
        invariant
            1 <= i <= v@.len(),
            v@ == s@,
            forall|j: int| 1 <= j < i ==> (#[trigger] v@[j] == '_' || unicode_alphanumeric(v@[j])),
        decreases v@.len() - i,
    {
        if !(v[i] == '_' || v[i].is_alphanumeric()) {
            return false;
        }
        i += 1;
    }
    true
}

/// The utf-8 byte column of a char column (the line's byte length when
/// past its end).
pub open spec fn spec_char_to_byte_col(s: Seq<char>, col: int) -> int {
    if col < s.len() {
        utf8_size(s.take(col)) as int
    } else {
        utf8_size(s) as int
    }
}

/// The utf-8 byte column of a char column.
pub fn char_to_byte_col(line: &str, char_col: usize) -> (b: u128)
    ensures
        b == spec_char_to_byte_col(line@, char_col as int),
{
    let v = chars_of(line);
    if char_col < v.len() {
        let h = crate::chars::slice_vec(v.as_slice(), 0, char_col);
        assert(h@ =~= v@.take(char_col as int));
        crate::chars::utf8_size_of(h.as_slice())
    } else {
        crate::chars::utf8_size_of(v.as_slice())
    }
}

/// The char column of a utf-8 byte column: clamped to the line, and the
/// whole line's length when it falls inside a char.
pub open spec fn spec_byte_to_char_col(s: Seq<char>, byte_col: int) -> int {
    let b = if byte_col < utf8_size(s) {
        byte_col
    } else {
        utf8_size(s) as int
    };
    if crate::chars::is_boundary(s, b) {
        crate::chars::chars_in_bytes(s, b)
    } else {
        s.len() as int
    }
}

/// The char column of a utf-8 byte column.
pub fn byte_to_char_col(line: &str, byte_col: usize) -> (c: usize)
    ensures
        c == spec_byte_to_char_col(line@, byte_col as int),
{
    let v = chars_of(line);
    let total = crate::chars::utf8_size_of(v.as_slice());
    let b: u128 = if (byte_col as u128) < total {
        byte_col as u128
    } else {
        total
    };
    let mut acc: u128 = 0;
    let mut i: usize = 0;
    while acc < b && i < v.len()
        invariant
            i <= v@.len(),
            acc == utf8_size(v@.take(i as int)),
            acc <= 4 * i,
            v@ == line@,
            i > 0 ==> utf8_size(v@.take(i - 1)) < b,
        decreases v@.len() - i,
    {
        proof {
            crate::chars::lemma_utf8_size_take(v@, i as int);
        }
        acc = acc + crate::chars::char_utf8_len(v[i]);
        i += 1;
    }
    if acc == b {
        assert(crate::chars::is_boundary(v@, b as int));
        let ghost k = crate::chars::chars_in_bytes(v@, b as int);
        proof {
            if k < i {
                crate::chars::lemma_utf8_size_mono(v@, k, i as int);
            } else if k > i {
                crate::chars::lemma_utf8_size_mono(v@, i as int, k);
            }
        }
        i
    } else {
        proof {
            assert(!crate::chars::is_boundary(v@, b as int)) by {
                if crate::chars::is_boundary(v@, b as int) {
                    let k = choose|k: int|
                        0 <= k <= v@.len() && utf8_size(#[trigger] v@.take(k)) == b;
                    if acc < b {
                        assert(i == v@.len());
                        assert(v@.take(i as int) =~= v@);
                        if k < i {
                            crate::chars::lemma_utf8_size_mono(v@, k, i as int);
                        }
                    } else {
                        if k < i {
                            if k < i - 1 {
                                crate::chars::lemma_utf8_size_mono(v@, k, i - 1);
                            }
                        } else if k > i {
                            crate::chars::lemma_utf8_size_mono(v@, i as int, k);
                        }
                    }
                }
            }
        }
        v.len()
    }
}

} // verus!
