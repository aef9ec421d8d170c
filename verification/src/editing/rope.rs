//! The rope holding a buffer's text (`ropey::Rope`), seen as its chars, and
//! its line structure as `ropey` counts it: a line ends after LF, VT, FF,
//! NEL, LS or PS, or after a CR not followed by LF (CRLF is one break).

use vstd::prelude::*;

use ropey::Rope;

verus! {

#[verifier::external_type_specification]
#[verifier::external_body]
pub struct ExRope(Rope);

/// The chars a rope holds.
pub uninterp spec fn rope_text(r: Rope) -> Seq<char>;

/// Whether a line break ends right before position `i` (`1 <= i <= len`).
pub open spec fn is_break_end(s: Seq<char>, i: int) -> bool {
    1 <= i <= s.len() && {
        let c = s[i - 1];
        ||| c == '\n'
        ||| c == '\u{b}'
        ||| c == '\u{c}'
        ||| c == '\u{85}'
        ||| c == '\u{2028}'
        ||| c == '\u{2029}'
        ||| (c == '\r' && (i == s.len() || s[i] != '\n'))
    }
}

/// Number of line breaks ending at or before position `k`.
pub open spec fn breaks_upto(s: Seq<char>, k: int) -> nat
    decreases k,
{
    if k <= 0 {
        0
    } else {
        breaks_upto(s, k - 1) + if is_break_end(s, k) {
            1nat
        } else {
            0nat
        }
    }
}

/// Number of lines: one more than the line breaks.
pub open spec fn line_count(s: Seq<char>) -> nat {
    breaks_upto(s, s.len() as int) + 1
}

/// The first position at or after `k` with at least `l` breaks before it
/// (the text's length when there is none).
pub open spec fn first_reaching(s: Seq<char>, l: nat, k: int) -> int
    decreases s.len() + 1 - k,
{
    if k >= s.len() {
        s.len() as int
    } else if k >= 0 && breaks_upto(s, k) >= l {
        k
    } else {
        first_reaching(s, l, k + 1)
    }
}

/// Char index where line `l` starts (the text's length one past the last
/// line).
pub open spec fn line_start(s: Seq<char>, l: nat) -> int {
    if l == 0 {
        0
    } else {
        first_reaching(s, l, 1)
    }
}

/// The chars of line `l`, its line break included.
pub open spec fn line_chars(s: Seq<char>, l: nat) -> Seq<char> {
    s.subrange(line_start(s, l), line_start(s, l + 1))
}

pub proof fn lemma_breaks_mono(s: Seq<char>, a: int, b: int)
    requires
        a <= b,
    ensures
        breaks_upto(s, a) <= breaks_upto(s, b),
    decreases b - a,
{
    if a < b {
        lemma_breaks_mono(s, a, b - 1);
    }
}

pub proof fn lemma_first_reaching(s: Seq<char>, l: nat, k: int)
    requires
        0 <= k <= s.len(),
    ensures
        k <= first_reaching(s, l, k) <= s.len(),
        forall|j: int| k <= j < first_reaching(s, l, k) ==> breaks_upto(s, j) < l,
        first_reaching(s, l, k) < s.len() ==> breaks_upto(s, first_reaching(s, l, k)) >= l,
    decreases s.len() + 1 - k,
{
    if k < s.len() && breaks_upto(s, k) < l {
        lemma_first_reaching(s, l, k + 1);
    }
}

pub proof fn lemma_breaks_bound(s: Seq<char>, k: int)
    ensures
        k >= 0 ==> breaks_upto(s, k) <= k,
    decreases k,
{
    if k > 0 {
        lemma_breaks_bound(s, k - 1);
    }
}

proof fn lemma_breaks_agree(s: Seq<char>, u: Seq<char>, k: int, j: int)
    requires
        0 <= j < k,
        k <= s.len(),
        k <= u.len(),
        forall|i: int| 0 <= i < k ==> s[i] == u[i],
    ensures
        breaks_upto(s, j) == breaks_upto(u, j),
    decreases j,
{
    if j > 0 {
        lemma_breaks_agree(s, u, k, j - 1);
        assert(s[j - 1] == u[j - 1] && s[j] == u[j]);
        assert(is_break_end(s, j) == is_break_end(u, j));
    }
}

/// The breaks up to `k` depend only on the chars before `k`, unless the
/// last of them is a carriage return (whose break depends on what follows).
pub proof fn lemma_breaks_same_prefix(s: Seq<char>, u: Seq<char>, k: int)
    requires
        1 <= k <= s.len(),
        k <= u.len(),
        forall|i: int| 0 <= i < k ==> s[i] == u[i],
        s[k - 1] != '\r',
    ensures
        breaks_upto(s, k) == breaks_upto(u, k),
{
    lemma_breaks_agree(s, u, k, k - 1);
    assert(s[k - 1] == u[k - 1]);
    assert(is_break_end(s, k) == is_break_end(u, k));
}

/// Before the start of line `l` lie at least `l` breaks, and a line after
/// the first starts right after one.
pub proof fn lemma_line_start_breaks(s: Seq<char>, l: nat)
    requires
        l < line_count(s),
    ensures
        breaks_upto(s, line_start(s, l)) >= l,
        l > 0 ==> is_break_end(s, line_start(s, l)),
{
    if l > 0 {
        lemma_breaks_bound(s, s.len() as int);
        lemma_first_reaching(s, l, 1);
        let ls = line_start(s, l);
        if ls == s.len() {
            assert(breaks_upto(s, ls) >= l);
        }
        assert(breaks_upto(s, ls - 1) < l);
        assert(breaks_upto(s, ls) == breaks_upto(s, ls - 1) + if is_break_end(s, ls) {
            1nat
        } else {
            0nat
        });
    }
}

/// Break chars other than `\n`, and the carriage return.
pub open spec fn odd_break(c: char) -> bool {
    ||| c == '\r'
    ||| c == '\u{b}'
    ||| c == '\u{c}'
    ||| c == '\u{85}'
    ||| c == '\u{2028}'
    ||| c == '\u{2029}'
}

/// A text whose only break char is `\n` and that holds no carriage return.
pub open spec fn lf_only(s: Seq<char>) -> bool {
    forall|i: int| 0 <= i < s.len() ==> !odd_break(#[trigger] s[i])
}

/// The number of `\n`s in a text.
pub open spec fn newlines(s: Seq<char>) -> nat
    decreases s.len(),
{
    if s.len() == 0 {
        0
    } else {
        newlines(s.drop_last()) + if s.last() == '\n' {
            1nat
        } else {
            0nat
        }
    }
}

pub proof fn lemma_newlines_add(a: Seq<char>, b: Seq<char>)
    ensures
        newlines(a + b) == newlines(a) + newlines(b),
    decreases b.len(),
{
    if b.len() == 0 {
        assert(a + b =~= a);
    } else {
        assert((a + b).drop_last() =~= a + b.drop_last());
        lemma_newlines_add(a, b.drop_last());
    }
}

/// A text without `\n` counts none.
pub proof fn lemma_newlines_none(s: Seq<char>)
    requires
        forall|i: int| 0 <= i < s.len() ==> s[i] != '\n',
    ensures
        newlines(s) == 0,
    decreases s.len(),
{
    if s.len() > 0 {
        lemma_newlines_none(s.drop_last());
    }
}

/// In an LF-only text the breaks are the `\n`s.
pub proof fn lemma_lf_only_breaks(s: Seq<char>, k: int)
    requires
        lf_only(s),
        0 <= k <= s.len(),
    ensures
        breaks_upto(s, k) == newlines(s.take(k)),
    decreases k,
{
    if k > 0 {
        lemma_lf_only_breaks(s, k - 1);
        assert(s.take(k).drop_last() =~= s.take(k - 1));
        assert(!odd_break(s[k - 1]));
    }
}

/// In an LF-only text the lines are one more than the `\n`s.
pub proof fn lemma_lf_only_lines(s: Seq<char>)
    requires
        lf_only(s),
    ensures
        line_count(s) == newlines(s) + 1,
{
    lemma_lf_only_breaks(s, s.len() as int);
    assert(s.take(s.len() as int) =~= s);
}

/// A line starts within the text, and later lines start no earlier.
pub proof fn lemma_line_start(s: Seq<char>, l: nat, m: nat)
    requires
        l <= m,
    ensures
        0 <= line_start(s, l) <= s.len(),
        line_start(s, l) <= line_start(s, m),
{
    if s.len() == 0 {
        if l > 0 {
            assert(first_reaching(s, l, 1) == 0);
        }
        if m > 0 {
            assert(first_reaching(s, m, 1) == 0);
        }
    } else {
        if l > 0 {
            lemma_first_reaching(s, l, 1);
        }
        if m > 0 {
            lemma_first_reaching(s, m, 1);
            if l > 0 {
                let fl = first_reaching(s, l, 1);
                let fm = first_reaching(s, m, 1);
                if fm < fl {
                    assert(breaks_upto(s, fm) >= m);
                    assert(breaks_upto(s, fm) < l);
                }
            }
        }
    }
}

/// The line holding a char index starts at or before it.
pub proof fn lemma_line_start_before(s: Seq<char>, l: nat, a: int)
    requires
        0 <= a <= s.len(),
        l <= breaks_upto(s, a),
    ensures
        line_start(s, l) <= a,
{
    if l > 0 {
        if a == 0 {
            assert(breaks_upto(s, 0) == 0);
        }
        if s.len() > 0 {
            lemma_first_reaching(s, l, 1);
            let f = first_reaching(s, l, 1);
            if f > a {
                assert(breaks_upto(s, a) < l);
            }
        }
    }
}

/// A line's chars run from its start to the next line's start, within the
/// text.
pub proof fn lemma_line_start_len(s: Seq<char>, l: nat)
    ensures
        0 <= line_start(s, l),
        line_start(s, l) + line_chars(s, l).len() == line_start(s, l + 1),
        line_start(s, l + 1) <= s.len(),
{
    lemma_line_start(s, l, l + 1);
    lemma_line_start(s, l + 1, l + 1);
}

/// A line followed by another ends with a break, so the next one starts
/// strictly later.
pub proof fn lemma_line_starts_increase(s: Seq<char>, l: nat)
    requires
        l + 1 < line_count(s),
    ensures
        line_start(s, l) < line_start(s, l + 1),
{
    lemma_breaks_bound(s, s.len() as int);
    lemma_first_reaching(s, l + 1, 1);
    let b = first_reaching(s, l + 1, 1);
    assert(breaks_upto(s, b) >= l + 1);
    if l > 0 {
        lemma_first_reaching(s, l, 1);
        let a = first_reaching(s, l, 1);
        if a >= b {
            if b >= 2 {
                assert(breaks_upto(s, b - 1) < l);
                assert(breaks_upto(s, b) <= breaks_upto(s, b - 1) + 1);
            } else {
                assert(breaks_upto(s, 1) <= 1) by {
                    assert(breaks_upto(s, 0) == 0);
                }
            }
        }
    }
}

/// Every line break of the text is a `\n` (LF line endings, CRLF
/// included).
pub open spec fn lf_breaks(s: Seq<char>) -> bool {
    forall|i: int| #[trigger] is_break_end(s, i) ==> s[i - 1] == '\n'
}

/// With LF breaks, a line followed by another ends with `\n`.
pub proof fn lemma_line_ends_lf(s: Seq<char>, l: nat)
    requires
        lf_breaks(s),
        l + 1 < line_count(s),
    ensures
        line_chars(s, l).len() >= 1,
        line_chars(s, l).last() == '\n',
{
    lemma_line_starts_increase(s, l);
    lemma_line_start_len(s, l);
    lemma_breaks_bound(s, s.len() as int);
    lemma_first_reaching(s, l + 1, 1);
    let k = first_reaching(s, l + 1, 1);
    assert(breaks_upto(s, k) >= l + 1);
    if k >= 2 {
        assert(breaks_upto(s, k - 1) < l + 1);
    } else {
        assert(breaks_upto(s, 0) == 0);
    }
    assert(is_break_end(s, k));
}

/// A line's chars are no more than the text's.
pub proof fn lemma_line_chars_len(s: Seq<char>, l: nat)
    ensures
        line_chars(s, l).len() <= s.len(),
{
    lemma_line_start(s, l, l + 1);
    lemma_line_start(s, l + 1, l + 1);
}

/// `Rope::from_str`: a rope holding the string's chars.
#[verifier::external_body]
pub fn rope_from_str(s: &str) -> (r: Rope)
    ensures
        rope_text(r) == s@,
{
    Rope::from_str(s)
}

/// `Rope::len_chars`: the number of chars held.
#[verifier::external_body]
pub fn rope_len_chars(r: &Rope) -> (n: usize)
    ensures
        n == rope_text(*r).len(),
{
    r.len_chars()
}

/// `Rope::char`: the char at an index (which must be in bounds).
#[verifier::external_body]
pub fn rope_char(r: &Rope, i: usize) -> (c: char)
    requires
        i < rope_text(*r).len(),
    ensures
        c == rope_text(*r)[i as int],
{
    r.char(i)
}

/// `Rope::insert`: the text inserted at a char index (at most the length).
#[verifier::external_body]
pub fn rope_insert(r: &mut Rope, i: usize, s: &str)
    requires
        i <= rope_text(*old(r)).len(),
    ensures
        rope_text(*final(r)) == rope_text(*old(r)).take(i as int) + s@ + rope_text(*old(r)).skip(
            i as int,
        ),
{
    r.insert(i, s)
}

/// `Rope::remove`: the chars `a..b` taken out (`a <= b <= len`).
#[verifier::external_body]
pub fn rope_remove(r: &mut Rope, a: usize, b: usize)
    requires
        a <= b <= rope_text(*old(r)).len(),
    ensures
        rope_text(*final(r)) == rope_text(*old(r)).take(a as int) + rope_text(*old(r)).skip(
            b as int,
        ),
{
    r.remove(a..b)
}

/// `Rope::clone`: a rope holding the same chars.
#[verifier::external_body]
pub fn rope_clone(r: &Rope) -> (c: Rope)
    ensures
        rope_text(c) == rope_text(*r),
{
    r.clone()
}

/// `Rope`'s `Display`: the held chars as a string.
#[verifier::external_body]
pub fn rope_to_string(r: &Rope) -> (s: String)
    ensures
        s@ == rope_text(*r),
{
    r.to_string()
}

/// `Rope::len_lines`: one more than the number of line breaks.
#[verifier::external_body]
pub fn rope_len_lines(r: &Rope) -> (n: usize)
    ensures
        n == line_count(rope_text(*r)),
{
    r.len_lines()
}

/// `Rope::line_to_char`: where a line starts (one past the last line gives
/// the length).
#[verifier::external_body]
pub fn rope_line_to_char(r: &Rope, l: usize) -> (c: usize)
    requires
        l <= line_count(rope_text(*r)),
    ensures
        c == line_start(rope_text(*r), l as nat),
{
    r.line_to_char(l)
}

/// `Rope::char_to_line`: the number of line breaks before a char index.
#[verifier::external_body]
pub fn rope_char_to_line(r: &Rope, i: usize) -> (l: usize)
    requires
        i <= rope_text(*r).len(),
    ensures
        l == breaks_upto(rope_text(*r), i as int),
{
    r.char_to_line(i)
}

/// `Rope::line` as a string: the chars of a line, its break included.
#[verifier::external_body]
pub fn rope_line(r: &Rope, l: usize) -> (s: String)
    requires
        l < line_count(rope_text(*r)),
    ensures
        s@ == line_chars(rope_text(*r), l as nat),
{
    r.line(l).to_string()
}

} // verus!
