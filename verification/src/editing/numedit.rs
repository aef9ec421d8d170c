//! In-place increment/decrement of the number under the cursor (`Ctrl+A` /
//! `Ctrl+X`). Pure text logic: find the number at or after a column, add a
//! delta, and re-render it preserving base, prefix, digit width and letter
//! case. The read-side complement is the machine lens (`lens.rs`).

use vstd::prelude::*;

use crate::chars::{
    chars_of, is_ascii_alnum, is_ascii_digit, is_ascii_hexdigit, is_ascii_upper, render,
    spec_ascii_alnum, spec_ascii_digit, spec_ascii_hexdigit, spec_ascii_upper, spec_render,
    string_of, digit_char, to_digits,
};

verus! {

#[derive(Clone, Copy, PartialEq, Eq, Debug)]
pub enum Radix {
    Dec,
    Hex,
    Bin,
}

impl Radix {
    pub open spec fn spec_value(self) -> nat {
        match self {
            Radix::Dec => 10,
            Radix::Hex => 16,
            Radix::Bin => 2,
        }
    }

    pub open spec fn spec_is_digit(self, c: char) -> bool {
        match self {
            Radix::Dec => spec_ascii_digit(c),
            Radix::Hex => spec_ascii_hexdigit(c),
            Radix::Bin => c == '0' || c == '1',
        }
    }

    fn value(self) -> (v: u128)
        ensures
            v == self.spec_value(),
    {
        match self {
            Radix::Dec => 10,
            Radix::Hex => 16,
            Radix::Bin => 2,
        }
    }

    fn is_digit(self, c: char) -> (b: bool)
        ensures
            b == self.spec_is_digit(c),
    {
        match self {
            Radix::Dec => is_ascii_digit(c),
            Radix::Hex => is_ascii_hexdigit(c),
            Radix::Bin => c == '0' || c == '1',
        }
    }
}

/// Chars that make up identifiers and numbers.
pub open spec fn spec_is_word(c: char) -> bool {
    spec_ascii_alnum(c) || c == '_'
}

/// Length of the run of `radix` digits starting at `from`.
pub open spec fn run_len(ch: Seq<char>, from: int, radix: Radix) -> nat
    decreases ch.len() - from,
{
    if from < 0 || from >= ch.len() || !radix.spec_is_digit(ch[from]) {
        0
    } else {
        1 + run_len(ch, from + 1, radix)
    }
}

/// A number may start at `i` only on a token boundary.
pub open spec fn at_boundary(ch: Seq<char>, i: int) -> bool {
    i == 0 || !(spec_is_word(ch[i - 1]) || ch[i - 1] == '$' || ch[i - 1] == '%')
}

/// The number token starting exactly at `i`: its end, base, prefix length
/// (chars before the digits), and whether it carries a decimal sign.
pub open spec fn spec_match_number(ch: Seq<char>, i: int) -> Option<(int, Radix, int, bool)> {
    let n = ch.len();
    if i + 1 < n && ch[i] == '0' && (ch[i + 1] == 'x' || ch[i + 1] == 'X') && run_len(
        ch,
        i + 2,
        Radix::Hex,
    ) > 0 {
        Some((i + 2 + run_len(ch, i + 2, Radix::Hex), Radix::Hex, 2, false))
    } else if i + 1 < n && ch[i] == '0' && (ch[i + 1] == 'b' || ch[i + 1] == 'B') && run_len(
        ch,
        i + 2,
        Radix::Bin,
    ) > 0 {
        Some((i + 2 + run_len(ch, i + 2, Radix::Bin), Radix::Bin, 2, false))
    } else if i < n && ch[i] == '$' && run_len(ch, i + 1, Radix::Hex) > 0 {
        Some((i + 1 + run_len(ch, i + 1, Radix::Hex), Radix::Hex, 1, false))
    } else if i < n && ch[i] == '%' && run_len(ch, i + 1, Radix::Bin) > 0 {
        Some((i + 1 + run_len(ch, i + 1, Radix::Bin), Radix::Bin, 1, false))
    } else if i < n && ch[i] == '-' && run_len(ch, i + 1, Radix::Dec) > 0 {
        Some((i + 1 + run_len(ch, i + 1, Radix::Dec), Radix::Dec, 0, true))
    } else if !(i < n && ch[i] == '-') && run_len(ch, i, Radix::Dec) > 0 {
        Some((i + run_len(ch, i, Radix::Dec), Radix::Dec, 0, false))
    } else {
        None
    }
}

pub proof fn lemma_run_len_bound(ch: Seq<char>, from: int, radix: Radix)
    requires
        0 <= from <= ch.len(),
    ensures
        from + run_len(ch, from, radix) <= ch.len(),
        forall|k: int| from <= k < from + run_len(ch, from, radix) ==> radix.spec_is_digit(#[trigger] ch[k]),
    decreases ch.len() - from,
{
    if from < ch.len() && radix.spec_is_digit(ch[from]) {
        lemma_run_len_bound(ch, from + 1, radix);
    }
}

pub proof fn lemma_match_number_bound(ch: Seq<char>, i: int)
    requires
        0 <= i < ch.len(),
    ensures
        spec_match_number(ch, i) matches Some((end, _, _, _)) ==> i < end <= ch.len(),
        spec_match_number(ch, i) matches Some((end, _, plen, signed)) ==> 0 <= plen && i + plen + (if signed {
            1int
        } else {
            0int
        }) < end,
{
    if i + 2 <= ch.len() {
        lemma_run_len_bound(ch, i + 2, Radix::Hex);
        lemma_run_len_bound(ch, i + 2, Radix::Bin);
    }
    lemma_run_len_bound(ch, i + 1, Radix::Hex);
    lemma_run_len_bound(ch, i + 1, Radix::Bin);
    lemma_run_len_bound(ch, i + 1, Radix::Dec);
    lemma_run_len_bound(ch, i, Radix::Dec);
}

/// The first number at or after index `i` that ends past column `col`:
/// `(start, end, radix, prefix length, signed)`.
pub open spec fn find_number(ch: Seq<char>, col: int, i: int) -> Option<(int, int, Radix, int, bool)>
    decreases ch.len() - i,
{
    if i < 0 || i >= ch.len() {
        None
    } else if at_boundary(ch, i) && spec_match_number(ch, i) is Some {
        let m = spec_match_number(ch, i)->0;
        if m.0 > col {
            Some((i, m.0, m.1, m.2, m.3))
        } else {
            proof {
                lemma_match_number_bound(ch, i);
            }
            find_number(ch, col, m.0)
        }
    } else {
        find_number(ch, col, i + 1)
    }
}

/// Value of a digit char (0 for a non-digit).
pub open spec fn digit_val(c: char) -> nat {
    if '0' <= c <= '9' {
        (c as u32 - '0' as u32) as nat
    } else if 'a' <= c <= 'f' {
        (c as u32 - 'a' as u32 + 10) as nat
    } else if 'A' <= c <= 'F' {
        (c as u32 - 'A' as u32 + 10) as nat
    } else {
        0
    }
}

/// Value of a digit string in base `base`.
pub open spec fn digits_value(s: Seq<char>, base: nat) -> nat
    decreases s.len(),
{
    if s.len() == 0 {
        0
    } else {
        digits_value(s.drop_last(), base) * base + digit_val(s.last())
    }
}

/// The signed value written by a token, or None when its magnitude does
/// not fit an `i128`.
pub open spec fn token_value(ch: Seq<char>, start: int, end: int, radix: Radix, plen: int, signed: bool) -> Option<int> {
    let idx = if signed {
        1int
    } else {
        0int
    };
    let digits = ch.subrange(start + idx + plen, end);
    let mag = digits_value(digits, radix.spec_value());
    if mag > i128::MAX {
        None
    } else if signed {
        Some(-mag)
    } else {
        Some(mag as int)
    }
}

/// Some digit is an uppercase letter (the rewrite keeps that case).
pub open spec fn has_upper(digits: Seq<char>) -> bool {
    exists|k: int| 0 <= k < digits.len() && spec_ascii_upper(#[trigger] digits[k])
}

/// Decimal results keep their sign; hex and binary literals are unsigned
/// and clamp at zero.
pub open spec fn result_neg(radix: Radix, val: int) -> bool {
    radix == Radix::Dec && val < 0
}

pub open spec fn result_mag(radix: Radix, val: int) -> nat {
    if val < 0 {
        if radix == Radix::Dec {
            (-val) as nat
        } else {
            0
        }
    } else {
        val as nat
    }
}

/// The text a token is rewritten to once its value became `val`.
pub open spec fn spec_rewrite(ch: Seq<char>, start: int, end: int, radix: Radix, plen: int, signed: bool, val: int) -> Seq<char> {
    let idx = if signed {
        1int
    } else {
        0int
    };
    let prefix = ch.subrange(start + idx, start + idx + plen);
    let digits = ch.subrange(start + idx + plen, end);
    let body = spec_render(result_mag(radix, val), radix.spec_value(), digits.len(), has_upper(digits));
    (if result_neg(radix, val) {
        seq!['-']
    } else {
        seq![]
    }) + prefix + body
}

/// What `Ctrl+A`/`Ctrl+X` does to a line: the char range of the number at
/// or after `col` and its replacement.
pub open spec fn spec_number_edit(line: Seq<char>, col: int, delta: int) -> Option<(int, int, Seq<char>)> {
    match find_number(line, col, 0) {
        None => None,
        Some((start, end, radix, plen, signed)) => match token_value(
            line,
            start,
            end,
            radix,
            plen,
            signed,
        ) {
            None => None,
            Some(v) => Some((start, end, spec_rewrite(line, start, end, radix, plen, signed, v + delta))),
        },
    }
}

/// A number token that may be edited: it starts on a token boundary at
/// `i` and runs to `end`.
pub open spec fn number_token(ch: Seq<char>, i: int, end: int) -> bool {
    &&& 0 <= i < ch.len()
    &&& at_boundary(ch, i)
    &&& spec_match_number(ch, i) matches Some(m) && m.0 == end
}

proof fn lemma_find_number(ch: Seq<char>, col: int, i: int)
    requires
        0 <= i,
    ensures
        find_number(ch, col, i) matches Some((s, e, _, _, _)) ==> i <= s && col < e && number_token(ch, s, e),
        find_number(ch, col, i) matches Some((s, e, r, p, g)) ==> spec_match_number(ch, s) == Some((e, r, p, g)),
        find_number(ch, col, i) is None ==> forall|j: int|
            i <= j < ch.len() && col <= j ==> !(at_boundary(ch, j) && #[trigger] spec_match_number(ch, j) is Some),
    decreases ch.len() - i,
{
    if i < ch.len() {
        if at_boundary(ch, i) && spec_match_number(ch, i) is Some {
            let m = spec_match_number(ch, i)->0;
            lemma_match_number_bound(ch, i);
            if m.0 <= col {
                lemma_find_number(ch, col, m.0);
            }
        } else {
            lemma_find_number(ch, col, i + 1);
        }
    }
}

/// Law of `Ctrl+A`/`Ctrl+X`: an edit replaces a number token that ends
/// past the cursor column (the number under the cursor or the first one
/// after it, never one wholly before it), and a number is found whenever
/// some number token starts at or after the cursor column.
pub proof fn lemma_number_edit_law(line: Seq<char>, col: int, delta: int)
    ensures
        spec_number_edit(line, col, delta) matches Some((s, e, _)) ==> col < e && number_token(line, s, e),
        (exists|j: int| 0 <= j < line.len() && col <= j && at_boundary(line, j) && #[trigger] spec_match_number(line, j) is Some)
            ==> find_number(line, col, 0) is Some,
        find_number(line, col, 0) matches Some((s, e, _, _, _)) ==> col < e && number_token(line, s, e),
{
    lemma_find_number(line, col, 0);
}

proof fn lemma_digit_char_val(d: nat, upper: bool)
    requires
        d < 16,
    ensures
        digit_val(digit_char(d, upper)) == d,
{
}

proof fn lemma_to_digits_value(m: nat, base: nat, upper: bool)
    requires
        2 <= base <= 16,
    ensures
        digits_value(to_digits(m, base, upper), base) == m,
    decreases m,
{
    if m > 0 {
        crate::chars::lemma_div_smaller(m, base);
        lemma_to_digits_value(m / base, base, upper);
        let ds = to_digits(m, base, upper);
        assert(ds.drop_last() =~= to_digits(m / base, base, upper));
        lemma_digit_char_val(m % base, upper);
        assert((m / base) * base + m % base == m) by (nonlinear_arith)
            requires
                base >= 2,
        ;
    }
}

proof fn lemma_zero_pad_value(n: nat, ds: Seq<char>, base: nat)
    ensures
        digits_value(Seq::new(n, |_i: int| '0') + ds, base) == digits_value(ds, base),
    decreases ds.len() + n,
{
    let z = Seq::new(n, |_i: int| '0');
    if ds.len() == 0 {
        assert(z + ds =~= z);
        if n > 0 {
            assert(z.drop_last() =~= Seq::new((n - 1) as nat, |_i: int| '0'));
            lemma_zero_pad_value((n - 1) as nat, ds, base);
            assert(Seq::new((n - 1) as nat, |_i: int| '0') + ds =~= Seq::new((n - 1) as nat, |_i: int| '0'));
            assert(z.last() == '0');
            assert(digit_val('0') == 0);
            assert(digits_value(z.drop_last(), base) == 0);
            assert(digits_value(z, base) == 0 * base + 0);
        }
    } else {
        assert((z + ds).drop_last() =~= z + ds.drop_last());
        assert((z + ds).last() == ds.last());
        lemma_zero_pad_value(n, ds.drop_last(), base);
    }
}

/// Rendering a number and reading the digits back in the same base gives
/// the number again, whatever the zero padding and letter case.
pub proof fn lemma_render_value(m: nat, base: nat, width: nat, upper: bool)
    requires
        2 <= base <= 16,
    ensures
        digits_value(spec_render(m, base, width, upper), base) == m,
        spec_render(m, base, width, upper).len() >= width,
{
    let ds = to_digits(m, base, upper);
    lemma_to_digits_value(m, base, upper);
    let w: nat = if width < 1 {
        1
    } else {
        width
    };
    if ds.len() < w {
        lemma_zero_pad_value((w - ds.len()) as nat, ds, base);
    }
}

/// Law of the rewrite: the digits written back read, in the token's own
/// base, as the old value plus the delta (hex and binary clamp at zero);
/// a `-` leads exactly when a decimal result is negative; the prefix is
/// kept; and the digit width never shrinks.
pub proof fn lemma_number_edit_value_law(line: Seq<char>, col: int, delta: int)
    requires
        spec_number_edit(line, col, delta) is Some,
    ensures
        ({
            let (s, e, t) = spec_number_edit(line, col, delta)->0;
            let (_, _, radix, plen, signed) = find_number(line, col, 0)->0;
            let idx: int = if signed {
                1
            } else {
                0
            };
            let old_digits = line.subrange(s + idx + plen, e);
            let old_mag = digits_value(old_digits, radix.spec_value());
            let v: int = if signed {
                -old_mag
            } else {
                old_mag as int
            };
            let nv = v + delta;
            let neg = radix == Radix::Dec && nv < 0;
            let k: int = (if neg {
                1int
            } else {
                0int
            }) + plen;
            &&& k <= t.len()
            &&& t.subrange(0, k) == (if neg {
                seq!['-']
            } else {
                seq![]
            }) + line.subrange(s + idx, s + idx + plen)
            &&& digits_value(t.subrange(k, t.len() as int), radix.spec_value()) == (if nv >= 0 {
                nv
            } else if radix == Radix::Dec {
                -nv
            } else {
                0
            })
            &&& t.len() - k >= e - (s + idx + plen)
        }),
{
    let (s, e, t) = spec_number_edit(line, col, delta)->0;
    let (_, _, radix, plen, signed) = find_number(line, col, 0)->0;
    lemma_find_number(line, col, 0);
    lemma_match_number_bound(line, s);
    let idx: int = if signed {
        1
    } else {
        0
    };
    let old_digits = line.subrange(s + idx + plen, e);
    let v = token_value(line, s, e, radix, plen, signed)->0;
    let nv = v + delta;
    let neg = result_neg(radix, nv);
    let prefix = line.subrange(s + idx, s + idx + plen);
    let body = spec_render(result_mag(radix, nv), radix.spec_value(), old_digits.len(), has_upper(old_digits));
    let head = (if neg {
        seq!['-']
    } else {
        seq![]
    }) + prefix;
    assert(find_number(line, col, 0) is Some);
    assert(token_value(line, s, e, radix, plen, signed) is Some);
    assert(t == spec_rewrite(line, s, e, radix, plen, signed, nv));
    assert(t == head + body);
    lemma_render_value(result_mag(radix, nv), radix.spec_value(), old_digits.len(), has_upper(old_digits));
    assert(t.subrange(0, head.len() as int) =~= head);
    assert(t.subrange(head.len() as int, t.len() as int) =~= body);
    let old_mag = digits_value(old_digits, radix.spec_value());
    assert(v == (if signed { -old_mag } else { old_mag as int }));
    let found = find_number(line, col, 0)->0;
    assert(found.0 == s && found.1 == e);
    let k: int = (if neg { 1int } else { 0int }) + plen;
    assert(head.len() == k);
    assert(digits_value(t.subrange(k, t.len() as int), radix.spec_value()) == result_mag(radix, nv));
    assert(t.len() - k >= e - (s + idx + plen));
}

/// The edit stays within `i128` arithmetic (the sum of a huge literal and
/// the delta would overflow).
pub open spec fn number_edit_fits(line: Seq<char>, col: int, delta: int) -> bool {
    match find_number(line, col, 0) {
        None => true,
        Some((start, end, radix, plen, signed)) => match token_value(
            line,
            start,
            end,
            radix,
            plen,
            signed,
        ) {
            None => true,
            Some(v) => i128::MIN <= v + delta <= i128::MAX,
        },
    }
}


fn is_word(c: char) -> (b: bool)
    ensures
        b == spec_is_word(c),
{
    is_ascii_alnum(c) || c == '_'
}

/// Length of the run of `radix` digits starting at `from`.
fn run(ch: &Vec<char>, from: usize, radix: Radix) -> (n: usize)
    requires
        from <= ch@.len(),
    ensures
        n == run_len(ch@, from as int, radix),
        from + n <= ch@.len(),
{
    let mut k = from;
    proof {
        lemma_run_len_bound(ch@, from as int, radix);
    }
    while k < ch.len() && radix.is_digit(ch[k])
        invariant
            from <= k <= ch@.len(),
            run_len(ch@, from as int, radix) == (k - from) + run_len(ch@, k as int, radix),
        decreases ch@.len() - k,
    {
        k += 1;
    }
    k - from
}

/// Tries to read a number token starting exactly at `i`.
fn match_number(ch: &Vec<char>, i: usize) -> (r: Option<(usize, Radix, usize, bool)>)
    requires
        i < ch@.len(),
    ensures
        r == (match spec_match_number(ch@, i as int) {
            Some((end, radix, plen, signed)) => Some((end as usize, radix, plen as usize, signed)),
            None => None,
        }),
        r matches Some((end, _, plen, signed)) ==> i < end <= ch@.len() && i + plen + (if signed {
            1int
        } else {
            0
        }) < end,
{
    let n = ch.len();
    if i + 1 < n && ch[i] == '0' && (ch[i + 1] == 'x' || ch[i + 1] == 'X') {
        let d = run(ch, i + 2, Radix::Hex);
        if d > 0 {
            return Some((i + 2 + d, Radix::Hex, 2, false));
        }
    }
    if i + 1 < n && ch[i] == '0' && (ch[i + 1] == 'b' || ch[i + 1] == 'B') {
        let d = run(ch, i + 2, Radix::Bin);
        if d > 0 {
            return Some((i + 2 + d, Radix::Bin, 2, false));
        }
    }
    if ch[i] == '$' {
        let d = run(ch, i + 1, Radix::Hex);
        if d > 0 {
            return Some((i + 1 + d, Radix::Hex, 1, false));
        }
    }
    if ch[i] == '%' {
        let d = run(ch, i + 1, Radix::Bin);
        if d > 0 {
            return Some((i + 1 + d, Radix::Bin, 1, false));
        }
    }
    let (signed, ds) = if ch[i] == '-' {
        (true, i + 1)
    } else {
        (false, i)
    };
    let d = run(ch, ds, Radix::Dec);
    if d > 0 {
        Some((ds + d, Radix::Dec, 0, signed))
    } else {
        None
    }
}

fn digit_value(c: char) -> (v: u128)
    ensures
        v == digit_val(c),
{
    if '0' <= c && c <= '9' {
        (c as u32 - '0' as u32) as u128
    } else if 'a' <= c && c <= 'f' {
        (c as u32 - 'a' as u32 + 10) as u128
    } else if 'A' <= c && c <= 'F' {
        (c as u32 - 'A' as u32 + 10) as u128
    } else {
        0
    }
}

pub proof fn lemma_digits_value_prefix(s: Seq<char>, k: int, base: nat)
    requires
        0 <= k <= s.len(),
        base >= 1,
    ensures
        digits_value(s.take(k), base) <= digits_value(s, base),
    decreases s.len(),
{
    if k < s.len() {
        assert(s.drop_last().take(k) =~= s.take(k));
        lemma_digits_value_prefix(s.drop_last(), k, base);
        let a = digits_value(s.drop_last(), base);
        assert(a * base >= a) by (nonlinear_arith)
            requires
                base >= 1,
        ;
    } else {
        assert(s.take(k) =~= s);
    }
}

/// The replacement text for the token `ch[start..end]` after adding `delta`,
/// or None when its magnitude does not fit an `i128`.
#[verifier::spinoff_prover]
#[verifier::rlimit(60)]
fn apply(
    ch: &Vec<char>,
    start: usize,
    end: usize,
    radix: Radix,
    plen: usize,
    signed: bool,
    delta: i64,
) -> (r: Option<Vec<char>>)
    requires
        start + plen + (if signed {
            1int
        } else {
            0
        }) < end <= ch@.len(),
        token_value(ch@, start as int, end as int, radix, plen as int, signed) matches Some(v)
            ==> i128::MIN <= v + delta <= i128::MAX,
    ensures
        r matches Some(out) ==> token_value(
            ch@,
            start as int,
            end as int,
            radix,
            plen as int,
            signed,
        ) matches Some(v) && out@ == spec_rewrite(
            ch@,
            start as int,
            end as int,
            radix,
            plen as int,
            signed,
            v + delta,
        ),
        r is None <==> token_value(ch@, start as int, end as int, radix, plen as int, signed) is None,
{
    let idx: usize = if signed {
        1
    } else {
        0
    };
    let ds = start + idx + plen;
    let base = radix.value();
    let ghost digits = ch@.subrange(ds as int, end as int);
    // the magnitude, refusing anything past i128::MAX
    let mut v: u128 = 0;
    let mut k = ds;
    let mut upper = false;
    while k < end
        invariant
            ds <= k <= end <= ch@.len(),
            ds == start + idx + plen,
            idx == (if signed {
                1usize
            } else {
                0usize
            }),
            base == radix.spec_value(),
            digits == ch@.subrange(ds as int, end as int),
            v == digits_value(ch@.subrange(ds as int, k as int), base as nat),
            v <= i128::MAX,
            upper == exists|j: int| 0 <= j < k - ds && spec_ascii_upper(#[trigger] digits[j]),
        decreases end - k,
    {
        assert(ch@.subrange(ds as int, k + 1).drop_last() =~= ch@.subrange(ds as int, k as int));
        let d = digit_value(ch[k]);
        let ghost pre = ch@.subrange(ds as int, (k + 1) as int);
        assert(digits_value(pre, base as nat) == v * base + d);
        if v > (i128::MAX as u128 - d) / base {
            proof {
                assert(v * base + d > i128::MAX) by (nonlinear_arith)
                    requires
                        v > (i128::MAX - d) / (base as int),
                        base >= 2,
                        d <= 15,
                ;
                assert(digits.take(k + 1 - ds) =~= pre);
                lemma_digits_value_prefix(digits, k + 1 - ds, base as nat);
                assert(ch@.subrange(start + idx + plen, end as int) == digits);
                assert(token_value(ch@, start as int, end as int, radix, plen as int, signed) is None);
            }
            return None;
        }
        assert(v * base + d <= i128::MAX) by (nonlinear_arith)
            requires
                v <= (i128::MAX - d) / (base as int),
                base >= 2,
                d <= 15,
        ;
        let c = ch[k];
        if is_ascii_upper(c) {
            upper = true;
        }
        proof {
            assert(digits[k - ds] == c);
        }
        v = v * base + d;
        k += 1;
    }
    assert(ch@.subrange(ds as int, k as int) =~= digits);
    assert(ch@.subrange(start + idx + plen, end as int) == digits);
    let ghost tv = token_value(ch@, start as int, end as int, radix, plen as int, signed);
    assert(tv == Some(if signed {
        -(v as int)
    } else {
        v as int
    }));
    let mut val: i128 = if signed {
        -(v as i128)
    } else {
        v as i128
    };
    val = val + delta as i128;
    let (out_neg, mag): (bool, u128) = match radix {
        Radix::Dec => if val < 0 {
            (true, (-(val + 1)) as u128 + 1)
        } else {
            (false, val as u128)
        },
        _ => if val < 0 {
            (false, 0)
        } else {
            (false, val as u128)
        },
    };
    assert(upper == has_upper(digits));
    let body = render(mag, base, end - ds, upper);
    let mut out: Vec<char> = Vec::new();
    if out_neg {
        out.push('-');
    }
    let mut j = start + idx;
    while j < ds
        invariant
            start + idx <= j <= ds,
            ds <= end <= ch@.len(),
            out@ == (if out_neg {
                seq!['-']
            } else {
                seq![]
            }) + ch@.subrange(start + idx, j as int),
        decreases ds - j,
    {
        out.push(ch[j]);
        j += 1;
        assert(out@ =~= (if out_neg {
            seq!['-']
        } else {
            seq![]
        }) + ch@.subrange(start + idx, j as int));
    }
    let mut b: usize = 0;
    let ghost mid = out@;
    while b < body.len()
        invariant
            b <= body@.len(),
            out@ == mid + body@.take(b as int),
        decreases body@.len() - b,
    {
        out.push(body[b]);
        b += 1;
        assert(out@ =~= mid + body@.take(b as int));
    }
    assert(body@.take(body@.len() as int) =~= body@);
    assert(ch@.subrange(ds as int, end as int) =~= digits);
    proof {
        let sv = tv->0 + delta;
        assert(sv == val);
        assert(result_neg(radix, sv) == out_neg);
        assert(result_mag(radix, sv) == mag);
        assert(has_upper(digits) == upper);
        assert(out@ =~= spec_rewrite(ch@, start as int, end as int, radix, plen as int, signed, sv));
    }
    Some(out)
}


/// Finds the number at or after char column `col` on `line`, applies `delta`,
/// and returns `(start, end, replacement)` in char units — or `None` when the
/// line has no number at/after the cursor. Recognised: decimal (signed), hex
/// (`0x`/`0X`/`$`) and binary (`0b`/`0B`/`%`); the `$`/`%` asm spellings ride
/// along because the lens already reads them.
pub fn number_edit(line: &str, col: usize, delta: i64) -> (r: Option<(usize, usize, String)>)
    requires
        number_edit_fits(line@, col as int, delta as int),
    ensures
        match (r, spec_number_edit(line@, col as int, delta as int)) {
            (Some((s, e, text)), Some((s2, e2, t))) => s == s2 && e == e2 && text@ == t,
            (None, None) => true,
            _ => false,
        },
{
    let ch = chars_of(line);
    let mut i: usize = 0;
    while i < ch.len()
        invariant
            ch@ == line@,
            i <= ch@.len(),
            number_edit_fits(line@, col as int, delta as int),
            find_number(ch@, col as int, 0) == find_number(ch@, col as int, i as int),
        decreases ch@.len() - i,
    {
        // a number can begin here only at a token boundary (so the middle of
        // `0xff` or an identifier isn't mistaken for the start of one)
        let boundary = i == 0 || !(is_word(ch[i - 1]) || ch[i - 1] == '$' || ch[i - 1] == '%');
        if boundary {
            if let Some((end, radix, plen, signed)) = match_number(&ch, i) {
                assert(at_boundary(ch@, i as int));
                proof {
                    lemma_match_number_bound(ch@, i as int);
                }
                if end > col {
                    assert(find_number(ch@, col as int, i as int) == Some(
                        (i as int, end as int, radix, plen as int, signed),
                    ));
                    return match apply(&ch, i, end, radix, plen, signed, delta) {
                        Some(text) => Some((i, end, string_of(text.as_slice()))),
                        None => None,
                    };
                }
                assert(find_number(ch@, col as int, i as int) == find_number(
                    ch@,
                    col as int,
                    end as int,
                ));
                i = end;
                continue;
            }
        }
        proof {
            if boundary {
                assert(at_boundary(ch@, i as int));
            } else {
                assert(!at_boundary(ch@, i as int));
            }
            assert(find_number(ch@, col as int, i as int) == find_number(
                ch@,
                col as int,
                i + 1,
            ));
        }
        i += 1;
    }
    None
}

} // verus!
