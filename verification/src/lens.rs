//! The machine lens: editor-owned knowledge behind `K`.
//!
//! - the NUMBER LENS, in any file: bases, signedness, byte splits;
//! - the 65C02/6502 OPCODE LENS in assembly files: addressing mode,
//!   encoding bytes, cycles with penalty footnotes;
//! - the CYCLE SUM over a visual selection of straight-line code.
//!
//! Assembly knowledge activates only when the file declares its dialect in
//! a modeline (`; asm: 65c02 acme`, first five lines, comment leader
//! agnostic). Colors may guess; numbers must know: no modeline, no opcode
//! lens. Timing is ISA knowledge only for the 6502 family.

use vstd::prelude::*;

use crate::chars::{
    chars_of, is_ascii_punct, lower_seq, slice_vec, spec_ascii_punct, spec_is_whitespace,
    starts_with, starts_with_at, string_of, to_lower, trim, trim_chars, trim_end_matches,
    trim_end_matches_chars, trim_start, trim_start_chars,
};

verus! {

// ----------------------------------------------------------------------
// modeline
// ----------------------------------------------------------------------

/// The 6502 lineage a file declared. `Other` keeps the raw ISA string for
/// future providers (riscv…) — recognized, but no timing knowledge.
#[derive(Clone, Debug, PartialEq, Eq)]
pub enum Family {
    Cmos65c02,
    Nmos6502,
    Other(String),
}

/// Leading ASCII punctuation, at most `cap` chars of it.
pub open spec fn lead_punct(s: Seq<char>, cap: nat) -> nat
    decreases cap,
{
    if cap == 0 || s.len() == 0 || !spec_ascii_punct(s[0]) {
        0
    } else {
        1 + lead_punct(s.drop_first(), (cap - 1) as nat)
    }
}

/// The text up to the first whitespace char.
pub open spec fn until_ws(s: Seq<char>) -> Seq<char>
    decreases s.len(),
{
    if s.len() == 0 || spec_is_whitespace(s[0]) {
        seq![]
    } else {
        seq![s[0]] + until_ws(s.drop_first())
    }
}

/// The (lowercased) ISA a line declares: `<leader> asm: <isa> [...]`,
/// with a leader of one to three ASCII punctuation chars.
pub open spec fn line_isa(line: Seq<char>) -> Option<Seq<char>> {
    let s = trim(line);
    let punct = lead_punct(s, 3);
    let body = trim_start(s.skip(punct as int));
    if punct == 0 || !starts_with(body, "asm:"@) {
        None
    } else {
        let spec_ = trim(trim_end_matches(body.skip(4), "*/"@));
        let isa = until_ws(spec_);
        if isa.len() == 0 {
            None
        } else {
            Some(lower_seq(isa))
        }
    }
}

/// The ISA of the first line that declares one.
pub open spec fn spec_modeline(lines: Seq<Seq<char>>) -> Option<Seq<char>>
    decreases lines.len(),
{
    if lines.len() == 0 {
        None
    } else if line_isa(lines[0]) is Some {
        line_isa(lines[0])
    } else {
        spec_modeline(lines.drop_first())
    }
}

/// The family a (lowercased) ISA name denotes.
pub open spec fn family_is(f: Family, isa: Seq<char>) -> bool {
    if isa == "65c02"@ {
        f is Cmos65c02
    } else if isa == "6502"@ {
        f is Nmos6502
    } else {
        f matches Family::Other(s) && s@ == isa
    }
}

fn lead_punct_count(s: &[char]) -> (n: usize)
    ensures
        n == lead_punct(s@, 3),
        n <= s@.len(),
        n <= 3,
{
    let mut n: usize = 0;
    assert(s@.skip(0) =~= s@);
    while n < 3 && n < s.len() && is_ascii_punct(s[n])
        invariant
            n <= 3,
            n <= s@.len(),
            lead_punct(s@, 3) == n + lead_punct(s@.skip(n as int), (3 - n) as nat),
        decreases 3 - n,
    {
        assert(s@.skip(n as int).drop_first() =~= s@.skip(n + 1));
        n += 1;
    }
    n
}

fn until_ws_chars(s: &[char]) -> (r: Vec<char>)
    ensures
        r@ == until_ws(s@),
{
    let mut k: usize = 0;
    assert(s@.skip(0) =~= s@);
    assert(s@.take(0) =~= Seq::<char>::empty());
    while k < s.len() && !s[k].is_whitespace()
        invariant
            k <= s@.len(),
            until_ws(s@) == s@.take(k as int) + until_ws(s@.skip(k as int)),
        decreases s@.len() - k,
    {
        assert(s@.skip(k as int).drop_first() =~= s@.skip(k + 1));
        assert(s@.take(k + 1) =~= s@.take(k as int) + seq![s@[k as int]]);
        k += 1;
    }
    assert(until_ws(s@.skip(k as int)) =~= Seq::<char>::empty());
    assert(until_ws(s@) =~= s@.take(k as int));
    slice_vec(s, 0, k)
}

fn lower_chars(s: &[char]) -> (r: Vec<char>)
    ensures
        r@ == lower_seq(s@),
{
    let mut r: Vec<char> = Vec::new();
    let mut k: usize = 0;
    while k < s.len()
        invariant
            k <= s@.len(),
            r@ == lower_seq(s@.take(k as int)),
        decreases s@.len() - k,
    {
        r.push(to_lower(s[k]));
        k += 1;
        assert(r@ =~= lower_seq(s@.take(k as int)));
    }
    assert(s@.take(s@.len() as int) =~= s@);
    r
}

fn upper_chars(s: &[char]) -> (r: Vec<char>)
    ensures
        r@ == crate::chars::upper_seq(s@),
{
    let mut r: Vec<char> = Vec::new();
    let mut k: usize = 0;
    while k < s.len()
        invariant
            k <= s@.len(),
            r@ == crate::chars::upper_seq(s@.take(k as int)),
        decreases s@.len() - k,
    {
        r.push(crate::chars::to_upper(s[k]));
        k += 1;
        assert(r@ =~= crate::chars::upper_seq(s@.take(k as int)));
    }
    assert(s@.take(s@.len() as int) =~= s@);
    r
}

fn line_isa_of(line: &str) -> (r: Option<Vec<char>>)
    ensures
        match (r, line_isa(line@)) {
            (Some(v), Some(t)) => v@ == t,
            (None, None) => true,
            _ => false,
        },
{
    let raw = chars_of(line);
    let s = trim_chars(raw.as_slice());
    let punct = lead_punct_count(s.as_slice());
    if punct == 0 {
        return None;
    }
    let after = slice_vec(s.as_slice(), punct, s.len());
    assert(after@ =~= s@.skip(punct as int));
    let body = trim_start_chars(after.as_slice());
    if !starts_with_at(body.as_slice(), 0, "asm:") {
        assert(body@.skip(0) =~= body@);
        return None;
    }
    assert(body@.skip(0) =~= body@);
    proof {
        reveal_strlit("asm:");
    }
    let rest = slice_vec(body.as_slice(), 4, body.len());
    assert(rest@ =~= body@.skip(4));
    let cut = trim_end_matches_chars(rest.as_slice(), "*/");
    let spec_ = trim_chars(cut.as_slice());
    let isa = until_ws_chars(spec_.as_slice());
    if isa.len() == 0 {
        return None;
    }
    Some(lower_chars(isa.as_slice()))
}

/// Parses `<leader> asm: <isa> [<assembler>]` within the given lines
/// (callers pass at most the first five). The comment leader is opaque:
/// a short run of punctuation, whatever the file's toolchain accepts.
pub fn modeline(lines: &[String]) -> (r: Option<Family>)
    ensures
        match (r, spec_modeline(lines@.map_values(|l: String| l@))) {
            (Some(f), Some(isa)) => family_is(f, isa),
            (None, None) => true,
            _ => false,
        },
{
    let ghost ls = lines@.map_values(|l: String| l@);
    let mut k: usize = 0;
    assert(ls.skip(0) =~= ls);
    while k < lines.len()
        invariant
            k <= lines@.len(),
            ls == lines@.map_values(|l: String| l@),
            spec_modeline(ls) == spec_modeline(ls.skip(k as int)),
        decreases lines@.len() - k,
    {
        assert(ls.skip(k as int).drop_first() =~= ls.skip(k + 1));
        assert(ls.skip(k as int)[0] == lines@[k as int]@);
        if let Some(isa) = line_isa_of(lines[k].as_str()) {
            if crate::chars::eq_str(isa.as_slice(), "65c02") {
                return Some(Family::Cmos65c02);
            }
            if crate::chars::eq_str(isa.as_slice(), "6502") {
                return Some(Family::Nmos6502);
            }
            return Some(Family::Other(string_of(isa.as_slice())));
        }
        k += 1;
    }
    assert(ls.skip(k as int).len() == 0);
    None
}


// ----------------------------------------------------------------------
// number lens
// ----------------------------------------------------------------------

/// Chars a numeric literal (with its prefixes) is made of.
pub open spec fn is_lit(c: char) -> bool {
    crate::chars::spec_ascii_alnum(c) || c == '$' || c == '%' || c == '#' || c == '_'
}

fn is_lit_char(c: char) -> (b: bool)
    ensures
        b == is_lit(c),
{
    crate::chars::is_ascii_alnum(c) || c == '$' || c == '%' || c == '#' || c == '_'
}

/// Start of the literal run that ends just before `i`.
pub open spec fn lit_start(ch: Seq<char>, i: int) -> int
    decreases i,
{
    if i > 0 && i <= ch.len() && is_lit(ch[i - 1]) {
        lit_start(ch, i - 1)
    } else {
        i
    }
}

/// End of the literal run that starts at `i`.
pub open spec fn lit_end(ch: Seq<char>, i: int) -> int
    decreases ch.len() - i,
{
    if 0 <= i < ch.len() && is_lit(ch[i]) {
        lit_end(ch, i + 1)
    } else {
        i
    }
}

/// Drops every trailing `%`, `$` and `#`.
pub open spec fn trim_end_sigils(s: Seq<char>) -> Seq<char>
    decreases s.len(),
{
    if s.len() > 0 && (s.last() == '%' || s.last() == '$' || s.last() == '#') {
        trim_end_sigils(s.drop_last())
    } else {
        s
    }
}

/// Drops every leading and trailing `_`.
pub open spec fn trim_underscores(s: Seq<char>) -> Seq<char> {
    trim_end_matches(crate::chars::trim_start_matches(s, seq!['_']), seq!['_'])
}

/// The literal around char column `col`, as `literal_at` extracts it.
pub open spec fn spec_literal_at(line: Seq<char>, col: int) -> Option<Seq<char>> {
    if line.len() == 0 {
        None
    } else {
        let c = if col < line.len() {
            col
        } else {
            line.len() - 1
        };
        if !is_lit(line[c]) {
            None
        } else {
            let word = line.subrange(lit_start(line, c), lit_end(line, c + 1));
            let w = trim_underscores(
                trim_end_sigils(crate::chars::trim_start_matches(word, seq!['#'])),
            );
            if w.len() == 0 {
                None
            } else {
                Some(w.filter(|c: char| c != '_'))
            }
        }
    }
}

/// Extracts the numeric literal containing the cursor column (chars), if
/// any: `$9F42`, `%1010`, `0xFF`, `0b101`, `1234`, each with an optional
/// `#` immediate prefix.
#[verifier::spinoff_prover]
pub fn literal_at(line: &str, col: usize) -> (r: Option<String>)
    ensures
        match (r, spec_literal_at(line@, col as int)) {
            (Some(w), Some(t)) => w@ == t,
            (None, None) => true,
            _ => false,
        },
{
    let chars = chars_of(line);
    if chars.len() == 0 {
        return None;
    }
    let col = if col < chars.len() {
        col
    } else {
        chars.len() - 1
    };
    if !is_lit_char(chars[col]) {
        return None;
    }
    let mut start = col;
    while start > 0 && is_lit_char(chars[start - 1])
        invariant
            start <= col < chars@.len(),
            lit_start(chars@, col as int) == lit_start(chars@, start as int),
        decreases start,
    {
        start -= 1;
    }
    let mut end = col + 1;
    while end < chars.len() && is_lit_char(chars[end])
        invariant
            col < end <= chars@.len(),
            lit_end(chars@, col + 1) == lit_end(chars@, end as int),
        decreases chars@.len() - end,
    {
        end += 1;
    }
    let word = slice_vec(chars.as_slice(), start, end);
    let w1 = crate::chars::trim_start_matches_chars(word.as_slice(), "#");
    proof {
        reveal_strlit("#");
        assert("#"@ =~= seq!['#']);
    }
    let w2 = trim_end_sigils_chars(w1.as_slice());
    let w3 = crate::chars::trim_start_matches_chars(w2.as_slice(), "_");
    proof {
        reveal_strlit("_");
        assert("_"@ =~= seq!['_']);
    }
    let w4 = trim_end_matches_chars(w3.as_slice(), "_");
    if w4.len() == 0 {
        return None;
    }
    let mut out: Vec<char> = Vec::new();
    let mut k: usize = 0;
    while k < w4.len()
        invariant
            k <= w4@.len(),
            out@ == w4@.take(k as int).filter(|c: char| c != '_'),
        decreases w4@.len() - k,
    {
        let c = w4[k];
        proof {
            let t = w4@.take(k + 1);
            assert(t.drop_last() =~= w4@.take(k as int));
            assert(t.last() == c);
            reveal(Seq::filter);
        }
        if c != '_' {
            out.push(c);
        }
        k += 1;
    }
    assert(w4@.take(w4@.len() as int) =~= w4@);
    Some(string_of(out.as_slice()))
}

fn trim_end_sigils_chars(s: &[char]) -> (r: Vec<char>)
    ensures
        r@ == trim_end_sigils(s@),
{
    let mut k = s.len();
    assert(s@.take(k as int) =~= s@);
    while k > 0 && (s[k - 1] == '%' || s[k - 1] == '$' || s[k - 1] == '#')
        invariant
            k <= s@.len(),
            trim_end_sigils(s@) == trim_end_sigils(s@.take(k as int)),
        decreases k,
    {
        assert(s@.take(k as int).drop_last() =~= s@.take(k - 1));
        k -= 1;
    }
    slice_vec(s, 0, k)
}


/// Value of `c` as a digit in `radix` (letters count from 10), if it is one.
pub open spec fn char_digit(c: char, radix: nat) -> Option<nat> {
    let v: int = if '0' <= c <= '9' {
        c as u32 - '0' as u32
    } else if 'a' <= c <= 'z' {
        c as u32 - 'a' as u32 + 10
    } else if 'A' <= c <= 'Z' {
        c as u32 - 'A' as u32 + 10
    } else {
        99
    };
    if v < radix {
        Some(v as nat)
    } else {
        None
    }
}

pub open spec fn all_digits(s: Seq<char>, radix: nat) -> bool {
    forall|k: int| 0 <= k < s.len() ==> (#[trigger] char_digit(s[k], radix)) is Some
}

pub open spec fn radix_value(s: Seq<char>, radix: nat) -> nat
    decreases s.len(),
{
    if s.len() == 0 {
        0
    } else {
        radix_value(s.drop_last(), radix) * radix + char_digit(s.last(), radix).unwrap_or(0)
    }
}

/// `u64::from_str_radix`: an optional `+`, then at least one digit, and a
/// value that fits.
pub open spec fn spec_from_str_radix(s: Seq<char>, radix: nat) -> Option<nat> {
    let d = if s.len() > 0 && s[0] == '+' {
        s.drop_first()
    } else {
        s
    };
    if d.len() == 0 || !all_digits(d, radix) || radix_value(d, radix) > u64::MAX {
        None
    } else {
        Some(radix_value(d, radix))
    }
}

fn char_digit_of(c: char, radix: u64) -> (r: Option<u64>)
    requires
        2 <= radix <= 36,
    ensures
        r == (match char_digit(c, radix as nat) {
            Some(v) => Some(v as u64),
            None => None,
        }),
{
    let v: u64 = if '0' <= c && c <= '9' {
        (c as u32 - '0' as u32) as u64
    } else if 'a' <= c && c <= 'z' {
        (c as u32 - 'a' as u32 + 10) as u64
    } else if 'A' <= c && c <= 'Z' {
        (c as u32 - 'A' as u32 + 10) as u64
    } else {
        99
    };
    if v < radix {
        Some(v)
    } else {
        None
    }
}

pub proof fn lemma_radix_value_prefix(s: Seq<char>, k: int, radix: nat)
    requires
        0 <= k <= s.len(),
        radix >= 1,
    ensures
        radix_value(s.take(k), radix) <= radix_value(s, radix),
    decreases s.len(),
{
    if k < s.len() {
        assert(s.drop_last().take(k) =~= s.take(k));
        lemma_radix_value_prefix(s.drop_last(), k, radix);
        let a = radix_value(s.drop_last(), radix);
        assert(a * radix >= a) by (nonlinear_arith)
            requires
                radix >= 1,
        ;
    } else {
        assert(s.take(k) =~= s);
    }
}

/// `u64::from_str_radix` over chars.
#[verifier::spinoff_prover]
pub fn parse_u64(s: &[char], radix: u64) -> (r: Option<u64>)
    requires
        2 <= radix <= 36,
    ensures
        r == (match spec_from_str_radix(s@, radix as nat) {
            Some(v) => Some(v as u64),
            None => None,
        }),
{
    let start: usize = if s.len() > 0 && s[0] == '+' {
        1
    } else {
        0
    };
    let ghost d = if s@.len() > 0 && s@[0] == '+' {
        s@.drop_first()
    } else {
        s@
    };
    assert(d =~= s@.skip(start as int));
    if start == s.len() {
        return None;
    }
    let mut v: u64 = 0;
    let mut k = start;
    while k < s.len()
        invariant
            start <= k <= s@.len(),
            2 <= radix <= 36,
            d == s@.skip(start as int),
            d == (if s@.len() > 0 && s@[0] == '+' {
                s@.drop_first()
            } else {
                s@
            }),
            all_digits(s@.subrange(start as int, k as int), radix as nat),
            v == radix_value(s@.subrange(start as int, k as int), radix as nat),
        decreases s@.len() - k,
    {
        let ghost pre = s@.subrange(start as int, k + 1);
        assert(pre.drop_last() =~= s@.subrange(start as int, k as int));
        let dg = char_digit_of(s[k], radix);
        match dg {
            None => {
                assert(char_digit(d[k - start], radix as nat) is None);
                assert(!all_digits(d, radix as nat));
                assert(spec_from_str_radix(s@, radix as nat) is None);
                return None;
            },
            Some(x) => {
                if v > (u64::MAX - x) / radix {
                    proof {
                        assert(v * radix + x > u64::MAX) by (nonlinear_arith)
                            requires
                                v > (u64::MAX - x) / (radix as int),
                                radix >= 2,
                                x < radix,
                        ;
                        assert(d.take(k + 1 - start) =~= pre);
                        if all_digits(d, radix as nat) {
                            lemma_radix_value_prefix(d, k + 1 - start, radix as nat);
                            assert(radix_value(d, radix as nat) > u64::MAX);
                        }
                        assert(spec_from_str_radix(s@, radix as nat) is None);
                    }
                    return None;
                }
                assert(v * radix + x <= u64::MAX) by (nonlinear_arith)
                    requires
                        v <= (u64::MAX - x) / (radix as int),
                        radix >= 2,
                ;
                v = v * radix + x;
            },
        }
        k += 1;
        assert forall|j: int| 0 <= j < pre.len() implies (#[trigger] char_digit(pre[j], radix as nat)) is Some by {
            if j < pre.len() - 1 {
                assert(pre[j] == s@.subrange(start as int, k - 1)[j]);
            }
        }
    }
    assert(s@.subrange(start as int, s@.len() as int) =~= d);
    Some(v)
}

/// The value a literal spells and its base: `$`/`0x` hex, `%`/`0b`
/// binary, decimal otherwise.
pub open spec fn spec_parse_number(word: Seq<char>) -> Option<(nat, nat)> {
    let (digits, radix) = if starts_with(word, "$"@) {
        (word.skip(1), 16nat)
    } else if starts_with(word, "0x"@) || starts_with(word, "0X"@) {
        (word.skip(2), 16nat)
    } else if starts_with(word, "%"@) {
        (word.skip(1), 2nat)
    } else if starts_with(word, "0b"@) || starts_with(word, "0B"@) {
        (word.skip(2), 2nat)
    } else {
        (word, 10nat)
    };
    if digits.len() == 0 {
        None
    } else {
        match spec_from_str_radix(digits, radix) {
            Some(v) => Some((v, radix)),
            None => None,
        }
    }
}

fn parse_number(word: &[char]) -> (r: Option<(u64, u32)>)
    ensures
        r == (match spec_parse_number(word@) {
            Some((v, radix)) => Some((v as u64, radix as u32)),
            None => None,
        }),
{
    proof {
        reveal_strlit("$");
        reveal_strlit("0x");
        reveal_strlit("0X");
        reveal_strlit("%");
        reveal_strlit("0b");
        reveal_strlit("0B");
    }
    let (skip, radix): (usize, u32) = if starts_with_at(word, 0, "$") {
        (1, 16)
    } else if starts_with_at(word, 0, "0x") || starts_with_at(word, 0, "0X") {
        (2, 16)
    } else if starts_with_at(word, 0, "%") {
        (1, 2)
    } else if starts_with_at(word, 0, "0b") || starts_with_at(word, 0, "0B") {
        (2, 2)
    } else {
        (0, 10)
    };
    assert(word@.skip(0) =~= word@);
    let digits = slice_vec(word, skip, word.len());
    assert(digits@ =~= word@.skip(skip as int));
    if digits.len() == 0 {
        return None;
    }
    match parse_u64(digits.as_slice(), radix as u64) {
        Some(v) => Some((v, radix)),
        None => None,
    }
}


/// Number of bits needed to write `v` (0 for zero).
pub open spec fn bit_len(v: nat) -> nat
    decreases v,
{
    if v == 0 {
        0
    } else {
        1 + bit_len(v / 2)
    }
}

/// Rounds a value (and how it was written) up to a natural register width.
pub open spec fn spec_bits_for(value: nat, written_digits: nat, radix: nat) -> nat {
    let written = if radix == 16 {
        written_digits * 4
    } else if radix == 2 {
        written_digits
    } else {
        0
    };
    let b = if bit_len(value) < 1 {
        1
    } else {
        bit_len(value)
    };
    let needed = if b < written {
        written
    } else {
        b
    };
    if needed <= 8 {
        8
    } else if needed <= 16 {
        16
    } else if needed <= 32 {
        32
    } else {
        64
    }
}

/// The bits a number's written form asks for: four per hex digit, one
/// per binary digit, none for decimal.
pub open spec fn written_bits(written_digits: nat, radix: nat) -> nat {
    if radix == 16 {
        4 * written_digits
    } else if radix == 2 {
        written_digits
    } else {
        0
    }
}

/// Law of the register width: it is 8, 16, 32 or 64 bits; up to 64 bits it
/// holds the value's bits and the written digits' bits (a hex digit
/// standing for four); and it is the narrowest such width: a width of half
/// of it would not hold the value or the written digits.
pub proof fn lemma_bits_for_law(value: nat, written_digits: nat, radix: nat)
    ensures
        ({
            let r = spec_bits_for(value, written_digits, radix);
            &&& r == 8 || r == 16 || r == 32 || r == 64
            &&& bit_len(value) <= 64 ==> bit_len(value) <= r
            &&& written_bits(written_digits, radix) <= 64 ==> written_bits(written_digits, radix) <= r
            &&& r > 8 ==> bit_len(value) > r / 2 || written_bits(written_digits, radix) > r / 2
        }),
{
}

/// A value below `2^k` needs at most `k` bits.
pub proof fn lemma_bit_len_le(v: nat, k: nat)
    requires
        v < vstd::arithmetic::power2::pow2(k),
    ensures
        bit_len(v) <= k,
    decreases k,
{
    if v > 0 {
        if k == 0 {
            vstd::arithmetic::power2::lemma2_to64();
            assert(false);
        } else {
            vstd::arithmetic::power2::lemma_pow2_unfold(k);
            assert(v / 2 < vstd::arithmetic::power2::pow2((k - 1) as nat));
            lemma_bit_len_le(v / 2, (k - 1) as nat);
        }
    }
}

/// A value is below `2^bit_len`.
pub proof fn lemma_bit_len_bound(v: nat)
    ensures
        v < vstd::arithmetic::power2::pow2(bit_len(v)),
    decreases v,
{
    if v > 0 {
        lemma_bit_len_bound(v / 2);
        vstd::arithmetic::power2::lemma_pow2_unfold(bit_len(v));
    } else {
        vstd::arithmetic::power2::lemma2_to64();
    }
}

fn bit_length(value: u64) -> (n: u32)
    ensures
        n == bit_len(value as nat),
        n <= 64,
{
    let mut v = value;
    let mut n: u32 = 0;
    proof {
        vstd::arithmetic::power2::lemma2_to64();
        lemma_bit_len_le(value as nat, 64);
    }
    while v > 0
        invariant
            bit_len(value as nat) == n + bit_len(v as nat),
            n + bit_len(v as nat) <= 64,
        decreases v,
    {
        v = v / 2;
        n += 1;
    }
    n
}

fn bits_for(value: u64, written_digits: usize, radix: u32) -> (b: u32)
    requires
        written_digits < 0x4000_0000,
    ensures
        b == spec_bits_for(value as nat, written_digits as nat, radix as nat),
{
    let written: u32 = if radix == 16 {
        written_digits as u32 * 4
    } else if radix == 2 {
        written_digits as u32
    } else {
        0
    };
    let bl = bit_length(value);
    let b = if bl < 1 {
        1
    } else {
        bl
    };
    let needed = if b < written {
        written
    } else {
        b
    };
    if needed <= 8 {
        8
    } else if needed <= 16 {
        16
    } else if needed <= 32 {
        32
    } else {
        64
    }
}

/// `n` is a multiple of `every` (`u32::is_multiple_of`: only 0 is a
/// multiple of 0).
pub open spec fn multiple_of(n: int, every: int) -> bool {
    if every == 0 {
        n == 0
    } else {
        n % every == 0
    }
}

/// Digits grouped with `'` every `every` places from the right.
pub open spec fn group_from(s: Seq<char>, every: nat, i: int) -> Seq<char>
    decreases s.len() - i,
{
    if i < 0 || i >= s.len() {
        seq![]
    } else {
        (if i > 0 && multiple_of(s.len() - i, every as int) {
            seq!['\'']
        } else {
            seq![]
        }) + seq![s[i]] + group_from(s, every, i + 1)
    }
}

fn group(s: &[char], every: usize) -> (out: Vec<char>)
    ensures
        out@ == group_from(s@, every as nat, 0),
{
    let mut out: Vec<char> = Vec::new();
    let mut i: usize = 0;
    while i < s.len()
        invariant
            i <= s@.len(),
            out@ + group_from(s@, every as nat, i as int) == group_from(s@, every as nat, 0),
        decreases s@.len() - i,
    {
        let rem = s.len() - i;
        let mult = if every == 0 {
            rem == 0
        } else {
            rem % every == 0
        };
        if i > 0 && mult {
            out.push('\'');
        }
        out.push(s[i]);
        i += 1;
        assert(out@ + group_from(s@, every as nat, i as int) =~= group_from(
            s@,
            every as nat,
            0,
        ));
    }
    out
}

/// Drops every leading `$` and `%`.
pub open spec fn trim_start_sigils(s: Seq<char>) -> Seq<char>
    decreases s.len(),
{
    if s.len() > 0 && (s[0] == '$' || s[0] == '%') {
        trim_start_sigils(s.drop_first())
    } else {
        s
    }
}

fn trim_start_sigils_chars(s: &[char]) -> (r: Vec<char>)
    ensures
        r@ == trim_start_sigils(s@),
        r@.len() <= s@.len(),
{
    let mut k: usize = 0;
    assert(s@.skip(0) =~= s@);
    while k < s.len() && (s[k] == '$' || s[k] == '%')
        invariant
            k <= s@.len(),
            trim_start_sigils(s@) == trim_start_sigils(s@.skip(k as int)),
        decreases s@.len() - k,
    {
        assert(s@.skip(k as int).drop_first() =~= s@.skip(k + 1));
        k += 1;
    }
    slice_vec(s, k, s.len())
}

/// The digits a literal was written with (its prefix stripped).
pub open spec fn written_digits(word: Seq<char>) -> Seq<char> {
    crate::chars::trim_start_matches(
        crate::chars::trim_start_matches(
            crate::chars::trim_start_matches(
                crate::chars::trim_start_matches(trim_start_sigils(word), "0x"@),
                "0X"@,
            ),
            "0b"@,
        ),
        "0B"@,
    )
}

/// `v` read as a signed `bits`-bit two's-complement value.
pub open spec fn signed_view(v: nat, bits: nat) -> int {
    let m = vstd::arithmetic::power2::pow2(bits) as int;
    let b = (v as int) % m;
    if b * 2 >= m {
        b - m
    } else {
        b
    }
}

/// The headline: the literal and its register width.
pub open spec fn hover_head(word: Seq<char>, bits: nat) -> Seq<char> {
    word + " — "@ + crate::chars::dec(bits) + "-bit"@
}

/// Hex and decimal, plus the signed view when it is negative.
pub open spec fn hover_values(value: nat, bits: nat) -> Seq<char> {
    let signed = signed_view(value, bits);
    "hex $"@ + crate::chars::spec_render(value, 16, bits / 4, true) + " · dec "@ + crate::chars::dec(
        value,
    ) + (if signed < 0 {
        " · i"@ + crate::chars::dec(bits) + " "@ + crate::chars::dec_int(signed)
    } else {
        seq![]
    })
}

/// Binary, grouped by nibbles.
pub open spec fn hover_bin(value: nat, bits: nat) -> Seq<char> {
    "bin %"@ + group_from(crate::chars::spec_render(value, 2, bits, false), 4, 0)
}

/// The two bytes of a 16-bit value.
pub open spec fn hover_word_bytes(value: nat) -> Seq<char> {
    let lo = value % 256;
    let hi = value / 256;
    "lo $"@ + crate::chars::spec_render(lo, 16, 2, true) + " · hi $"@ + crate::chars::spec_render(
        hi,
        16,
        2,
        true,
    ) + " · swap $"@ + crate::chars::spec_render(lo * 256 + hi, 16, 4, true)
}

/// The four little-endian bytes of a 32-bit value.
pub open spec fn hover_dword_bytes(value: nat) -> Seq<char> {
    "bytes "@ + crate::chars::spec_render(value % 256, 16, 2, true) + " "@
        + crate::chars::spec_render((value / 256) % 256, 16, 2, true) + " "@
        + crate::chars::spec_render((value / 65536) % 256, 16, 2, true) + " "@
        + crate::chars::spec_render((value / 16777216) % 256, 16, 2, true) + " (le)"@
}

/// The lines of the number float for a value written in `radix`.
pub open spec fn hover_lines(word: Seq<char>, value: nat, bits: nat) -> Seq<Seq<char>> {
    let base = seq![hover_head(word, bits), hover_values(value, bits)];
    let with_bin = if bits <= 32 {
        base.push(hover_bin(value, bits))
    } else {
        base
    };
    if bits == 16 {
        with_bin.push(hover_word_bytes(value))
    } else if bits == 32 {
        with_bin.push(hover_dword_bytes(value))
    } else {
        with_bin
    }
}

/// The lines of the number float.
pub open spec fn spec_number_hover(word: Seq<char>) -> Option<Seq<Seq<char>>> {
    match spec_parse_number(word) {
        None => None,
        Some((value, radix)) => Some(
            hover_lines(word, value, spec_bits_for(value, written_digits(word).len(), radix)),
        ),
    }
}

/// Law of the number float: the register width chosen holds the value;
/// the signed view is shown exactly when the register's top bit is set,
/// and is then the value less `2^bits`; binary is shown up to 32 bits,
/// the two bytes of a 16-bit value (high byte below 256) and the four of
/// a 32-bit one.
pub proof fn lemma_number_hover_law(word: Seq<char>)
    requires
        spec_parse_number(word) is Some,
    ensures
        ({
            let (value, radix) = spec_parse_number(word)->0;
            let bits = spec_bits_for(value, written_digits(word).len(), radix);
            let m = vstd::arithmetic::power2::pow2(bits);
            let lines = spec_number_hover(word)->0;
            &&& value < m
            &&& value * 2 >= m ==> signed_view(value, bits) == value - m && signed_view(value, bits) < 0
            &&& value * 2 < m ==> signed_view(value, bits) == value
            &&& lines.len() == (if bits <= 32 {
                3int
            } else {
                2int
            }) + (if bits == 16 || bits == 32 {
                1int
            } else {
                0int
            })
            &&& lines[0] == hover_head(word, bits)
            &&& lines[1] == hover_values(value, bits)
            &&& bits <= 32 ==> lines[2] == hover_bin(value, bits)
            &&& bits == 16 ==> lines[3] == hover_word_bytes(value) && value / 256 < 256 && value == (value
                / 256) * 256 + value % 256
            &&& bits == 32 ==> lines[3] == hover_dword_bytes(value)
        }),
{
    let (value, radix) = spec_parse_number(word)->0;
    let bits = spec_bits_for(value, written_digits(word).len(), radix);
    let m = vstd::arithmetic::power2::pow2(bits);
    vstd::arithmetic::power2::lemma2_to64();
    vstd::arithmetic::power2::lemma2_to64_rest();
    assert(value <= u64::MAX);
    lemma_bit_len_le(value, 64);
    lemma_bits_for_law(value, written_digits(word).len(), radix);
    lemma_bit_len_bound(value);
    if bit_len(value) < bits {
        vstd::arithmetic::power2::lemma_pow2_strictly_increases(bit_len(value), bits);
    }
    assert(value < m);
    vstd::arithmetic::div_mod::lemma_small_mod(value, m);
    assert((value as int) % (m as int) == value);
}

/// The number float: every base at once, signed views, byte anatomy.
#[verifier::spinoff_prover]
#[verifier::rlimit(60)]
pub fn number_hover(word: &str) -> (r: Option<Vec<String>>)
    requires
        word@.len() < 0x4000_0000,
    ensures
        match (r, spec_number_hover(word@)) {
            (Some(v), Some(t)) => v@.map_values(|l: String| l@) == t,
            (None, None) => true,
            _ => false,
        },
{
    let w = chars_of(word);
    let (value, radix) = match parse_number(w.as_slice()) {
        Some(p) => p,
        None => return None,
    };
    let d1 = trim_start_sigils_chars(w.as_slice());
    let d2 = crate::chars::trim_start_matches_chars(d1.as_slice(), "0x");
    let d3 = crate::chars::trim_start_matches_chars(d2.as_slice(), "0X");
    let d4 = crate::chars::trim_start_matches_chars(d3.as_slice(), "0b");
    let d5 = crate::chars::trim_start_matches_chars(d4.as_slice(), "0B");
    let bits = bits_for(value, d5.len(), radix);
    let ghost sbits = bits as nat;
    proof {
        let sp = spec_parse_number(w@)->0;
        assert(sp.0 <= u64::MAX);
        assert(sp.0 == value as nat && sp.1 == radix as nat);
        assert(d5@ == written_digits(word@));
        assert(sbits == spec_bits_for(sp.0, written_digits(word@).len(), sp.1));
    }
    proof {
        vstd::arithmetic::power2::lemma2_to64();
        lemma_bit_len_bound(value as nat);
        if bit_len(value as nat) < sbits {
            vstd::arithmetic::power2::lemma_pow2_strictly_increases(bit_len(value as nat), sbits);
        }
    }
    let m: i128 = if bits == 8 {
        256
    } else if bits == 16 {
        65536
    } else if bits == 32 {
        4294967296
    } else {
        18446744073709551616
    };
    assert(m == vstd::arithmetic::power2::pow2(sbits));
    let vi = value as i128;
    assert(vi < m);
    let signed: i128 = if vi * 2 >= m {
        vi - m
    } else {
        vi
    };
    assert((vi as int) % (m as int) == vi) by (nonlinear_arith)
        requires
            0 <= vi < m,
    ;
    assert(signed == signed_view(value as nat, sbits));
    let mut out: Vec<String> = Vec::new();
    let mut l0 = String::new();
    crate::chars::push_str(&mut l0, word);
    crate::chars::push_str(&mut l0, " — ");
    crate::chars::push_dec(&mut l0, bits as u128);
    crate::chars::push_str(&mut l0, "-bit");
    assert(l0@ =~= hover_head(word@, sbits));
    out.push(l0);
    let mut l1 = String::new();
    crate::chars::push_str(&mut l1, "hex $");
    crate::chars::push_render(&mut l1, value as u128, 16, (bits / 4) as usize, true);
    crate::chars::push_str(&mut l1, " · dec ");
    crate::chars::push_dec(&mut l1, value as u128);
    if signed < 0 {
        crate::chars::push_str(&mut l1, " · i");
        crate::chars::push_dec(&mut l1, bits as u128);
        crate::chars::push_str(&mut l1, " ");
        crate::chars::push_dec_i128(&mut l1, signed);
    }
    assert(l1@ =~= hover_values(value as nat, sbits));
    out.push(l1);
    if bits <= 32 {
        let b = crate::chars::render(value as u128, 2, bits as usize, false);
        let g = group(b.as_slice(), 4);
        let mut l2 = String::new();
        crate::chars::push_str(&mut l2, "bin %");
        crate::chars::push_chars(&mut l2, g.as_slice());
        assert(l2@ =~= hover_bin(value as nat, sbits));
        out.push(l2);
    }
    let lo = (value % 256) as u128;
    let hi = (value / 256) as u128;
    if bits == 16 {
        let mut l3 = String::new();
        crate::chars::push_str(&mut l3, "lo $");
        crate::chars::push_render(&mut l3, lo, 16, 2, true);
        crate::chars::push_str(&mut l3, " · hi $");
        crate::chars::push_render(&mut l3, hi, 16, 2, true);
        crate::chars::push_str(&mut l3, " · swap $");
        crate::chars::push_render(&mut l3, lo * 256 + hi, 16, 4, true);
        assert(l3@ =~= hover_word_bytes(value as nat));
        out.push(l3);
    } else if bits == 32 {
        let mut l3 = String::new();
        crate::chars::push_str(&mut l3, "bytes ");
        crate::chars::push_render(&mut l3, (value % 256) as u128, 16, 2, true);
        crate::chars::push_str(&mut l3, " ");
        crate::chars::push_render(&mut l3, ((value / 256) % 256) as u128, 16, 2, true);
        crate::chars::push_str(&mut l3, " ");
        crate::chars::push_render(&mut l3, ((value / 65536) % 256) as u128, 16, 2, true);
        crate::chars::push_str(&mut l3, " ");
        crate::chars::push_render(&mut l3, ((value / 16777216) % 256) as u128, 16, 2, true);
        crate::chars::push_str(&mut l3, " (le)");
        assert(l3@ =~= hover_dword_bytes(value as nat));
        out.push(l3);
    }
    assert(out@.map_values(|l: String| l@) =~= hover_lines(word@, value as nat, sbits));
    Some(out)
}


// ----------------------------------------------------------------------
// 6502 / 65C02 opcode knowledge
// ----------------------------------------------------------------------

#[derive(Clone, Copy, PartialEq, Eq, Structural, Debug)]
pub enum Mode {
    Imp,
    Acc,
    Imm,
    Zp,
    ZpX,
    ZpY,
    Abs,
    AbsX,
    AbsY,
    IndX,
    IndY,
    ZpInd,
    Ind,
    IndAbsX,
    Rel,
    ZpRel,
}

impl Mode {
    /// Encoded instruction length in bytes.
    pub open spec fn spec_bytes(self) -> nat {
        match self {
            Mode::Imp => 1,
            Mode::Acc => 1,
            Mode::Imm => 2,
            Mode::Zp => 2,
            Mode::ZpX => 2,
            Mode::ZpY => 2,
            Mode::Abs => 3,
            Mode::AbsX => 3,
            Mode::AbsY => 3,
            Mode::IndX => 2,
            Mode::IndY => 2,
            Mode::ZpInd => 2,
            Mode::Ind => 3,
            Mode::IndAbsX => 3,
            Mode::Rel => 2,
            Mode::ZpRel => 3,
        }
    }

    /// The addressing mode's notation.
    pub open spec fn spec_label(self) -> Seq<char> {
        match self {
            Mode::Imp => "implied"@,
            Mode::Acc => "accumulator"@,
            Mode::Imm => "#imm"@,
            Mode::Zp => "zp"@,
            Mode::ZpX => "zp,X"@,
            Mode::ZpY => "zp,Y"@,
            Mode::Abs => "abs"@,
            Mode::AbsX => "abs,X"@,
            Mode::AbsY => "abs,Y"@,
            Mode::IndX => "(zp,X)"@,
            Mode::IndY => "(zp),Y"@,
            Mode::ZpInd => "(zp)"@,
            Mode::Ind => "(abs)"@,
            Mode::IndAbsX => "(abs,X)"@,
            Mode::Rel => "relative"@,
            Mode::ZpRel => "zp,rel"@,
        }
    }

    fn bytes(self) -> (b: u8)
        ensures
            b == self.spec_bytes(),
    {
        match self {
            Mode::Imp => 1,
            Mode::Acc => 1,
            Mode::Imm => 2,
            Mode::Zp => 2,
            Mode::ZpX => 2,
            Mode::ZpY => 2,
            Mode::Abs => 3,
            Mode::AbsX => 3,
            Mode::AbsY => 3,
            Mode::IndX => 2,
            Mode::IndY => 2,
            Mode::ZpInd => 2,
            Mode::Ind => 3,
            Mode::IndAbsX => 3,
            Mode::Rel => 2,
            Mode::ZpRel => 3,
        }
    }

    fn label(self) -> (l: &'static str)
        ensures
            l@ == self.spec_label(),
    {
        match self {
            Mode::Imp => "implied",
            Mode::Acc => "accumulator",
            Mode::Imm => "#imm",
            Mode::Zp => "zp",
            Mode::ZpX => "zp,X",
            Mode::ZpY => "zp,Y",
            Mode::Abs => "abs",
            Mode::AbsX => "abs,X",
            Mode::AbsY => "abs,Y",
            Mode::IndX => "(zp,X)",
            Mode::IndY => "(zp),Y",
            Mode::ZpInd => "(zp)",
            Mode::Ind => "(abs)",
            Mode::IndAbsX => "(abs,X)",
            Mode::Rel => "relative",
            Mode::ZpRel => "zp,rel",
        }
    }
}

/// One (mnemonic, mode) row: 65C02 cycles, +1-if-page-crossed flag, NMOS
/// cycles where they differ, CMOS-only marker, branch-penalty marker.
#[derive(Clone, Copy, PartialEq, Eq, Debug)]
pub struct Op {
    pub mode: Mode,
    pub cyc: u8,
    pub page: bool,
    pub nmos: Option<u8>,
    pub cmos_only: bool,
    pub branch: bool,
}

pub open spec fn op(mode: Mode, cyc: u8) -> Op {
    Op { mode, cyc, page: false, nmos: None, cmos_only: false, branch: false }
}

pub open spec fn pg(o: Op) -> Op {
    Op { page: true, ..o }
}

pub open spec fn nm(o: Op, c: u8) -> Op {
    Op { nmos: Some(c), ..o }
}

pub open spec fn cm(o: Op) -> Op {
    Op { cmos_only: true, ..o }
}

pub open spec fn br(o: Op) -> Op {
    Op { branch: true, ..o }
}

fn mk_op(mode: Mode, cyc: u8) -> (o: Op)
    ensures
        o == op(mode, cyc),
{
    Op { mode, cyc, page: false, nmos: None, cmos_only: false, branch: false }
}

fn mk_pg(o: Op) -> (r: Op)
    ensures
        r == pg(o),
{
    Op { page: true, ..o }
}

fn mk_nm(o: Op, c: u8) -> (r: Op)
    ensures
        r == nm(o, c),
{
    Op { nmos: Some(c), ..o }
}

fn mk_cm(o: Op) -> (r: Op)
    ensures
        r == cm(o),
{
    Op { cmos_only: true, ..o }
}

fn mk_br(o: Op) -> (r: Op)
    ensures
        r == br(o),
{
    Op { branch: true, ..o }
}

pub open spec fn load_shape() -> Seq<Op> {
    seq![op(Mode::Imm, 2), op(Mode::Zp, 3), op(Mode::ZpX, 4), op(Mode::Abs, 4), pg(op(Mode::AbsX, 4)), pg(op(Mode::AbsY, 4)), op(Mode::IndX, 6), pg(op(Mode::IndY, 5)), cm(op(Mode::ZpInd, 5))]
}

fn load_shape_vec() -> (v: Vec<Op>)
    ensures
        v@ == load_shape(),
{
    let mut v: Vec<Op> = Vec::new();
    v.push(mk_op(Mode::Imm, 2));
    v.push(mk_op(Mode::Zp, 3));
    v.push(mk_op(Mode::ZpX, 4));
    v.push(mk_op(Mode::Abs, 4));
    v.push(mk_pg(mk_op(Mode::AbsX, 4)));
    v.push(mk_pg(mk_op(Mode::AbsY, 4)));
    v.push(mk_op(Mode::IndX, 6));
    v.push(mk_pg(mk_op(Mode::IndY, 5)));
    v.push(mk_cm(mk_op(Mode::ZpInd, 5)));
    assert(v@ =~= load_shape());
    v
}

pub open spec fn rmw_shape() -> Seq<Op> {
    seq![cm(op(Mode::Acc, 2)), op(Mode::Zp, 5), op(Mode::ZpX, 6), op(Mode::Abs, 6), op(Mode::AbsX, 7)]
}

fn rmw_shape_vec() -> (v: Vec<Op>)
    ensures
        v@ == rmw_shape(),
{
    let mut v: Vec<Op> = Vec::new();
    v.push(mk_cm(mk_op(Mode::Acc, 2)));
    v.push(mk_op(Mode::Zp, 5));
    v.push(mk_op(Mode::ZpX, 6));
    v.push(mk_op(Mode::Abs, 6));
    v.push(mk_op(Mode::AbsX, 7));
    assert(v@ =~= rmw_shape());
    v
}

pub open spec fn shift_shape() -> Seq<Op> {
    seq![op(Mode::Acc, 2), op(Mode::Zp, 5), op(Mode::ZpX, 6), op(Mode::Abs, 6), nm(pg(op(Mode::AbsX, 6)), 7)]
}

fn shift_shape_vec() -> (v: Vec<Op>)
    ensures
        v@ == shift_shape(),
{
    let mut v: Vec<Op> = Vec::new();
    v.push(mk_op(Mode::Acc, 2));
    v.push(mk_op(Mode::Zp, 5));
    v.push(mk_op(Mode::ZpX, 6));
    v.push(mk_op(Mode::Abs, 6));
    v.push(mk_nm(mk_pg(mk_op(Mode::AbsX, 6)), 7));
    assert(v@ =~= shift_shape());
    v
}

pub open spec fn branch_shape() -> Seq<Op> {
    seq![br(op(Mode::Rel, 2))]
}

fn branch_shape_vec() -> (v: Vec<Op>)
    ensures
        v@ == branch_shape(),
{
    let mut v: Vec<Op> = Vec::new();
    v.push(mk_br(mk_op(Mode::Rel, 2)));
    assert(v@ =~= branch_shape());
    v
}

pub open spec fn imp2() -> Seq<Op> {
    seq![op(Mode::Imp, 2)]
}

fn imp2_vec() -> (v: Vec<Op>)
    ensures
        v@ == imp2(),
{
    let mut v: Vec<Op> = Vec::new();
    v.push(mk_op(Mode::Imp, 2));
    assert(v@ =~= imp2());
    v
}

pub open spec fn ldx_ops() -> Seq<Op> {
    seq![op(Mode::Imm, 2), op(Mode::Zp, 3), op(Mode::ZpY, 4), op(Mode::Abs, 4), pg(op(Mode::AbsY, 4))]
}

fn ldx_ops_vec() -> (v: Vec<Op>)
    ensures
        v@ == ldx_ops(),
{
    let mut v: Vec<Op> = Vec::new();
    v.push(mk_op(Mode::Imm, 2));
    v.push(mk_op(Mode::Zp, 3));
    v.push(mk_op(Mode::ZpY, 4));
    v.push(mk_op(Mode::Abs, 4));
    v.push(mk_pg(mk_op(Mode::AbsY, 4)));
    assert(v@ =~= ldx_ops());
    v
}

pub open spec fn ldy_ops() -> Seq<Op> {
    seq![op(Mode::Imm, 2), op(Mode::Zp, 3), op(Mode::ZpX, 4), op(Mode::Abs, 4), pg(op(Mode::AbsX, 4))]
}

fn ldy_ops_vec() -> (v: Vec<Op>)
    ensures
        v@ == ldy_ops(),
{
    let mut v: Vec<Op> = Vec::new();
    v.push(mk_op(Mode::Imm, 2));
    v.push(mk_op(Mode::Zp, 3));
    v.push(mk_op(Mode::ZpX, 4));
    v.push(mk_op(Mode::Abs, 4));
    v.push(mk_pg(mk_op(Mode::AbsX, 4)));
    assert(v@ =~= ldy_ops());
    v
}

pub open spec fn sta_ops() -> Seq<Op> {
    seq![op(Mode::Zp, 3), op(Mode::ZpX, 4), op(Mode::Abs, 4), op(Mode::AbsX, 5), op(Mode::AbsY, 5), op(Mode::IndX, 6), op(Mode::IndY, 6), cm(op(Mode::ZpInd, 5))]
}

fn sta_ops_vec() -> (v: Vec<Op>)
    ensures
        v@ == sta_ops(),
{
    let mut v: Vec<Op> = Vec::new();
    v.push(mk_op(Mode::Zp, 3));
    v.push(mk_op(Mode::ZpX, 4));
    v.push(mk_op(Mode::Abs, 4));
    v.push(mk_op(Mode::AbsX, 5));
    v.push(mk_op(Mode::AbsY, 5));
    v.push(mk_op(Mode::IndX, 6));
    v.push(mk_op(Mode::IndY, 6));
    v.push(mk_cm(mk_op(Mode::ZpInd, 5)));
    assert(v@ =~= sta_ops());
    v
}

pub open spec fn stx_ops() -> Seq<Op> {
    seq![op(Mode::Zp, 3), op(Mode::ZpY, 4), op(Mode::Abs, 4)]
}

fn stx_ops_vec() -> (v: Vec<Op>)
    ensures
        v@ == stx_ops(),
{
    let mut v: Vec<Op> = Vec::new();
    v.push(mk_op(Mode::Zp, 3));
    v.push(mk_op(Mode::ZpY, 4));
    v.push(mk_op(Mode::Abs, 4));
    assert(v@ =~= stx_ops());
    v
}

pub open spec fn sty_ops() -> Seq<Op> {
    seq![op(Mode::Zp, 3), op(Mode::ZpX, 4), op(Mode::Abs, 4)]
}

fn sty_ops_vec() -> (v: Vec<Op>)
    ensures
        v@ == sty_ops(),
{
    let mut v: Vec<Op> = Vec::new();
    v.push(mk_op(Mode::Zp, 3));
    v.push(mk_op(Mode::ZpX, 4));
    v.push(mk_op(Mode::Abs, 4));
    assert(v@ =~= sty_ops());
    v
}

pub open spec fn stz_ops() -> Seq<Op> {
    seq![cm(op(Mode::Zp, 3)), cm(op(Mode::ZpX, 4)), cm(op(Mode::Abs, 4)), cm(op(Mode::AbsX, 5))]
}

fn stz_ops_vec() -> (v: Vec<Op>)
    ensures
        v@ == stz_ops(),
{
    let mut v: Vec<Op> = Vec::new();
    v.push(mk_cm(mk_op(Mode::Zp, 3)));
    v.push(mk_cm(mk_op(Mode::ZpX, 4)));
    v.push(mk_cm(mk_op(Mode::Abs, 4)));
    v.push(mk_cm(mk_op(Mode::AbsX, 5)));
    assert(v@ =~= stz_ops());
    v
}

pub open spec fn cpxy_ops() -> Seq<Op> {
    seq![op(Mode::Imm, 2), op(Mode::Zp, 3), op(Mode::Abs, 4)]
}

fn cpxy_ops_vec() -> (v: Vec<Op>)
    ensures
        v@ == cpxy_ops(),
{
    let mut v: Vec<Op> = Vec::new();
    v.push(mk_op(Mode::Imm, 2));
    v.push(mk_op(Mode::Zp, 3));
    v.push(mk_op(Mode::Abs, 4));
    assert(v@ =~= cpxy_ops());
    v
}

pub open spec fn bit_ops() -> Seq<Op> {
    seq![op(Mode::Zp, 3), op(Mode::Abs, 4), cm(op(Mode::Imm, 2)), cm(op(Mode::ZpX, 4)), cm(pg(op(Mode::AbsX, 4)))]
}

fn bit_ops_vec() -> (v: Vec<Op>)
    ensures
        v@ == bit_ops(),
{
    let mut v: Vec<Op> = Vec::new();
    v.push(mk_op(Mode::Zp, 3));
    v.push(mk_op(Mode::Abs, 4));
    v.push(mk_cm(mk_op(Mode::Imm, 2)));
    v.push(mk_cm(mk_op(Mode::ZpX, 4)));
    v.push(mk_cm(mk_pg(mk_op(Mode::AbsX, 4))));
    assert(v@ =~= bit_ops());
    v
}

pub open spec fn trb_ops() -> Seq<Op> {
    seq![cm(op(Mode::Zp, 5)), cm(op(Mode::Abs, 6))]
}

fn trb_ops_vec() -> (v: Vec<Op>)
    ensures
        v@ == trb_ops(),
{
    let mut v: Vec<Op> = Vec::new();
    v.push(mk_cm(mk_op(Mode::Zp, 5)));
    v.push(mk_cm(mk_op(Mode::Abs, 6)));
    assert(v@ =~= trb_ops());
    v
}

pub open spec fn bra_ops() -> Seq<Op> {
    seq![cm(pg(op(Mode::Rel, 3)))]
}

fn bra_ops_vec() -> (v: Vec<Op>)
    ensures
        v@ == bra_ops(),
{
    let mut v: Vec<Op> = Vec::new();
    v.push(mk_cm(mk_pg(mk_op(Mode::Rel, 3))));
    assert(v@ =~= bra_ops());
    v
}

pub open spec fn jmp_ops() -> Seq<Op> {
    seq![op(Mode::Abs, 3), nm(op(Mode::Ind, 6), 5), cm(op(Mode::IndAbsX, 6))]
}

fn jmp_ops_vec() -> (v: Vec<Op>)
    ensures
        v@ == jmp_ops(),
{
    let mut v: Vec<Op> = Vec::new();
    v.push(mk_op(Mode::Abs, 3));
    v.push(mk_nm(mk_op(Mode::Ind, 6), 5));
    v.push(mk_cm(mk_op(Mode::IndAbsX, 6)));
    assert(v@ =~= jmp_ops());
    v
}

pub open spec fn jsr_ops() -> Seq<Op> {
    seq![op(Mode::Abs, 6)]
}

fn jsr_ops_vec() -> (v: Vec<Op>)
    ensures
        v@ == jsr_ops(),
{
    let mut v: Vec<Op> = Vec::new();
    v.push(mk_op(Mode::Abs, 6));
    assert(v@ =~= jsr_ops());
    v
}

pub open spec fn ret_ops() -> Seq<Op> {
    seq![op(Mode::Imp, 6)]
}

fn ret_ops_vec() -> (v: Vec<Op>)
    ensures
        v@ == ret_ops(),
{
    let mut v: Vec<Op> = Vec::new();
    v.push(mk_op(Mode::Imp, 6));
    assert(v@ =~= ret_ops());
    v
}

pub open spec fn brk_ops() -> Seq<Op> {
    seq![op(Mode::Imp, 7)]
}

fn brk_ops_vec() -> (v: Vec<Op>)
    ensures
        v@ == brk_ops(),
{
    let mut v: Vec<Op> = Vec::new();
    v.push(mk_op(Mode::Imp, 7));
    assert(v@ =~= brk_ops());
    v
}

pub open spec fn push_ops() -> Seq<Op> {
    seq![op(Mode::Imp, 3)]
}

fn push_ops_vec() -> (v: Vec<Op>)
    ensures
        v@ == push_ops(),
{
    let mut v: Vec<Op> = Vec::new();
    v.push(mk_op(Mode::Imp, 3));
    assert(v@ =~= push_ops());
    v
}

pub open spec fn pull_ops() -> Seq<Op> {
    seq![op(Mode::Imp, 4)]
}

fn pull_ops_vec() -> (v: Vec<Op>)
    ensures
        v@ == pull_ops(),
{
    let mut v: Vec<Op> = Vec::new();
    v.push(mk_op(Mode::Imp, 4));
    assert(v@ =~= pull_ops());
    v
}

pub open spec fn push_c_ops() -> Seq<Op> {
    seq![cm(op(Mode::Imp, 3))]
}

fn push_c_ops_vec() -> (v: Vec<Op>)
    ensures
        v@ == push_c_ops(),
{
    let mut v: Vec<Op> = Vec::new();
    v.push(mk_cm(mk_op(Mode::Imp, 3)));
    assert(v@ =~= push_c_ops());
    v
}

pub open spec fn pull_c_ops() -> Seq<Op> {
    seq![cm(op(Mode::Imp, 4))]
}

fn pull_c_ops_vec() -> (v: Vec<Op>)
    ensures
        v@ == pull_c_ops(),
{
    let mut v: Vec<Op> = Vec::new();
    v.push(mk_cm(mk_op(Mode::Imp, 4)));
    assert(v@ =~= pull_c_ops());
    v
}

pub open spec fn wai_ops() -> Seq<Op> {
    seq![cm(op(Mode::Imp, 3))]
}

fn wai_ops_vec() -> (v: Vec<Op>)
    ensures
        v@ == wai_ops(),
{
    let mut v: Vec<Op> = Vec::new();
    v.push(mk_cm(mk_op(Mode::Imp, 3)));
    assert(v@ =~= wai_ops());
    v
}

pub open spec fn rmb_shape() -> Seq<Op> {
    seq![cm(op(Mode::Zp, 5))]
}

fn rmb_shape_vec() -> (v: Vec<Op>)
    ensures
        v@ == rmb_shape(),
{
    let mut v: Vec<Op> = Vec::new();
    v.push(mk_cm(mk_op(Mode::Zp, 5)));
    assert(v@ =~= rmb_shape());
    v
}

pub open spec fn bbr_shape() -> Seq<Op> {
    seq![cm(br(op(Mode::ZpRel, 5)))]
}

fn bbr_shape_vec() -> (v: Vec<Op>)
    ensures
        v@ == bbr_shape(),
{
    let mut v: Vec<Op> = Vec::new();
    v.push(mk_cm(mk_br(mk_op(Mode::ZpRel, 5))));
    assert(v@ =~= bbr_shape());
    v
}

/// The rows of an (uppercased) mnemonic in the main table.
pub open spec fn table_ops(m: Seq<char>) -> Option<Seq<Op>> {
    if m == "LDA"@ || m == "AND"@ || m == "ORA"@ || m == "EOR"@ || m == "CMP"@ || m == "ADC"@ || m == "SBC"@ {
        Some(load_shape())
    } else if m == "LDX"@ {
        Some(ldx_ops())
    } else if m == "LDY"@ {
        Some(ldy_ops())
    } else if m == "STA"@ {
        Some(sta_ops())
    } else if m == "STX"@ {
        Some(stx_ops())
    } else if m == "STY"@ {
        Some(sty_ops())
    } else if m == "STZ"@ {
        Some(stz_ops())
    } else if m == "CPX"@ || m == "CPY"@ {
        Some(cpxy_ops())
    } else if m == "BIT"@ {
        Some(bit_ops())
    } else if m == "TRB"@ || m == "TSB"@ {
        Some(trb_ops())
    } else if m == "INC"@ || m == "DEC"@ {
        Some(rmw_shape())
    } else if m == "INX"@ || m == "INY"@ || m == "DEX"@ || m == "DEY"@ {
        Some(imp2())
    } else if m == "ASL"@ || m == "LSR"@ || m == "ROL"@ || m == "ROR"@ {
        Some(shift_shape())
    } else if m == "BCC"@ || m == "BCS"@ || m == "BEQ"@ || m == "BNE"@ || m == "BMI"@ || m == "BPL"@ || m == "BVC"@ || m == "BVS"@ {
        Some(branch_shape())
    } else if m == "BRA"@ {
        Some(bra_ops())
    } else if m == "JMP"@ {
        Some(jmp_ops())
    } else if m == "JSR"@ {
        Some(jsr_ops())
    } else if m == "RTS"@ || m == "RTI"@ {
        Some(ret_ops())
    } else if m == "BRK"@ {
        Some(brk_ops())
    } else if m == "PHA"@ || m == "PHP"@ {
        Some(push_ops())
    } else if m == "PLA"@ || m == "PLP"@ {
        Some(pull_ops())
    } else if m == "PHX"@ || m == "PHY"@ {
        Some(push_c_ops())
    } else if m == "PLX"@ || m == "PLY"@ {
        Some(pull_c_ops())
    } else if m == "TAX"@ || m == "TAY"@ || m == "TXA"@ || m == "TYA"@ || m == "TSX"@ || m == "TXS"@ {
        Some(imp2())
    } else if m == "CLC"@ || m == "SEC"@ || m == "CLI"@ || m == "SEI"@ || m == "CLD"@ || m == "SED"@ || m == "CLV"@ {
        Some(imp2())
    } else if m == "NOP"@ {
        Some(imp2())
    } else if m == "WAI"@ || m == "STP"@ {
        Some(wai_ops())
    } else {
        None
    }
}

/// A bit number: `0` to `7`.
pub open spec fn spec_bit_digit(c: char) -> bool {
    '0' <= c <= '7'
}

fn is_bit_digit(c: char) -> (b: bool)
    ensures
        b == spec_bit_digit(c),
{
    match c {
        '0' | '1' | '2' | '3' | '4' | '5' | '6' | '7' => true,
        _ => false,
    }
}

/// The rows for a mnemonic (case-insensitive); `RMB0`–`SMB7` and
/// `BBR0`–`BBS7` resolve by prefix (bit numbers 0 to 7 only).
pub open spec fn spec_ops_for(mnemonic: Seq<char>) -> Option<Seq<Op>> {
    let m = crate::chars::upper_seq(mnemonic);
    if m.len() == 4 && spec_bit_digit(m[3]) && (m.take(3) == "RMB"@ || m.take(3)
        == "SMB"@) {
        Some(rmb_shape())
    } else if m.len() == 4 && spec_bit_digit(m[3]) && (m.take(3) == "BBR"@
        || m.take(3) == "BBS"@) {
        Some(bbr_shape())
    } else {
        table_ops(m)
    }
}

/// Mnemonics resolve case-insensitively: a mnemonic and its upper-case
/// spelling give the same row.
pub proof fn lemma_ops_for_ignores_case(m: Seq<char>)
    ensures
        spec_ops_for(m) == spec_ops_for(crate::chars::upper_seq(m)),
{
    let u = crate::chars::upper_seq(m);
    assert forall|i: int| 0 <= i < u.len() implies crate::chars::spec_upper(#[trigger] u[i]) == u[i] by {
        let c = m[i];
        if crate::chars::spec_ascii_lower(c) {
            assert(!crate::chars::spec_ascii_lower(((c as u32) - 32) as char));
        }
    };
    assert(crate::chars::upper_seq(u) =~= u);
}

fn table_ops_vec(m: &[char]) -> (r: Option<Vec<Op>>)
    ensures
        match (r, table_ops(m@)) {
            (Some(v), Some(t)) => v@ == t,
            (None, None) => true,
            _ => false,
        },
{
    if crate::chars::eq_str(m, "LDA") || crate::chars::eq_str(m, "AND") || crate::chars::eq_str(m, "ORA") || crate::chars::eq_str(m, "EOR") || crate::chars::eq_str(m, "CMP") || crate::chars::eq_str(m, "ADC") || crate::chars::eq_str(m, "SBC") {
        Some(load_shape_vec())
    } else if crate::chars::eq_str(m, "LDX") {
        Some(ldx_ops_vec())
    } else if crate::chars::eq_str(m, "LDY") {
        Some(ldy_ops_vec())
    } else if crate::chars::eq_str(m, "STA") {
        Some(sta_ops_vec())
    } else if crate::chars::eq_str(m, "STX") {
        Some(stx_ops_vec())
    } else if crate::chars::eq_str(m, "STY") {
        Some(sty_ops_vec())
    } else if crate::chars::eq_str(m, "STZ") {
        Some(stz_ops_vec())
    } else if crate::chars::eq_str(m, "CPX") || crate::chars::eq_str(m, "CPY") {
        Some(cpxy_ops_vec())
    } else if crate::chars::eq_str(m, "BIT") {
        Some(bit_ops_vec())
    } else if crate::chars::eq_str(m, "TRB") || crate::chars::eq_str(m, "TSB") {
        Some(trb_ops_vec())
    } else if crate::chars::eq_str(m, "INC") || crate::chars::eq_str(m, "DEC") {
        Some(rmw_shape_vec())
    } else if crate::chars::eq_str(m, "INX") || crate::chars::eq_str(m, "INY") || crate::chars::eq_str(m, "DEX") || crate::chars::eq_str(m, "DEY") {
        Some(imp2_vec())
    } else if crate::chars::eq_str(m, "ASL") || crate::chars::eq_str(m, "LSR") || crate::chars::eq_str(m, "ROL") || crate::chars::eq_str(m, "ROR") {
        Some(shift_shape_vec())
    } else if crate::chars::eq_str(m, "BCC") || crate::chars::eq_str(m, "BCS") || crate::chars::eq_str(m, "BEQ") || crate::chars::eq_str(m, "BNE") || crate::chars::eq_str(m, "BMI") || crate::chars::eq_str(m, "BPL") || crate::chars::eq_str(m, "BVC") || crate::chars::eq_str(m, "BVS") {
        Some(branch_shape_vec())
    } else if crate::chars::eq_str(m, "BRA") {
        Some(bra_ops_vec())
    } else if crate::chars::eq_str(m, "JMP") {
        Some(jmp_ops_vec())
    } else if crate::chars::eq_str(m, "JSR") {
        Some(jsr_ops_vec())
    } else if crate::chars::eq_str(m, "RTS") || crate::chars::eq_str(m, "RTI") {
        Some(ret_ops_vec())
    } else if crate::chars::eq_str(m, "BRK") {
        Some(brk_ops_vec())
    } else if crate::chars::eq_str(m, "PHA") || crate::chars::eq_str(m, "PHP") {
        Some(push_ops_vec())
    } else if crate::chars::eq_str(m, "PLA") || crate::chars::eq_str(m, "PLP") {
        Some(pull_ops_vec())
    } else if crate::chars::eq_str(m, "PHX") || crate::chars::eq_str(m, "PHY") {
        Some(push_c_ops_vec())
    } else if crate::chars::eq_str(m, "PLX") || crate::chars::eq_str(m, "PLY") {
        Some(pull_c_ops_vec())
    } else if crate::chars::eq_str(m, "TAX") || crate::chars::eq_str(m, "TAY") || crate::chars::eq_str(m, "TXA") || crate::chars::eq_str(m, "TYA") || crate::chars::eq_str(m, "TSX") || crate::chars::eq_str(m, "TXS") {
        Some(imp2_vec())
    } else if crate::chars::eq_str(m, "CLC") || crate::chars::eq_str(m, "SEC") || crate::chars::eq_str(m, "CLI") || crate::chars::eq_str(m, "SEI") || crate::chars::eq_str(m, "CLD") || crate::chars::eq_str(m, "SED") || crate::chars::eq_str(m, "CLV") {
        Some(imp2_vec())
    } else if crate::chars::eq_str(m, "NOP") {
        Some(imp2_vec())
    } else if crate::chars::eq_str(m, "WAI") || crate::chars::eq_str(m, "STP") {
        Some(wai_ops_vec())
    } else {
        None
    }
}

/// Whether `m[..3]` spells `p` (three ASCII chars).
fn head3_is(m: &[char], p: &str) -> (b: bool)
    requires
        m@.len() >= 3,
    ensures
        b == (m@.take(3) == p@),
{
    let h = slice_vec(m, 0, 3);
    assert(h@ =~= m@.take(3));
    crate::chars::eq_str(h.as_slice(), p)
}

/// The table. Mnemonics resolve case-insensitively; `RMB0`–`SMB7` and
/// `BBR0`–`BBS7` resolve by prefix.
pub fn ops_for(mnemonic: &str) -> (r: Option<Vec<Op>>)
    requires
        crate::chars::utf8_size(mnemonic@) == 4 ==> exists|k: int|
            0 <= k <= mnemonic@.len() && crate::chars::utf8_size(#[trigger] mnemonic@.take(k)) == 3,
    ensures
        match (r, spec_ops_for(mnemonic@)) {
            (Some(v), Some(t)) => v@ == t,
            (None, None) => true,
            _ => false,
        },
{
    let raw = chars_of(mnemonic);
    let m = upper_chars(raw.as_slice());
    if m.len() == 4 && is_bit_digit(m[3]) {
        if head3_is(m.as_slice(), "RMB") || head3_is(m.as_slice(), "SMB") {
            return Some(rmb_shape_vec());
        }
        if head3_is(m.as_slice(), "BBR") || head3_is(m.as_slice(), "BBS") {
            return Some(bbr_shape_vec());
        }
    }
    table_ops_vec(m.as_slice())
}


fn utf8_size_at_most(v: &[char], k: usize) -> (b: bool)
    ensures
        b == (crate::chars::utf8_size(v@) <= k),
{
    let mut total: usize = 0;
    let mut i: usize = 0;
    while i < v.len()
        invariant
            i <= v@.len(),
            total == crate::chars::utf8_size(v@.take(i as int)),
            total <= k,
        decreases v@.len() - i,
    {
        let c = v[i];
        let u = c as u32;
        let n: usize = if u < 0x80 {
            1
        } else if u < 0x800 {
            2
        } else if u < 0x10000 {
            3
        } else {
            4
        };
        assert(v@.take(i + 1).drop_last() =~= v@.take(i as int));
        if n > k - total {
            proof {
                lemma_utf8_size_prefix(v@, i + 1);
            }
            return false;
        }
        total = total + n;
        i += 1;
    }
    assert(v@.take(v@.len() as int) =~= v@);
    true
}

pub proof fn lemma_utf8_size_prefix(s: Seq<char>, k: int)
    requires
        0 <= k <= s.len(),
    ensures
        crate::chars::utf8_size(s.take(k)) <= crate::chars::utf8_size(s),
    decreases s.len(),
{
    if k < s.len() {
        assert(s.drop_last().take(k) =~= s.take(k));
        lemma_utf8_size_prefix(s.drop_last(), k);
    } else {
        assert(s.take(k) =~= s);
    }
}

/// An operand small enough for zero page: at most two hex digits, eight
/// binary digits, or a decimal value below 256 (byte counts, as written).
pub open spec fn zp_sized(s0: Seq<char>) -> bool {
    let s = trim(s0);
    if starts_with(s, "$"@) {
        crate::chars::utf8_size(s.skip(1)) <= 2
    } else if starts_with(s, "%"@) {
        crate::chars::utf8_size(s.skip(1)) <= 8
    } else {
        match spec_from_str_radix(s, 10) {
            Some(v) => v < 256,
            None => false,
        }
    }
}

fn zp_sized_chars(s0: &[char]) -> (b: bool)
    ensures
        b == zp_sized(s0@),
{
    proof {
        reveal_strlit("$");
        reveal_strlit("%");
    }
    let s = trim_chars(s0);
    if starts_with_at(s.as_slice(), 0, "$") {
        assert(s@.skip(0) =~= s@);
        let h = slice_vec(s.as_slice(), 1, s.len());
        assert(h@ =~= s@.skip(1));
        utf8_size_at_most(h.as_slice(), 2)
    } else if starts_with_at(s.as_slice(), 0, "%") {
        assert(s@.skip(0) =~= s@);
        let h = slice_vec(s.as_slice(), 1, s.len());
        assert(h@ =~= s@.skip(1));
        utf8_size_at_most(h.as_slice(), 8)
    } else {
        assert(s@.skip(0) =~= s@);
        match parse_u64(s.as_slice(), 10) {
            Some(v) => v < 256,
            None => false,
        }
    }
}

pub open spec fn is_branch_mnemonic(m: Seq<char>) -> bool {
    m == "BCC"@ || m == "BCS"@ || m == "BEQ"@ || m == "BNE"@ || m == "BMI"@ || m == "BPL"@ || m
        == "BVC"@ || m == "BVS"@ || m == "BRA"@
}

/// Guesses the addressing mode from an operand's spelling. Bare labels
/// assume absolute (the assembler's default too).
pub open spec fn spec_infer_mode(mnemonic: Seq<char>, operand: Seq<char>) -> Mode {
    let m = crate::chars::upper_seq(mnemonic);
    let o = trim(operand);
    let low = lower_seq(o);
    let inner = low.skip(1);
    if m.len() == 4 && (starts_with(m, "BBR"@) || starts_with(m, "BBS"@)) {
        Mode::ZpRel
    } else if is_branch_mnemonic(m) {
        Mode::Rel
    } else if o.len() == 0 {
        Mode::Imp
    } else if low == "a"@ {
        Mode::Acc
    } else if starts_with(o, "#"@) {
        Mode::Imm
    } else if starts_with(low, "("@) && crate::chars::ends_with(inner, ",x)"@) {
        if m == "JMP"@ || !zp_sized(inner.take(inner.len() - 3)) {
            Mode::IndAbsX
        } else {
            Mode::IndX
        }
    } else if starts_with(low, "("@) && crate::chars::ends_with(inner, "),y"@) {
        Mode::IndY
    } else if starts_with(low, "("@) && crate::chars::ends_with(inner, ")"@) {
        if m == "JMP"@ {
            Mode::Ind
        } else {
            Mode::ZpInd
        }
    } else if crate::chars::ends_with(low, ",x"@) {
        if zp_sized(low.take(low.len() - 2)) {
            Mode::ZpX
        } else {
            Mode::AbsX
        }
    } else if crate::chars::ends_with(low, ",y"@) {
        if zp_sized(low.take(low.len() - 2)) {
            Mode::ZpY
        } else {
            Mode::AbsY
        }
    } else if zp_sized(o) {
        Mode::Zp
    } else {
        Mode::Abs
    }
}

#[verifier::spinoff_prover]
fn infer_mode(mnemonic: &[char], operand: &[char]) -> (r: Mode)
    ensures
        r == spec_infer_mode(mnemonic@, operand@),
{
    proof {
        reveal_strlit("BBR");
        reveal_strlit("BBS");
        reveal_strlit("a");
        reveal_strlit("#");
        reveal_strlit("(");
        reveal_strlit(",x)");
        reveal_strlit("),y");
        reveal_strlit(")");
        reveal_strlit(",x");
        reveal_strlit(",y");
    }
    let m = upper_chars(mnemonic);
    let o = trim_chars(operand);
    let low = lower_chars(o.as_slice());
    let ms = m.as_slice();
    assert(m@.skip(0) =~= m@);
    assert(o@.skip(0) =~= o@);
    assert(low@.skip(0) =~= low@);
    if m.len() == 4 && (starts_with_at(ms, 0, "BBR") || starts_with_at(ms, 0, "BBS")) {
        return Mode::ZpRel;
    }
    if crate::chars::eq_str(ms, "BCC") || crate::chars::eq_str(ms, "BCS") || crate::chars::eq_str(
        ms,
        "BEQ",
    ) || crate::chars::eq_str(ms, "BNE") || crate::chars::eq_str(ms, "BMI")
        || crate::chars::eq_str(ms, "BPL") || crate::chars::eq_str(ms, "BVC")
        || crate::chars::eq_str(ms, "BVS") || crate::chars::eq_str(ms, "BRA") {
        return Mode::Rel;
    }
    if o.len() == 0 {
        return Mode::Imp;
    }
    if crate::chars::eq_str(low.as_slice(), "a") {
        return Mode::Acc;
    }
    if starts_with_at(o.as_slice(), 0, "#") {
        return Mode::Imm;
    }
    let is_jmp = crate::chars::eq_str(ms, "JMP");
    if starts_with_at(low.as_slice(), 0, "(") {
        let inner = slice_vec(low.as_slice(), 1, low.len());
        assert(inner@ =~= low@.skip(1));
        if crate::chars::ends_with_chars(inner.as_slice(), ",x)") {
            let addr = slice_vec(inner.as_slice(), 0, inner.len() - 3);
            assert(addr@ =~= inner@.take(inner@.len() - 3));
            return if is_jmp || !zp_sized_chars(addr.as_slice()) {
                Mode::IndAbsX
            } else {
                Mode::IndX
            };
        }
        if crate::chars::ends_with_chars(inner.as_slice(), "),y") {
            return Mode::IndY;
        }
        if crate::chars::ends_with_chars(inner.as_slice(), ")") {
            return if is_jmp {
                Mode::Ind
            } else {
                Mode::ZpInd
            };
        }
    }
    if crate::chars::ends_with_chars(low.as_slice(), ",x") {
        let addr = slice_vec(low.as_slice(), 0, low.len() - 2);
        assert(addr@ =~= low@.take(low@.len() - 2));
        return if zp_sized_chars(addr.as_slice()) {
            Mode::ZpX
        } else {
            Mode::AbsX
        };
    }
    if crate::chars::ends_with_chars(low.as_slice(), ",y") {
        let addr = slice_vec(low.as_slice(), 0, low.len() - 2);
        assert(addr@ =~= low@.take(low@.len() - 2));
        return if zp_sized_chars(addr.as_slice()) {
            Mode::ZpY
        } else {
            Mode::AbsY
        };
    }
    if zp_sized_chars(o.as_slice()) {
        Mode::Zp
    } else {
        Mode::Abs
    }
}

/// The first row with `mode` at or after `i`.
pub open spec fn first_with_mode(ops: Seq<Op>, mode: Mode, i: int) -> Option<Op>
    decreases ops.len() - i,
{
    if i < 0 || i >= ops.len() {
        None
    } else if ops[i].mode == mode {
        Some(ops[i])
    } else {
        first_with_mode(ops, mode, i + 1)
    }
}

/// The zero-page/absolute twin of a mode, if it has one.
pub open spec fn partner(mode: Mode) -> Option<Mode> {
    match mode {
        Mode::Abs => Some(Mode::Zp),
        Mode::Zp => Some(Mode::Abs),
        Mode::AbsX => Some(Mode::ZpX),
        Mode::ZpX => Some(Mode::AbsX),
        Mode::AbsY => Some(Mode::ZpY),
        Mode::ZpY => Some(Mode::AbsY),
        _ => None,
    }
}

/// The row for `mode`, or for its twin: a bare label guessed abs may
/// really be zp (and vice versa).
pub open spec fn spec_find_op(ops: Seq<Op>, mode: Mode) -> Option<Op> {
    match first_with_mode(ops, mode, 0) {
        Some(o) => Some(o),
        None => match partner(mode) {
            Some(p) => first_with_mode(ops, p, 0),
            None => None,
        },
    }
}

fn first_with(ops: &[Op], mode: Mode) -> (r: Option<Op>)
    ensures
        r == first_with_mode(ops@, mode, 0),
{
    let mut i: usize = 0;
    while i < ops.len()
        invariant
            i <= ops@.len(),
            first_with_mode(ops@, mode, 0) == first_with_mode(ops@, mode, i as int),
        decreases ops@.len() - i,
    {
        if ops[i].mode == mode {
            return Some(ops[i]);
        }
        i += 1;
    }
    None
}

fn find_op(ops: &[Op], mode: Mode) -> (r: Option<Op>)
    ensures
        r == spec_find_op(ops@, mode),
{
    if let Some(o) = first_with(ops, mode) {
        return Some(o);
    }
    let partner = match mode {
        Mode::Abs => Mode::Zp,
        Mode::Zp => Mode::Abs,
        Mode::AbsX => Mode::ZpX,
        Mode::ZpX => Mode::AbsX,
        Mode::AbsY => Mode::ZpY,
        Mode::ZpY => Mode::AbsY,
        _ => return None,
    };
    first_with(ops, partner)
}


/// Index of the first `c` at or after `i` (the length when there is none).
pub open spec fn first_of(s: Seq<char>, c: char, i: int) -> int
    decreases s.len() - i,
{
    if i < 0 || i >= s.len() {
        s.len() as int
    } else if s[i] == c {
        i
    } else {
        first_of(s, c, i + 1)
    }
}

/// Index of the first whitespace char at or after `i` (the length when
/// there is none).
pub open spec fn first_ws(s: Seq<char>, i: int) -> int
    decreases s.len() - i,
{
    if i < 0 || i >= s.len() {
        s.len() as int
    } else if spec_is_whitespace(s[i]) {
        i
    } else {
        first_ws(s, i + 1)
    }
}

pub open spec fn is_label_char(c: char) -> bool {
    crate::chars::spec_ascii_alnum(c) || c == '_' || c == '.' || c == '@'
}

/// The statement of a line: comment cut, label stripped, trimmed.
pub open spec fn statement(line: Seq<char>) -> Seq<char> {
    let s0 = trim(line.take(first_of(line, ';', 0)));
    let colon = first_of(s0, ':', 0);
    if colon < s0.len() && (forall|k: int| 0 <= k < colon ==> is_label_char(#[trigger] s0[k])) {
        trim(s0.skip(colon + 1))
    } else {
        s0
    }
}

pub open spec fn skipped_statement(s: Seq<char>) -> bool {
    s.len() == 0 || s[0] == '.' || s[0] == '!' || s[0] == '*' || s[0] == '=' || s[0] == '+' || s[0]
        == '-' || s.contains('=')
}

pub open spec fn stmt_mnemonic(s: Seq<char>) -> Seq<char> {
    s.take(first_ws(s, 0))
}

pub open spec fn stmt_operand(s: Seq<char>) -> Seq<char> {
    if first_ws(s, 0) < s.len() {
        trim(s.skip(first_ws(s, 0)))
    } else {
        seq![]
    }
}

/// Splits an assembly line into (mnemonic, operand), stripping a `;`
/// comment and a label. None for blank, directive, or label-only lines.
pub open spec fn spec_split_line(line: Seq<char>) -> Option<(Seq<char>, Seq<char>)> {
    let s = statement(line);
    if skipped_statement(s) {
        None
    } else if !(forall|k: int|
        0 <= k < stmt_mnemonic(s).len() ==> crate::chars::spec_ascii_alnum(
            #[trigger] stmt_mnemonic(s)[k],
        )) {
        None
    } else {
        Some((stmt_mnemonic(s), stmt_operand(s)))
    }
}

fn first_of_chars(s: &[char], c: char) -> (r: usize)
    ensures
        r == first_of(s@, c, 0),
        r <= s@.len(),
{
    let mut i: usize = 0;
    while i < s.len() && s[i] != c
        invariant
            i <= s@.len(),
            first_of(s@, c, 0) == first_of(s@, c, i as int),
        decreases s@.len() - i,
    {
        i += 1;
    }
    i
}

fn first_ws_chars(s: &[char]) -> (r: usize)
    ensures
        r == first_ws(s@, 0),
        r <= s@.len(),
{
    let mut i: usize = 0;
    while i < s.len() && !s[i].is_whitespace()
        invariant
            i <= s@.len(),
            first_ws(s@, 0) == first_ws(s@, i as int),
        decreases s@.len() - i,
    {
        i += 1;
    }
    i
}

fn all_label_chars(s: &[char], n: usize) -> (b: bool)
    requires
        n <= s@.len(),
    ensures
        b == (forall|k: int| 0 <= k < n ==> is_label_char(#[trigger] s@[k])),
{
    let mut i: usize = 0;
    while i < n
        invariant
            i <= n <= s@.len(),
            forall|k: int| 0 <= k < i ==> is_label_char(#[trigger] s@[k]),
        decreases n - i,
    {
        let c = s[i];
        if !(crate::chars::is_ascii_alnum(c) || c == '_' || c == '.' || c == '@') {
            return false;
        }
        i += 1;
    }
    true
}

fn all_alnum(s: &[char]) -> (b: bool)
    ensures
        b == (forall|k: int| 0 <= k < s@.len() ==> crate::chars::spec_ascii_alnum(#[trigger] s@[k])),
{
    let mut i: usize = 0;
    while i < s.len()
        invariant
            i <= s@.len(),
            forall|k: int| 0 <= k < i ==> crate::chars::spec_ascii_alnum(#[trigger] s@[k]),
        decreases s@.len() - i,
    {
        if !crate::chars::is_ascii_alnum(s[i]) {
            return false;
        }
        i += 1;
    }
    true
}

fn contains_char(s: &[char], c: char) -> (b: bool)
    ensures
        b == s@.contains(c),
{
    let mut i: usize = 0;
    while i < s.len()
        invariant
            i <= s@.len(),
            forall|k: int| 0 <= k < i ==> s@[k] != c,
        decreases s@.len() - i,
    {
        if s[i] == c {
            return true;
        }
        i += 1;
    }
    false
}

fn split_line(line: &[char]) -> (r: Option<(Vec<char>, Vec<char>)>)
    ensures
        match (r, spec_split_line(line@)) {
            (Some((mn, op)), Some((smn, sop))) => mn@ == smn && op@ == sop,
            (None, None) => true,
            _ => false,
        },
        r matches Some((mn, _)) ==> forall|k: int|
            0 <= k < mn@.len() ==> crate::chars::spec_ascii_alnum(#[trigger] mn@[k]),
{
    let semi = first_of_chars(line, ';');
    let code = slice_vec(line, 0, semi);
    assert(code@ =~= line@.take(semi as int));
    let s0 = trim_chars(code.as_slice());
    let colon = first_of_chars(s0.as_slice(), ':');
    let s = if colon < s0.len() && all_label_chars(s0.as_slice(), colon) {
        let after = slice_vec(s0.as_slice(), colon + 1, s0.len());
        assert(after@ =~= s0@.skip(colon + 1));
        trim_chars(after.as_slice())
    } else {
        s0
    };
    assert(s@ == statement(line@));
    if s.len() == 0 || s[0] == '.' || s[0] == '!' || s[0] == '*' || s[0] == '=' || s[0] == '+'
        || s[0] == '-' || contains_char(s.as_slice(), '=') {
        return None;
    }
    let w = first_ws_chars(s.as_slice());
    let mn = slice_vec(s.as_slice(), 0, w);
    assert(mn@ =~= stmt_mnemonic(s@));
    let rest = if w < s.len() {
        let after = slice_vec(s.as_slice(), w, s.len());
        assert(after@ =~= s@.skip(w as int));
        trim_chars(after.as_slice())
    } else {
        Vec::new()
    };
    assert(rest@ =~= stmt_operand(s@));
    if !all_alnum(mn.as_slice()) {
        return None;
    }
    Some((mn, rest))
}

pub proof fn lemma_ascii_utf8_size(s: Seq<char>)
    requires
        forall|k: int| 0 <= k < s.len() ==> crate::chars::spec_ascii_alnum(#[trigger] s[k]),
    ensures
        crate::chars::utf8_size(s) == s.len(),
    decreases s.len(),
{
    if s.len() > 0 {
        assert(crate::chars::spec_ascii_alnum(s[s.len() - 1]));
        lemma_ascii_utf8_size(s.drop_last());
    }
}

/// The mode labels of a row list, joined with ` · `.
pub open spec fn join_labels(ops: Seq<Op>) -> Seq<char>
    decreases ops.len(),
{
    if ops.len() == 0 {
        seq![]
    } else if ops.len() == 1 {
        ops[0].mode.spec_label()
    } else {
        join_labels(ops.drop_last()) + " · "@ + ops.last().mode.spec_label()
    }
}

fn join_labels_of(ops: &[Op]) -> (s: String)
    ensures
        s@ == join_labels(ops@),
{
    let mut s = String::new();
    let mut i: usize = 0;
    while i < ops.len()
        invariant
            i <= ops@.len(),
            s@ == join_labels(ops@.take(i as int)),
        decreases ops@.len() - i,
    {
        assert(ops@.take(i + 1).drop_last() =~= ops@.take(i as int));
        if i > 0 {
            crate::chars::push_str(&mut s, " · ");
        }
        crate::chars::push_str(&mut s, ops[i].mode.label());
        i += 1;
    }
    assert(ops@.take(ops@.len() as int) =~= ops@);
    s
}

/// The cycles an instruction row costs on the chosen chip.
pub open spec fn row_cycles(e: Op, nmos: bool) -> nat {
    if nmos {
        match e.nmos {
            Some(n) => n as nat,
            None => e.cyc as nat,
        }
    } else {
        e.cyc as nat
    }
}

/// The timing line of an instruction row.
pub open spec fn timing_line(e: Op, nmos: bool) -> Seq<char> {
    crate::chars::dec(row_cycles(e, nmos)) + " cycles"@ + (if e.branch {
        " · +1 taken · +1 more on page cross"@
    } else if e.page && !(nmos && e.nmos is Some) {
        " · +1 if page crossed"@
    } else {
        seq![]
    }) + (if !nmos && e.nmos is Some {
        " (NMOS: "@ + crate::chars::dec(e.nmos->0 as nat) + ")"@
    } else {
        seq![]
    })
}

/// The encoding line of an instruction row.
pub open spec fn encoding_line(mnu: Seq<char>, e: Op) -> Seq<char> {
    mnu + " — "@ + e.mode.spec_label() + " · "@ + crate::chars::dec(e.mode.spec_bytes()) + " byte"@
        + (if e.mode.spec_bytes() == 1 {
        seq![]
    } else {
        "s"@
    })
}

/// The opcode float for the instruction on a line.
pub open spec fn spec_opcode_hover(line: Seq<char>, nmos: bool) -> Option<Seq<Seq<char>>> {
    match spec_split_line(line) {
        None => None,
        Some((mn, operand)) => match spec_ops_for(mn) {
            None => None,
            Some(ops) => {
                let mnu = crate::chars::upper_seq(mn);
                match spec_find_op(ops, spec_infer_mode(mn, operand)) {
                    None => Some(
                        seq![mnu + " — operand didn't parse"@, "modes: "@ + join_labels(ops)],
                    ),
                    Some(e) => if nmos && e.cmos_only {
                        Some(seq![mnu + " — 65C02 only"@, "not available on NMOS 6502"@])
                    } else {
                        let base = seq![encoding_line(mnu, e), timing_line(e, nmos)];
                        Some(
                            if mnu == "ADC"@ || mnu == "SBC"@ {
                                base.push("+1 cycle in decimal mode (65C02)"@)
                            } else {
                                base
                            },
                        )
                    },
                }
            },
        },
    }
}

#[verifier::spinoff_prover]
#[verifier::rlimit(40)]
fn push_timing(s: &mut String, e: Op, nmos: bool)
    ensures
        final(s)@ == old(s)@ + timing_line(e, nmos),
{
    let cyc = if nmos {
        match e.nmos {
            Some(n) => n,
            None => e.cyc,
        }
    } else {
        e.cyc
    };
    crate::chars::push_dec(s, cyc as u128);
    crate::chars::push_str(s, " cycles");
    if e.branch {
        crate::chars::push_str(s, " · +1 taken · +1 more on page cross");
    } else if e.page && !(nmos && e.nmos.is_some()) {
        crate::chars::push_str(s, " · +1 if page crossed");
    }
    if !nmos {
        if let Some(n) = e.nmos {
            crate::chars::push_str(s, " (NMOS: ");
            crate::chars::push_dec(s, n as u128);
            crate::chars::push_str(s, ")");
        }
    }
    assert(s@ =~= old(s)@ + timing_line(e, nmos));
}

fn lookup(mn: &Vec<char>) -> (r: Option<Vec<Op>>)
    requires
        forall|k: int| 0 <= k < mn@.len() ==> crate::chars::spec_ascii_alnum(#[trigger] mn@[k]),
    ensures
        match (r, spec_ops_for(mn@)) {
            (Some(v), Some(t)) => v@ == t,
            (None, None) => true,
            _ => false,
        },
{
    let name = string_of(mn.as_slice());
    proof {
        lemma_ascii_utf8_size(mn@);
        if mn@.len() == 4 {
            assert forall|k: int| 0 <= k < mn@.take(3).len() implies crate::chars::spec_ascii_alnum(
                #[trigger] mn@.take(3)[k],
            ) by {
                assert(mn@.take(3)[k] == mn@[k]);
            }
            lemma_ascii_utf8_size(mn@.take(3));
        }
    }
    ops_for(name.as_str())
}

/// The opcode float for the instruction on this line, or None when the
/// line isn't a known instruction. `family` gates what "cycles" means.
pub fn opcode_hover(line: &str, family: &Family) -> (r: Option<Vec<String>>)
    ensures
        match (r, spec_opcode_hover(line@, *family is Nmos6502)) {
            (Some(v), Some(t)) => v@.map_values(|l: String| l@) == t,
            (None, None) => true,
            _ => false,
        },
{
    let chars = chars_of(line);
    let (mn, operand) = match split_line(chars.as_slice()) {
        Some(p) => p,
        None => return None,
    };
    let ops = match lookup(&mn) {
        Some(o) => o,
        None => return None,
    };
    let mode = infer_mode(mn.as_slice(), operand.as_slice());
    let mnu = upper_chars(mn.as_slice());
    let nmos = match family {
        Family::Nmos6502 => true,
        _ => false,
    };
    let mut out: Vec<String> = Vec::new();
    let entry = match find_op(ops.as_slice(), mode) {
        Some(e) => e,
        None => {
            let mut l0 = string_of(mnu.as_slice());
            crate::chars::push_str(&mut l0, " — operand didn't parse");
            let mut l1 = String::new();
            crate::chars::push_str(&mut l1, "modes: ");
            let labels = join_labels_of(ops.as_slice());
            crate::chars::push_str(&mut l1, labels.as_str());
            out.push(l0);
            out.push(l1);
            assert(out@.map_values(|l: String| l@) =~= spec_opcode_hover(line@, nmos)->0);
            return Some(out);
        },
    };
    if nmos && entry.cmos_only {
        let mut l0 = string_of(mnu.as_slice());
        crate::chars::push_str(&mut l0, " — 65C02 only");
        let mut l1 = String::new();
        crate::chars::push_str(&mut l1, "not available on NMOS 6502");
        out.push(l0);
        out.push(l1);
        assert(out@.map_values(|l: String| l@) =~= spec_opcode_hover(line@, nmos)->0);
        return Some(out);
    }
    let mut l0 = string_of(mnu.as_slice());
    crate::chars::push_str(&mut l0, " — ");
    crate::chars::push_str(&mut l0, entry.mode.label());
    crate::chars::push_str(&mut l0, " · ");
    let nbytes = entry.mode.bytes();
    crate::chars::push_dec(&mut l0, nbytes as u128);
    crate::chars::push_str(&mut l0, " byte");
    if nbytes != 1 {
        crate::chars::push_str(&mut l0, "s");
    }
    assert(l0@ =~= encoding_line(mnu@, entry));
    let mut l1 = String::new();
    push_timing(&mut l1, entry, nmos);
    assert(l1@ =~= timing_line(entry, nmos));
    out.push(l0);
    out.push(l1);
    if crate::chars::eq_str(mnu.as_slice(), "ADC") || crate::chars::eq_str(mnu.as_slice(), "SBC") {
        let mut l2 = String::new();
        crate::chars::push_str(&mut l2, "+1 cycle in decimal mode (65C02)");
        out.push(l2);
    }
    assert(out@.map_values(|l: String| l@) =~= spec_opcode_hover(line@, nmos)->0);
    Some(out)
}


/// What one line adds to the cycle sum: (instructions, cycles, branches,
/// page risks, unknown lines, 65C02-only clashes).
pub open spec fn line_tally(line: Seq<char>, nmos: bool) -> (nat, nat, nat, nat, nat, nat) {
    match spec_split_line(line) {
        None => (0, 0, 0, 0, 0, 0),
        Some((mn, operand)) => match spec_ops_for(mn) {
            None => (0, 0, 0, 0, 1, 0),
            Some(ops) => match spec_find_op(ops, spec_infer_mode(mn, operand)) {
                None => (0, 0, 0, 0, 1, 0),
                Some(e) => if nmos && e.cmos_only {
                    (0, 0, 0, 0, 0, 1)
                } else {
                    (
                        1,
                        row_cycles(e, nmos),
                        if e.branch {
                            1
                        } else {
                            0
                        },
                        if !e.branch && e.page && !(nmos && e.nmos is Some) {
                            1
                        } else {
                            0
                        },
                        0,
                        0,
                    )
                },
            },
        },
    }
}

/// The six counters summed over lines.
pub open spec fn tally(lines: Seq<Seq<char>>, nmos: bool) -> (nat, nat, nat, nat, nat, nat)
    decreases lines.len(),
{
    if lines.len() == 0 {
        (0, 0, 0, 0, 0, 0)
    } else {
        let t = tally(lines.drop_last(), nmos);
        let d = line_tally(lines.last(), nmos);
        (t.0 + d.0, t.1 + d.1, t.2 + d.2, t.3 + d.3, t.4 + d.4, t.5 + d.5)
    }
}

/// The report of a cycle sum.
pub open spec fn cycle_report(t: (nat, nat, nat, nat, nat, nat), nmos: bool) -> Seq<Seq<char>> {
    let l0 = crate::chars::dec(t.0) + " instruction"@ + (if t.0 == 1 {
        seq![]
    } else {
        "s"@
    }) + " — "@ + crate::chars::dec(t.1) + " cycles ("@ + (if nmos {
        "NMOS 6502"@
    } else {
        "65C02"@
    }) + ")"@;
    let a = seq![l0];
    let b = if t.2 > 0 {
        a.push("+1 per taken branch (×"@ + crate::chars::dec(t.2) + "), +1 more on page cross"@)
    } else {
        a
    };
    let c = if t.3 > 0 {
        b.push("+1 possible page cross (×"@ + crate::chars::dec(t.3) + ")"@)
    } else {
        b
    };
    let d = if t.4 > 0 {
        c.push("not counted: "@ + crate::chars::dec(t.4) + " line(s) — macro or unknown"@)
    } else {
        c
    };
    if t.5 > 0 {
        d.push(crate::chars::dec(t.5) + " instruction(s) are 65C02-only!"@)
    } else {
        d
    }
}

pub proof fn lemma_tally_bound(lines: Seq<Seq<char>>, nmos: bool)
    ensures
        tally(lines, nmos).0 <= lines.len(),
        tally(lines, nmos).1 <= 7 * lines.len(),
        tally(lines, nmos).2 <= lines.len(),
        tally(lines, nmos).3 <= lines.len(),
        tally(lines, nmos).4 <= lines.len(),
        tally(lines, nmos).5 <= lines.len(),
    decreases lines.len(),
{
    if lines.len() > 0 {
        lemma_tally_bound(lines.drop_last(), nmos);
        let l = lines.last();
        match spec_split_line(l) {
            None => {},
            Some((mn, operand)) => match spec_ops_for(mn) {
                None => {},
                Some(ops) => {
                    lemma_rows_at_most_7(mn, ops, spec_infer_mode(mn, operand));
                },
            },
        }
    }
}

/// No row of the table costs more than seven cycles.
pub proof fn lemma_rows_at_most_7(mn: Seq<char>, ops: Seq<Op>, mode: Mode)
    requires
        spec_ops_for(mn) == Some(ops),
    ensures
        spec_find_op(ops, mode) matches Some(e) ==> e.cyc <= 7 && (e.nmos matches Some(n) ==> n <= 7),
{
    assert(forall|i: int| 0 <= i < ops.len() ==> ops[i].cyc <= 7 && (ops[i].nmos matches Some(n) ==> n <= 7));
    lemma_first_with_mode_in(ops, mode, 0);
    match partner(mode) {
        Some(p) => lemma_first_with_mode_in(ops, p, 0),
        None => {},
    }
}

pub proof fn lemma_first_with_mode_in(ops: Seq<Op>, mode: Mode, i: int)
    requires
        0 <= i,
    ensures
        first_with_mode(ops, mode, i) matches Some(o) ==> exists|j: int| 0 <= j < ops.len() && ops[j] == o,
    decreases ops.len() - i,
{
    if i < ops.len() && ops[i].mode != mode {
        lemma_first_with_mode_in(ops, mode, i + 1);
    }
}

/// Sums cycles over selected lines: straight-line honesty — base cycles
/// summed, penalties reported as ranges, unknowns counted, never guessed.
#[verifier::spinoff_prover]
pub fn cycle_sum(lines: &[String], family: &Family) -> (out: Vec<String>)
    requires
        lines@.len() < usize::MAX / 8,
    ensures
        out@.map_values(|l: String| l@) == cycle_report(
            tally(lines@.map_values(|l: String| l@), *family is Nmos6502),
            *family is Nmos6502,
        ),
{
    let nmos = match family {
        Family::Nmos6502 => true,
        _ => false,
    };
    let ghost ls = lines@.map_values(|l: String| l@);
    let mut instructions: usize = 0;
    let mut cycles: usize = 0;
    let mut branches: usize = 0;
    let mut page_risk: usize = 0;
    let mut unknown: usize = 0;
    let mut cmos_clash: usize = 0;
    let mut i: usize = 0;
    while i < lines.len()
        invariant
            i <= lines@.len(),
            lines@.len() < usize::MAX / 8,
            ls == lines@.map_values(|l: String| l@),
            (instructions as nat, cycles as nat, branches as nat, page_risk as nat, unknown as nat, cmos_clash as nat)
                == tally(ls.take(i as int), nmos),
        decreases lines@.len() - i,
    {
        proof {
            assert(ls.take(i + 1).drop_last() =~= ls.take(i as int));
            assert(ls.take(i + 1).last() == lines@[i as int]@);
            lemma_tally_bound(ls.take(i + 1), nmos);
        }
        let chars = chars_of(lines[i].as_str());
        i += 1;
        let (mn, operand) = match split_line(chars.as_slice()) {
            Some(p) => p,
            None => {
                continue;
            },
        };
        let ops = match lookup(&mn) {
            Some(o) => o,
            None => {
                unknown += 1;
                continue;
            },
        };
        let entry = match find_op(ops.as_slice(), infer_mode(mn.as_slice(), operand.as_slice())) {
            Some(e) => e,
            None => {
                unknown += 1;
                continue;
            },
        };
        if nmos && entry.cmos_only {
            cmos_clash += 1;
            continue;
        }
        instructions += 1;
        let c = if nmos {
            match entry.nmos {
                Some(n) => n,
                None => entry.cyc,
            }
        } else {
            entry.cyc
        };
        cycles += c as usize;
        if entry.branch {
            branches += 1;
        } else if entry.page && !(nmos && entry.nmos.is_some()) {
            page_risk += 1;
        }
    }
    assert(ls.take(lines@.len() as int) =~= ls);
    let mut l0 = String::new();
    crate::chars::push_dec(&mut l0, instructions as u128);
    crate::chars::push_str(&mut l0, " instruction");
    if instructions != 1 {
        crate::chars::push_str(&mut l0, "s");
    }
    crate::chars::push_str(&mut l0, " — ");
    crate::chars::push_dec(&mut l0, cycles as u128);
    crate::chars::push_str(&mut l0, " cycles (");
    crate::chars::push_str(
        &mut l0,
        if nmos {
            "NMOS 6502"
        } else {
            "65C02"
        },
    );
    crate::chars::push_str(&mut l0, ")");
    let mut out: Vec<String> = Vec::new();
    out.push(l0);
    if branches > 0 {
        let mut l = String::new();
        crate::chars::push_str(&mut l, "+1 per taken branch (×");
        crate::chars::push_dec(&mut l, branches as u128);
        crate::chars::push_str(&mut l, "), +1 more on page cross");
        out.push(l);
    }
    if page_risk > 0 {
        let mut l = String::new();
        crate::chars::push_str(&mut l, "+1 possible page cross (×");
        crate::chars::push_dec(&mut l, page_risk as u128);
        crate::chars::push_str(&mut l, ")");
        out.push(l);
    }
    if unknown > 0 {
        let mut l = String::new();
        crate::chars::push_str(&mut l, "not counted: ");
        crate::chars::push_dec(&mut l, unknown as u128);
        crate::chars::push_str(&mut l, " line(s) — macro or unknown");
        out.push(l);
    }
    if cmos_clash > 0 {
        let mut l = String::new();
        crate::chars::push_dec(&mut l, cmos_clash as u128);
        crate::chars::push_str(&mut l, " instruction(s) are 65C02-only!");
        out.push(l);
    }
    assert(out@.map_values(|l: String| l@) =~= cycle_report(tally(ls, nmos), nmos));
    out
}

} // verus!
