//! Character-level helpers shared by the text modules: conversions between
//! `&str`, `String` and `Vec<char>`, and the char classes the editor reads.

use vstd::prelude::*;

verus! {

/// `String::push` appends one char.
pub assume_specification[ String::push ](s: &mut String, ch: char)
    ensures
        final(s)@ == old(s)@.push(ch),
;

/// Unicode `Alphabetic` or `Numeric`: a property table, named here.
pub uninterp spec fn unicode_alphanumeric(c: char) -> bool;

/// Unicode `Alphabetic`: a property table, named here.
pub uninterp spec fn unicode_alphabetic(c: char) -> bool;

/// `char::is_alphanumeric` reports the Unicode `Alphabetic`/`Numeric`
/// properties; the tables are not restated, only named.
pub assume_specification[ char::is_alphanumeric ](c: char) -> (b: bool)
    ensures
        b == unicode_alphanumeric(c),
;

/// `char::is_alphabetic` reports the Unicode `Alphabetic` property; the
/// table is not restated, only named.
pub assume_specification[ char::is_alphabetic ](c: char) -> (b: bool)
    ensures
        b == unicode_alphabetic(c),
;

/// Unicode `Uppercase`: a property table, named here.
pub uninterp spec fn unicode_uppercase(c: char) -> bool;

/// `char::is_uppercase` reports the Unicode `Uppercase` property; the table
/// is not restated, only named.
pub assume_specification[ char::is_uppercase ](c: char) -> (b: bool)
    ensures
        b == unicode_uppercase(c),
;

/// Unicode `Lowercase`: a property table, named here.
pub uninterp spec fn unicode_lowercase(c: char) -> bool;

/// `char::is_lowercase` reports the Unicode `Lowercase` property; the table
/// is not restated, only named.
pub assume_specification[ char::is_lowercase ](c: char) -> (b: bool)
    ensures
        b == unicode_lowercase(c),
;

/// The full Unicode uppercase mapping of a char (one to three chars).
pub uninterp spec fn unicode_to_upper(c: char) -> Seq<char>;

/// The full Unicode lowercase mapping of a char (one or two chars).
pub uninterp spec fn unicode_to_lower(c: char) -> Seq<char>;

/// `char::to_uppercase`, its chars collected: the Unicode uppercase mapping,
/// named, not restated.
#[verifier::external_body]
pub(crate) fn upper_mapping(c: char) -> (v: Vec<char>)
    ensures
        v@ == unicode_to_upper(c),
{
    c.to_uppercase().collect()
}

/// `char::to_lowercase`, its chars collected: the Unicode lowercase mapping,
/// named, not restated.
#[verifier::external_body]
pub(crate) fn lower_mapping(c: char) -> (v: Vec<char>)
    ensures
        v@ == unicode_to_lower(c),
{
    c.to_lowercase().collect()
}

/// The case of a char toggled one-for-one: a lowercase char takes its
/// uppercase mapping, an uppercase one its lowercase mapping, when that
/// mapping is a single char; `ß` becomes `ẞ`; every other char stays.
pub open spec fn spec_toggle_char(c: char) -> char {
    let m = if unicode_lowercase(c) {
        Some(unicode_to_upper(c))
    } else if unicode_uppercase(c) {
        Some(unicode_to_lower(c))
    } else {
        None
    };
    match m {
        None => c,
        Some(m) => if m.len() == 1 {
            m[0]
        } else if c == '\u{df}' {
            '\u{1e9e}'
        } else {
            c
        },
    }
}

/// Toggles the case of a char (see [`spec_toggle_char`]).
pub fn toggle_char(c: char) -> (r: char)
    ensures
        r == spec_toggle_char(c),
{
    let m = if c.is_lowercase() {
        upper_mapping(c)
    } else if c.is_uppercase() {
        lower_mapping(c)
    } else {
        return c;
    };
    if m.len() == 1 {
        m[0]
    } else if c == '\u{df}' {
        '\u{1e9e}'
    } else {
        c
    }
}

/// The Unicode `White_Space` property: a fixed list of 25 code points.
pub open spec fn spec_is_whitespace(c: char) -> bool {
    let u = c as u32;
    ||| 0x09 <= u <= 0x0D
    ||| u == 0x20
    ||| u == 0x85
    ||| u == 0xA0
    ||| u == 0x1680
    ||| 0x2000 <= u <= 0x200A
    ||| u == 0x2028
    ||| u == 0x2029
    ||| u == 0x202F
    ||| u == 0x205F
    ||| u == 0x3000
}

/// `char::is_whitespace` is true exactly on the `White_Space` code points.
pub assume_specification[ char::is_whitespace ](c: char) -> (b: bool)
    ensures
        b == spec_is_whitespace(c),
;

/// The general category `Cc`: U+0000..=U+001F and U+007F..=U+009F.
pub open spec fn spec_is_control(c: char) -> bool {
    let u = c as u32;
    u <= 0x1F || (0x7F <= u <= 0x9F)
}

/// `char::is_control` is true exactly on the `Cc` code points.
pub assume_specification[ char::is_control ](c: char) -> (b: bool)
    ensures
        b == spec_is_control(c),
;

pub open spec fn spec_ascii_digit(c: char) -> bool {
    '0' <= c <= '9'
}

pub open spec fn spec_ascii_upper(c: char) -> bool {
    'A' <= c <= 'Z'
}

pub open spec fn spec_ascii_lower(c: char) -> bool {
    'a' <= c <= 'z'
}

pub open spec fn spec_ascii_alnum(c: char) -> bool {
    spec_ascii_digit(c) || spec_ascii_upper(c) || spec_ascii_lower(c)
}

pub open spec fn spec_ascii_hexdigit(c: char) -> bool {
    spec_ascii_digit(c) || ('a' <= c <= 'f') || ('A' <= c <= 'F')
}

/// ASCII punctuation: the printable ASCII chars that are neither letters,
/// digits nor space.
pub open spec fn spec_ascii_punct(c: char) -> bool {
    let u = c as u32;
    (0x21 <= u <= 0x2F) || (0x3A <= u <= 0x40) || (0x5B <= u <= 0x60) || (0x7B <= u <= 0x7E)
}

pub open spec fn spec_lower(c: char) -> char {
    if spec_ascii_upper(c) {
        ((c as u32) + 32) as char
    } else {
        c
    }
}

pub open spec fn spec_upper(c: char) -> char {
    if spec_ascii_lower(c) {
        ((c as u32) - 32) as char
    } else {
        c
    }
}

pub open spec fn lower_seq(s: Seq<char>) -> Seq<char> {
    s.map_values(|c: char| spec_lower(c))
}

pub open spec fn upper_seq(s: Seq<char>) -> Seq<char> {
    s.map_values(|c: char| spec_upper(c))
}

pub fn is_ascii_digit(c: char) -> (b: bool)
    ensures
        b == spec_ascii_digit(c),
{
    '0' <= c && c <= '9'
}

pub fn is_ascii_upper(c: char) -> (b: bool)
    ensures
        b == spec_ascii_upper(c),
{
    'A' <= c && c <= 'Z'
}

pub fn is_ascii_lower(c: char) -> (b: bool)
    ensures
        b == spec_ascii_lower(c),
{
    'a' <= c && c <= 'z'
}

pub fn is_ascii_alnum(c: char) -> (b: bool)
    ensures
        b == spec_ascii_alnum(c),
{
    is_ascii_digit(c) || is_ascii_upper(c) || is_ascii_lower(c)
}

pub fn is_ascii_hexdigit(c: char) -> (b: bool)
    ensures
        b == spec_ascii_hexdigit(c),
{
    is_ascii_digit(c) || ('a' <= c && c <= 'f') || ('A' <= c && c <= 'F')
}

pub fn is_ascii_punct(c: char) -> (b: bool)
    ensures
        b == spec_ascii_punct(c),
{
    let u = c as u32;
    (0x21 <= u && u <= 0x2F) || (0x3A <= u && u <= 0x40) || (0x5B <= u && u <= 0x60) || (0x7B
        <= u && u <= 0x7E)
}

pub fn to_lower(c: char) -> (r: char)
    ensures
        r == spec_lower(c),
{
    if is_ascii_upper(c) {
        let u = (c as u32) + 32;
        assert(0x61 <= u <= 0x7A);
        char_from_ascii(u)
    } else {
        c
    }
}

pub fn to_upper(c: char) -> (r: char)
    ensures
        r == spec_upper(c),
{
    if is_ascii_lower(c) {
        let u = (c as u32) - 32;
        char_from_ascii(u)
    } else {
        c
    }
}

/// The char of an ASCII code point.
pub fn char_from_ascii(u: u32) -> (c: char)
    requires
        u < 128,
    ensures
        c == u as char,
        c as u32 == u,
{
    let b = u as u8;
    b as char
}

/// The chars of a string, in order.
pub fn chars_of(s: &str) -> (v: Vec<char>)
    ensures
        v@ == s@,
{
    let mut v: Vec<char> = Vec::new();
    for c in it: s.chars()
        invariant
            v@ == it.seq().take(it.index() as int),
    {
        v.push(c);
    }
    v
}

/// A string holding exactly the chars of a slice.
pub fn string_of(v: &[char]) -> (s: String)
    ensures
        s@ == v@,
{
    let mut s = String::new();
    let mut i: usize = 0;
    while i < v.len()
        invariant
            i <= v@.len(),
            s@ == v@.take(i as int),
        decreases v@.len() - i,
    {
        s.push(v[i]);
        i += 1;
        assert(s@ =~= v@.take(i as int));
    }
    assert(v@.take(v@.len() as int) =~= v@);
    s
}

/// Appends a slice of chars to a string.
pub fn push_chars(s: &mut String, v: &[char])
    ensures
        final(s)@ == old(s)@ + v@,
{
    let mut i: usize = 0;
    while i < v.len()
        invariant
            i <= v@.len(),
            s@ == old(s)@ + v@.take(i as int),
        decreases v@.len() - i,
    {
        s.push(v[i]);
        i += 1;
        assert(s@ =~= old(s)@ + v@.take(i as int));
    }
    assert(v@.take(v@.len() as int) =~= v@);
}

/// Appends a string slice to a string.
pub fn push_str(s: &mut String, t: &str)
    ensures
        final(s)@ == old(s)@ + t@,
{
    s.append(t);
}


/// Length of the whitespace run that opens `s`.
pub open spec fn ws_prefix_len(s: Seq<char>) -> nat
    decreases s.len(),
{
    if s.len() > 0 && spec_is_whitespace(s[0]) {
        1 + ws_prefix_len(s.drop_first())
    } else {
        0
    }
}

/// Length of the whitespace run that closes `s`.
pub open spec fn ws_suffix_len(s: Seq<char>) -> nat
    decreases s.len(),
{
    if s.len() > 0 && spec_is_whitespace(s.last()) {
        1 + ws_suffix_len(s.drop_last())
    } else {
        0
    }
}

/// `str::trim_start`.
pub open spec fn trim_start(s: Seq<char>) -> Seq<char> {
    s.skip(ws_prefix_len(s) as int)
}

/// `str::trim_end`.
pub open spec fn trim_end(s: Seq<char>) -> Seq<char> {
    s.take(s.len() - ws_suffix_len(s))
}

/// `str::trim`.
pub open spec fn trim(s: Seq<char>) -> Seq<char> {
    trim_end(trim_start(s))
}

pub proof fn lemma_ws_prefix(s: Seq<char>)
    ensures
        ws_prefix_len(s) <= s.len(),
        forall|k: int| 0 <= k < ws_prefix_len(s) ==> spec_is_whitespace(#[trigger] s[k]),
        ws_prefix_len(s) < s.len() ==> !spec_is_whitespace(s[ws_prefix_len(s) as int]),
    decreases s.len(),
{
    if s.len() > 0 && spec_is_whitespace(s[0]) {
        lemma_ws_prefix(s.drop_first());
        assert forall|k: int| 0 <= k < ws_prefix_len(s) implies spec_is_whitespace(#[trigger] s[k]) by {
            if k > 0 {
                assert(s[k] == s.drop_first()[k - 1]);
            }
        }
    }
}

pub proof fn lemma_ws_suffix(s: Seq<char>)
    ensures
        ws_suffix_len(s) <= s.len(),
        forall|k: int| s.len() - ws_suffix_len(s) <= k < s.len() ==> spec_is_whitespace(#[trigger] s[k]),
        ws_suffix_len(s) < s.len() ==> !spec_is_whitespace(s[s.len() - ws_suffix_len(s) - 1]),
    decreases s.len(),
{
    if s.len() > 0 && spec_is_whitespace(s.last()) {
        lemma_ws_suffix(s.drop_last());
        assert forall|k: int| s.len() - ws_suffix_len(s) <= k < s.len() implies spec_is_whitespace(#[trigger] s[k]) by {
            if k < s.len() - 1 {
                assert(s[k] == s.drop_last()[k]);
            }
        }
    }
}

/// Count of leading whitespace chars of `v[from..]`.
pub fn ws_prefix_count(v: &[char], from: usize) -> (n: usize)
    requires
        from <= v@.len(),
    ensures
        n == ws_prefix_len(v@.skip(from as int)),
        from + n <= v@.len(),
{
    let mut k = from;
    while k < v.len() && v[k].is_whitespace()
        invariant
            from <= k <= v@.len(),
            ws_prefix_len(v@.skip(from as int)) == (k - from) + ws_prefix_len(v@.skip(k as int)),
        decreases v@.len() - k,
    {
        assert(v@.skip(k as int).drop_first() =~= v@.skip(k + 1));
        k += 1;
    }
    proof {
        if k == v.len() {
            assert(v@.skip(k as int).len() == 0);
        }
    }
    k - from
}

/// `trim_start` of a char slice.
pub fn trim_start_chars(v: &[char]) -> (r: Vec<char>)
    ensures
        r@ == trim_start(v@),
{
    let n = ws_prefix_count(v, 0);
    assert(v@.skip(0) =~= v@);
    slice_vec(v, n, v.len())
}

/// `trim_end` of a char slice.
pub fn trim_end_chars(v: &[char]) -> (r: Vec<char>)
    ensures
        r@ == trim_end(v@),
{
    let mut k = v.len();
    assert(v@.take(v@.len() as int) =~= v@);
    while k > 0 && v[k - 1].is_whitespace()
        invariant
            k <= v@.len(),
            ws_suffix_len(v@) == (v@.len() - k) + ws_suffix_len(v@.take(k as int)),
        decreases k,
    {
        assert(v@.take(k as int).drop_last() =~= v@.take(k - 1));
        k -= 1;
    }
    proof {
        assert(v@.take(v@.len() as int) =~= v@);
    }
    slice_vec(v, 0, k)
}

/// `trim` of a char slice.
pub fn trim_chars(v: &[char]) -> (r: Vec<char>)
    ensures
        r@ == trim(v@),
{
    let a = trim_start_chars(v);
    trim_end_chars(a.as_slice())
}

/// The chars `v[a..b]`.
pub fn slice_vec(v: &[char], a: usize, b: usize) -> (r: Vec<char>)
    requires
        a <= b <= v@.len(),
    ensures
        r@ == v@.subrange(a as int, b as int),
{
    let mut r: Vec<char> = Vec::new();
    let mut k = a;
    while k < b
        invariant
            a <= k <= b <= v@.len(),
            r@ == v@.subrange(a as int, k as int),
        decreases b - k,
    {
        r.push(v[k]);
        k += 1;
        assert(r@ =~= v@.subrange(a as int, k as int));
    }
    r
}

/// `s.starts_with(p)` on char sequences.
pub open spec fn starts_with(s: Seq<char>, p: Seq<char>) -> bool {
    p.len() <= s.len() && s.take(p.len() as int) == p
}

/// `s.ends_with(p)` on char sequences.
pub open spec fn ends_with(s: Seq<char>, p: Seq<char>) -> bool {
    p.len() <= s.len() && s.skip(s.len() - p.len()) == p
}

/// `str::trim_start_matches` with a non-empty pattern: strips every
/// repetition of `p` from the front.
pub open spec fn trim_start_matches(s: Seq<char>, p: Seq<char>) -> Seq<char>
    decreases s.len(),
{
    if p.len() > 0 && starts_with(s, p) {
        trim_start_matches(s.skip(p.len() as int), p)
    } else {
        s
    }
}

/// `str::trim_end_matches` with a non-empty pattern.
pub open spec fn trim_end_matches(s: Seq<char>, p: Seq<char>) -> Seq<char>
    decreases s.len(),
{
    if p.len() > 0 && ends_with(s, p) {
        trim_end_matches(s.take(s.len() - p.len()), p)
    } else {
        s
    }
}

/// Whether the chars `v[at..]` begin with `p`.
pub fn starts_with_at(v: &[char], at: usize, p: &str) -> (b: bool)
    requires
        at <= v@.len(),
    ensures
        b == starts_with(v@.skip(at as int), p@),
{
    let n = p.unicode_len();
    let vl = v.len();
    if n > vl - at {
        return false;
    }
    let mut k: usize = 0;
    while k < n
        invariant
            vl == v@.len(),
            n == p@.len(),
            at + n <= v@.len(),
            k <= n,
            forall|j: int| 0 <= j < k ==> v@[at + j] == p@[j],
        decreases n - k,
    {
        assert(at + k < vl);
        if v[at + k] != p.get_char(k) {
            assert(v@.skip(at as int).take(n as int)[k as int] != p@[k as int]);
            return false;
        }
        k += 1;
    }
    assert(v@.skip(at as int).take(n as int) =~= p@);
    true
}

/// Whether the chars of `v` end with `p`.
pub fn ends_with_chars(v: &[char], p: &str) -> (b: bool)
    ensures
        b == ends_with(v@, p@),
{
    let n = p.unicode_len();
    if n > v.len() {
        return false;
    }
    let at = v.len() - n;
    let r = starts_with_at(v, at, p);
    assert(v@.skip(at as int).take(n as int) =~= v@.skip(at as int));
    r
}

/// Whether a char slice spells exactly `p`.
pub fn eq_str(v: &[char], p: &str) -> (b: bool)
    ensures
        b == (v@ == p@),
{
    let n = p.unicode_len();
    if n != v.len() {
        return false;
    }
    let r = starts_with_at(v, 0, p);
    assert(v@.skip(0) =~= v@);
    assert(v@.take(n as int) =~= v@);
    r
}

/// `trim_start_matches` of a char slice.
pub fn trim_start_matches_chars(v: &[char], p: &str) -> (r: Vec<char>)
    ensures
        r@ == trim_start_matches(v@, p@),
        r@.len() <= v@.len(),
{
    let n = p.unicode_len();
    let mut at: usize = 0;
    assert(v@.skip(0) =~= v@);
    while n > 0 && at <= v.len() && starts_with_at(v, at, p)
        invariant
            n == p@.len(),
            at <= v@.len(),
            trim_start_matches(v@, p@) == trim_start_matches(v@.skip(at as int), p@),
        decreases v@.len() - at,
    {
        assert(v@.skip(at as int).skip(n as int) =~= v@.skip(at + n));
        at += n;
    }
    slice_vec(v, at, v.len())
}

/// `trim_end_matches` of a char slice.
pub fn trim_end_matches_chars(v: &[char], p: &str) -> (r: Vec<char>)
    ensures
        r@ == trim_end_matches(v@, p@),
{
    let n = p.unicode_len();
    let mut end: usize = v.len();
    assert(v@.take(v@.len() as int) =~= v@);
    loop
        invariant
            n == p@.len(),
            end <= v@.len(),
            trim_end_matches(v@, p@) == trim_end_matches(v@.take(end as int), p@),
        ensures
            trim_end_matches(v@, p@) == v@.take(end as int),
        decreases end,
    {
        if n == 0 || n > end {
            assert(!ends_with(v@.take(end as int), p@) || p@.len() == 0);
            assert(trim_end_matches(v@.take(end as int), p@) == v@.take(end as int));
            break;
        }
        let head = slice_vec(v, 0, end);
        assert(head@ =~= v@.take(end as int));
        if !ends_with_chars(head.as_slice(), p) {
            assert(trim_end_matches(v@.take(end as int), p@) == v@.take(end as int));
            break;
        }
        assert(v@.take(end as int).take(end - n) =~= v@.take(end - n));
        end -= n;
    }
    slice_vec(v, 0, end)
}

/// Bytes in the UTF-8 encoding of a char.
pub open spec fn utf8_len(c: char) -> nat {
    let u = c as u32;
    if u < 0x80 {
        1
    } else if u < 0x800 {
        2
    } else if u < 0x10000 {
        3
    } else {
        4
    }
}

/// Bytes in the UTF-8 encoding of a text (what `str::len` reports).
pub open spec fn utf8_size(s: Seq<char>) -> nat
    decreases s.len(),
{
    if s.len() == 0 {
        0
    } else {
        utf8_size(s.drop_last()) + utf8_len(s.last())
    }
}

/// Digit char for `d` (below 16), in the requested letter case.
pub open spec fn digit_char(d: nat, upper: bool) -> char {
    if d < 10 {
        ('0' as u32 + d) as char
    } else if upper {
        ('A' as u32 + d - 10) as char
    } else {
        ('a' as u32 + d - 10) as char
    }
}

pub proof fn lemma_div_smaller(m: nat, base: nat)
    requires
        m > 0,
        base >= 2,
    ensures
        m / base < m,
{
    assert(m / base < m) by (nonlinear_arith)
        requires
            m > 0,
            base >= 2,
    ;
}

/// The digits of `m` in `base`, most significant first (none for zero).
pub open spec fn to_digits(m: nat, base: nat, upper: bool) -> Seq<char>
    decreases m,
{
    if m == 0 || base < 2 {
        seq![]
    } else {
        proof {
            lemma_div_smaller(m, base);
        }
        to_digits(m / base, base, upper) + seq![digit_char(m % base, upper)]
    }
}

/// `m` in `base`, left-padded with zeros to at least `width` digits (and
/// at least one) — what `format!("{:0width$x}")` prints.
pub open spec fn spec_render(m: nat, base: nat, width: nat, upper: bool) -> Seq<char> {
    let ds = to_digits(m, base, upper);
    let w = if width < 1 {
        1
    } else {
        width
    };
    if ds.len() < w {
        Seq::new((w - ds.len()) as nat, |_i: int| '0') + ds
    } else {
        ds
    }
}

/// Decimal text of a natural number.
pub open spec fn dec(m: nat) -> Seq<char> {
    spec_render(m, 10, 1, false)
}

/// Decimal text of an integer.
pub open spec fn dec_int(v: int) -> Seq<char> {
    if v < 0 {
        seq!['-'] + dec((-v) as nat)
    } else {
        dec(v as nat)
    }
}

fn digit_char_of(d: u128, upper: bool) -> (c: char)
    requires
        d < 16,
    ensures
        c == digit_char(d as nat, upper),
{
    if d < 10 {
        char_from_ascii('0' as u32 + d as u32)
    } else if upper {
        char_from_ascii('A' as u32 + d as u32 - 10)
    } else {
        char_from_ascii('a' as u32 + d as u32 - 10)
    }
}

/// Renders `mag` in `base`, left-padded with zeros to at least `width` digits,
/// using upper- or lower-case hex letters.
pub fn render(mag: u128, base: u128, width: usize, upper: bool) -> (out: Vec<char>)
    requires
        2 <= base <= 16,
    ensures
        out@ == spec_render(mag as nat, base as nat, width as nat, upper),
{
    let mut digits: Vec<char> = Vec::new();
    let mut m = mag;
    while m > 0
        invariant
            2 <= base <= 16,
            to_digits(mag as nat, base as nat, upper) == to_digits(m as nat, base as nat, upper)
                + digits@,
        decreases m,
    {
        let d = m % base;
        let c = digit_char_of(d, upper);
        digits.insert(0, c);
        proof {
            assert(to_digits(m as nat, base as nat, upper) == to_digits(
                (m / base) as nat,
                base as nat,
                upper,
            ) + seq![digit_char((m % base) as nat, upper)]);
        }
        m = m / base;
        assert(to_digits(mag as nat, base as nat, upper) =~= to_digits(m as nat, base as nat, upper)
            + digits@);
    }
    assert(to_digits(0, base as nat, upper) =~= Seq::<char>::empty());
    let ghost ds = digits@;
    assert(ds =~= to_digits(mag as nat, base as nat, upper));
    let w = if width < 1 {
        1
    } else {
        width
    };
    let mut k: usize = 0;
    assert(digits@ =~= Seq::new(0, |_i: int| '0') + ds);
    while digits.len() < w
        invariant
            digits@ == Seq::new(k as nat, |_i: int| '0') + ds,
            digits@.len() == k + ds.len(),
            w == (if width < 1 {
                1
            } else {
                width
            }),
            k == 0 || digits@.len() <= w,
        decreases w - digits@.len(),
    {
        digits.insert(0, '0');
        k += 1;
        assert(digits@ =~= Seq::new(k as nat, |_i: int| '0') + ds);
    }
    proof {
        if ds.len() >= w {
            assert(digits@ =~= ds);
        }
    }
    digits
}

/// Appends the decimal text of `m`.
pub fn push_dec(s: &mut String, m: u128)
    ensures
        final(s)@ == old(s)@ + dec(m as nat),
{
    let d = render(m, 10, 1, false);
    push_chars(s, d.as_slice());
}

/// Appends the decimal text of a signed value.
pub fn push_dec_i128(s: &mut String, v: i128)
    ensures
        final(s)@ == old(s)@ + dec_int(v as int),
{
    if v < 0 {
        s.push('-');
        let m: u128 = (-(v + 1)) as u128 + 1;
        push_dec(s, m);
        assert(s@ =~= old(s)@ + dec_int(v as int));
    } else {
        push_dec(s, v as u128);
    }
}


/// Appends `m` rendered in `base`, zero-padded to `width` digits.
pub fn push_render(s: &mut String, m: u128, base: u128, width: usize, upper: bool)
    requires
        2 <= base <= 16,
    ensures
        final(s)@ == old(s)@ + spec_render(m as nat, base as nat, width as nat, upper),
{
    let d = render(m, base, width, upper);
    push_chars(s, d.as_slice());
}


/// Bytes in the UTF-8 encoding of a char.
pub fn char_utf8_len(c: char) -> (n: u128)
    ensures
        n == utf8_len(c),
{
    let u = c as u32;
    if u < 0x80 {
        1
    } else if u < 0x800 {
        2
    } else if u < 0x10000 {
        3
    } else {
        4
    }
}

pub proof fn lemma_utf8_size_take(s: Seq<char>, k: int)
    requires
        0 <= k < s.len(),
    ensures
        utf8_size(s.take(k + 1)) == utf8_size(s.take(k)) + utf8_len(s[k]),
{
    assert(s.take(k + 1).drop_last() =~= s.take(k));
}

pub proof fn lemma_utf8_size_mono(s: Seq<char>, a: int, b: int)
    requires
        0 <= a < b <= s.len(),
    ensures
        utf8_size(s.take(a)) < utf8_size(s.take(b)),
    decreases b - a,
{
    lemma_utf8_size_take(s, b - 1);
    if a < b - 1 {
        lemma_utf8_size_mono(s, a, b - 1);
    }
}

/// Whether byte offset `b` falls between two chars of `s`.
pub open spec fn is_boundary(s: Seq<char>, b: int) -> bool {
    exists|k: int| 0 <= k <= s.len() && utf8_size(#[trigger] s.take(k)) == b
}

/// The number of chars spanning the first `b` bytes of `s`, at a boundary.
pub open spec fn chars_in_bytes(s: Seq<char>, b: int) -> int {
    choose|k: int| 0 <= k <= s.len() && utf8_size(#[trigger] s.take(k)) == b
}

/// Bytes in the UTF-8 encoding of a run of chars.
pub fn utf8_size_of(v: &[char]) -> (n: u128)
    ensures
        n == utf8_size(v@),
{
    let mut n: u128 = 0;
    let mut i: usize = 0;
    while i < v.len()
        invariant
            i <= v@.len(),
            n == utf8_size(v@.take(i as int)),
            n <= 4 * i,
        decreases v@.len() - i,
    {
        proof {
            lemma_utf8_size_take(v@, i as int);
        }
        n = n + char_utf8_len(v[i]);
        i += 1;
    }
    assert(v@.take(v@.len() as int) =~= v@);
    n
}

/// The number of chars spanning the first `b` bytes of `v`, where `b` is a
/// char boundary.
pub fn chars_spanning(v: &[char], b: u128) -> (k: usize)
    requires
        is_boundary(v@, b as int),
    ensures
        k == chars_in_bytes(v@, b as int),
        k <= v@.len(),
        utf8_size(v@.take(k as int)) == b,
{
    let ghost kk = chars_in_bytes(v@, b as int);
    let mut n: u128 = 0;
    let mut i: usize = 0;
    assert(v@.take(0) =~= Seq::<char>::empty());
    while n < b && i < v.len()
        invariant
            i <= v@.len(),
            n == utf8_size(v@.take(i as int)),
            n <= 4 * i,
            0 <= kk <= v@.len(),
            utf8_size(v@.take(kk)) == b,
            i <= kk,
        decreases v@.len() - i,
    {
        proof {
            lemma_utf8_size_take(v@, i as int);
        }
        n = n + char_utf8_len(v[i]);
        i += 1;
        proof {
            if kk < i {
                lemma_utf8_size_mono(v@, kk, i as int);
            }
        }
    }
    proof {
        if i < kk {
            lemma_utf8_size_mono(v@, i as int, kk);
        }
    }
    i
}

} // verus!
