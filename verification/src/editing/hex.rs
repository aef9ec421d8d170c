//! Binary detection and hex formatting, shared by the file picker's preview
//! and the read-only hex view of a binary file.

use vstd::prelude::*;
use vstd::utf8::{decode_utf8, valid_utf8};

use crate::chars::{
    char_from_ascii, chars_of, push_chars, push_render, spec_is_control, spec_render,
};

verus! {

/// Bytes sampled from a file's head to decide whether it is binary.
pub const SNIFF_BYTES: u64 = 8192;

/// The longest prefix length `n <= k` of `b` that is valid UTF-8.
pub open spec fn max_valid_prefix(b: Seq<u8>, k: int) -> int
    decreases k,
{
    if k <= 0 {
        0
    } else if valid_utf8(b.take(k)) {
        k
    } else {
        max_valid_prefix(b, k - 1)
    }
}

/// How far `b` is valid UTF-8: the largest `n` with `b[..n]` valid.
pub open spec fn valid_up_to(b: Seq<u8>) -> int {
    max_valid_prefix(b, b.len() as int)
}

proof fn lemma_max_valid_prefix(b: Seq<u8>, k: int)
    ensures
        0 <= max_valid_prefix(b, k),
        k >= 0 ==> max_valid_prefix(b, k) <= k,
    decreases k,
{
    if k > 0 && !valid_utf8(b.take(k)) {
        lemma_max_valid_prefix(b, k - 1);
    }
}

/// `std::str::from_utf8`: the text when `head` is valid UTF-8; otherwise the
/// error's `valid_up_to`, which std documents as the largest index `n` with
/// `head[..n]` valid.
#[verifier::external_body]
fn utf8_text(head: &[u8]) -> (r: Result<&str, usize>)
    ensures
        match r {
            Ok(t) => valid_utf8(head@) && t@ == decode_utf8(head@),
            Err(n) => !valid_utf8(head@) && n == valid_up_to(head@),
        },
{
    match std::str::from_utf8(head) {
        Ok(t) => Ok(t),
        Err(e) => Err(e.valid_up_to()),
    }
}

/// A control char other than tab, newline, carriage return and form feed.
pub open spec fn is_stray_control(c: char) -> bool {
    spec_is_control(c) && c != '\t' && c != '\n' && c != '\r' && c != '\u{c}'
}

/// Number of stray control chars in a text.
pub open spec fn stray_controls(s: Seq<char>) -> nat
    decreases s.len(),
{
    if s.len() == 0 {
        0
    } else {
        stray_controls(s.drop_last()) + if is_stray_control(s.last()) {
            1nat
        } else {
            0nat
        }
    }
}

/// Whether trailing invalid bytes are a multibyte char cut off by the
/// sample's end: a lead byte `0xC2..=0xF4` then only continuation bytes,
/// at most 3 bytes in all.
pub open spec fn clipped_char(rest: Seq<u8>) -> bool {
    &&& 1 <= rest.len() <= 3
    &&& 0xC2 <= rest[0] <= 0xF4
    &&& forall|k: int| 1 <= k < rest.len() ==> 0x80 <= #[trigger] rest[k] <= 0xBF
}

/// Whether a byte sample is binary rather than text: a NUL byte, bytes that
/// don't decode as UTF-8 (unless only a clipped final char), or text where
/// more than one char in twenty is a stray control char.
pub open spec fn spec_is_binary(head: Seq<u8>) -> bool {
    if head.contains(0u8) {
        true
    } else if valid_utf8(head) {
        let t = decode_utf8(head);
        stray_controls(t) * 20 > if t.len() > 1 {
            t.len()
        } else {
            1
        }
    } else {
        !clipped_char(head.skip(valid_up_to(head)))
    }
}

proof fn lemma_stray_controls_bound(s: Seq<char>)
    ensures
        stray_controls(s) <= s.len(),
    decreases s.len(),
{
    if s.len() > 0 {
        lemma_stray_controls_bound(s.drop_last());
    }
}

/// Whether a byte sample is binary rather than text (see [`spec_is_binary`]).
#[verifier::spinoff_prover]
pub fn is_binary(head: &[u8]) -> (b: bool)
    ensures
        b == spec_is_binary(head@),
{
    let mut i: usize = 0;
    while i < head.len()
        invariant
            i <= head@.len(),
            forall|k: int| 0 <= k < i ==> head@[k] != 0u8,
        decreases head@.len() - i,
    {
        if head[i] == 0 {
            assert(head@.contains(0u8));
            return true;
        }
        i += 1;
    }
    assert(!head@.contains(0u8));
    match utf8_text(head) {
        Ok(text) => {
            let cs = chars_of(text);
            let mut ctrl: usize = 0;
            let mut k: usize = 0;
            while k < cs.len()
                invariant
                    k <= cs@.len(),
                    ctrl == stray_controls(cs@.take(k as int)),
                decreases cs@.len() - k,
            {
                proof {
                    lemma_stray_controls_bound(cs@.take(k as int));
                }
                let c = cs[k];
                let stray = c.is_control() && c != '\t' && c != '\n' && c != '\r' && c != '\u{c}';
                assert(cs@.take(k + 1).drop_last() =~= cs@.take(k as int));
                if stray {
                    ctrl += 1;
                }
                k += 1;
            }
            assert(cs@.take(cs@.len() as int) =~= cs@);
            let n = cs.len();
            let denom: u128 = if n > 1 {
                n as u128
            } else {
                1
            };
            (ctrl as u128) * 20 > denom
        },
        Err(n) => {
            proof {
                lemma_max_valid_prefix(head@, head@.len() as int);
            }
            let ghost rest = head@.skip(n as int);
            let len = head.len() - n;
            if len < 1 || len > 3 {
                return true;
            }
            if head[n] < 0xC2 || head[n] > 0xF4 {
                assert(rest[0] == head@[n as int]);
                return true;
            }
            let mut j: usize = n + 1;
            while j < head.len()
                invariant
                    n + 1 <= j <= head@.len(),
                    rest == head@.skip(n as int),
                    !head@.contains(0u8),
                    !valid_utf8(head@),
                    n == valid_up_to(head@),
                    forall|k: int| 1 <= k < j - n ==> 0x80 <= #[trigger] rest[k] <= 0xBF,
                decreases head@.len() - j,
            {
                if head[j] < 0x80 || head[j] > 0xBF {
                    assert(rest[j - n] == head@[j as int]);
                    return true;
                }
                j += 1;
            }
            assert(rest[0] == head@[n as int]);
            false
        },
    }
}

/// Two-digit lowercase hex of a byte followed by a space, with an extra
/// space before the ninth byte: the byte column of a hex-dump row.
pub open spec fn byte_cells(chunk: Seq<u8>) -> Seq<char>
    decreases chunk.len(),
{
    if chunk.len() == 0 {
        seq![]
    } else {
        byte_cells(chunk.drop_last()) + (if chunk.len() == 9 {
            seq![' ']
        } else {
            Seq::<char>::empty()
        }) + spec_render(chunk.last() as nat, 16, 2, false) + seq![' ']
    }
}

/// The gutter char of a byte: printable ASCII as itself, anything else `.`.
pub open spec fn gutter_char(b: u8) -> char {
    if 0x20 <= b < 0x7f {
        b as char
    } else {
        '.'
    }
}

/// `s` padded with spaces on the right to at least `w` chars.
pub open spec fn pad_right(s: Seq<char>, w: nat) -> Seq<char> {
    if s.len() < w {
        s + Seq::new((w - s.len()) as nat, |_i: int| ' ')
    } else {
        s
    }
}

/// The bytes of row `r` (16 per row).
pub open spec fn row_chunk(data: Seq<u8>, r: int) -> Seq<u8> {
    let a = 16 * r;
    let b = if 16 * r + 16 < data.len() {
        16 * r + 16
    } else {
        data.len() as int
    };
    data.subrange(a, b)
}

/// Row `r` of a hex dump: the offset in 8 hex digits, two spaces, the byte
/// column padded to 49 cells, then the ASCII gutter between bars.
pub open spec fn hex_row(data: Seq<u8>, r: int) -> Seq<char> {
    let chunk = row_chunk(data, r);
    spec_render((16 * r) as nat, 16, 8, false) + seq![' ', ' '] + pad_right(byte_cells(chunk), 49)
        + seq!['|'] + chunk.map_values(|b: u8| gutter_char(b)) + seq!['|']
}

/// Number of rows a dump of `len` bytes shows when capped at `max_lines`.
pub open spec fn dump_rows(len: nat, max_lines: nat) -> nat {
    let full = (len + 15) / 16;
    if full < max_lines {
        full as nat
    } else {
        max_lines
    }
}

proof fn lemma_byte_cells_len(chunk: Seq<u8>)
    requires
        chunk.len() <= 16,
    ensures
        byte_cells(chunk).len() == 3 * chunk.len() + if chunk.len() > 8 {
            1int
        } else {
            0int
        },
    decreases chunk.len(),
{
    if chunk.len() > 0 {
        lemma_byte_cells_len(chunk.drop_last());
        lemma_render_two(chunk.last());
    }
}

proof fn lemma_render_two(b: u8)
    ensures
        spec_render(b as nat, 16, 2, false).len() == 2,
{
    let m = b as nat;
    if m == 0 {
        assert(crate::chars::to_digits(0, 16, false) =~= Seq::<char>::empty());
    } else if m < 16 {
        assert(m / 16 == 0);
        assert(crate::chars::to_digits(0, 16, false) =~= Seq::<char>::empty());
        assert(crate::chars::to_digits(m, 16, false).len() == 1);
    } else {
        assert(m / 16 < 16 && m / 16 > 0);
        assert((m / 16) / 16 == 0);
        assert(crate::chars::to_digits(0, 16, false) =~= Seq::<char>::empty());
        assert(crate::chars::to_digits(m / 16, 16, false).len() == 1);
        assert(crate::chars::to_digits(m, 16, false).len() == 2);
    }
}

#[verifier::spinoff_prover]
fn hex_row_of(data: &[u8], r: usize) -> (s: String)
    requires
        16 * r < data@.len(),
    ensures
        s@ == hex_row(data@, r as int),
{
    assert(data@.len() == data.len());
    let a = 16 * r;
    let b = if data.len() - a > 16 {
        a + 16
    } else {
        data.len()
    };
    let ghost chunk = data@.subrange(a as int, b as int);
    assert(chunk == row_chunk(data@, r as int));
    let mut s = String::new();
    push_render(&mut s, a as u128, 16, 8, false);
    s.push(' ');
    s.push(' ');
    let ghost head = s@;
    let mut cells: Vec<char> = Vec::new();
    let mut k = a;
    while k < b
        invariant
            a <= k <= b <= data@.len(),
            b - a <= 16,
            chunk == data@.subrange(a as int, b as int),
            cells@ == byte_cells(data@.subrange(a as int, k as int)),
        decreases b - k,
    {
        assert(data@.subrange(a as int, k + 1).drop_last() =~= data@.subrange(a as int, k as int));
        assert(data@.subrange(a as int, k + 1).last() == data@[k as int]);
        if k - a == 8 {
            cells.push(' ');
        }
        let mut t = String::new();
        push_render(&mut t, data[k] as u128, 16, 2, false);
        t.push(' ');
        let tv = chars_of(t.as_str());
        let mut q: usize = 0;
        let ghost before = cells@;
        while q < tv.len()
            invariant
                q <= tv@.len(),
                cells@ == before + tv@.take(q as int),
            decreases tv@.len() - q,
        {
            cells.push(tv[q]);
            q += 1;
            assert(cells@ =~= before + tv@.take(q as int));
        }
        assert(tv@.take(tv@.len() as int) =~= tv@);
        k += 1;
        assert(cells@ =~= byte_cells(data@.subrange(a as int, k as int)));
    }
    proof {
        lemma_byte_cells_len(chunk);
    }
    let ghost bc = byte_cells(chunk);
    assert(cells@ =~= bc + Seq::new(0, |_i: int| ' '));
    while cells.len() < 49
        invariant
            bc.len() <= cells@.len(),
            bc.len() <= 49,
            cells@.len() <= 49,
            cells@ == bc + Seq::new((cells@.len() - bc.len()) as nat, |_i: int| ' '),
        decreases 49 - cells@.len(),
    {
        cells.push(' ');
        assert(cells@ =~= bc + Seq::new((cells@.len() - bc.len()) as nat, |_i: int| ' '));
    }
    assert(cells@ =~= pad_right(byte_cells(chunk), 49));
    push_chars(&mut s, cells.as_slice());
    s.push('|');
    let ghost head2 = s@;
    let mut k2 = a;
    while k2 < b
        invariant
            a <= k2 <= b <= data@.len(),
            s@ == head2 + data@.subrange(a as int, k2 as int).map_values(|x: u8| gutter_char(x)),
        decreases b - k2,
    {
        let x = data[k2];
        let c = if 0x20 <= x && x < 0x7f {
            char_from_ascii(x as u32)
        } else {
            '.'
        };
        s.push(c);
        k2 += 1;
        assert(s@ =~= head2 + data@.subrange(a as int, k2 as int).map_values(
            |x: u8| gutter_char(x),
        ));
    }
    s.push('|');
    assert(s@ =~= hex_row(data@, r as int));
    s
}

/// Law: a sample holding a NUL byte is binary.
pub proof fn lemma_nul_is_binary(head: Seq<u8>)
    requires
        head.contains(0u8),
    ensures
        spec_is_binary(head),
{
}

/// Law: every row of a hex dump has the same layout: its offset, two
/// spaces, the byte column padded to exactly 49 cells, and the row's one to
/// sixteen bytes as gutter chars between two bars.
pub proof fn lemma_hex_row_layout(data: Seq<u8>, r: int)
    requires
        0 <= r,
        16 * r < data.len(),
    ensures
        ({
            let chunk = row_chunk(data, r);
            let off = spec_render((16 * r) as nat, 16, 8, false);
            let row = hex_row(data, r);
            &&& 1 <= chunk.len() <= 16
            &&& chunk == data.subrange(16 * r, 16 * r + chunk.len())
            &&& pad_right(byte_cells(chunk), 49).len() == 49
            &&& row.len() == off.len() + 2 + 49 + 1 + chunk.len() + 1
            &&& row.subrange(off.len() as int, off.len() as int + 2) == seq![' ', ' ']
            &&& row[off.len() as int + 51] == '|'
            &&& row.last() == '|'
            &&& forall|k: int| 0 <= k < chunk.len() ==> row[off.len() as int + 52 + k] == gutter_char(#[trigger] chunk[k])
        }),
{
    let chunk = row_chunk(data, r);
    lemma_byte_cells_len(chunk);
    let off = spec_render((16 * r) as nat, 16, 8, false);
    let cells = pad_right(byte_cells(chunk), 49);
    let row = hex_row(data, r);
    assert(row == off + seq![' ', ' '] + cells + seq!['|'] + chunk.map_values(|b: u8| gutter_char(b)) + seq!['|']);
    assert(row.subrange(off.len() as int, off.len() as int + 2) =~= seq![' ', ' ']);
}

/// Hex digits are never a bar.
proof fn lemma_hex_digits_no_bar(m: nat)
    ensures
        forall|k: int|
            0 <= k < crate::chars::to_digits(m, 16, false).len() ==> #[trigger] crate::chars::to_digits(
                m,
                16,
                false,
            )[k] != '|',
    decreases m,
{
    if m > 0 {
        lemma_hex_digits_no_bar(m / 16);
        let d = m % 16;
        assert(crate::chars::digit_char(d, false) != '|');
        let p = crate::chars::to_digits(m / 16, 16, false);
        let all = crate::chars::to_digits(m, 16, false);
        assert(all == p + seq![crate::chars::digit_char(d, false)]);
        assert forall|k: int| 0 <= k < all.len() implies #[trigger] all[k] != '|' by {
            if k < p.len() {
                assert(all[k] == p[k]);
            }
        };
    }
}

/// A number below `16 * q` has one hex digit more than fit below `q`.
proof fn lemma_hex_digits_len(m: nat, k: nat)
    requires
        m < pow16(k),
    ensures
        crate::chars::to_digits(m, 16, false).len() <= k,
    decreases k,
{
    if m > 0 {
        if k == 0 {
            assert(false);
        } else {
            let q = pow16((k - 1) as nat);
            assert(m / 16 < q) by (nonlinear_arith)
                requires
                    m < 16 * q,
            ;
            lemma_hex_digits_len(m / 16, (k - 1) as nat);
        }
    }
}

/// `16` to the `k`.
pub open spec fn pow16(k: nat) -> nat
    decreases k,
{
    if k == 0 {
        1
    } else {
        16 * pow16((k - 1) as nat)
    }
}

proof fn lemma_render_no_bar(m: nat, width: nat)
    ensures
        forall|k: int|
            0 <= k < spec_render(m, 16, width, false).len() ==> #[trigger] spec_render(m, 16, width, false)[k]
                != '|',
{
    lemma_hex_digits_no_bar(m);
    let ds = crate::chars::to_digits(m, 16, false);
    let r = spec_render(m, 16, width, false);
    assert forall|k: int| 0 <= k < r.len() implies #[trigger] r[k] != '|' by {
        let w: nat = if width < 1 { 1 } else { width };
        if ds.len() < w {
            let z = (w - ds.len()) as nat;
            if k >= z {
                assert(r[k] == ds[k - z]);
            }
        }
    };
}

proof fn lemma_byte_cells_no_bar(chunk: Seq<u8>)
    ensures
        forall|k: int| 0 <= k < byte_cells(chunk).len() ==> #[trigger] byte_cells(chunk)[k] != '|',
    decreases chunk.len(),
{
    if chunk.len() > 0 {
        lemma_byte_cells_no_bar(chunk.drop_last());
        lemma_render_no_bar(chunk.last() as nat, 2);
        let a = byte_cells(chunk.drop_last());
        let sp: Seq<char> = if chunk.len() == 9 { seq![' '] } else { Seq::<char>::empty() };
        let h = spec_render(chunk.last() as nat, 16, 2, false);
        let c = byte_cells(chunk);
        assert(c == a + sp + h + seq![' ']);
        assert forall|k: int| 0 <= k < c.len() implies #[trigger] c[k] != '|' by {
            if k < a.len() {
                assert(c[k] == a[k]);
            } else if k < a.len() + sp.len() {
                assert(c[k] == sp[k - a.len()]);
            } else if k < a.len() + sp.len() + h.len() {
                assert(c[k] == h[k - a.len() - sp.len()]);
            }
        };
    }
}

/// Law: a row at an offset that fits eight hex digits starts with the
/// offset as `{:08x}` and two spaces, and its first bar is char 59, after
/// which come the row's bytes as gutter chars and a closing bar.
pub proof fn lemma_hex_row_format(data: Seq<u8>, r: int)
    requires
        0 <= r,
        16 * r < data.len(),
        16 * r < 0x1_0000_0000,
    ensures
        ({
            let chunk = row_chunk(data, r);
            let row = hex_row(data, r);
            &&& row.take(10) == spec_render((16 * r) as nat, 16, 8, false) + seq![' ', ' ']
            &&& spec_render((16 * r) as nat, 16, 8, false).len() == 8
            &&& row[59] == '|'
            &&& forall|k: int| 0 <= k < 59 ==> #[trigger] row[k] != '|'
            &&& row.len() == 61 + chunk.len()
            &&& row.last() == '|'
            &&& forall|k: int| 0 <= k < chunk.len() ==> row[60 + k] == gutter_char(#[trigger] chunk[k])
        }),
{
    lemma_hex_row_layout(data, r);
    let m = (16 * r) as nat;
    assert(pow16(8) == 0x1_0000_0000) by {
        reveal_with_fuel(pow16, 9);
    }
    lemma_hex_digits_len(m, 8);
    let off = spec_render(m, 16, 8, false);
    assert(off.len() == 8);
    let chunk = row_chunk(data, r);
    let cells = pad_right(byte_cells(chunk), 49);
    let row = hex_row(data, r);
    assert(row == off + seq![' ', ' '] + cells + seq!['|'] + chunk.map_values(|b: u8| gutter_char(b)) + seq!['|']);
    assert(row.take(10) =~= off + seq![' ', ' ']);
    lemma_render_no_bar(m, 8);
    lemma_byte_cells_no_bar(chunk);
    assert forall|k: int| 0 <= k < 59 implies #[trigger] row[k] != '|' by {
        if k < 8 {
            assert(row[k] == off[k]);
        } else if k < 10 {
        } else {
            assert(row[k] == cells[k - 10]);
            let bc = byte_cells(chunk);
            if k - 10 < bc.len() {
                assert(cells[k - 10] == bc[k - 10]);
            }
        }
    };
}

/// A classic hex dump of the first `max_lines` rows of 16 bytes: offset, the
/// bytes in two octets, then an ASCII gutter (non-printable as `.`).
pub fn hex_dump(data: &[u8], max_lines: usize) -> (rows: Vec<String>)
    ensures
        rows@.len() == dump_rows(data@.len(), max_lines as nat),
        forall|r: int| 0 <= r < rows@.len() ==> (#[trigger] rows@[r])@ == hex_row(data@, r),
{
    let mut rows: Vec<String> = Vec::new();
    let mut r: usize = 0;
    let full: usize = if data.len() == 0 {
        0
    } else {
        (data.len() - 1) / 16 + 1
    };
    assert(full == (data@.len() + 15) / 16);
    while r < max_lines && r < full
        invariant
            rows@.len() == r,
            r <= max_lines,
            r <= full,
            full == (data@.len() + 15) / 16,
            forall|q: int| 0 <= q < r ==> (#[trigger] rows@[q])@ == hex_row(data@, q),
        decreases max_lines - r,
    {
        assert(16 * r < data@.len());
        let row = hex_row_of(data, r);
        rows.push(row);
        r += 1;
    }
    rows
}

} // verus!
