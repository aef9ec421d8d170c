//! Standard base64 (RFC 4648, with `=` padding), the payload encoding of
//! the terminal clipboard escape.

use vstd::prelude::*;

use crate::chars::char_from_ascii;

verus! {

/// The base64 alphabet: `A`–`Z`, `a`–`z`, `0`–`9`, `+`, `/`.
pub open spec fn b64_char(v: nat) -> char {
    if v < 26 {
        (('A' as u32) + v) as char
    } else if v < 52 {
        (('a' as u32) + v - 26) as char
    } else if v < 62 {
        (('0' as u32) + v - 52) as char
    } else if v == 62 {
        '+'
    } else {
        '/'
    }
}

/// The four chars of a group of one to three bytes: the 24-bit number
/// they make (missing bytes as zero) read six bits at a time, with `=`
/// for the sextets past the group's bytes.
pub open spec fn b64_group(g: Seq<u8>) -> Seq<char> {
    let b0 = g[0] as nat;
    let b1 = if g.len() > 1 { g[1] as nat } else { 0 };
    let b2 = if g.len() > 2 { g[2] as nat } else { 0 };
    let n = b0 * 65536 + b1 * 256 + b2;
    seq![
        b64_char(n / 262144 % 64),
        b64_char(n / 4096 % 64),
        if g.len() > 1 { b64_char(n / 64 % 64) } else { '=' },
        if g.len() > 2 { b64_char(n % 64) } else { '=' },
    ]
}

/// The base64 text of `data`: each group of three bytes (the last one
/// shorter) as four chars.
pub open spec fn spec_base64(data: Seq<u8>) -> Seq<char>
    decreases data.len(),
{
    if data.len() == 0 {
        seq![]
    } else if data.len() <= 3 {
        b64_group(data)
    } else {
        b64_group(data.take(3)) + spec_base64(data.skip(3))
    }
}

fn b64_char_of(v: u32) -> (c: char)
    requires
        v < 64,
    ensures
        c == b64_char(v as nat),
{
    if v < 26 {
        char_from_ascii(65 + v)
    } else if v < 52 {
        char_from_ascii(97 + v - 26)
    } else if v < 62 {
        char_from_ascii(48 + v - 52)
    } else if v == 62 {
        '+'
    } else {
        '/'
    }
}

/// The group starting at byte `i`: the next three bytes, or what is left.
pub open spec fn group_at(d: Seq<u8>, i: int) -> Seq<u8> {
    if d.len() - i <= 3 {
        d.skip(i)
    } else {
        d.skip(i).take(3)
    }
}

/// Appends the four chars of the group at `i`.
#[verifier::spinoff_prover]
fn push_group(out: &mut String, data: &[u8], i: usize)
    requires
        i < data@.len(),
    ensures
        final(out)@ == old(out)@ + b64_group(group_at(data@, i as int)),
{
    let rest = data.len() - i;
    let b0 = data[i] as u32;
    let b1: u32 = if rest > 1 { data[i + 1] as u32 } else { 0 };
    let b2: u32 = if rest > 2 { data[i + 2] as u32 } else { 0 };
    let n: u32 = b0 * 65536 + b1 * 256 + b2;
    let ghost g = group_at(data@, i as int);
    proof {
        assert(g[0] == data@[i as int]);
        if rest > 1 {
            assert(g[1] == data@[i + 1]);
        }
        if rest > 2 {
            assert(g[2] == data@[i + 2]);
        }
    }
    let c0 = b64_char_of(n / 262144 % 64);
    let c1 = b64_char_of(n / 4096 % 64);
    let c2 = if rest > 1 { b64_char_of(n / 64 % 64) } else { '=' };
    let c3 = if rest > 2 { b64_char_of(n % 64) } else { '=' };
    let ghost before = out@;
    out.push(c0);
    out.push(c1);
    out.push(c2);
    out.push(c3);
    assert(out@ =~= before + b64_group(g));
}

/// Encodes `data` as base64 (see [`spec_base64`]).
pub fn base64(data: &[u8]) -> (out: String)
    ensures
        out@ == spec_base64(data@),
{
    let mut out = String::new();
    let mut i: usize = 0;
    assert(data@.skip(0) =~= data@);
    assert(out@ + spec_base64(data@.skip(0)) =~= spec_base64(data@));
    while i < data.len()
        invariant
            i <= data@.len(),
            out@ + spec_base64(data@.skip(i as int)) == spec_base64(data@),
        decreases data@.len() - i,
    {
        let rest = data.len() - i;
        let ghost before = out@;
        push_group(&mut out, data, i);
        let next = if rest <= 3 { data.len() } else { i + 3 };
        proof {
            let s = data@.skip(i as int);
            if rest > 3 {
                assert(s.skip(3) =~= data@.skip(i + 3));
                assert(spec_base64(s) == b64_group(s.take(3)) + spec_base64(s.skip(3)));
            } else {
                assert(data@.skip(next as int) =~= Seq::<u8>::empty());
                assert(spec_base64(s) == b64_group(s));
            }
            assert(out@ + spec_base64(data@.skip(next as int)) =~= before + spec_base64(s));
        }
        i = next;
    }
    assert(data@.skip(i as int) =~= Seq::<u8>::empty());
    assert(out@ =~= out@ + spec_base64(data@.skip(i as int)));
    out
}

} // verus!
