//! Command-line text rules: the `:s` substitute command.

use vstd::prelude::*;

use crate::chars::chars_of;

verus! {

/// The parts of a substitute command's body split at unescaped `/`: an
/// escaped `/` is a plain `/`, any other escape keeps its backslash, and a
/// trailing lone backslash is kept.
pub open spec fn sub_parts(s: Seq<char>) -> Seq<Seq<char>>
    decreases s.len(),
{
    if s.len() == 0 {
        seq![seq![]]
    } else if s[0] == '\\' {
        if s.len() == 1 {
            seq![seq!['\\']]
        } else {
            let rest = sub_parts(s.skip(2));
            if s[1] == '/' {
                seq![seq!['/'] + rest[0]] + rest.skip(1)
            } else {
                seq![seq!['\\', s[1]] + rest[0]] + rest.skip(1)
            }
        }
    } else if s[0] == '/' {
        seq![seq![]] + sub_parts(s.skip(1))
    } else {
        let rest = sub_parts(s.skip(1));
        seq![seq![s[0]] + rest[0]] + rest.skip(1)
    }
}

pub proof fn lemma_sub_parts_nonempty(s: Seq<char>)
    ensures
        sub_parts(s).len() >= 1,
    decreases s.len(),
{
    if s.len() > 0 {
        if s[0] == '\\' {
            if s.len() > 1 {
                lemma_sub_parts_nonempty(s.skip(2));
            }
        } else {
            lemma_sub_parts_nonempty(s.skip(1));
        }
    }
}

/// `s/pat/rep/[g]` (or `%s/…`): the pattern, the replacement and whether
/// the `g` flag is present; none without a pattern.
pub open spec fn spec_parse_substitute(spec: Seq<char>) -> Option<(Seq<char>, Seq<char>, bool)> {
    let body = if spec.len() >= 2 && spec[0] == '%' && spec[1] == 's' {
        Some(spec.skip(2))
    } else if spec.len() >= 1 && spec[0] == 's' {
        Some(spec.skip(1))
    } else {
        None
    };
    match body {
        None => None,
        Some(b) => if b.len() >= 1 && b[0] == '/' {
            let parts = sub_parts(b.skip(1));
            let pattern = parts[0];
            if pattern.len() == 0 {
                None
            } else {
                let rep = if parts.len() > 1 {
                    parts[1]
                } else {
                    seq![]
                };
                let flags = if parts.len() > 2 {
                    parts[2]
                } else {
                    seq![]
                };
                Some((pattern, rep, flags.contains('g')))
            }
        } else {
            None
        },
    }
}

#[verifier::spinoff_prover]
fn parts_of(s: &[char], from: usize) -> (parts: Vec<Vec<char>>)
    requires
        from <= s@.len(),
    ensures
        parts@.map_values(|p: Vec<char>| p@) == sub_parts(s@.skip(from as int)),
    decreases s@.len() - from,
{
    let ghost t = s@.skip(from as int);
    if from == s.len() {
        let mut v: Vec<Vec<char>> = Vec::new();
        v.push(Vec::new());
        assert(v@.map_values(|p: Vec<char>| p@) =~= sub_parts(t));
        return v;
    }
    let c = s[from];
    if c == '\\' {
        if from + 1 == s.len() {
            let mut first: Vec<char> = Vec::new();
            first.push('\\');
            let mut v: Vec<Vec<char>> = Vec::new();
            v.push(first);
            assert(v@.map_values(|p: Vec<char>| p@) =~= sub_parts(t));
            return v;
        }
        let mut rest = parts_of(s, from + 2);
        assert(t.skip(2) =~= s@.skip(from + 2));
        proof {
            lemma_sub_parts_nonempty(t.skip(2));
        }
        let ghost rv = rest@.map_values(|p: Vec<char>| p@);
        let tail = rest.remove(0);
        let mut first: Vec<char> = Vec::new();
        if s[from + 1] != '/' {
            first.push('\\');
        }
        first.push(s[from + 1]);
        let mut k: usize = 0;
        let ghost base = first@;
        while k < tail.len()
            invariant
                k <= tail@.len(),
                first@ == base + tail@.take(k as int),
            decreases tail@.len() - k,
        {
            first.push(tail[k]);
            k += 1;
            assert(first@ =~= base + tail@.take(k as int));
        }
        assert(tail@.take(tail@.len() as int) =~= tail@);
        let ghost after_remove = rest@;
        assert(after_remove.map_values(|p: Vec<char>| p@) =~= rv.skip(1));
        assert(tail@ == rv[0]);
        assert(t[1] == s@[from + 1]);
        assert(t[0] == '\\');
        assert(sub_parts(t.skip(2)) == rv);
        assert(sub_parts(t) == (if t[1] == '/' {
            seq![seq!['/'] + rv[0]] + rv.skip(1)
        } else {
            seq![seq!['\\', t[1]] + rv[0]] + rv.skip(1)
        }));
        assert(base =~= (if t[1] == '/' {
            seq!['/']
        } else {
            seq!['\\', t[1]]
        }));
        rest.insert(0, first);
        assert(rest@ =~= seq![first] + after_remove);
        assert(rest@.map_values(|p: Vec<char>| p@) =~= seq![first@] + rv.skip(1));
        assert(rest@.map_values(|p: Vec<char>| p@) =~= sub_parts(t));
        rest
    } else if c == '/' {
        let mut rest = parts_of(s, from + 1);
        assert(t.skip(1) =~= s@.skip(from + 1));
        let ghost before = rest@;
        let empty: Vec<char> = Vec::new();
        assert(empty@ =~= Seq::<char>::empty());
        rest.insert(0, empty);
        assert(rest@ =~= seq![empty] + before);
        assert(rest@.map_values(|p: Vec<char>| p@) =~= seq![Seq::<char>::empty()] + before.map_values(
            |p: Vec<char>| p@,
        ));
        assert(rest@.map_values(|p: Vec<char>| p@) =~= sub_parts(t));
        rest
    } else {
        let mut rest = parts_of(s, from + 1);
        assert(t.skip(1) =~= s@.skip(from + 1));
        proof {
            lemma_sub_parts_nonempty(t.skip(1));
        }
        let tail = rest.remove(0);
        let mut first: Vec<char> = Vec::new();
        first.push(c);
        let mut k: usize = 0;
        let ghost base = first@;
        while k < tail.len()
            invariant
                k <= tail@.len(),
                first@ == base + tail@.take(k as int),
            decreases tail@.len() - k,
        {
            first.push(tail[k]);
            k += 1;
            assert(first@ =~= base + tail@.take(k as int));
        }
        assert(tail@.take(tail@.len() as int) =~= tail@);
        rest.insert(0, first);
        assert(rest@.map_values(|p: Vec<char>| p@) =~= sub_parts(t));
        rest
    }
}

/// Parses `s/pat/rep/[g]` (or `%s/…`), honoring backslash-escaped slashes.
pub fn parse_substitute(spec: &str) -> (r: Option<(String, String, bool)>)
    ensures
        match (r, spec_parse_substitute(spec@)) {
            (Some((p, q, g)), Some((x, y, h))) => p@ == x && q@ == y && g == h,
            (None, None) => true,
            _ => false,
        },
{
    let v = chars_of(spec);
    let start: usize = if v.len() >= 2 && v[0] == '%' && v[1] == 's' {
        2
    } else if v.len() >= 1 && v[0] == 's' {
        1
    } else {
        return None;
    };
    if !(v.len() > start && v[start] == '/') {
        return None;
    }
    assert(v@.skip(start as int).skip(1) =~= v@.skip(start + 1));
    let parts = parts_of(v.as_slice(), start + 1);
    proof {
        lemma_sub_parts_nonempty(v@.skip(start + 1));
    }
    if parts[0].len() == 0 {
        return None;
    }
    let pattern = crate::chars::string_of(parts[0].as_slice());
    let replacement = if parts.len() > 1 {
        crate::chars::string_of(parts[1].as_slice())
    } else {
        String::new()
    };
    let mut g = false;
    if parts.len() > 2 {
        let f = &parts[2];
        let mut k: usize = 0;
        while k < f.len()
            invariant
                k <= f@.len(),
                g == f@.take(k as int).contains('g'),
            decreases f@.len() - k,
        {
            if f[k] == 'g' {
                g = true;
                assert(f@.take(k + 1)[k as int] == 'g');
            }
            assert(f@.take(k + 1) =~= f@.take(k as int).push(f@[k as int]));
            k += 1;
        }
        assert(f@.take(f@.len() as int) =~= f@);
    } else {
        assert(!Seq::<char>::empty().contains('g'));
    }
    Some((pattern, replacement, g))
}

} // verus!
