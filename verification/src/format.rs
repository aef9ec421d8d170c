//! External formatting on save through treefmt: after a successful write,
//! if a treefmt config governs the file, treefmt runs on it and the buffer
//! reloads when the file changed. Running the process is the caller's I/O;
//! this module holds the outcome and the decisions on what came back.

use vstd::prelude::*;

use crate::chars::{chars_of, string_of};

verus! {

/// How formatting a written file went.
pub enum Outcome {
    /// No treefmt config governs this file (or formatting is disabled).
    NoConfig,
    /// treefmt ran; the file is unchanged.
    Unchanged,
    /// treefmt rewrote the file; `text` is the new content.
    Reformatted { text: String },
    /// treefmt failed or timed out (the written file may be untouched).
    Failed(String),
}

/// The file as reread after treefmt ran: reformatted when it differs.
pub fn reread_outcome(before: &str, after: &str) -> (o: Outcome)
    ensures
        before@ == after@ ==> o is Unchanged,
        before@ != after@ ==> (o matches Outcome::Reformatted { text } && text@ == after@),
{
    let a = chars_of(before);
    let b = chars_of(after);
    let mut same = a.len() == b.len();
    let mut i: usize = 0;
    while same && i < a.len()
        invariant
            a@ == before@,
            b@ == after@,
            i <= a.len(),
            same ==> a.len() == b.len(),
            same ==> forall|k: int| 0 <= k < i ==> a@[k] == b@[k],
            !same ==> a@ != b@,
        decreases a.len() - i,
    {
        if a[i] != b[i] {
            same = false;
        }
        i = i + 1;
    }
    if same {
        assert(a@ =~= b@);
        Outcome::Unchanged
    } else {
        Outcome::Reformatted { text: string_of(b.as_slice()) }
    }
}

/// Index just past the last `\n` among the first `n` chars (0 if none).
pub open spec fn after_last_break(s: Seq<char>, n: int) -> int
    decreases n,
{
    if n <= 0 {
        0
    } else if s[n - 1] == '\n' {
        n
    } else {
        after_last_break(s, n - 1)
    }
}

/// The last of the text's lines as `str::lines` yields them: a final line
/// break ends the text rather than opening an empty line, and a `\r` before
/// that break belongs to it; empty text has no line.
pub open spec fn last_line(s: Seq<char>) -> Seq<char> {
    if s.len() == 0 {
        seq![]
    } else if s.last() == '\n' {
        let body = s.drop_last();
        let l = body.subrange(after_last_break(body, body.len() as int), body.len() as int);
        if l.len() > 0 && l.last() == '\r' {
            l.drop_last()
        } else {
            l
        }
    } else {
        s.subrange(after_last_break(s, s.len() as int), s.len() as int)
    }
}

proof fn lemma_after_last_break(s: Seq<char>, n: int)
    requires
        0 <= n <= s.len(),
    ensures
        0 <= after_last_break(s, n) <= n,
    decreases n,
{
    if n > 0 && s[n - 1] != '\n' {
        lemma_after_last_break(s, n - 1);
    }
}

/// The first 120 chars of the last line of treefmt's error output, for the
/// failure message.
pub fn stderr_tail(stderr: &str) -> (tail: String)
    ensures
        tail@ == (if last_line(stderr@).len() <= 120 {
            last_line(stderr@)
        } else {
            last_line(stderr@).take(120)
        }),
{
    let v = chars_of(stderr);
    let ghost s = v@;
    let mut n = v.len();
    let mut strip_cr = false;
    if n > 0 && v[n - 1] == '\n' {
        n = n - 1;
        strip_cr = true;
    }
    let mut i = n;
    while i > 0 && v[i - 1] != '\n'
        invariant
            v@ == s,
            i <= n <= v.len(),
            after_last_break(s.take(n as int), i as int) == after_last_break(s.take(n as int), n as int),
        decreases i,
    {
        i = i - 1;
    }
    proof {
        lemma_after_last_break(s.take(n as int), n as int);
        if strip_cr {
            assert(s.take(n as int) =~= s.drop_last());
        } else {
            assert(s.take(n as int) =~= s);
        }
    }
    let mut end = n;
    if strip_cr && end > i && v[end - 1] == '\r' {
        end = end - 1;
    }
    let stop = if end - i <= 120 {
        end
    } else {
        i + 120
    };
    let mut out: Vec<char> = Vec::new();
    let mut k = i;
    while k < stop
        invariant
            v@ == s,
            i <= k <= stop <= v.len(),
            out@ == s.subrange(i as int, k as int),
        decreases stop - k,
    {
        out.push(v[k]);
        k = k + 1;
    }
    proof {
        let l = last_line(s);
        if s.len() > 0 {
            assert(s.subrange(i as int, stop as int) =~= (if l.len() <= 120 {
                l
            } else {
                l.take(120)
            }));
        } else {
            assert(out@ =~= Seq::<char>::empty());
        }
    }
    string_of(out.as_slice())
}


/// The treefmt config that governs a file: in the nearest of its enclosing
/// folders (nearest first) holding `treefmt.toml` or `.treefmt.toml`, the
/// plain name winning within a folder. The folder's index, and whether the
/// config is the dotted name.
pub open spec fn spec_find_config(has_plain: Seq<bool>, has_dot: Seq<bool>, k: int) -> Option<(int, bool)>
    decreases has_plain.len() - k,
{
    if k < 0 || k >= has_plain.len() || k >= has_dot.len() {
        None
    } else if has_plain[k] {
        Some((k, false))
    } else if has_dot[k] {
        Some((k, true))
    } else {
        spec_find_config(has_plain, has_dot, k + 1)
    }
}

/// Picks the governing config (see [`spec_find_config`]); the caller tells
/// which folders hold which name.
pub fn find_config(has_plain: &[bool], has_dot: &[bool]) -> (r: Option<(usize, bool)>)
    ensures
        match (r, spec_find_config(has_plain@, has_dot@, 0)) {
            (Some((i, d)), Some((j, e))) => i == j && d == e,
            (None, None) => true,
            _ => false,
        },
{
    let mut k: usize = 0;
    while k < has_plain.len() && k < has_dot.len()
        invariant
            spec_find_config(has_plain@, has_dot@, k as int) == spec_find_config(has_plain@, has_dot@, 0),
        decreases has_plain@.len() - k,
    {
        if has_plain[k] {
            return Some((k, false));
        }
        if has_dot[k] {
            return Some((k, true));
        }
        k += 1;
    }
    None
}

} // verus!
