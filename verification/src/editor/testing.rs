//! The compact key notation that scripted key sequences are written in:
//! `"wdw<Esc>2k<C-r>"`, where `<name>` names a special key and `<lt>` is a
//! literal `<`.

use vstd::prelude::*;

use crate::chars::{chars_of, eq_str, slice_vec};
use crate::config::keymap::Key;

verus! {

/// The key a `<name>` stands for, if the name is known.
pub open spec fn key_of_name(name: Seq<char>) -> Option<Key> {
    if name == "Esc"@ {
        Some(Key::Esc)
    } else if name == "CR"@ || name == "Enter"@ {
        Some(Key::Enter)
    } else if name == "BS"@ {
        Some(Key::Backspace)
    } else if name == "Tab"@ {
        Some(Key::Tab)
    } else if name == "Del"@ {
        Some(Key::Delete)
    } else if name == "Up"@ {
        Some(Key::Up)
    } else if name == "Down"@ {
        Some(Key::Down)
    } else if name == "Left"@ {
        Some(Key::Left)
    } else if name == "Right"@ {
        Some(Key::Right)
    } else if name == "Home"@ {
        Some(Key::Home)
    } else if name == "End"@ {
        Some(Key::End)
    } else if name == "PgUp"@ {
        Some(Key::PageUp)
    } else if name == "PgDn"@ {
        Some(Key::PageDown)
    } else if name == "lt"@ {
        Some(Key::Char('<'))
    } else if name.len() == 3 && name[0] == 'C' && name[1] == '-' {
        Some(Key::Ctrl(name[2]))
    } else if name.len() == 3 && name[0] == 'A' && name[1] == '-' {
        Some(Key::Alt(name[2]))
    } else if name == "Space"@ {
        Some(Key::Char(' '))
    } else {
        None
    }
}

/// Index of the first `>` at or after `i`, or the end.
pub open spec fn name_end(s: Seq<char>, i: int) -> int
    decreases s.len() - i,
{
    if i < 0 || i >= s.len() {
        s.len() as int
    } else if s[i] == '>' {
        i
    } else {
        name_end(s, i + 1)
    }
}

pub proof fn lemma_name_end(s: Seq<char>, i: int)
    requires
        0 <= i <= s.len(),
    ensures
        i <= name_end(s, i) <= s.len(),
    decreases s.len() - i,
{
    if i < s.len() && s[i] != '>' {
        lemma_name_end(s, i + 1);
    }
}

/// The keys spelled from position `i` on; `None` if a `<name>` is unknown.
pub open spec fn keys_from(s: Seq<char>, i: int) -> Option<Seq<Key>>
    decreases s.len() - i,
{
    if i < 0 || i >= s.len() {
        Some(seq![])
    } else if s[i] != '<' {
        match keys_from(s, i + 1) {
            Some(rest) => Some(seq![Key::Char(s[i])] + rest),
            None => None,
        }
    } else {
        let j = name_end(s, i + 1);
        proof {
            lemma_name_end(s, i + 1);
        }
        let next = if j < s.len() {
            j + 1
        } else {
            s.len() as int
        };
        match key_of_name(s.subrange(i + 1, j)) {
            None => None,
            Some(k) => match keys_from(s, next) {
                Some(rest) => Some(seq![k] + rest),
                None => None,
            },
        }
    }
}

/// The keys a spec spells, if all its `<name>`s are known.
pub open spec fn spec_keys(spec: Seq<char>) -> Option<Seq<Key>> {
    keys_from(spec, 0)
}

fn key_of(name: &[char]) -> (k: Option<Key>)
    ensures
        k == key_of_name(name@),
{
    if eq_str(name, "Esc") {
        Some(Key::Esc)
    } else if eq_str(name, "CR") || eq_str(name, "Enter") {
        Some(Key::Enter)
    } else if eq_str(name, "BS") {
        Some(Key::Backspace)
    } else if eq_str(name, "Tab") {
        Some(Key::Tab)
    } else if eq_str(name, "Del") {
        Some(Key::Delete)
    } else if eq_str(name, "Up") {
        Some(Key::Up)
    } else if eq_str(name, "Down") {
        Some(Key::Down)
    } else if eq_str(name, "Left") {
        Some(Key::Left)
    } else if eq_str(name, "Right") {
        Some(Key::Right)
    } else if eq_str(name, "Home") {
        Some(Key::Home)
    } else if eq_str(name, "End") {
        Some(Key::End)
    } else if eq_str(name, "PgUp") {
        Some(Key::PageUp)
    } else if eq_str(name, "PgDn") {
        Some(Key::PageDown)
    } else if eq_str(name, "lt") {
        Some(Key::Char('<'))
    } else if name.len() == 3 && name[0] == 'C' && name[1] == '-' {
        Some(Key::Ctrl(name[2]))
    } else if name.len() == 3 && name[0] == 'A' && name[1] == '-' {
        Some(Key::Alt(name[2]))
    } else if eq_str(name, "Space") {
        Some(Key::Char(' '))
    } else {
        None
    }
}

proof fn lemma_keys_step(s: Seq<char>, i0: int, k: Key, next: int, out0: Seq<Key>)
    requires
        keys_from(s, next) is Some,
        keys_from(s, i0) == Some(seq![k] + keys_from(s, next)->0),
        keys_from(s, 0) == Some(out0 + keys_from(s, i0)->0),
    ensures
        keys_from(s, 0) == Some(out0.push(k) + keys_from(s, next)->0),
{
    let rest = keys_from(s, next)->0;
    assert(out0 + (seq![k] + rest) =~= out0.push(k) + rest);
}

/// Parses `"wdw<Esc>2k<C-r>"`-style specs (every `<name>` must be known).
pub fn keys(spec: &str) -> (out: Vec<Key>)
    requires
        spec_keys(spec@) is Some,
    ensures
        out@ == spec_keys(spec@)->0,
{
    let v = chars_of(spec);
    let ghost s = v@;
    let mut out: Vec<Key> = Vec::new();
    let mut i: usize = 0;
    while i < v.len()
        invariant
            s == v@,
            s == spec@,
            i <= v.len(),
            keys_from(s, i as int) is Some,
            spec_keys(s) == Some(out@ + keys_from(s, i as int)->0),
        decreases v.len() - i,
    {
        let c = v[i];
        let ghost out0 = out@;
        let ghost i0 = i as int;
        if c != '<' {
            out.push(Key::Char(c));
            i = i + 1;
            proof {
                assert(keys_from(s, i0) == Some(seq![Key::Char(c)] + keys_from(s, i as int)->0));
                lemma_keys_step(s, i0, Key::Char(c), i as int, out0);
            }
        } else {
            let mut j = i + 1;
            while j < v.len() && v[j] != '>'
                invariant
                    s == v@,
                    i < j <= v.len(),
                    name_end(s, j as int) == name_end(s, i + 1),
                decreases v.len() - j,
            {
                j = j + 1;
            }
            let name = slice_vec(v.as_slice(), i + 1, j);
            let k = key_of(name.as_slice());
            let key = match k {
                Some(k) => k,
                None => {
                    assert(false);
                    Key::Esc
                },
            };
            out.push(key);
            i = if j < v.len() {
                j + 1
            } else {
                v.len()
            };
            proof {
                assert(keys_from(s, i0) == Some(seq![key] + keys_from(s, i as int)->0));
                lemma_keys_step(s, i0, key, i as int, out0);
            }
        }
    }
    assert(keys_from(s, i as int) == Some(Seq::<Key>::empty()));
    out
}

} // verus!
