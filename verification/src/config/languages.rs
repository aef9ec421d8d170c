//! The grammar registry: which language a file is, by exact file name
//! first and then by (case-insensitive) extension. A file whose language
//! isn't registered has none.

use vstd::prelude::*;

use crate::chars::{chars_of, eq_str, lower_seq};
use crate::paths::{extension_of, file_name, file_name_of, lower_extension_of};

verus! {

/// Number of registered languages.
pub const LANG_COUNT: usize = 14;

/// Registry names, in registry order.
pub open spec fn lang_names() -> Seq<Seq<char>> {
    seq![
        "asm6502"@,
        "rust"@,
        "markdown"@,
        "markdown_inline"@,
        "toml"@,
        "yaml"@,
        "json"@,
        "javascript"@,
        "html"@,
        "bash"@,
        "nix"@,
        "just"@,
        "python"@,
        "css"@,
    ]
}

/// Extensions (lowercase) that select each language.
pub open spec fn lang_extensions() -> Seq<Seq<Seq<char>>> {
    let none = Seq::<Seq<char>>::empty();
    seq![
        none,
        seq!["rs"@],
        seq!["md"@, "markdown"@],
        none,
        seq!["toml"@],
        seq!["yml"@, "yaml"@],
        seq!["json"@],
        seq!["js"@, "mjs"@, "cjs"@],
        seq!["html"@, "htm"@],
        seq!["sh"@, "bash"@, "zsh"@],
        seq!["nix"@],
        seq!["just"@],
        seq!["py"@, "pyi"@],
        seq!["css"@],
    ]
}

/// Exact file names that select each language.
pub open spec fn lang_filenames() -> Seq<Seq<Seq<char>>> {
    let none = Seq::<Seq<char>>::empty();
    seq![
        none,
        none,
        none,
        none,
        seq!["Cargo.lock"@],
        none,
        none,
        none,
        none,
        none,
        none,
        seq!["justfile"@, "Justfile"@, "JUSTFILE"@, ".justfile"@, ".Justfile"@],
        none,
        none,
    ]
}

/// First registry entry at or after `i` whose file names include `f`.
pub open spec fn first_by_filename(f: Seq<char>, i: int) -> Option<int>
    decreases LANG_COUNT - i,
{
    if i < 0 || i >= LANG_COUNT {
        None
    } else if lang_filenames()[i].contains(f) {
        Some(i)
    } else {
        first_by_filename(f, i + 1)
    }
}

/// First registry entry at or after `i` whose extensions include `e`.
pub open spec fn first_by_extension(e: Seq<char>, i: int) -> Option<int>
    decreases LANG_COUNT - i,
{
    if i < 0 || i >= LANG_COUNT {
        None
    } else if lang_extensions()[i].contains(e) {
        Some(i)
    } else {
        first_by_extension(e, i + 1)
    }
}

/// Language of a file named `f`: by exact name, then by lowercased extension.
pub open spec fn lang_of_file_name(f: Seq<char>) -> Option<Seq<char>> {
    match first_by_filename(f, 0) {
        Some(i) => Some(lang_names()[i]),
        None => match extension_of(f) {
            None => None,
            Some(e) => match first_by_extension(lower_seq(e), 0) {
                Some(i) => Some(lang_names()[i]),
                None => None,
            },
        },
    }
}

/// Language name for a path.
pub open spec fn spec_detect(path: Option<Seq<char>>) -> Option<Seq<char>> {
    match path {
        None => None,
        Some(p) => match file_name(p) {
            None => None,
            Some(f) => lang_of_file_name(f),
        },
    }
}

proof fn lemma_first_by_filename(f: Seq<char>, i: int)
    requires
        0 <= i,
    ensures
        first_by_filename(f, i) matches Some(j) ==> i <= j < LANG_COUNT,
    decreases LANG_COUNT - i,
{
    if i < LANG_COUNT && !lang_filenames()[i].contains(f) {
        lemma_first_by_filename(f, i + 1);
    }
}

proof fn lemma_first_by_extension(e: Seq<char>, i: int)
    requires
        0 <= i,
    ensures
        first_by_extension(e, i) matches Some(j) ==> i <= j < LANG_COUNT,
    decreases LANG_COUNT - i,
{
    if i < LANG_COUNT && !lang_extensions()[i].contains(e) {
        lemma_first_by_extension(e, i + 1);
    }
}

fn strs(a: &'static str, b: &'static str, c: &'static str, n: usize) -> (v: Vec<&'static str>)
    requires
        n <= 3,
    ensures
        v@.len() == n,
        n >= 1 ==> v@[0]@ == a@,
        n >= 2 ==> v@[1]@ == b@,
        n >= 3 ==> v@[2]@ == c@,
{
    let mut v: Vec<&'static str> = Vec::new();
    if n >= 1 {
        v.push(a);
    }
    if n >= 2 {
        v.push(b);
    }
    if n >= 3 {
        v.push(c);
    }
    v
}

/// Registry name of entry `i`.
fn lang_name(i: usize) -> (r: &'static str)
    requires
        i < LANG_COUNT,
    ensures
        r@ == lang_names()[i as int],
{
    match i {
        0 => "asm6502",
        1 => "rust",
        2 => "markdown",
        3 => "markdown_inline",
        4 => "toml",
        5 => "yaml",
        6 => "json",
        7 => "javascript",
        8 => "html",
        9 => "bash",
        10 => "nix",
        11 => "just",
        12 => "python",
        _ => "css",
    }
}

/// Extensions of entry `i`.
fn lang_extensions_at(i: usize) -> (v: Vec<&'static str>)
    requires
        i < LANG_COUNT,
    ensures
        v@.map_values(|s: &str| s@) == lang_extensions()[i as int],
{
    let v = match i {
        1 => strs("rs", "", "", 1),
        2 => strs("md", "markdown", "", 2),
        4 => strs("toml", "", "", 1),
        5 => strs("yml", "yaml", "", 2),
        6 => strs("json", "", "", 1),
        7 => strs("js", "mjs", "cjs", 3),
        8 => strs("html", "htm", "", 2),
        9 => strs("sh", "bash", "zsh", 3),
        10 => strs("nix", "", "", 1),
        11 => strs("just", "", "", 1),
        12 => strs("py", "pyi", "", 2),
        13 => strs("css", "", "", 1),
        _ => strs("", "", "", 0),
    };
    assert(v@.map_values(|s: &str| s@) =~= lang_extensions()[i as int]);
    v
}

/// Exact file names of entry `i`.
fn lang_filenames_at(i: usize) -> (v: Vec<&'static str>)
    requires
        i < LANG_COUNT,
    ensures
        v@.map_values(|s: &str| s@) == lang_filenames()[i as int],
{
    let mut v: Vec<&'static str> = Vec::new();
    if i == 4 {
        v.push("Cargo.lock");
    } else if i == 11 {
        v.push("justfile");
        v.push("Justfile");
        v.push("JUSTFILE");
        v.push(".justfile");
        v.push(".Justfile");
    }
    assert(v@.map_values(|s: &str| s@) =~= lang_filenames()[i as int]);
    v
}

/// Whether one of the names in `v` spells `name`.
fn lists(v: &Vec<&'static str>, name: &[char]) -> (r: bool)
    ensures
        r == v@.map_values(|s: &str| s@).contains(name@),
{
    let ghost views = v@.map_values(|s: &str| s@);
    let mut k: usize = 0;
    while k < v.len()
        invariant
            k <= v@.len(),
            views == v@.map_values(|s: &str| s@),
            forall|j: int| 0 <= j < k ==> views[j] != name@,
        decreases v@.len() - k,
    {
        if eq_str(name, v[k]) {
            assert(views[k as int] == name@);
            return true;
        }
        k += 1;
    }
    false
}

/// Language of a file named `f`.
pub fn lang_for_file_name(f: &[char]) -> (r: Option<&'static str>)
    ensures
        r is None <==> lang_of_file_name(f@) is None,
        r matches Some(s) ==> lang_of_file_name(f@) == Some(s@),
{
    proof {
        lemma_first_by_filename(f@, 0);
    }
    let mut i: usize = 0;
    while i < LANG_COUNT
        invariant
            i <= LANG_COUNT,
            first_by_filename(f@, 0) == first_by_filename(f@, i as int),
        decreases LANG_COUNT - i,
    {
        let names = lang_filenames_at(i);
        if lists(&names, f) {
            return Some(lang_name(i));
        }
        i += 1;
    }
    match lower_extension_of(f) {
        None => None,
        Some(e) => {
            proof {
                lemma_first_by_extension(e@, 0);
            }
            let mut j: usize = 0;
            while j < LANG_COUNT
                invariant
                    j <= LANG_COUNT,
                    first_by_extension(e@, 0) == first_by_extension(e@, j as int),
                    first_by_filename(f@, 0) is None,
                    extension_of(f@) matches Some(x) && e@ == lower_seq(x),
                decreases LANG_COUNT - j,
            {
                let exts = lang_extensions_at(j);
                if lists(&exts, e.as_slice()) {
                    return Some(lang_name(j));
                }
                j += 1;
            }
            None
        },
    }
}

/// The chars of an optional string.
pub open spec fn str_view(s: Option<&str>) -> Option<Seq<char>> {
    match s {
        Some(t) => Some(t@),
        None => None,
    }
}

/// Language name for a file path, by exact file name first, then extension.
pub fn detect(path: Option<&str>) -> (r: Option<&'static str>)
    ensures
        r is None <==> spec_detect(str_view(path)) is None,
        r matches Some(s) ==> spec_detect(str_view(path)) == Some(s@),
{
    match path {
        None => None,
        Some(p) => {
            let v = chars_of(p);
            match file_name_of(v.as_slice()) {
                None => None,
                Some(f) => lang_for_file_name(f.as_slice()),
            }
        },
    }
}

} // verus!
