//! Unix path components, as `std::path::Path` splits them: segments between
//! `/` separators, where empty segments and `.` segments past the start are
//! not components. Paths here are the char sequences of UTF-8 path strings.

use vstd::prelude::*;

use crate::chars::{lower_seq, slice_vec, to_lower};

verus! {

/// Index of the last occurrence of `c` in `s`.
pub open spec fn last_index(s: Seq<char>, c: char) -> Option<int>
    decreases s.len(),
{
    if s.len() == 0 {
        None
    } else if s.last() == c {
        Some(s.len() - 1)
    } else {
        last_index(s.drop_last(), c)
    }
}

pub proof fn lemma_last_index(s: Seq<char>, c: char)
    ensures
        last_index(s, c) matches Some(i) ==> 0 <= i < s.len() && s[i] == c && (forall|k: int|
            i < k < s.len() ==> s[k] != c),
        last_index(s, c) is None ==> forall|k: int| 0 <= k < s.len() ==> s[k] != c,
    decreases s.len(),
{
    if s.len() > 0 && s.last() != c {
        lemma_last_index(s.drop_last(), c);
        assert forall|k: int| 0 <= k < s.len() - 1 implies s.drop_last()[k] == s[k] by {}
    }
}

/// A segment that is a component: neither empty nor `.`.
pub open spec fn is_component(seg: Seq<char>) -> bool {
    seg.len() > 0 && seg != seq!['.']
}

/// The last component of a path, if it has one.
pub open spec fn last_component(p: Seq<char>) -> Option<Seq<char>>
    decreases p.len(),
{
    match last_index(p, '/') {
        None => if is_component(p) {
            Some(p)
        } else {
            None
        },
        Some(i) => if 0 <= i < p.len() {
            if is_component(p.skip(i + 1)) {
                Some(p.skip(i + 1))
            } else {
                last_component(p.take(i))
            }
        } else {
            None
        },
    }
}

/// `Path::file_name`: the last component, unless it is `..` or there is none.
pub open spec fn file_name(p: Seq<char>) -> Option<Seq<char>> {
    match last_component(p) {
        Some(c) => if c == seq!['.', '.'] {
            None
        } else {
            Some(c)
        },
        None => None,
    }
}

/// `Path::extension` of a file name: what follows its last `.`, unless that
/// dot opens the name.
pub open spec fn extension_of(name: Seq<char>) -> Option<Seq<char>> {
    match last_index(name, '.') {
        Some(d) => if d > 0 {
            Some(name.skip(d + 1))
        } else {
            None
        },
        None => None,
    }
}

/// Whether some segment of the path is `..`.
pub open spec fn has_parent_segment(p: Seq<char>) -> bool
    decreases p.len(),
{
    match last_index(p, '/') {
        None => p == seq!['.', '.'],
        Some(i) => if 0 <= i < p.len() {
            p.skip(i + 1) == seq!['.', '.'] || has_parent_segment(p.take(i))
        } else {
            false
        },
    }
}

/// Whether the path is absolute (has a root).
pub open spec fn is_absolute(p: Seq<char>) -> bool {
    p.len() >= 1 && p[0] == '/'
}

/// Index of the last `c` in `s[..j]`.
fn last_index_before(s: &[char], c: char, j: usize) -> (r: Option<usize>)
    requires
        j <= s@.len(),
    ensures
        r is None <==> last_index(s@.take(j as int), c) is None,
        r matches Some(i) ==> last_index(s@.take(j as int), c) == Some(i as int) && i < j,
{
    proof {
        lemma_last_index(s@.take(j as int), c);
    }
    let mut k = j;
    while k > 0
        invariant
            k <= j <= s@.len(),
            last_index(s@.take(j as int), c) == last_index(s@.take(k as int), c),
        decreases k,
    {
        if s[k - 1] == c {
            assert(s@.take(k as int).last() == c);
            return Some(k - 1);
        }
        assert(s@.take(k as int).drop_last() =~= s@.take(k - 1));
        k -= 1;
    }
    None
}

fn seq_is_dot(s: &[char], a: usize, b: usize) -> (r: bool)
    requires
        a <= b <= s@.len(),
    ensures
        r == (s@.subrange(a as int, b as int) == seq!['.']),
{
    if b - a == 1 && s[a] == '.' {
        assert(s@.subrange(a as int, b as int) =~= seq!['.']);
        true
    } else {
        let ghost dot: Seq<char> = seq!['.'];
        assert(dot.len() == 1 && dot[0] == '.');
        if b - a == 1 {
            assert(s@.subrange(a as int, b as int)[0] == s@[a as int]);
        }
        assert(s@.subrange(a as int, b as int) != dot);
        false
    }
}

fn seq_is_dotdot(s: &[char], a: usize, b: usize) -> (r: bool)
    requires
        a <= b <= s@.len(),
    ensures
        r == (s@.subrange(a as int, b as int) == seq!['.', '.']),
{
    if b - a == 2 && s[a] == '.' && s[a + 1] == '.' {
        assert(s@.subrange(a as int, b as int) =~= seq!['.', '.']);
        true
    } else {
        let ghost dd: Seq<char> = seq!['.', '.'];
        assert(dd.len() == 2 && dd[0] == '.' && dd[1] == '.');
        if b - a == 2 {
            assert(s@.subrange(a as int, b as int)[0] == s@[a as int]);
            assert(s@.subrange(a as int, b as int)[1] == s@[a + 1]);
        }
        assert(s@.subrange(a as int, b as int) != dd);
        false
    }
}

/// The span `[a, b)` of the last component of `p[..j]`.
fn last_component_span(p: &[char], j: usize) -> (r: Option<(usize, usize)>)
    requires
        j <= p@.len(),
    ensures
        r is None <==> last_component(p@.take(j as int)) is None,
        r matches Some((a, b)) ==> a <= b <= j && last_component(p@.take(j as int)) == Some(
            p@.subrange(a as int, b as int),
        ),
{
    let mut k = j;
    while k > 0
        invariant
            k <= j <= p@.len(),
            last_component(p@.take(j as int)) == last_component(p@.take(k as int)),
        decreases k,
    {
        let ghost t = p@.take(k as int);
        match last_index_before(p, '/', k) {
            None => {
                assert(t.skip(0) =~= t);
                if seq_is_dot(p, 0, k) {
                    assert(p@.subrange(0, k as int) =~= t);
                    return None;
                }
                assert(p@.subrange(0, k as int) =~= t);
                return Some((0, k));
            },
            Some(i) => {
                proof {
                    lemma_last_index(t, '/');
                }
                assert(t.skip(i + 1) =~= p@.subrange(i + 1, k as int));
                if i + 1 < k && !seq_is_dot(p, i + 1, k) {
                    return Some((i + 1, k));
                }
                assert(t.take(i as int) =~= p@.take(i as int));
                k = i;
            },
        }
    }
    assert(p@.take(0) =~= Seq::<char>::empty());
    None
}

/// `Path::file_name` of a path string.
pub fn file_name_of(p: &[char]) -> (r: Option<Vec<char>>)
    ensures
        r is None <==> file_name(p@) is None,
        r matches Some(v) ==> file_name(p@) == Some(v@),
{
    assert(p@.take(p@.len() as int) =~= p@);
    match last_component_span(p, p.len()) {
        None => None,
        Some((a, b)) => {
            if seq_is_dotdot(p, a, b) {
                None
            } else {
                Some(slice_vec(p, a, b))
            }
        },
    }
}

/// `Path::extension` of a file name, lowercased.
pub fn lower_extension_of(name: &[char]) -> (r: Option<Vec<char>>)
    ensures
        r is None <==> extension_of(name@) is None,
        r matches Some(v) ==> extension_of(name@) matches Some(e) && v@ == lower_seq(e),
{
    assert(name@.take(name@.len() as int) =~= name@);
    match last_index_before(name, '.', name.len()) {
        None => None,
        Some(d) => {
            if d == 0 {
                None
            } else {
                proof {
                    lemma_last_index(name@, '.');
                }
                let mut v: Vec<char> = Vec::new();
                let mut k = d + 1;
                while k < name.len()
                    invariant
                        d + 1 <= k <= name@.len(),
                        v@ == lower_seq(name@.subrange(d + 1, k as int)),
                    decreases name@.len() - k,
                {
                    v.push(to_lower(name[k]));
                    k += 1;
                    assert(v@ =~= lower_seq(name@.subrange(d + 1, k as int)));
                }
                assert(name@.skip(d + 1) =~= name@.subrange(d + 1, name@.len() as int));
                Some(v)
            }
        },
    }
}

/// Whether some segment of `p[..j]` is `..`.
fn has_parent_segment_before(p: &[char], j: usize) -> (r: bool)
    requires
        j <= p@.len(),
    ensures
        r == has_parent_segment(p@.take(j as int)),
{
    let mut k = j;
    while k > 0
        invariant
            k <= j <= p@.len(),
            has_parent_segment(p@.take(j as int)) == has_parent_segment(p@.take(k as int)),
        decreases k,
    {
        let ghost t = p@.take(k as int);
        match last_index_before(p, '/', k) {
            None => {
                assert(p@.subrange(0, k as int) =~= t);
                return seq_is_dotdot(p, 0, k);
            },
            Some(i) => {
                proof {
                    lemma_last_index(t, '/');
                }
                assert(t.skip(i + 1) =~= p@.subrange(i + 1, k as int));
                if seq_is_dotdot(p, i + 1, k) {
                    return true;
                }
                assert(t.take(i as int) =~= p@.take(i as int));
                k = i;
            },
        }
    }
    assert(p@.take(0) =~= Seq::<char>::empty());
    false
}

/// A relative path none of whose components is `..`.
pub open spec fn relative_no_parent(p: Seq<char>) -> bool {
    !is_absolute(p) && !has_parent_segment(p)
}

/// Whether `p` is relative and has no `..` component (see
/// [`relative_no_parent`]).
pub fn relative_without_parent(p: &[char]) -> (r: bool)
    ensures
        r == relative_no_parent(p@),
{
    if p.len() >= 1 && p[0] == '/' {
        return false;
    }
    assert(p@.take(p@.len() as int) =~= p@);
    !has_parent_segment_before(p, p.len())
}

/// What `std::path::Path::parent` returns for a path string.
pub uninterp spec fn path_parent(p: Seq<char>) -> Option<Seq<char>>;

/// `std::path::Path::parent`: the path without its final component, or
/// None when the path ends in a root or is empty. Without a component the
/// parent is shorter than the path. Nothing else about its text is stated.
#[verifier::external_body]
pub(crate) fn parent_of(p: &str) -> (r: Option<String>)
    ensures
        r is None <==> path_parent(p@) is None,
        r matches Some(q) ==> path_parent(p@) == Some(q@) && q@.len() < p@.len(),
{
    std::path::Path::new(p).parent().map(|q| q.to_string_lossy().into_owned())
}

} // verus!
