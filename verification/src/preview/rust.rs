//! The compiler's-eye view of a Rust buffer: every hint the language server
//! knows written into the text, and diagnostics wrapped in full below their
//! line.

use vstd::prelude::*;

use crate::chars::{
    chars_in_bytes, chars_of, is_boundary, push_chars, push_str, slice_vec, string_of, trim,
    trim_chars, trim_end, trim_end_chars, trim_start, trim_start_chars, trim_start_matches,
    trim_start_matches_chars, utf8_size, utf8_size_of,
};
use crate::editing::text::{display_width, width_of};
use crate::lsp::InlayHint;

verus! {

/// A hint label that closes a line, as it goes into the trailing comment:
/// trimmed, a leading `//` dropped.
pub open spec fn trailing_label(label: Seq<char>) -> Seq<char> {
    trim_start(trim_start_matches(trim(label), "//"@))
}

/// The hints placed inside a line (char index, label) and the labels that
/// go into the trailing comment, in hint order.
pub open spec fn classify(t: Seq<char>, hs: Seq<InlayHint>) -> (Seq<(int, Seq<char>)>, Seq<Seq<char>>)
    decreases hs.len(),
{
    if hs.len() == 0 {
        (seq![], seq![])
    } else {
        let r = classify(t, hs.drop_last());
        let h = hs.last();
        let tlen = utf8_size(t) as int;
        let col = if h.col < tlen {
            h.col as int
        } else {
            tlen
        };
        if col >= utf8_size(trim_end(t)) {
            let lab = trailing_label(h.label@);
            if lab.len() > 0 {
                (r.0, r.1.push(lab))
            } else {
                r
            }
        } else if is_boundary(t, col) {
            (r.0.push((chars_in_bytes(t, col), h.label@)), r.1)
        } else {
            r
        }
    }
}

/// Inserting `x` into a run sorted by position, after every entry at or
/// before its position (a stable insertion).
pub open spec fn insert_by_pos(s: Seq<(int, Seq<char>)>, x: (int, Seq<char>)) -> Seq<(int, Seq<char>)>
    decreases s.len(),
{
    if s.len() == 0 {
        seq![x]
    } else if s.last().0 <= x.0 {
        s.push(x)
    } else {
        insert_by_pos(s.drop_last(), x).push(s.last())
    }
}

/// The stable sort of inline hints by position.
pub open spec fn sort_by_pos(s: Seq<(int, Seq<char>)>) -> Seq<(int, Seq<char>)>
    decreases s.len(),
{
    if s.len() == 0 {
        seq![]
    } else {
        insert_by_pos(sort_by_pos(s.drop_last()), s.last())
    }
}

/// The text with each label spliced in at its position, from `last` on.
pub open spec fn splice(t: Seq<char>, ins: Seq<(int, Seq<char>)>, last: int) -> Seq<char>
    decreases ins.len(),
{
    if ins.len() == 0 {
        t.subrange(last, t.len() as int)
    } else {
        t.subrange(last, ins[0].0) + ins[0].1 + splice(t, ins.skip(1), ins[0].0)
    }
}

/// Labels joined with a separator.
pub open spec fn join(v: Seq<Seq<char>>, sep: Seq<char>) -> Seq<char>
    decreases v.len(),
{
    if v.len() == 0 {
        seq![]
    } else if v.len() == 1 {
        v[0]
    } else {
        join(v.drop_last(), sep) + sep + v.last()
    }
}

/// A line with its hints written in: inline hints at their byte column,
/// in column order (labels as the server padded them); hints at the end
/// of the line folded into one trailing comment. A hint on a column that
/// is not a char boundary is dropped, never the line.
pub open spec fn spec_annotate(t: Seq<char>, hs: Seq<InlayHint>) -> Seq<char> {
    let c = classify(t, hs);
    let out = splice(t, sort_by_pos(c.0), 0);
    if c.1.len() > 0 {
        trim_end(out) + "  // "@ + join(c.1, " · "@)
    } else {
        out
    }
}

/// Positions within `0..=bound`, non-decreasing.
pub open spec fn sorted_within(s: Seq<(int, Seq<char>)>, bound: int) -> bool {
    &&& forall|i: int| 0 <= i < s.len() ==> 0 <= #[trigger] s[i].0 <= bound
    &&& forall|i: int, j: int| 0 <= i < j < s.len() ==> s[i].0 <= s[j].0
}

proof fn lemma_insert_by_pos(s: Seq<(int, Seq<char>)>, x: (int, Seq<char>), bound: int)
    requires
        sorted_within(s, bound),
        0 <= x.0 <= bound,
    ensures
        sorted_within(insert_by_pos(s, x), bound),
        insert_by_pos(s, x).len() == s.len() + 1,
        forall|i: int|
            0 <= i < insert_by_pos(s, x).len() ==> (#[trigger] insert_by_pos(s, x)[i] == x
                || s.contains(insert_by_pos(s, x)[i])),
    decreases s.len(),
{
    if s.len() > 0 && s.last().0 > x.0 {
        let init = s.drop_last();
        assert(sorted_within(init, bound)) by {
            assert forall|i: int| 0 <= i < init.len() implies 0 <= #[trigger] init[i].0 <= bound by {
                assert(init[i] == s[i]);
            }
            assert forall|i: int, j: int| 0 <= i < j < init.len() implies init[i].0 <= init[j].0 by {
                assert(init[i] == s[i] && init[j] == s[j]);
            }
        }
        lemma_insert_by_pos(init, x, bound);
        let r = insert_by_pos(init, x);
        assert forall|i: int| 0 <= i < r.len() implies r[i].0 <= s.last().0 by {
            if r[i] != x {
                let k = choose|k: int| 0 <= k < init.len() && init[k] == r[i];
                assert(init[k] == s[k]);
            }
        }
        let out = insert_by_pos(s, x);
        assert forall|i: int| 0 <= i < out.len() implies (#[trigger] out[i] == x || s.contains(
            out[i],
        )) by {
            if i < r.len() {
                if r[i] != x {
                    let k = choose|k: int| 0 <= k < init.len() && init[k] == r[i];
                    assert(s[k] == r[i]);
                }
            } else {
                assert(s[s.len() - 1] == out[i]);
            }
        }
    } else if s.len() > 0 {
        let out = s.push(x);
        assert forall|i: int| 0 <= i < out.len() implies (#[trigger] out[i] == x || s.contains(
            out[i],
        )) by {
            if i < s.len() {
                assert(s[i] == out[i]);
            }
        }
    }
}

proof fn lemma_sort_by_pos(s: Seq<(int, Seq<char>)>, bound: int)
    requires
        forall|i: int| 0 <= i < s.len() ==> 0 <= #[trigger] s[i].0 <= bound,
    ensures
        sorted_within(sort_by_pos(s), bound),
        sort_by_pos(s).len() == s.len(),
    decreases s.len(),
{
    if s.len() > 0 {
        let init = s.drop_last();
        assert forall|i: int| 0 <= i < init.len() implies 0 <= #[trigger] init[i].0 <= bound by {
            assert(init[i] == s[i]);
        }
        lemma_sort_by_pos(init, bound);
        lemma_insert_by_pos(sort_by_pos(init), s.last(), bound);
    }
}

proof fn lemma_classify(t: Seq<char>, hs: Seq<InlayHint>)
    ensures
        forall|i: int|
            0 <= i < classify(t, hs).0.len() ==> 0 <= #[trigger] classify(t, hs).0[i].0 <= t.len(),
    decreases hs.len(),
{
    if hs.len() > 0 {
        lemma_classify(t, hs.drop_last());
        let r = classify(t, hs.drop_last());
        let h = hs.last();
        let tlen = utf8_size(t) as int;
        let col = if h.col < tlen {
            h.col as int
        } else {
            tlen
        };
        if col < utf8_size(trim_end(t)) && is_boundary(t, col) {
            let k = chars_in_bytes(t, col);
            assert(0 <= k <= t.len());
            let r0 = r.0.push((k, h.label@));
            assert(classify(t, hs).0 == r0);
            assert forall|i: int| 0 <= i < r0.len() implies 0 <= #[trigger] r0[i].0 <= t.len() by {
                if i < r.0.len() {
                    assert(r0[i] == r.0[i]);
                }
            }
        }
    }
}

fn insert_hint(v: &mut Vec<(usize, Vec<char>)>, x: (usize, Vec<char>))
    ensures
        inline_view(final(v)@) == insert_by_pos(inline_view(old(v)@), (x.0 as int, x.1@)),
    decreases old(v)@.len(),
{
    if v.len() == 0 {
        v.push(x);
        assert(inline_view(v@) =~= seq![(x.0 as int, x.1@)]);
        return;
    }
    let n = v.len();
    if v[n - 1].0 <= x.0 {
        let ghost before = v@;
        v.push(x);
        assert(inline_view(v@) =~= inline_view(before).push((x.0 as int, x.1@)));
    } else {
        let ghost before = v@;
        let y = v.pop().unwrap();
        assert(inline_view(v@) =~= inline_view(before).drop_last());
        insert_hint(v, x);
        let ghost mid = v@;
        v.push(y);
        assert(inline_view(v@) =~= inline_view(mid).push((y.0 as int, y.1@)));
    }
}

/// The mathematical view of collected inline hints.
pub open spec fn inline_view(v: Seq<(usize, Vec<char>)>) -> Seq<(int, Seq<char>)> {
    v.map_values(|p: (usize, Vec<char>)| (p.0 as int, p.1@))
}

fn push_join(out: &mut String, v: &Vec<Vec<char>>)
    requires
        v@.len() > 0,
    ensures
        final(out)@ == old(out)@ + join(v@.map_values(|x: Vec<char>| x@), " · "@),
{
    proof {
        reveal_strlit(" · ");
    }
    let ghost vs = v@.map_values(|x: Vec<char>| x@);
    push_chars(out, v[0].as_slice());
    assert(vs.take(1).drop_last() =~= Seq::<Seq<char>>::empty());
    assert(join(vs.take(1), " · "@) == vs[0]);
    let mut i: usize = 1;
    while i < v.len()
        invariant
            1 <= i <= v@.len(),
            vs == v@.map_values(|x: Vec<char>| x@),
            out@ == old(out)@ + join(vs.take(i as int), " · "@),
        decreases v@.len() - i,
    {
        push_str(out, " · ");
        push_chars(out, v[i].as_slice());
        assert(vs.take(i + 1).drop_last() =~= vs.take(i as int));
        i += 1;
        assert(out@ =~= old(out)@ + join(vs.take(i as int), " · "@));
    }
    assert(vs.take(v@.len() as int) =~= vs);
}

/// Writes a line's hints into its text (see [`spec_annotate`]).
#[verifier::spinoff_prover]
pub fn annotate(text: &str, hints: &[InlayHint]) -> (out: String)
    ensures
        out@ == spec_annotate(text@, hints@),
{
    proof {
        reveal_strlit("//");
        reveal_strlit("  // ");
    }
    let t = chars_of(text);
    let tlen = utf8_size_of(t.as_slice());
    let te = trim_end_chars(t.as_slice());
    let content_end = utf8_size_of(te.as_slice());
    let mut inline: Vec<(usize, Vec<char>)> = Vec::new();
    let mut trailing: Vec<Vec<char>> = Vec::new();
    let mut i: usize = 0;
    while i < hints.len()
        invariant
            i <= hints@.len(),
            t@ == text@,
            tlen == utf8_size(t@),
            content_end == utf8_size(trim_end(t@)),
            classify(t@, hints@.take(i as int)) == (
                sort_input(inline@),
                trailing@.map_values(|x: Vec<char>| x@),
            ),
        decreases hints@.len() - i,
    {
        let h = &hints[i];
        assert(hints@.take(i + 1).drop_last() =~= hints@.take(i as int));
        assert(hints@.take(i + 1).last() == hints@[i as int]);
        let col: u128 = if (h.col as u128) < tlen {
            h.col as u128
        } else {
            tlen
        };
        if col >= content_end {
            let lv = chars_of(h.label.as_str());
            let a = trim_chars(lv.as_slice());
            let b = trim_start_matches_chars(a.as_slice(), "//");
            let lab = trim_start_chars(b.as_slice());
            if lab.len() > 0 {
                let ghost before = trailing@;
                trailing.push(lab);
                assert(trailing@.map_values(|x: Vec<char>| x@) =~= before.map_values(
                    |x: Vec<char>| x@,
                ).push(lab@));
            }
        } else {
            match char_index_at(t.as_slice(), col) {
                Some(k) => {
                    let ghost before = inline@;
                    inline.push((k, chars_of(h.label.as_str())));
                    assert(sort_input(inline@) =~= sort_input(before).push(
                        (k as int, h.label@),
                    ));
                },
                None => {},
            }
        }
        i += 1;
    }
    assert(hints@.take(hints@.len() as int) =~= hints@);
    proof {
        lemma_classify(t@, hints@);
        let si = sort_input(inline@);
        assert(classify(t@, hints@).0 == si);
        assert forall|i: int| 0 <= i < si.len() implies 0 <= #[trigger] si[i].0 <= t@.len() by {
            assert(classify(t@, hints@).0[i] == si[i]);
        }
        lemma_sort_by_pos(si, t@.len() as int);
    }
    let mut sorted: Vec<(usize, Vec<char>)> = Vec::new();
    let mut j: usize = 0;
    while j < inline.len()
        invariant
            j <= inline@.len(),
            inline_view(sorted@) == sort_by_pos(sort_input(inline@).take(j as int)),
        decreases inline@.len() - j,
    {
        let x = (inline[j].0, slice_vec(inline[j].1.as_slice(), 0, inline[j].1.len()));
        assert(inline[j as int].1@.subrange(0, inline[j as int].1@.len() as int) =~= inline[j as int].1@);
        assert(sort_input(inline@).take(j + 1).drop_last() =~= sort_input(inline@).take(j as int));
        insert_hint(&mut sorted, x);
        j += 1;
    }
    assert(sort_input(inline@).take(inline@.len() as int) =~= sort_input(inline@));
    let ghost ins = sort_by_pos(sort_input(inline@));
    let mut out = String::new();
    let mut last: usize = 0;
    let mut q: usize = 0;
    assert(ins.skip(0) =~= ins);
    assert(out@ + splice(t@, ins.skip(0), 0) =~= splice(t@, ins, 0));
    while q < sorted.len()
        invariant
            q <= sorted@.len(),
            inline_view(sorted@) == ins,
            sorted_within(ins, t@.len() as int),
            last <= t@.len(),
            q > 0 ==> last == ins[q - 1].0,
            q == 0 ==> last == 0,
            out@ + splice(t@, ins.skip(q as int), last as int) == splice(t@, ins, 0),
        decreases sorted@.len() - q,
    {
        let (c, lab) = (sorted[q].0, &sorted[q].1);
        assert(ins[q as int] == (c as int, lab@));
        if q > 0 {
            assert(ins[q - 1].0 <= ins[q as int].0);
        }
        let piece = slice_vec(t.as_slice(), last, c);
        push_chars(&mut out, piece.as_slice());
        push_chars(&mut out, lab.as_slice());
        assert(ins.skip(q as int).skip(1) =~= ins.skip(q + 1));
        last = c;
        q += 1;
        assert(out@ + splice(t@, ins.skip(q as int), last as int) =~= splice(t@, ins, 0));
    }
    let tail = slice_vec(t.as_slice(), last, t.len());
    push_chars(&mut out, tail.as_slice());
    assert(ins.skip(q as int) =~= Seq::<(int, Seq<char>)>::empty());
    assert(out@ =~= splice(t@, ins, 0));
    if trailing.len() > 0 {
        let ov = chars_of(out.as_str());
        let tr = trim_end_chars(ov.as_slice());
        let mut res = string_of(tr.as_slice());
        push_str(&mut res, "  // ");
        push_join(&mut res, &trailing);
        res
    } else {
        out
    }
}

/// The collected inline hints as (char index, label) pairs.
pub open spec fn sort_input(v: Seq<(usize, Vec<char>)>) -> Seq<(int, Seq<char>)> {
    inline_view(v)
}

/// The char index at byte offset `b` of `t`, when it is a char boundary.
fn char_index_at(t: &[char], b: u128) -> (r: Option<usize>)
    ensures
        r is Some <==> is_boundary(t@, b as int),
        r matches Some(k) ==> k == chars_in_bytes(t@, b as int),
{
    let mut acc: u128 = 0;
    let mut i: usize = 0;
    assert(t@.take(0) =~= Seq::<char>::empty());
    while acc < b && i < t.len()
        invariant
            i <= t@.len(),
            acc == utf8_size(t@.take(i as int)),
            acc <= 4 * i,
            i > 0 ==> utf8_size(t@.take(i - 1)) < b,
        decreases t@.len() - i,
    {
        proof {
            crate::chars::lemma_utf8_size_take(t@, i as int);
        }
        acc = acc + crate::chars::char_utf8_len(t[i]);
        i += 1;
    }
    if acc == b {
        assert(is_boundary(t@, b as int));
        let ghost k = chars_in_bytes(t@, b as int);
        proof {
            if k < i {
                crate::chars::lemma_utf8_size_mono(t@, k, i as int);
            } else if k > i {
                crate::chars::lemma_utf8_size_mono(t@, i as int, k);
            }
        }
        Some(i)
    } else {
        proof {
            assert(!is_boundary(t@, b as int)) by {
                if is_boundary(t@, b as int) {
                    let k = choose|k: int| 0 <= k <= t@.len() && utf8_size(#[trigger] t@.take(k)) == b;
                    if acc < b {
                        assert(t@.take(i as int) =~= t@);
                        if k < i {
                            crate::chars::lemma_utf8_size_mono(t@, k, i as int);
                        }
                    } else {
                        if k < i - 1 {
                            crate::chars::lemma_utf8_size_mono(t@, k, i - 1);
                        } else if k > i {
                            crate::chars::lemma_utf8_size_mono(t@, i as int, k);
                        }
                    }
                }
            }
        }
        None
    }
}


/// Index of the first space in `s`.
pub open spec fn first_space(s: Seq<char>) -> Option<int>
    decreases s.len(),
{
    if s.len() == 0 {
        None
    } else if s[0] == ' ' {
        Some(0)
    } else {
        match first_space(s.skip(1)) {
            Some(i) => Some(i + 1),
            None => None,
        }
    }
}

pub proof fn lemma_first_space(s: Seq<char>)
    ensures
        first_space(s) matches Some(i) ==> 0 <= i < s.len() && s[i] == ' ' && forall|j: int|
            0 <= j < i ==> s[j] != ' ',
        first_space(s) is None ==> forall|j: int| 0 <= j < s.len() ==> s[j] != ' ',
    decreases s.len(),
{
    if s.len() > 0 && s[0] != ' ' {
        lemma_first_space(s.skip(1));
        assert forall|j: int| 1 <= j < s.len() implies s.skip(1)[j - 1] == s[j] by {}
    }
}

/// The words of a text: runs between single spaces, empty runs dropped.
pub open spec fn split_words(s: Seq<char>) -> Seq<Seq<char>>
    decreases s.len(),
{
    if s.len() == 0 {
        seq![]
    } else {
        match first_space(s) {
            None => seq![s],
            Some(i) => {
                proof {
                    lemma_first_space(s);
                }
                (if i > 0 {
                    seq![s.take(i)]
                } else {
                    Seq::<Seq<char>>::empty()
                }) + split_words(s.skip(i + 1))
            },
        }
    }
}

/// Wrapping state: finished rows and the row being filled.
pub type WrapState = (Seq<Seq<char>>, Seq<char>);

/// A word wider than the row is cut into row-sized pieces (by chars), each
/// a row of its own, after flushing the row being filled.
pub open spec fn chop(st: WrapState, w: Seq<char>, width: nat) -> (WrapState, Seq<char>)
    decreases w.len(),
{
    if w.len() > 0 && width > 0 && display_width(w) > width {
        let out = if st.1.len() > 0 {
            st.0.push(st.1)
        } else {
            st.0
        };
        let k = if w.len() < width {
            w.len() as int
        } else {
            width as int
        };
        chop((out.push(w.take(k)), seq![]), w.skip(k), width)
    } else {
        (st, w)
    }
}

/// A word goes on the row being filled, after a space, unless that would
/// overflow the row; then the row is finished first.
pub open spec fn place(st: WrapState, w: Seq<char>, width: nat) -> WrapState {
    let need = if st.1.len() == 0 {
        display_width(w) as int
    } else {
        (display_width(st.1) + 1 + display_width(w)) as int
    };
    let st2 = if need > width && st.1.len() > 0 {
        (st.0.push(st.1), Seq::<char>::empty())
    } else {
        st
    };
    let line = if st2.1.len() > 0 {
        st2.1 + seq![' ']
    } else {
        st2.1
    };
    (st2.0, line + w)
}

/// Wrapping a run of words.
pub open spec fn wrap_all(ws: Seq<Seq<char>>, width: nat) -> WrapState
    decreases ws.len(),
{
    if ws.len() == 0 {
        (seq![], seq![])
    } else {
        let c = chop(wrap_all(ws.drop_last(), width), ws.last(), width);
        place(c.0, c.1, width)
    }
}

/// Greedy word wrap: words joined by single spaces into rows of at most
/// `width` cells where they fit; a word wider than the row is split by
/// chars rather than left to overflow.
pub open spec fn spec_wrap_words(text: Seq<char>, width: nat) -> Seq<Seq<char>> {
    let st = wrap_all(split_words(text), width);
    if st.1.len() > 0 {
        st.0.push(st.1)
    } else {
        st.0
    }
}

fn words_of(text: &[char]) -> (ws: Vec<Vec<char>>)
    ensures
        ws@.map_values(|w: Vec<char>| w@) == split_words(text@),
{
    let mut ws: Vec<Vec<char>> = Vec::new();
    let mut i: usize = 0;
    assert(text@.skip(0) =~= text@);
    while i < text.len()
        invariant
            i <= text@.len(),
            ws@.map_values(|w: Vec<char>| w@) + split_words(text@.skip(i as int)) == split_words(
                text@,
            ),
        decreases text@.len() - i,
    {
        let ghost rest = text@.skip(i as int);
        proof {
            lemma_first_space(rest);
        }
        let mut j = i;
        while j < text.len() && text[j] != ' '
            invariant
                i <= j <= text@.len(),
                rest == text@.skip(i as int),
                forall|q: int| i <= q < j ==> text@[q] != ' ',
            decreases text@.len() - j,
        {
            j += 1;
        }
        let ghost before = ws@.map_values(|w: Vec<char>| w@);
        if j < text.len() {
            proof {
                assert(rest[j - i] == ' ');
                if first_space(rest) != Some(j - i) {
                    let k = first_space(rest).unwrap();
                    if k < j - i {
                        assert(rest[k] == text@[i + k]);
                    }
                }
            }
            if j > i {
                let w = slice_vec(text, i, j);
                ws.push(w);
                assert(rest.take(j - i) =~= w@);
            }
            assert(rest.skip(j - i + 1) =~= text@.skip(j + 1));
            i = j + 1;
        } else {
            proof {
                if first_space(rest) is Some {
                    let k = first_space(rest).unwrap();
                    assert(rest[k] == text@[i + k]);
                }
            }
            let w = slice_vec(text, i, j);
            ws.push(w);
            assert(rest =~= w@);
            assert(text@.skip(j as int) =~= Seq::<char>::empty());
            i = j;
        }
        assert(ws@.map_values(|w: Vec<char>| w@) + split_words(text@.skip(i as int)) =~= split_words(
            text@,
        ));
    }
    assert(text@.skip(i as int) =~= Seq::<char>::empty());
    assert(ws@.map_values(|w: Vec<char>| w@) =~= split_words(text@));
    ws
}

fn width_of_chars(v: &[char]) -> (w: usize)
    ensures
        w == display_width(v@),
        w <= 3 * v@.len(),
{
    let s = string_of(v);
    width_of(s.as_str())
}

/// Greedy word wrap for diagnostic text (see [`spec_wrap_words`]).
#[verifier::spinoff_prover]
pub fn wrap_words(text: &str, width: usize) -> (rows: Vec<String>)
    requires
        width > 0,
    ensures
        rows@.map_values(|r: String| r@) == spec_wrap_words(text@, width as nat),
{
    let tv = chars_of(text);
    let ws = words_of(tv.as_slice());
    let ghost words = ws@.map_values(|w: Vec<char>| w@);
    let mut out: Vec<String> = Vec::new();
    let mut line: Vec<char> = Vec::new();
    let mut i: usize = 0;
    while i < ws.len()
        invariant
            i <= ws@.len(),
            width > 0,
            words == ws@.map_values(|w: Vec<char>| w@),
            (out@.map_values(|r: String| r@), line@) == wrap_all(words.take(i as int), width as nat),
        decreases ws@.len() - i,
    {
        assert(words.take(i + 1).drop_last() =~= words.take(i as int));
        let ghost st0: WrapState = (out@.map_values(|r: String| r@), line@);
        let mut word: Vec<char> = slice_vec(ws[i].as_slice(), 0, ws[i].len());
        assert(ws@[i as int]@.subrange(0, ws@[i as int]@.len() as int) =~= words[i as int]);
        assert(chop(st0, words[i as int], width as nat) == chop(
            (out@.map_values(|r: String| r@), line@),
            word@,
            width as nat,
        ));
        loop
            invariant
                width > 0,
                chop(st0, words[i as int], width as nat) == chop(
                    (out@.map_values(|r: String| r@), line@),
                    word@,
                    width as nat,
                ),
            ensures
                chop(st0, words[i as int], width as nat) == ((out@.map_values(|r: String| r@), line@), word@),
            decreases word@.len(),
        {
            let ww = width_of_chars(word.as_slice());
            if !(ww > width) {
                break;
            }
            let ghost before = out@.map_values(|r: String| r@);
            let ghost line0 = line@;
            let ghost word0 = word@;
            if line.len() > 0 {
                out.push(string_of(line.as_slice()));
                line = Vec::new();
            }
            let ghost flushed = out@.map_values(|r: String| r@);
            assert(flushed =~= (if line0.len() > 0 {
                before.push(line0)
            } else {
                before
            }));
            let k = if word.len() < width {
                word.len()
            } else {
                width
            };
            let head = slice_vec(word.as_slice(), 0, k);
            let tail = slice_vec(word.as_slice(), k, word.len());
            out.push(string_of(head.as_slice()));
            assert(word@.take(k as int) =~= head@);
            assert(word@.skip(k as int) =~= tail@);
            word = tail;
            assert(out@.map_values(|r: String| r@) =~= flushed.push(head@));
            assert(line@ =~= Seq::<char>::empty());
            assert(chop((before, line0), word0, width as nat) == chop(
                (out@.map_values(|r: String| r@), line@),
                word@,
                width as nat,
            ));
        }
        let ghost c = chop(st0, words[i as int], width as nat);
        let lw = width_of_chars(line.as_slice());
        let ww = width_of_chars(word.as_slice());
        let need: u128 = if line.len() == 0 {
            ww as u128
        } else {
            lw as u128 + 1 + ww as u128
        };
        let ghost out1 = out@.map_values(|r: String| r@);
        if need > width as u128 && line.len() > 0 {
            out.push(string_of(line.as_slice()));
            line = Vec::new();
            assert(out@.map_values(|r: String| r@) =~= out1.push(c.0.1));
        }
        if line.len() > 0 {
            line.push(' ');
        }
        let mut k: usize = 0;
        let ghost base = line@;
        while k < word.len()
            invariant
                k <= word@.len(),
                line@ == base + word@.take(k as int),
            decreases word@.len() - k,
        {
            line.push(word[k]);
            k += 1;
            assert(line@ =~= base + word@.take(k as int));
        }
        assert(word@.take(word@.len() as int) =~= word@);
        i += 1;
        assert((out@.map_values(|r: String| r@), line@) == place(c.0, c.1, width as nat));
    }
    assert(words.take(ws@.len() as int) =~= words);
    let ghost o = out@.map_values(|r: String| r@);
    if line.len() > 0 {
        out.push(string_of(line.as_slice()));
        assert(out@.map_values(|r: String| r@) =~= o.push(line@));
    }
    out
}


} // verus!
