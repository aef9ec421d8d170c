//! Applying a language server's text edits to a buffer: positions in
//! lines and utf-8 byte columns, edits applied bottom-up so that earlier
//! ones keep their places, the final newline restored, all in one change.

use vstd::prelude::*;

use crate::chars::chars_of;
use crate::editing::buffer::{model_begin, model_end, model_insert, model_remove, BufModel, Buffer, Cursor};
use crate::editing::lines::{lemma_text_lines_bound, line_content, spec_line_content, spec_text_lines, text_lines};
use crate::editing::rope::{
    lemma_line_start_len, line_count, line_start, rope_char, rope_len_chars, rope_line_to_char, rope_text,
};
use crate::editor::analyzer::{byte_to_char_col, spec_byte_to_char_col};

verus! {

/// One text edit: the range it replaces (start line and byte column, end
/// line and byte column; none when the server sent no usable range, and
/// the edit is then skipped) and the text put there.
pub struct TextEdit {
    pub range: Option<(usize, usize, usize, usize)>,
    pub new_text: String,
}

/// The sort key of an edit: where it starts (no range counts as the top).
pub open spec fn edit_key(e: TextEdit) -> (int, int) {
    match e.range {
        Some((l, c, _, _)) => (l as int, c as int),
        None => (0, 0),
    }
}

/// Key `a` comes before key `b` (buffer order).
pub open spec fn key_lt(a: (int, int), b: (int, int)) -> bool {
    a.0 < b.0 || (a.0 == b.0 && a.1 < b.1)
}

/// The first index from `i` on whose edit starts before `e`.
pub open spec fn insert_at(s: Seq<TextEdit>, e: TextEdit, i: int) -> int
    decreases s.len() - i,
{
    if i < 0 || i >= s.len() {
        s.len() as int
    } else if key_lt(edit_key(s[i]), edit_key(e)) {
        i
    } else {
        insert_at(s, e, i + 1)
    }
}

/// The edits ordered bottom-up, edits with the same start keeping their
/// order (a stable sort by start, last first).
pub open spec fn bottom_up(es: Seq<TextEdit>) -> Seq<TextEdit>
    decreases es.len(),
{
    if es.len() == 0 {
        seq![]
    } else {
        let s = bottom_up(es.drop_last());
        s.insert(insert_at(s, es.last(), 0), es.last())
    }
}

/// A position as a char index: past the last line the text's end, else
/// the line's start plus the byte column's chars, at most the text's end.
pub open spec fn lsp_pos(t: Seq<char>, line: int, byte_col: int) -> int {
    if line >= spec_text_lines(t) {
        t.len() as int
    } else {
        let p = line_start(t, line as nat) + spec_byte_to_char_col(spec_line_content(t, line as nat), byte_col);
        if p < t.len() {
            p
        } else {
            t.len() as int
        }
    }
}

/// One edit applied: its range (the end at least the start) replaced by
/// its text; an edit without a range changes nothing.
pub open spec fn apply_edit(m: BufModel, e: TextEdit) -> BufModel {
    match e.range {
        None => m,
        Some((sl, sc, el, ec)) => {
            let start = lsp_pos(m.text, sl as int, sc as int);
            let e0 = lsp_pos(m.text, el as int, ec as int);
            let end = if e0 > start { e0 } else { start };
            model_insert(model_remove(m, start, end), start, e.new_text@)
        },
    }
}

/// Edits applied in order.
pub open spec fn apply_all(m: BufModel, es: Seq<TextEdit>) -> BufModel
    decreases es.len(),
{
    if es.len() == 0 {
        m
    } else {
        apply_edit(apply_all(m, es.drop_last()), es.last())
    }
}

/// A text that ends with a line break, one added when it does not.
pub open spec fn with_final_newline(m: BufModel) -> BufModel {
    if m.text.len() == 0 || m.text.last() != '\n' {
        model_insert(m, m.text.len() as int, seq!['\n'])
    } else {
        m
    }
}

/// The buffer after the edits in one change opened at `cursor`: applied
/// bottom-up, the final newline restored; and whether the change counts.
pub open spec fn edits_applied(m: BufModel, cursor: Cursor, es: Seq<TextEdit>) -> (BufModel, bool) {
    model_end(with_final_newline(apply_all(model_begin(m, cursor), bottom_up(es))))
}

/// The total length of the edits' texts.
pub open spec fn new_text_len(es: Seq<TextEdit>) -> nat
    decreases es.len(),
{
    if es.len() == 0 {
        0
    } else {
        new_text_len(es.drop_last()) + es.last().new_text@.len()
    }
}

/// What applying edits asks: room in the change counters for two steps
/// per edit and one more, and room for the texts.
pub open spec fn edits_fit(m: BufModel, es: Seq<TextEdit>) -> bool {
    &&& m.depth < u32::MAX
    &&& m.revision + 2 * es.len() + 2 < u64::MAX
    &&& m.text.len() + new_text_len(es) + 1 <= usize::MAX
}

proof fn lemma_insert_at(s: Seq<TextEdit>, e: TextEdit, i: int)
    requires
        0 <= i <= s.len(),
    ensures
        i <= insert_at(s, e, i) <= s.len(),
    decreases s.len() - i,
{
    if i < s.len() && !key_lt(edit_key(s[i]), edit_key(e)) {
        lemma_insert_at(s, e, i + 1);
    }
}

proof fn lemma_new_text_len_insert(s: Seq<TextEdit>, p: int, e: TextEdit)
    requires
        0 <= p <= s.len(),
    ensures
        new_text_len(s.insert(p, e)) == new_text_len(s) + e.new_text@.len(),
    decreases s.len(),
{
    if p < s.len() {
        lemma_new_text_len_insert(s.drop_last(), p, e);
        assert(s.insert(p, e).drop_last() =~= s.drop_last().insert(p, e));
    } else {
        assert(s.insert(p, e).drop_last() =~= s);
    }
}

/// Sorting keeps the edits, so their texts' total length.
proof fn lemma_bottom_up_len(es: Seq<TextEdit>)
    ensures
        bottom_up(es).len() == es.len(),
        new_text_len(bottom_up(es)) == new_text_len(es),
    decreases es.len(),
{
    if es.len() > 0 {
        lemma_bottom_up_len(es.drop_last());
        let s = bottom_up(es.drop_last());
        lemma_insert_at(s, es.last(), 0);
        lemma_new_text_len_insert(s, insert_at(s, es.last(), 0), es.last());
    }
}

/// The start of the edit at a position (see [`edit_key`]).
fn key_of(e: &TextEdit) -> (k: (usize, usize))
    ensures
        (k.0 as int, k.1 as int) == edit_key(*e),
{
    match e.range {
        Some((l, c, _, _)) => (l, c),
        None => (0, 0),
    }
}

/// A copy of an edit.
fn copy_edit(e: &TextEdit) -> (c: TextEdit)
    ensures
        c.range == e.range,
        c.new_text@ == e.new_text@,
{
    let v = chars_of(e.new_text.as_str());
    TextEdit { range: e.range, new_text: crate::chars::string_of(v.as_slice()) }
}

/// The view of an edit list: ranges and texts.
pub open spec fn edits_view(es: Seq<TextEdit>) -> Seq<(Option<(usize, usize, usize, usize)>, Seq<char>)> {
    es.map_values(|e: TextEdit| (e.range, e.new_text@))
}

/// Orders edits bottom-up (see [`bottom_up`]).
pub fn sort_bottom_up(es: &Vec<TextEdit>) -> (out: Vec<TextEdit>)
    ensures
        edits_view(out@) == edits_view(bottom_up(es@)),
        out@.len() == es@.len(),
{
    let mut out: Vec<TextEdit> = Vec::new();
    let mut i: usize = 0;
    while i < es.len()
        invariant
            i <= es@.len(),
            edits_view(out@) == edits_view(bottom_up(es@.take(i as int))),
            out@.len() == i,
            bottom_up(es@.take(i as int)).len() == i,
        decreases es@.len() - i,
    {
        let e = copy_edit(&es[i]);
        let ke = key_of(&e);
        assert(edit_key(e) == edit_key(es@[i as int]));
        let ghost s = bottom_up(es@.take(i as int));
        proof {
            lemma_bottom_up_len(es@.take(i as int));
            assert(es@.take(i + 1).drop_last() =~= es@.take(i as int));
        }
        let mut p: usize = 0;
        while p < out.len()
            invariant_except_break
                p <= out@.len(),
                i < es@.len(),
                out@.len() == s.len(),
                edits_view(out@) == edits_view(s),
                (ke.0 as int, ke.1 as int) == edit_key(es@[i as int]),
                insert_at(s, es@[i as int], p as int) == insert_at(s, es@[i as int], 0),
            ensures
                p == insert_at(s, es@[i as int], 0),
            decreases out@.len() - p,
        {
            let kp = key_of(&out[p]);
            proof {
                assert(edits_view(out@)[p as int] == edits_view(s)[p as int]);
                assert(out@[p as int].range == s[p as int].range);
            }
            if kp.0 < ke.0 || (kp.0 == ke.0 && kp.1 < ke.1) {
                break;
            }
            p += 1;
        }
        proof {
            lemma_insert_at(s, es@[i as int], 0);
        }
        let ghost o0 = out@;
        out.insert(p, e);
        proof {
            assert(es@.take(i + 1).last() == es@[i as int]);
            assert(edits_view(out@) =~= edits_view(s.insert(p as int, es@[i as int]))) by {
                assert forall|k: int| 0 <= k < out@.len() implies #[trigger] edits_view(out@)[k] == edits_view(
                    s.insert(p as int, es@[i as int]),
                )[k] by {
                    if k < p {
                        assert(out@[k] == o0[k]);
                        assert(edits_view(o0)[k] == edits_view(s)[k]);
                    } else if k > p {
                        assert(out@[k] == o0[k - 1]);
                        assert(edits_view(o0)[k - 1] == edits_view(s)[k - 1]);
                    }
                };
            };
        }
        i += 1;
    }
    assert(es@.take(es@.len() as int) =~= es@);
    out
}

/// A position as a char index (see [`lsp_pos`]).
pub fn lsp_pos_to_char(rope: &ropey::Rope, line: usize, byte_col: usize) -> (p: usize)
    ensures
        p == lsp_pos(rope_text(*rope), line as int, byte_col as int),
{
    let ghost t = rope_text(*rope);
    proof {
        lemma_text_lines_bound(t);
    }
    let len = rope_len_chars(rope);
    if line >= text_lines(rope) {
        return len;
    }
    let content = line_content(rope, line);
    let col = byte_to_char_col(content.as_str(), byte_col);
    let ls = rope_line_to_char(rope, line);
    proof {
        lemma_line_start_len(t, line as nat);
        crate::editing::rope::lemma_line_start_len(t, (line + 1) as nat);
    }
    if col < len - ls {
        ls + col
    } else {
        len
    }
}

impl Buffer {
    /// Applies the edits in one change opened at `cursor` (see
    /// [`edits_applied`]); returns whether the change counts.
    #[verifier::spinoff_prover]
    pub fn apply_text_edits(&mut self, edits: &Vec<TextEdit>, cursor: Cursor) -> (committed: bool)
        requires
            edits_fit(old(self)@, edits@),
        ensures
            (final(self)@, committed) == edits_applied(old(self)@, cursor, edits@),
    {
        let sorted = sort_bottom_up(edits);
        let ghost es = bottom_up(edits@);
        proof {
            lemma_bottom_up_len(edits@);
        }
        self.begin_change(cursor);
        let ghost m1 = self@;
        let mut i: usize = 0;
        while i < sorted.len()
            invariant
                i <= sorted@.len(),
                sorted@.len() == es.len(),
                edits_view(sorted@) == edits_view(es),
                self@ == apply_all(m1, es.take(i as int)),
                self@.text.len() <= m1.text.len() + new_text_len(es.take(i as int)),
                new_text_len(es) == new_text_len(edits@),
                m1.text.len() + new_text_len(es) + 1 <= usize::MAX,
                self@.revision <= m1.revision + 2 * i,
                m1.revision + 2 * es.len() + 2 < u64::MAX,
            decreases sorted@.len() - i,
        {
            let e = &sorted[i];
            proof {
                assert(es.take(i + 1).drop_last() =~= es.take(i as int));
                assert(es.take(i + 1).last() == es[i as int]);
                assert(edits_view(sorted@)[i as int] == edits_view(es)[i as int]);
                lemma_new_text_len_prefix(es, i as int);
            }
            match e.range {
                None => {},
                Some((sl, sc, el, ec)) => {
                    let start = lsp_pos_to_char(&self.rope, sl, sc);
                    let e0 = lsp_pos_to_char(&self.rope, el, ec);
                    let end = if e0 > start { e0 } else { start };
                    self.remove(start, end);
                    self.insert(start, e.new_text.as_str());
                },
            }
            i += 1;
        }
        assert(es.take(es.len() as int) =~= es);
        let n = rope_len_chars(&self.rope);
        if n == 0 || rope_char(&self.rope, n - 1) != '\n' {
            let mut nl = String::new();
            nl.push('\n');
            self.insert(n, nl.as_str());
        }
        self.end_change()
    }
}

proof fn lemma_new_text_len_prefix(es: Seq<TextEdit>, i: int)
    requires
        0 <= i < es.len(),
    ensures
        new_text_len(es.take(i + 1)) == new_text_len(es.take(i)) + es[i].new_text@.len(),
        new_text_len(es.take(i + 1)) <= new_text_len(es),
    decreases es.len() - i,
{
    assert(es.take(i + 1).drop_last() =~= es.take(i));
    if i + 1 < es.len() {
        lemma_new_text_len_prefix(es, i + 1);
    } else {
        assert(es.take(i + 1) =~= es);
    }
}

} // verus!
