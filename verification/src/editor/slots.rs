//! The editor's buffers: one is shown, the others wait in numbered slots
//! (vim-style buffer numbers, from one, in the order the buffers came).

use vstd::prelude::*;

use crate::editing::buffer::{Buffer, Cursor};
use crate::editor::BufId;

verus! {

/// A buffer's place: its number, the buffer itself unless it is the one
/// shown (whose slot is empty), and where its view stood.
pub struct Slot {
    pub id: BufId,
    pub buffer: Option<Buffer>,
    pub cursor: Cursor,
    pub goal: Option<usize>,
    pub top_line: usize,
}

/// All buffers: the shown one checked out, every buffer's slot in creation
/// order.
pub struct Buffers {
    pub shown: Buffer,
    pub slots: Vec<Slot>,
    pub current: BufId,
    pub alternate: Option<BufId>,
    /// The number the next new buffer gets.
    pub next_buf_id: BufId,
}

/// A fresh slot: the view at the top, no goal column.
pub open spec fn fresh_slot(s: Slot, id: int, buffer: Option<Buffer>) -> bool {
    &&& s.id == id
    &&& s.buffer == buffer
    &&& s.cursor == (Cursor { line: 0, col: 0 })
    &&& s.goal is None
    &&& s.top_line == 0
}

/// The editor's buffers at start: numbered one to n in the order given,
/// the first one shown; no alternate buffer yet.
pub fn with_buffers(buffers: Vec<Buffer>) -> (e: Buffers)
    requires
        1 <= buffers@.len() < usize::MAX,
    ensures
        e.shown == buffers@[0],
        e.slots@.len() == buffers@.len(),
        fresh_slot(e.slots@[0], 1, None),
        forall|i: int| 1 <= i < buffers@.len() ==> fresh_slot(#[trigger] e.slots@[i], i + 1, Some(buffers@[i])),
        e.current == 1,
        e.alternate is None,
        e.next_buf_id == buffers@.len() + 1,
{
    let ghost b0 = buffers@;
    let n = buffers.len();
    let mut rest = buffers;
    let first = rest.remove(0);
    let mut slots: Vec<Slot> = Vec::new();
    slots.push(Slot { id: 1, buffer: None, cursor: Cursor::new(0, 0), goal: None, top_line: 0 });
    let mut id: usize = 2;
    while rest.len() > 0
        invariant
            n == b0.len(),
            n < usize::MAX,
            id == slots@.len() + 1,
            rest@ == b0.skip(slots@.len() as int),
            1 <= slots@.len() <= n,
            fresh_slot(slots@[0], 1, None),
            forall|i: int| 1 <= i < slots@.len() ==> fresh_slot(#[trigger] slots@[i], i + 1, Some(b0[i])),
        decreases rest@.len(),
    {
        let ghost k = slots@.len() as int;
        let b = rest.remove(0);
        assert(b == b0[k]);
        slots.push(Slot { id, buffer: Some(b), cursor: Cursor::new(0, 0), goal: None, top_line: 0 });
        id = id + 1;
        assert(rest@ =~= b0.skip(slots@.len() as int));
    }
    assert(slots@.len() == n) by {
        assert(b0.skip(slots@.len() as int).len() == 0);
    }
    Buffers { shown: first, slots, current: 1, alternate: None, next_buf_id: id }
}

impl Buffers {
    /// How many buffers there are.
    pub fn buffer_count(&self) -> (n: usize)
        ensures
            n == self.slots@.len(),
    {
        self.slots.len()
    }
}

} // verus!
