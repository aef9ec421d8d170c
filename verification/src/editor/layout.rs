//! Screen geometry of the window tree: each window's rectangle, the
//! separator columns of vertical containers, the neighbor reached by moving
//! in a direction, and tmux-style border resizing.
//!
//! A vertical container gives its children its width minus one separator
//! column between each pair; a horizontal one gives them its full height.
//! The stored sizes are scaled by [`normalized`] to exactly that total.

use vstd::prelude::*;

use crate::editing::commands::{SplitDir, WinDir};

use super::windows::{
    ids, ids_all, lemma_ids_all_at, lemma_wf_all, wf, first_child_holding, first_cut_fits, first_holding, lemma_first_holding, lemma_views,
    lemma_views_update, normalized, share_sum, spec_normalized, view_of, views, Node, Tree, WinId,
    MIN_WIN_HEIGHT, MIN_WIN_WIDTH,
};

verus! {

/// A screen rectangle in cells.
#[derive(Debug, Clone, Copy, PartialEq, Eq, Structural)]
pub struct Rect {
    pub x: u16,
    pub y: u16,
    pub width: u16,
    pub height: u16,
}

impl Rect {
    pub fn new(x: u16, y: u16, width: u16, height: u16) -> (r: Self)
        ensures
            r == (Rect { x, y, width, height }),
    {
        Rect { x, y, width, height }
    }
}

/// Cells shared out among a container's `n` children: the width less the
/// separator columns (vertical), or the height (horizontal).
pub open spec fn split_total(dir: SplitDir, n: nat, area: Rect) -> u16 {
    match dir {
        SplitDir::Vertical => if area.width >= n - 1 {
            (area.width - (n - 1)) as u16
        } else {
            0u16
        },
        SplitDir::Horizontal => area.height,
    }
}

/// The shares a container's children get inside `area`.
pub open spec fn shares_in(dir: SplitDir, n: nat, sizes: Seq<u16>, area: Rect) -> Seq<u16> {
    spec_normalized(sizes, split_total(dir, n, area))
}

/// Child `i`'s rectangle: after the shares of the children before it (and,
/// side by side, one separator column per earlier child).
pub open spec fn child_rect(dir: SplitDir, area: Rect, shares: Seq<u16>, i: int) -> Rect {
    let pos = share_sum(shares.take(i));
    match dir {
        SplitDir::Vertical => Rect {
            x: (area.x + pos + i) as u16,
            y: area.y,
            width: shares[i],
            height: area.height,
        },
        SplitDir::Horizontal => Rect {
            x: area.x,
            y: (area.y + pos) as u16,
            width: area.width,
            height: shares[i],
        },
    }
}

/// Placing a container's children in `area` stays within cell arithmetic:
/// the share scaling fits and every child's position is a cell.
pub open spec fn level_fits(dir: SplitDir, n: nat, sizes: Seq<u16>, area: Rect) -> bool {
    let shares = shares_in(dir, n, sizes, area);
    &&& 1 <= n <= u16::MAX
    &&& sizes.len() == n
    &&& first_cut_fits(sizes, split_total(dir, n, area))
    &&& forall|i: int|
        0 <= i < n ==> {
            &&& share_sum(#[trigger] shares.take(i + 1)) <= u16::MAX
            &&& (dir == SplitDir::Vertical ==> area.x + share_sum(shares.take(i)) + i <= u16::MAX)
            &&& (dir == SplitDir::Horizontal ==> area.y + share_sum(shares.take(i)) <= u16::MAX)
        }
}

/// The whole tree can be laid out in `area`.
pub open spec fn layout_ok(t: Tree, area: Rect) -> bool
    decreases t,
{
    match t {
        Tree::Leaf { .. } => true,
        Tree::Split { dir, children, sizes } => {
            &&& level_fits(dir, children.len(), sizes, area)
            &&& layout_ok_run(dir, children, shares_in(dir, children.len(), sizes, area), area)
        },
    }
}

/// Every child in a run can be laid out in its rectangle.
pub open spec fn layout_ok_run(dir: SplitDir, cs: Seq<Tree>, shares: Seq<u16>, area: Rect) -> bool
    decreases cs,
{
    if cs.len() == 0 {
        true
    } else {
        layout_ok_run(dir, cs.drop_last(), shares, area) && layout_ok(
            cs.last(),
            child_rect(dir, area, shares, cs.len() - 1),
        )
    }
}

/// Each window with its rectangle, in window order.
pub open spec fn layout_of(t: Tree, area: Rect) -> Seq<(WinId, Rect)>
    decreases t,
{
    match t {
        Tree::Leaf { id, .. } => seq![(id, area)],
        Tree::Split { dir, children, sizes } => layout_run(
            dir,
            children,
            shares_in(dir, children.len(), sizes, area),
            area,
        ),
    }
}

/// The layouts of a run of children, concatenated.
pub open spec fn layout_run(dir: SplitDir, cs: Seq<Tree>, shares: Seq<u16>, area: Rect) -> Seq<
    (WinId, Rect),
>
    decreases cs,
{
    if cs.len() == 0 {
        seq![]
    } else {
        layout_run(dir, cs.drop_last(), shares, area) + layout_of(
            cs.last(),
            child_rect(dir, area, shares, cs.len() - 1),
        )
    }
}

/// The separator column left of each child after the first in vertical
/// containers, the tree's whole depth.
pub open spec fn separators_of(t: Tree, area: Rect) -> Seq<Rect>
    decreases t,
{
    match t {
        Tree::Leaf { .. } => seq![],
        Tree::Split { dir, children, sizes } => separators_run(
            dir,
            children,
            shares_in(dir, children.len(), sizes, area),
            area,
        ),
    }
}

/// The separator before child `i` of a vertical container, if any.
pub open spec fn separator_before(dir: SplitDir, area: Rect, shares: Seq<u16>, i: int) -> Seq<Rect> {
    if dir == SplitDir::Vertical && i > 0 {
        seq![
            Rect {
                x: (child_rect(dir, area, shares, i).x - 1) as u16,
                y: area.y,
                width: 1,
                height: area.height,
            },
        ]
    } else {
        seq![]
    }
}

pub open spec fn separators_run(dir: SplitDir, cs: Seq<Tree>, shares: Seq<u16>, area: Rect) -> Seq<
    Rect,
>
    decreases cs,
{
    if cs.len() == 0 {
        seq![]
    } else {
        separators_run(dir, cs.drop_last(), shares, area) + separator_before(
            dir,
            area,
            shares,
            cs.len() - 1,
        ) + separators_of(cs.last(), child_rect(dir, area, shares, cs.len() - 1))
    }
}

pub proof fn lemma_share_sum_step(ss: Seq<u16>, i: int)
    requires
        0 <= i < ss.len(),
    ensures
        share_sum(ss.take(i + 1)) == share_sum(ss.take(i)) + ss[i],
{
    assert(ss.take(i + 1).drop_last() =~= ss.take(i));
}

pub proof fn lemma_share_sum_nonneg(ss: Seq<u16>)
    ensures
        share_sum(ss) >= 0,
    decreases ss.len(),
{
    if ss.len() > 0 {
        lemma_share_sum_nonneg(ss.drop_last());
    }
}

/// Runs of a prefix: the first `i + 1` children's results extend the first
/// `i` children's by child `i`'s.
proof fn lemma_run_take(cs: Seq<Tree>, i: int)
    requires
        0 <= i < cs.len(),
    ensures
        cs.take(i + 1).drop_last() == cs.take(i),
        cs.take(i + 1).last() == cs[i],
        cs.take(i + 1).len() == i + 1,
{
    assert(cs.take(i + 1).drop_last() =~= cs.take(i));
}

proof fn lemma_layout_ok_run_at(dir: SplitDir, cs: Seq<Tree>, shares: Seq<u16>, area: Rect, k: int, i: int)
    requires
        layout_ok_run(dir, cs.take(k), shares, area),
        0 <= i < k <= cs.len(),
    ensures
        layout_ok(cs[i], child_rect(dir, area, shares, i)),
    decreases k,
{
    assert(cs.take(k).drop_last() =~= cs.take(k - 1));
    if i < k - 1 {
        lemma_layout_ok_run_at(dir, cs, shares, area, k - 1, i);
    }
}

/// Arithmetic facts of one level that the placing loops use.
proof fn lemma_level(dir: SplitDir, n: nat, sizes: Seq<u16>, area: Rect, i: int)
    requires
        level_fits(dir, n, sizes, area),
        0 <= i < n,
    ensures
        shares_in(dir, n, sizes, area).len() == n,
        share_sum(shares_in(dir, n, sizes, area).take(i + 1)) == share_sum(
            shares_in(dir, n, sizes, area).take(i),
        ) + shares_in(dir, n, sizes, area)[i],
        share_sum(shares_in(dir, n, sizes, area).take(i + 1)) <= u16::MAX,
        share_sum(shares_in(dir, n, sizes, area).take(i)) >= 0,
        shares_in(dir, n, sizes, area)[i] >= 1,
{
    let shares = shares_in(dir, n, sizes, area);
    super::windows::lemma_normalized(sizes, split_total(dir, n, area));
    lemma_share_sum_step(shares, i);
    lemma_share_sum_nonneg(shares.take(i));
    assert(share_sum(#[trigger] shares.take(i + 1)) <= u16::MAX);
}

impl Node {
    /// Each window's screen rectangle (its statusline row included), in
    /// window order, appended to `out`.
    pub fn layout(&self, area: Rect, out: &mut Vec<(WinId, Rect)>)
        requires
            layout_ok(self@, area),
        ensures
            final(out)@ == old(out)@ + layout_of(self@, area),
        decreases self,
    {
        match self {
            Node::Leaf { id, .. } => {
                out.push((*id, area));
            },
            Node::Split { dir, children, sizes } => {
                let ghost ts = views(children@);
                proof {
                    lemma_views(children@);
                }
                let n = children.len();
                let total = split_total_of(*dir, n, area);
                let shares = normalized(sizes.as_slice(), total);
                let ghost sh = shares@;
                let ghost out0 = out@;
                let mut pos: u16 = 0;
                let mut i: usize = 0;
                while i < n
                    invariant
                        *self == (Node::Split { dir: *dir, children: *children, sizes: *sizes }),
                        n == children@.len(),
                        i <= n,
                        ts == views(children@),
                        ts.len() == n,
                        forall|j: int| 0 <= j < n ==> #[trigger] ts[j] == view_of(children@[j]),
                        level_fits(*dir, n as nat, sizes@, area),
                        layout_ok_run(*dir, ts, sh, area),
                        sh == shares_in(*dir, n as nat, sizes@, area),
                        shares@ == sh,
                        pos == share_sum(sh.take(i as int)),
                        out@ == out0 + layout_run(*dir, ts.take(i as int), sh, area),
                    decreases n - i,
                {
                    proof {
                        lemma_level(*dir, n as nat, sizes@, area, i as int);
                        lemma_run_take(ts, i as int);
                        assert(ts.take(n as int) =~= ts);
                        lemma_layout_ok_run_at(*dir, ts, sh, area, n as int, i as int);
                    }
                    let len = shares[i];
                    let rect = match dir {
                        SplitDir::Vertical => Rect::new(area.x + pos + i as u16, area.y, len, area.height),
                        SplitDir::Horizontal => Rect::new(area.x, area.y + pos, area.width, len),
                    };
                    assert(rect == child_rect(*dir, area, sh, i as int));
                    proof {
                        assert(decreases_to!(*self => self->children));
                        vstd::std_specs::vec::axiom_vec_index_decreases(self->children, i as int);
                    }
                    children[i].layout(rect, out);
                    proof {
                        assert(out@ =~= out0 + layout_run(*dir, ts.take(i + 1), sh, area));
                    }
                    pos = pos + len;
                    i = i + 1;
                }
                assert(ts.take(n as int) =~= ts);
            },
        }
    }

    /// The separator columns of vertical containers, appended to `out`.
    pub fn separators(&self, area: Rect, out: &mut Vec<Rect>)
        requires
            layout_ok(self@, area),
        ensures
            final(out)@ == old(out)@ + separators_of(self@, area),
        decreases self,
    {
        match self {
            Node::Leaf { .. } => {
                assert(separators_of(self@, area) =~= Seq::<Rect>::empty());
                assert(out@ =~= old(out)@ + separators_of(self@, area));
            },
            Node::Split { dir, children, sizes } => {
                let ghost ts = views(children@);
                proof {
                    lemma_views(children@);
                }
                let n = children.len();
                let total = split_total_of(*dir, n, area);
                let shares = normalized(sizes.as_slice(), total);
                let ghost sh = shares@;
                let ghost out0 = out@;
                let mut pos: u16 = 0;
                let mut i: usize = 0;
                while i < n
                    invariant
                        *self == (Node::Split { dir: *dir, children: *children, sizes: *sizes }),
                        n == children@.len(),
                        i <= n,
                        ts == views(children@),
                        ts.len() == n,
                        forall|j: int| 0 <= j < n ==> #[trigger] ts[j] == view_of(children@[j]),
                        level_fits(*dir, n as nat, sizes@, area),
                        layout_ok_run(*dir, ts, sh, area),
                        sh == shares_in(*dir, n as nat, sizes@, area),
                        shares@ == sh,
                        pos == share_sum(sh.take(i as int)),
                        out@ == out0 + separators_run(*dir, ts.take(i as int), sh, area),
                    decreases n - i,
                {
                    proof {
                        lemma_level(*dir, n as nat, sizes@, area, i as int);
                        lemma_run_take(ts, i as int);
                        assert(ts.take(n as int) =~= ts);
                        lemma_layout_ok_run_at(*dir, ts, sh, area, n as int, i as int);
                    }
                    let len = shares[i];
                    let rect = match dir {
                        SplitDir::Vertical => Rect::new(area.x + pos + i as u16, area.y, len, area.height),
                        SplitDir::Horizontal => Rect::new(area.x, area.y + pos, area.width, len),
                    };
                    assert(rect == child_rect(*dir, area, sh, i as int));
                    let ghost before = out@;
                    if *dir == SplitDir::Vertical && i > 0 {
                        out.push(Rect::new(rect.x - 1, area.y, 1, area.height));
                    }
                    assert(out@ =~= before + separator_before(*dir, area, sh, i as int));
                    proof {
                        assert(decreases_to!(*self => self->children));
                        vstd::std_specs::vec::axiom_vec_index_decreases(self->children, i as int);
                    }
                    children[i].separators(rect, out);
                    proof {
                        assert(out@ =~= out0 + separators_run(*dir, ts.take(i + 1), sh, area));
                    }
                    pos = pos + len;
                    i = i + 1;
                }
                assert(ts.take(n as int) =~= ts);
            },
        }
    }
}

/// The cells shared out among `n` children (see [`split_total`]).
fn split_total_of(dir: SplitDir, n: usize, area: Rect) -> (t: u16)
    requires
        1 <= n <= u16::MAX,
    ensures
        t == split_total(dir, n as nat, area),
{
    match dir {
        SplitDir::Vertical => {
            let sep = (n - 1) as u16;
            if area.width >= sep {
                area.width - sep
            } else {
                0
            }
        },
        SplitDir::Horizontal => area.height,
    }
}

// ----------------------------------------------------------------------
// neighbors
// ----------------------------------------------------------------------

/// A rectangle whose right and bottom edges are cells.
pub open spec fn rect_ok(r: Rect) -> bool {
    r.x + r.width <= u16::MAX && r.y + r.height <= u16::MAX
}

/// The rectangle of the first entry for window `from`, from index `i` on.
pub open spec fn find_rect(rects: Seq<(WinId, Rect)>, from: WinId, i: int) -> Option<Rect>
    decreases rects.len() - i,
{
    if i < 0 || i >= rects.len() {
        None
    } else if rects[i].0 == from {
        Some(rects[i].1)
    } else {
        find_rect(rects, from, i + 1)
    }
}

/// A window touching `cur` on the side `dir` (one cell of tolerance for
/// the separator column of side-by-side windows).
pub open spec fn is_candidate(e: (WinId, Rect), from: WinId, cur: Rect, dir: WinDir) -> bool {
    let r = e.1;
    &&& e.0 != from
    &&& match dir {
        WinDir::Left => r.x + r.width <= cur.x && cur.x - (r.x + r.width) <= 1,
        WinDir::Right => r.x >= cur.x + cur.width && r.x - (cur.x + cur.width) <= 1,
        WinDir::Up => r.y + r.height == cur.y,
        WinDir::Down => r.y == cur.y + cur.height,
    }
}

/// How well a candidate lines up with the cursor's projection `pref`:
/// highest when it spans it, else minus the distance to its nearer edge.
pub open spec fn overlap_key(r: Rect, dir: WinDir, pref: u16) -> int {
    let (lo, hi) = match dir {
        WinDir::Left | WinDir::Right => (r.y as int, r.y + r.height),
        WinDir::Up | WinDir::Down => (r.x as int, r.x + r.width),
    };
    if lo <= pref < hi {
        i32::MAX as int
    } else {
        let d1 = if pref >= lo {
            pref - lo
        } else {
            lo - pref
        };
        let d2 = if pref >= hi {
            pref - hi
        } else {
            hi - pref
        };
        -(if d1 <= d2 {
            d1
        } else {
            d2
        })
    }
}

/// Index of the best candidate among the first `k` entries; of equally
/// good ones the last.
pub open spec fn best_upto(rects: Seq<(WinId, Rect)>, from: WinId, cur: Rect, dir: WinDir, pref: u16, k: int) -> Option<int>
    decreases k,
{
    if k <= 0 || k > rects.len() {
        None
    } else {
        let prev = best_upto(rects, from, cur, dir, pref, k - 1);
        if is_candidate(rects[k - 1], from, cur, dir) {
            match prev {
                None => Some(k - 1),
                Some(j) => if overlap_key(rects[k - 1].1, dir, pref) >= overlap_key(
                    rects[j].1,
                    dir,
                    pref,
                ) {
                    Some(k - 1)
                } else {
                    Some(j)
                },
            }
        } else {
            prev
        }
    }
}

pub proof fn lemma_best_upto(rects: Seq<(WinId, Rect)>, from: WinId, cur: Rect, dir: WinDir, pref: u16, k: int)
    ensures
        best_upto(rects, from, cur, dir, pref, k) matches Some(j) ==> 0 <= j < k && j < rects.len(),
    decreases k,
{
    if 0 < k <= rects.len() {
        lemma_best_upto(rects, from, cur, dir, pref, k - 1);
    }
}

/// The window reached by moving from `from` in `dir`: of the windows
/// touching it on that side, the one best lined up with `pref` (the
/// cursor's screen row or column).
pub open spec fn spec_neighbor(rects: Seq<(WinId, Rect)>, from: WinId, dir: WinDir, pref: u16) -> Option<WinId> {
    match find_rect(rects, from, 0) {
        None => None,
        Some(cur) => match best_upto(rects, from, cur, dir, pref, rects.len() as int) {
            None => None,
            Some(j) => Some(rects[j].0),
        },
    }
}

fn candidate(e: (WinId, Rect), from: WinId, cur: Rect, dir: WinDir) -> (b: bool)
    requires
        rect_ok(e.1),
        rect_ok(cur),
    ensures
        b == is_candidate(e, from, cur, dir),
{
    let r = e.1;
    if e.0 == from {
        return false;
    }
    match dir {
        WinDir::Left => r.x + r.width <= cur.x && cur.x - (r.x + r.width) <= 1,
        WinDir::Right => r.x >= cur.x + cur.width && r.x - (cur.x + cur.width) <= 1,
        WinDir::Up => r.y + r.height == cur.y,
        WinDir::Down => r.y == cur.y + cur.height,
    }
}

fn overlap(r: Rect, dir: WinDir, pref: u16) -> (k: i32)
    requires
        rect_ok(r),
    ensures
        k == overlap_key(r, dir, pref),
{
    let (lo, hi) = match dir {
        WinDir::Left | WinDir::Right => (r.y, r.y + r.height),
        WinDir::Up | WinDir::Down => (r.x, r.x + r.width),
    };
    if pref >= lo && pref < hi {
        i32::MAX
    } else {
        let v1 = pref as i32 - lo as i32;
        let v2 = pref as i32 - hi as i32;
        let d1 = if v1 >= 0 {
            v1
        } else {
            -v1
        };
        let d2 = if v2 >= 0 {
            v2
        } else {
            -v2
        };
        -(if d1 <= d2 {
            d1
        } else {
            d2
        })
    }
}

/// Picks the window reached by moving from `from` in `dir`, preferring the
/// neighbor that overlaps `pref` (the cursor's screen row or column).
pub fn neighbor(rects: &[(WinId, Rect)], from: WinId, dir: WinDir, pref: u16) -> (r: Option<WinId>)
    requires
        forall|i: int| 0 <= i < rects@.len() ==> rect_ok(#[trigger] rects@[i].1),
    ensures
        r == spec_neighbor(rects@, from, dir, pref),
{
    let ghost rs = rects@;
    let mut i: usize = 0;
    let mut found: Option<Rect> = None;
    while i < rects.len()
        invariant_except_break
            found is None,
        invariant
            i <= rects@.len(),
            rs == rects@,
            forall|j: int| 0 <= j < rs.len() ==> rect_ok(#[trigger] rs[j].1),
            find_rect(rs, from, i as int) == find_rect(rs, from, 0),
        ensures
            found == find_rect(rs, from, 0),
            found matches Some(c) ==> rect_ok(c),
        decreases rects@.len() - i,
    {
        if rects[i].0 == from {
            found = Some(rects[i].1);
            break;
        }
        i = i + 1;
    }
    let cur = match found {
        None => {
            return None;
        },
        Some(c) => c,
    };
    let mut best: Option<usize> = None;
    let mut best_key: i32 = 0;
    let mut k: usize = 0;
    while k < rects.len()
        invariant
            k <= rects@.len(),
            rs == rects@,
            rect_ok(cur),
            forall|i: int| 0 <= i < rs.len() ==> rect_ok(#[trigger] rs[i].1),
            best == (match best_upto(rs, from, cur, dir, pref, k as int) {
                None => None::<usize>,
                Some(j) => Some(j as usize),
            }),
            best matches Some(j) ==> j < k && best_key == overlap_key(rs[j as int].1, dir, pref),
        decreases rects@.len() - k,
    {
        proof {
            lemma_best_upto(rs, from, cur, dir, pref, k as int);
        }
        let e = rects[k];
        if candidate(e, from, cur, dir) {
            let key = overlap(e.1, dir, pref);
            match best {
                None => {
                    best = Some(k);
                    best_key = key;
                },
                Some(_) => {
                    if key >= best_key {
                        best = Some(k);
                        best_key = key;
                    }
                },
            }
        }
        k = k + 1;
    }
    proof {
        lemma_best_upto(rs, from, cur, dir, pref, rs.len() as int);
    }
    match best {
        None => None,
        Some(j) => Some(rects[j].0),
    }
}

// ----------------------------------------------------------------------
// resizing
// ----------------------------------------------------------------------

/// The container axis a direction resizes along.
pub open spec fn axis_of(dir: WinDir) -> SplitDir {
    match dir {
        WinDir::Left | WinDir::Right => SplitDir::Vertical,
        WinDir::Up | WinDir::Down => SplitDir::Horizontal,
    }
}

/// Whether a direction pushes the border after the window.
pub open spec fn grows_after(dir: WinDir) -> bool {
    dir == WinDir::Right || dir == WinDir::Down
}

/// The smallest share a window may shrink to along an axis.
pub open spec fn min_cells(axis: SplitDir) -> u16 {
    match axis {
        SplitDir::Vertical => MIN_WIN_WIDTH,
        SplitDir::Horizontal => MIN_WIN_HEIGHT,
    }
}

/// The children on either side of the border that moves for child `i`,
/// as `(grows, shrinks)`: the border after `i` when pushing after (or the
/// one before it when `i` is last), else the border before `i` (or the one
/// after it when `i` is first).
pub open spec fn border_pair(n: int, i: int, grow_after: bool) -> (int, int) {
    if grow_after {
        if i + 1 < n {
            (i, i + 1)
        } else {
            (i - 1, i)
        }
    } else if i > 0 {
        (i, i - 1)
    } else {
        (i + 1, i)
    }
}

/// Moves the border of child `i` by up to `step` cells without shrinking
/// the other side below `min`; `None` when it cannot move.
pub open spec fn border_move(cur: Seq<u16>, i: int, grow_after: bool, step: u16, min: u16) -> Option<Seq<u16>> {
    let (g, s) = border_pair(cur.len() as int, i, grow_after);
    let avail = if cur[s] >= min {
        cur[s] - min
    } else {
        0
    };
    let st = if step <= avail {
        step as int
    } else {
        avail
    };
    if st == 0 {
        None
    } else {
        Some(cur.update(g, (cur[g] + st) as u16).update(s, (cur[s] - st) as u16))
    }
}

/// tmux-style resize of the deepest container along `axis` that holds
/// `win`: the tree after, and whether a border moved.
pub open spec fn resize_tree(t: Tree, win: WinId, axis: SplitDir, grow_after: bool, step: u16, area: Rect) -> (Tree, bool)
    decreases t,
{
    match t {
        Tree::Leaf { .. } => (t, false),
        Tree::Split { dir, children, sizes } => {
            let n = children.len();
            let shares = shares_in(dir, n, sizes, area);
            match first_holding(children, win, 0) {
                None => (t, false),
                Some(i) => {
                    proof {
                        lemma_first_holding(children, win, 0);
                    }
                    let (c, ok) = resize_tree(
                        children[i],
                        win,
                        axis,
                        grow_after,
                        step,
                        child_rect(dir, area, shares, i),
                    );
                    if ok {
                        (Tree::Split { dir, children: children.update(i, c), sizes }, true)
                    } else if dir != axis || n < 2 {
                        (t, false)
                    } else {
                        match border_move(shares, i, grow_after, step, min_cells(axis)) {
                            None => (t, false),
                            Some(nw) => (Tree::Split { dir, children, sizes: nw }, true),
                        }
                    }
                },
            }
        },
    }
}

/// A resize that moves no border leaves the tree as it was.
pub proof fn lemma_resize_unmoved(t: Tree, win: WinId, axis: SplitDir, grow_after: bool, step: u16, area: Rect)
    ensures
        !resize_tree(t, win, axis, grow_after, step, area).1 ==> resize_tree(
            t,
            win,
            axis,
            grow_after,
            step,
            area,
        ).0 == t,
    decreases t,
{
}

proof fn lemma_two_within_sum(ss: Seq<u16>, a: int, b: int)
    requires
        0 <= a < ss.len(),
        0 <= b < ss.len(),
        a != b,
    ensures
        ss[a] + ss[b] <= share_sum(ss),
    decreases ss.len(),
{
    let n = ss.len() as int;
    lemma_share_sum_nonneg(ss.drop_last());
    if a == n - 1 || b == n - 1 {
        let o = if a == n - 1 {
            b
        } else {
            a
        };
        lemma_one_within_sum(ss.drop_last(), o);
    } else {
        lemma_two_within_sum(ss.drop_last(), a, b);
    }
}

proof fn lemma_one_within_sum(ss: Seq<u16>, a: int)
    requires
        0 <= a < ss.len(),
    ensures
        ss[a] <= share_sum(ss),
    decreases ss.len(),
{
    lemma_share_sum_nonneg(ss.drop_last());
    if a < ss.len() - 1 {
        lemma_one_within_sum(ss.drop_last(), a);
    }
}

#[verifier::spinoff_prover]
#[verifier::rlimit(50)]
fn resize_owned(node: Node, win: WinId, axis: SplitDir, grow_after: bool, step: u16, area: Rect) -> (r: (Node, bool))
    requires
        layout_ok(node@, area),
    ensures
        (r.0@, r.1) == resize_tree(node@, win, axis, grow_after, step, area),
    decreases node,
{
    let ghost g = node;
    match node {
        Node::Leaf { id, state } => (Node::Leaf { id, state }, false),
        Node::Split { dir: d, mut children, sizes } => {
            let ghost ts = views(children@);
            proof {
                lemma_views(children@);
            }
            let n = children.len();
            let total = split_total_of(d, n, area);
            let shares = normalized(sizes.as_slice(), total);
            let ghost sh = shares@;
            assert(sh == shares_in(d, n as nat, sizes@, area));
            match first_child_holding(&children, win) {
                None => (Node::Split { dir: d, children, sizes }, false),
                Some(i) => {
                    proof {
                        lemma_first_holding(ts, win, 0);
                        lemma_level(d, n as nat, sizes@, area, i as int);
                        assert(ts.take(n as int) =~= ts);
                        lemma_layout_ok_run_at(d, ts, sh, area, n as int, i as int);
                    }
                    let mut pos: u16 = 0;
                    let mut k: usize = 0;
                    while k < i
                        invariant
                            k <= i < n,
                            n == sh.len(),
                            shares@ == sh,
                            level_fits(d, n as nat, sizes@, area),
                            sh == shares_in(d, n as nat, sizes@, area),
                            pos == share_sum(sh.take(k as int)),
                        decreases i - k,
                    {
                        proof {
                            lemma_level(d, n as nat, sizes@, area, k as int);
                        }
                        pos = pos + shares[k];
                        k = k + 1;
                    }
                    let rect = match d {
                        SplitDir::Vertical => Rect::new(area.x + pos + i as u16, area.y, shares[i], area.height),
                        SplitDir::Horizontal => Rect::new(area.x, area.y + pos, area.width, shares[i]),
                    };
                    assert(rect == child_rect(d, area, sh, i as int));
                    let ghost before = children@;
                    proof {
                        assert(decreases_to!(g => g->children));
                        vstd::std_specs::vec::axiom_vec_index_decreases(g->children, i as int);
                    }
                    let child = children.remove(i);
                    let (c2, ok) = resize_owned(child, win, axis, grow_after, step, rect);
                    children.insert(i, c2);
                    proof {
                        assert(children@ =~= before.update(i as int, c2));
                        lemma_views_update(before, i as int, c2);
                        lemma_resize_unmoved(ts[i as int], win, axis, grow_after, step, rect);
                    }
                    if ok {
                        return (Node::Split { dir: d, children, sizes }, true);
                    }
                    proof {
                        assert(views(children@) =~= ts);
                    }
                    if d != axis || n < 2 {
                        return (Node::Split { dir: d, children, sizes }, false);
                    }
                    let min = match axis {
                        SplitDir::Vertical => MIN_WIN_WIDTH,
                        SplitDir::Horizontal => MIN_WIN_HEIGHT,
                    };
                    let mut current = normalized(sizes.as_slice(), total);
                    let (grow, shrink) = if grow_after {
                        if i + 1 < n {
                            (i, i + 1)
                        } else {
                            (i - 1, i)
                        }
                    } else if i > 0 {
                        (i, i - 1)
                    } else {
                        (i + 1, i)
                    };
                    let avail = if current[shrink] >= min {
                        current[shrink] - min
                    } else {
                        0
                    };
                    let st = if step <= avail {
                        step
                    } else {
                        avail
                    };
                    if st == 0 {
                        return (Node::Split { dir: d, children, sizes }, false);
                    }
                    proof {
                        super::windows::lemma_normalized(sizes@, total);
                        if total < n {
                            assert(current@[shrink as int] == 1);
                        }
                        lemma_two_within_sum(current@, grow as int, shrink as int);
                    }
                    let gv = current[grow] + st;
                    let sv = current[shrink] - st;
                    current.set(grow, gv);
                    current.set(shrink, sv);
                    (Node::Split { dir: d, children, sizes: current }, true)
                },
            }
        },
    }
}

impl Node {
    /// tmux-style resize: pushes the border of `win`'s subtree in `dir` by
    /// up to `step` cells, the border on that side when it exists, else the
    /// opposite one. Returns whether a border moved.
    pub fn resize(&mut self, win: WinId, dir: WinDir, step: u16, area: Rect) -> (moved: bool)
        requires
            layout_ok(old(self)@, area),
        ensures
            (final(self)@, moved) == resize_tree(
                old(self)@,
                win,
                axis_of(dir),
                grows_after(dir),
                step,
                area,
            ),
    {
        let axis = match dir {
            WinDir::Left | WinDir::Right => SplitDir::Vertical,
            WinDir::Up | WinDir::Down => SplitDir::Horizontal,
        };
        let grow_after = match dir {
            WinDir::Right | WinDir::Down => true,
            WinDir::Left | WinDir::Up => false,
        };
        let mut node = Node::Leaf { id: 0, state: None };
        std::mem::swap(&mut node, self);
        let (n, moved) = resize_owned(node, win, axis, grow_after, step, area);
        *self = n;
        moved
    }
}

/// Replacing one child by a tree with the same windows keeps the run's
/// windows; a well-formed replacement keeps a well-formed run so.
proof fn lemma_child_replaced(cs: Seq<Tree>, i: int, c: Tree)
    requires
        0 <= i < cs.len(),
        ids(c) == ids(cs[i]),
    ensures
        ids_all(cs.update(i, c)) == ids_all(cs),
        super::windows::wf_all(cs) && wf(c) ==> super::windows::wf_all(cs.update(i, c)),
{
    let cs2 = cs.update(i, c);
    lemma_ids_all_at(cs, i);
    lemma_ids_all_at(cs2, i);
    assert(cs2.take(i) =~= cs.take(i));
    assert(cs2.skip(i + 1) =~= cs.skip(i + 1));
    lemma_wf_all(cs);
    lemma_wf_all(cs2);
    if super::windows::wf_all(cs) && wf(c) {
        assert forall|k: int| 0 <= k < cs2.len() implies #[trigger] wf(cs2[k]) by {
            if k != i {
                assert(cs2[k] == cs[k]);
            }
        }
    }
}

/// A moved border leaves one positive share per child.
proof fn lemma_border_move_positive(cur: Seq<u16>, i: int, grow_after: bool, step: u16, min: u16)
    requires
        cur.len() >= 2,
        0 <= i < cur.len(),
        min >= 1,
        forall|k: int| 0 <= k < cur.len() ==> #[trigger] cur[k] >= 1,
        share_sum(cur) <= u16::MAX,
    ensures
        border_move(cur, i, grow_after, step, min) matches Some(nw) ==> nw.len() == cur.len()
            && forall|k: int| 0 <= k < nw.len() ==> #[trigger] nw[k] >= 1,
{
    let (g, s) = border_pair(cur.len() as int, i, grow_after);
    lemma_two_within_sum(cur, g, s);
    match border_move(cur, i, grow_after, step, min) {
        None => {},
        Some(nw) => {
            assert forall|k: int| 0 <= k < nw.len() implies #[trigger] nw[k] >= 1 by {
                if k != g && k != s {
                    assert(nw[k] == cur[k]);
                }
            }
        },
    }
}

/// Law: resizing keeps the windows and their order, and keeps a
/// well-formed tree well-formed (every share stays at least one cell).
#[verifier::spinoff_prover]
pub proof fn lemma_resize_keeps_windows(t: Tree, win: WinId, axis: SplitDir, grow_after: bool, step: u16, area: Rect)
    requires
        layout_ok(t, area),
    ensures
        ids(resize_tree(t, win, axis, grow_after, step, area).0) == ids(t),
        wf(t) ==> wf(resize_tree(t, win, axis, grow_after, step, area).0),
    decreases t,
{
    match t {
        Tree::Leaf { .. } => {},
        Tree::Split { dir, children, sizes } => {
            let n = children.len();
            let shares = shares_in(dir, n, sizes, area);
            lemma_first_holding(children, win, 0);
            match first_holding(children, win, 0) {
                None => {},
                Some(i) => {
                    let rect = child_rect(dir, area, shares, i);
                    lemma_wf_all(children);
                    assert(children.take(n as int) =~= children);
                    lemma_layout_ok_run_at(dir, children, shares, area, n as int, i);
                    lemma_resize_keeps_windows(children[i], win, axis, grow_after, step, rect);
                    let (c, ok) = resize_tree(children[i], win, axis, grow_after, step, rect);
                    if ok {
                        lemma_child_replaced(children, i, c);
                    } else if !(dir != axis || n < 2) {
                        let total = split_total(dir, n, area);
                        super::windows::lemma_normalized(sizes, total);
                        if total >= n {
                            lemma_border_move_positive(shares, i, grow_after, step, min_cells(axis));
                        } else {
                            let (g, s) = border_pair(n as int, i, grow_after);
                            assert(shares[s] == 1);
                        }
                    }
                },
            }
        },
    }
}

} // verus!
