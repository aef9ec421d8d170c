//! The split-window tree: structural operations and shares.
//!
//! Windows form a tree of splits (same-direction splits flatten into one
//! container, like vim's frames). Each leaf carries a window id; the focused
//! window's view state lives checked out in the editor and its leaf holds
//! `None`. Child sizes are stored in cells along the container's axis.
//!
//! Every `Node` has a mathematical view, a [`Tree`]; the operations are
//! stated over it, and the window order they produce is stated over
//! [`ids`], the window ids read left to right (top to bottom).

use vstd::prelude::*;

use crate::editing::buffer::Cursor;
use crate::editing::commands::SplitDir;

use super::BufId;

verus! {

pub type WinId = usize;

/// Minimum window height (including the per-window statusline row).
pub const MIN_WIN_HEIGHT: u16 = 2;

/// Minimum window width.
pub const MIN_WIN_WIDTH: u16 = 12;

/// View state of a parked (unfocused) window.
#[derive(Debug, Clone, Copy, PartialEq, Eq, Structural)]
pub struct WinState {
    pub buf_id: BufId,
    pub cursor: Cursor,
    pub goal: Option<usize>,
    pub top_line: usize,
    pub alternate: Option<BufId>,
}

impl Default for WinState {
    fn default() -> (s: Self)
        ensures
            s.buf_id == 0,
            s.cursor.line == 0 && s.cursor.col == 0,
            s.goal is None,
            s.top_line == 0,
            s.alternate is None,
    {
        WinState {
            buf_id: 0,
            cursor: Cursor { line: 0, col: 0 },
            goal: None,
            top_line: 0,
            alternate: None,
        }
    }
}

/// A window tree node.
pub enum Node {
    Leaf {
        id: WinId,
        /// `None` while this window is focused (checked out).
        state: Option<WinState>,
    },
    Split {
        dir: SplitDir,
        children: Vec<Node>,
        /// Size of each child in cells along the container axis.
        sizes: Vec<u16>,
    },
}

/// The mathematical view of a [`Node`].
#[verifier::ext_equal]
pub enum Tree {
    Leaf { id: WinId, state: Option<WinState> },
    Split { dir: SplitDir, children: Seq<Tree>, sizes: Seq<u16> },
}

/// Views of a run of nodes.
pub open spec fn views(ns: Seq<Node>) -> Seq<Tree>
    decreases ns,
{
    if ns.len() == 0 {
        seq![]
    } else {
        views(ns.drop_last()).push(view_of(ns.last()))
    }
}

/// The view of a node.
pub open spec fn view_of(n: Node) -> Tree
    decreases n,
{
    match n {
        Node::Leaf { id, state } => Tree::Leaf { id, state },
        Node::Split { dir, children, sizes } => Tree::Split {
            dir,
            children: views(children@),
            sizes: sizes@,
        },
    }
}

impl View for Node {
    type V = Tree;

    open spec fn view(&self) -> Tree {
        view_of(*self)
    }
}

pub proof fn lemma_views(ns: Seq<Node>)
    ensures
        views(ns).len() == ns.len(),
        forall|i: int| 0 <= i < ns.len() ==> #[trigger] views(ns)[i] == view_of(ns[i]),
    decreases ns.len(),
{
    if ns.len() > 0 {
        lemma_views(ns.drop_last());
        assert forall|i: int| 0 <= i < ns.len() implies #[trigger] views(ns)[i] == view_of(
            ns[i],
        ) by {
            if i < ns.len() - 1 {
                assert(ns.drop_last()[i] == ns[i]);
            }
        }
    }
}

/// Window ids of a run of trees, in order.
pub open spec fn ids_all(ts: Seq<Tree>) -> Seq<WinId>
    decreases ts,
{
    if ts.len() == 0 {
        seq![]
    } else {
        ids_all(ts.drop_last()) + ids(ts.last())
    }
}

/// Window ids of a tree, left to right.
pub open spec fn ids(t: Tree) -> Seq<WinId>
    decreases t,
{
    match t {
        Tree::Leaf { id, .. } => seq![id],
        Tree::Split { children, .. } => ids_all(children),
    }
}

/// Well-formedness of a run of trees.
pub open spec fn wf_all(ts: Seq<Tree>) -> bool
    decreases ts,
{
    if ts.len() == 0 {
        true
    } else {
        wf_all(ts.drop_last()) && wf(ts.last())
    }
}

/// Well-formedness: every container has at least two children, one size
/// per child, and every size is at least one cell.
pub open spec fn wf(t: Tree) -> bool
    decreases t,
{
    match t {
        Tree::Leaf { .. } => true,
        Tree::Split { children, sizes, .. } => {
            &&& children.len() >= 2
            &&& sizes.len() == children.len()
            &&& forall|i: int| 0 <= i < sizes.len() ==> #[trigger] sizes[i] >= 1
            &&& wf_all(children)
        },
    }
}

pub proof fn lemma_wf_all(ts: Seq<Tree>)
    ensures
        wf_all(ts) <==> forall|i: int| 0 <= i < ts.len() ==> #[trigger] wf(ts[i]),
    decreases ts.len(),
{
    if ts.len() > 0 {
        lemma_wf_all(ts.drop_last());
        assert forall|i: int| 0 <= i < ts.len() - 1 implies ts.drop_last()[i] == ts[i] by {}
        if forall|i: int| 0 <= i < ts.len() ==> #[trigger] wf(ts[i]) {
            assert(wf(ts[ts.len() - 1]));
        }
    }
}

pub proof fn lemma_ids_all_concat(a: Seq<Tree>, b: Seq<Tree>)
    ensures
        ids_all(a + b) == ids_all(a) + ids_all(b),
    decreases b.len(),
{
    if b.len() == 0 {
        assert(a + b =~= a);
        assert(ids_all(b) =~= Seq::<WinId>::empty());
        assert(ids_all(a) + ids_all(b) =~= ids_all(a));
    } else {
        lemma_ids_all_concat(a, b.drop_last());
        assert((a + b).drop_last() =~= a + b.drop_last());
        assert((a + b).last() == b.last());
        assert(ids_all(a + b) =~= ids_all(a) + ids_all(b));
    }
}

pub proof fn lemma_ids_all_single(t: Tree)
    ensures
        ids_all(seq![t]) == ids(t),
{
    assert(seq![t].drop_last() =~= Seq::<Tree>::empty());
    assert(ids_all(Seq::<Tree>::empty()) =~= Seq::<WinId>::empty());
    assert(ids_all(seq![t]) =~= ids(t));
}

/// `ids_all` of a run split around position `k`.
pub proof fn lemma_ids_all_at(ts: Seq<Tree>, k: int)
    requires
        0 <= k < ts.len(),
    ensures
        ids_all(ts) == ids_all(ts.take(k)) + ids(ts[k]) + ids_all(ts.skip(k + 1)),
{
    assert(ts =~= ts.take(k) + seq![ts[k]] + ts.skip(k + 1));
    lemma_ids_all_concat(ts.take(k) + seq![ts[k]], ts.skip(k + 1));
    lemma_ids_all_concat(ts.take(k), seq![ts[k]]);
    lemma_ids_all_single(ts[k]);
}

/// A window count: the number of leaves.
pub open spec fn count(t: Tree) -> nat {
    ids(t).len()
}

impl Node {
    /// A leaf for window `id`.
    pub fn leaf(id: WinId, state: Option<WinState>) -> (n: Self)
        ensures
            n@ == (Tree::Leaf { id, state }),
            ids(n@) == seq![id],
            wf(n@),
    {
        Node::Leaf { id, state }
    }

    /// Number of windows in the tree.
    pub fn window_count(&self) -> (c: usize)
        requires
            ids(self@).len() <= usize::MAX,
        ensures
            c == ids(self@).len(),
        decreases self,
    {
        match self {
            Node::Leaf { .. } => 1,
            Node::Split { dir, children, sizes } => {
                proof {
                    lemma_views(children@);
                }
                let ghost ts = views(children@);
                let mut total: usize = 0;
                let mut i: usize = 0;
                while i < children.len()
                    invariant
                        *self == (Node::Split { dir: *dir, children: *children, sizes: *sizes }),
                        i <= children@.len(),
                        ts == views(children@),
                        ts.len() == children@.len(),
                        forall|j: int| 0 <= j < ts.len() ==> #[trigger] ts[j] == view_of(children@[j]),
                        ids_all(ts).len() <= usize::MAX,
                        total == ids_all(ts.take(i as int)).len(),
                    decreases children@.len() - i,
                {
                    proof {
                        lemma_ids_all_at(ts, i as int);
                        assert(ts.take(i + 1) =~= ts.take(i as int) + seq![ts[i as int]]);
                        lemma_ids_all_concat(ts.take(i as int), seq![ts[i as int]]);
                        lemma_ids_all_single(ts[i as int]);
                    }
                    proof {
                        assert(decreases_to!(*self => self->children));
                        vstd::std_specs::vec::axiom_vec_index_decreases(self->children, i as int);
                    }
                    let c = children[i].window_count();
                    total = total + c;
                    i += 1;
                }
                assert(ts.take(ts.len() as int) =~= ts);
                total
            },
        }
    }

    /// The window ids, left to right (top to bottom).
    pub fn window_ids(&self) -> (v: Vec<WinId>)
        ensures
            v@ == ids(self@),
        decreases self,
    {
        match self {
            Node::Leaf { id, .. } => {
                let mut v = Vec::new();
                v.push(*id);
                v
            },
            Node::Split { dir, children, sizes } => {
                proof {
                    lemma_views(children@);
                }
                let ghost ts = views(children@);
                let mut out: Vec<WinId> = Vec::new();
                let mut i: usize = 0;
                while i < children.len()
                    invariant
                        *self == (Node::Split { dir: *dir, children: *children, sizes: *sizes }),
                        i <= children@.len(),
                        ts == views(children@),
                        ts.len() == children@.len(),
                        forall|j: int| 0 <= j < ts.len() ==> #[trigger] ts[j] == view_of(children@[j]),
                        out@ == ids_all(ts.take(i as int)),
                    decreases children@.len() - i,
                {
                    proof {
                        assert(ts.take(i + 1) =~= ts.take(i as int) + seq![ts[i as int]]);
                        lemma_ids_all_concat(ts.take(i as int), seq![ts[i as int]]);
                        lemma_ids_all_single(ts[i as int]);
                    }
                    proof {
                        assert(decreases_to!(*self => self->children));
                        vstd::std_specs::vec::axiom_vec_index_decreases(self->children, i as int);
                    }
                    let mut sub = children[i].window_ids();
                    out.append(&mut sub);
                    i += 1;
                }
                assert(ts.take(ts.len() as int) =~= ts);
                out
            },
        }
    }

    /// Whether window `win` is in the tree.
    pub fn contains(&self, win: WinId) -> (b: bool)
        ensures
            b == ids(self@).contains(win),
        decreases self,
    {
        match self {
            Node::Leaf { id, .. } => {
                assert(seq![*id].contains(win) <==> *id == win) by {
                    if *id == win {
                        assert(seq![*id][0] == win);
                    }
                }
                *id == win
            },
            Node::Split { dir, children, sizes } => {
                proof {
                    lemma_views(children@);
                }
                let ghost ts = views(children@);
                let mut i: usize = 0;
                while i < children.len()
                    invariant
                        *self == (Node::Split { dir: *dir, children: *children, sizes: *sizes }),
                        i <= children@.len(),
                        ts == views(children@),
                        ts.len() == children@.len(),
                        forall|j: int| 0 <= j < ts.len() ==> #[trigger] ts[j] == view_of(children@[j]),
                        !ids_all(ts.take(i as int)).contains(win),
                    decreases children@.len() - i,
                {
                    proof {
                        assert(ts.take(i + 1) =~= ts.take(i as int) + seq![ts[i as int]]);
                        lemma_ids_all_concat(ts.take(i as int), seq![ts[i as int]]);
                        lemma_ids_all_single(ts[i as int]);
                    }
                    proof {
                        assert(decreases_to!(*self => self->children));
                        vstd::std_specs::vec::axiom_vec_index_decreases(self->children, i as int);
                    }
                    if children[i].contains(win) {
                        proof {
                            lemma_ids_all_at(ts, i as int);
                            let k = choose|k: int|
                                0 <= k < ids(ts[i as int]).len() && ids(ts[i as int])[k] == win;
                            assert(ids_all(ts)[ids_all(ts.take(i as int)).len() + k] == win);
                        }
                        return true;
                    }
                    i += 1;
                }
                assert(ts.take(ts.len() as int) =~= ts);
                false
            },
        }
    }
}


/// Whether `t` is the leaf of window `win`.
pub open spec fn leaf_is(t: Tree, win: WinId) -> bool {
    t matches Tree::Leaf { id, .. } && id == win
}

/// Index of the first tree at or after `i` holding window `win`.
pub open spec fn first_holding(ts: Seq<Tree>, win: WinId, i: int) -> Option<int>
    decreases ts.len() - i,
{
    if i < 0 || i >= ts.len() {
        None
    } else if ids(ts[i]).contains(win) {
        Some(i)
    } else {
        first_holding(ts, win, i + 1)
    }
}

pub proof fn lemma_first_holding(ts: Seq<Tree>, win: WinId, i: int)
    requires
        0 <= i,
    ensures
        first_holding(ts, win, i) matches Some(k) ==> i <= k < ts.len() && ids(ts[k]).contains(
            win,
        ) && forall|j: int| i <= j < k ==> !(#[trigger] ids(ts[j])).contains(win),
        first_holding(ts, win, i) is None ==> forall|j: int|
            i <= j < ts.len() ==> !(#[trigger] ids(ts[j])).contains(win),
    decreases ts.len() - i,
{
    if i < ts.len() && !ids(ts[i]).contains(win) {
        lemma_first_holding(ts, win, i + 1);
    }
}

/// `win` is in the ids of a run iff some tree of the run holds it.
pub proof fn lemma_ids_all_contains(ts: Seq<Tree>, win: WinId)
    ensures
        ids_all(ts).contains(win) <==> exists|j: int|
            0 <= j < ts.len() && (#[trigger] ids(ts[j])).contains(win),
    decreases ts.len(),
{
    if ts.len() > 0 {
        let init = ts.drop_last();
        lemma_ids_all_contains(init, win);
        let a = ids_all(init);
        let b = ids(ts.last());
        assert(ids_all(ts) == a + b);
        if ids_all(ts).contains(win) {
            let q = choose|q: int| 0 <= q < (a + b).len() && (a + b)[q] == win;
            if q < a.len() {
                assert(a[q] == win);
                let j = choose|j: int| 0 <= j < init.len() && (#[trigger] ids(init[j])).contains(win);
                assert(init[j] == ts[j]);
            } else {
                assert(b[q - a.len()] == win);
                assert(ids(ts[ts.len() - 1]).contains(win));
            }
        }
        if exists|j: int| 0 <= j < ts.len() && (#[trigger] ids(ts[j])).contains(win) {
            let j = choose|j: int| 0 <= j < ts.len() && (#[trigger] ids(ts[j])).contains(win);
            if j < ts.len() - 1 {
                assert(init[j] == ts[j]);
                assert(a.contains(win));
                let q = choose|q: int| 0 <= q < a.len() && a[q] == win;
                assert((a + b)[q] == win);
            } else {
                let q = choose|q: int| 0 <= q < b.len() && b[q] == win;
                assert((a + b)[a.len() + q] == win);
            }
        }
    }
}

/// A two-window container: `a` then `b`, equal shares.
pub open spec fn pair(a: Tree, b: Tree, dir: SplitDir) -> Tree {
    Tree::Split { dir, children: seq![a, b], sizes: seq![1u16, 1u16] }
}

/// The share a flattening split hands the new window: half, at least one.
pub open spec fn half_share(s: u16) -> u16 {
    if s / 2 >= 1 {
        (s / 2) as u16
    } else {
        1u16
    }
}

/// The share the split window keeps: the rest, at least one.
pub open spec fn kept_share(s: u16) -> u16 {
    if s - half_share(s) >= 1 {
        (s - half_share(s)) as u16
    } else {
        1u16
    }
}

/// Splitting window `win` in `dir`, adding `new` after it (below/right).
/// A container of the same direction gains a sibling (flattening) and the
/// new window takes half of the split window's share; otherwise the leaf is
/// replaced by a two-window container.
pub open spec fn split_tree(t: Tree, win: WinId, dir: SplitDir, new: Tree) -> Tree
    decreases t,
{
    match t {
        Tree::Leaf { id, .. } => if id == win {
            pair(t, new, dir)
        } else {
            t
        },
        Tree::Split { dir: d, children, sizes } => match first_holding(children, win, 0) {
            None => t,
            Some(k) => if 0 <= k < children.len() {
                if leaf_is(children[k], win) {
                    if d == dir {
                        Tree::Split {
                            dir: d,
                            children: children.insert(k + 1, new),
                            sizes: sizes.update(k, kept_share(sizes[k])).insert(
                                k + 1,
                                half_share(sizes[k]),
                            ),
                        }
                    } else {
                        Tree::Split {
                            dir: d,
                            children: children.update(k, pair(children[k], new, dir)),
                            sizes,
                        }
                    }
                } else {
                    Tree::Split {
                        dir: d,
                        children: children.update(k, split_tree(children[k], win, dir, new)),
                        sizes,
                    }
                }
            } else {
                t
            },
        },
    }
}

/// `p` is the first position of `w` in `s`.
pub open spec fn first_at(s: Seq<WinId>, w: WinId, p: int) -> bool {
    &&& 0 <= p < s.len()
    &&& s[p] == w
    &&& forall|q: int| 0 <= q < p ==> s[q] != w
}

proof fn lemma_first_at_concat(a: Seq<WinId>, c: Seq<WinId>, b: Seq<WinId>, w: WinId, p: int)
    requires
        !a.contains(w),
        first_at(a + c + b, w, p),
        c.contains(w),
    ensures
        first_at(c, w, p - a.len()),
{
    let s = a + c + b;
    let q = choose|q: int| 0 <= q < c.len() && c[q] == w;
    assert(s[a.len() + q] == w);
    if p < a.len() {
        assert(a[p] == w);
    }
    assert forall|r: int| 0 <= r < p - a.len() implies c[r] != w by {
        assert(s[a.len() + r] == c[r]);
    }
    if p >= a.len() + c.len() {
        assert(s[a.len() + q] == w);
    }
    assert(s[p] == c[p - a.len()]);
}

proof fn lemma_none_before(ts: Seq<Tree>, win: WinId, k: int)
    requires
        0 <= k <= ts.len(),
        forall|j: int| 0 <= j < k ==> !(#[trigger] ids(ts[j])).contains(win),
    ensures
        !ids_all(ts.take(k)).contains(win),
{
    lemma_ids_all_contains(ts.take(k), win);
    assert forall|j: int| 0 <= j < k implies !(#[trigger] ids(ts.take(k)[j])).contains(win) by {
        assert(ts.take(k)[j] == ts[j]);
    }
}

/// Law: splitting a window that is present inserts the new subtree's
/// windows right after the first occurrence of `win`.
#[verifier::spinoff_prover]
#[verifier::rlimit(60)]
pub proof fn lemma_split_ids(t: Tree, win: WinId, dir: SplitDir, new: Tree, p: int)
    requires
        wf(t),
        first_at(ids(t), win, p),
    ensures
        ids(split_tree(t, win, dir, new)) == ids(t).take(p + 1) + ids(new) + ids(t).skip(p + 1),
    decreases t,
{
    match t {
        Tree::Leaf { id, .. } => {
            lemma_ids_all_concat(seq![t], seq![new]);
            lemma_ids_all_single(t);
            lemma_ids_all_single(new);
            assert(seq![t, new] =~= seq![t] + seq![new]);
            assert(p == 0);
            assert(ids(t).take(1) =~= ids(t));
            assert(ids(t).skip(1) =~= Seq::<WinId>::empty());
            assert(ids(split_tree(t, win, dir, new)) =~= ids(t).take(p + 1) + ids(new) + ids(
                t,
            ).skip(p + 1));
        },
        Tree::Split { dir: d, children, sizes } => {
            lemma_ids_all_contains(children, win);
            assert(ids(t)[p] == win);
            lemma_first_holding(children, win, 0);
            let k = first_holding(children, win, 0).unwrap();
            lemma_ids_all_at(children, k);
            lemma_none_before(children, win, k);
            let a = ids_all(children.take(k));
            let c = ids(children[k]);
            let b = ids_all(children.skip(k + 1));
            lemma_first_at_concat(a, c, b, win, p);
            let pc = p - a.len();
            let t2 = split_tree(t, win, dir, new);
            let s = ids(t);
            if leaf_is(children[k], win) {
                assert(c =~= seq![win]);
                assert(pc == 0);
                if d == dir {
                    let cs2 = children.insert(k + 1, new);
                    assert(cs2.take(k) =~= children.take(k));
                    assert(cs2[k] == children[k]);
                    assert(cs2.skip(k + 1) =~= seq![new] + children.skip(k + 1));
                    lemma_ids_all_at(cs2, k);
                    lemma_ids_all_concat(seq![new], children.skip(k + 1));
                    lemma_ids_all_single(new);
                } else {
                    let cs2 = children.update(k, pair(children[k], new, dir));
                    assert(cs2.take(k) =~= children.take(k));
                    assert(cs2.skip(k + 1) =~= children.skip(k + 1));
                    lemma_ids_all_at(cs2, k);
                    lemma_ids_all_concat(seq![children[k]], seq![new]);
                    assert(seq![children[k], new] =~= seq![children[k]] + seq![new]);
                    lemma_ids_all_single(children[k]);
                    lemma_ids_all_single(new);
                }
                assert(s.take(p + 1) =~= a + c);
                assert(s.skip(p + 1) =~= b);
                assert(ids(t2) =~= s.take(p + 1) + ids(new) + s.skip(p + 1));
            } else {
                lemma_wf_all(children);
                let sub = split_tree(children[k], win, dir, new);
                lemma_split_ids(children[k], win, dir, new, pc);
                let cs2 = children.update(k, sub);
                assert(cs2.take(k) =~= children.take(k));
                assert(cs2.skip(k + 1) =~= children.skip(k + 1));
                lemma_ids_all_at(cs2, k);
                assert(s.take(p + 1) =~= a + c.take(pc + 1));
                assert(s.skip(p + 1) =~= c.skip(pc + 1) + b);
                assert(ids(t2) =~= s.take(p + 1) + ids(new) + s.skip(p + 1));
            }
        },
    }
}

/// Law: splitting keeps the tree well-formed.
pub proof fn lemma_split_wf(t: Tree, win: WinId, dir: SplitDir, new: Tree)
    requires
        wf(t),
        wf(new),
    ensures
        wf(split_tree(t, win, dir, new)),
    decreases t,
{
    match t {
        Tree::Leaf { id, .. } => {
            if id == win {
                lemma_wf_all(seq![t, new]);
            }
        },
        Tree::Split { dir: d, children, sizes } => {
            lemma_first_holding(children, win, 0);
            lemma_wf_all(children);
            match first_holding(children, win, 0) {
                None => {},
                Some(k) => {
                    let t2 = split_tree(t, win, dir, new);
                    if leaf_is(children[k], win) {
                        if d == dir {
                            let cs2 = children.insert(k + 1, new);
                            let ss2 = sizes.update(k, kept_share(sizes[k])).insert(
                                k + 1,
                                half_share(sizes[k]),
                            );
                            lemma_wf_all(cs2);
                            assert forall|i: int| 0 <= i < cs2.len() implies #[trigger] wf(
                                cs2[i],
                            ) by {
                                if i <= k {
                                    assert(cs2[i] == children[i]);
                                } else if i > k + 1 {
                                    assert(cs2[i] == children[i - 1]);
                                }
                            }
                            assert forall|i: int| 0 <= i < ss2.len() implies #[trigger] ss2[i]
                                >= 1 by {
                                if i < k {
                                    assert(ss2[i] == sizes[i]);
                                } else if i > k + 1 {
                                    assert(ss2[i] == sizes[i - 1]);
                                }
                            }
                        } else {
                            let pr = pair(children[k], new, dir);
                            lemma_wf_all(seq![children[k], new]);
                            let cs2 = children.update(k, pr);
                            lemma_wf_all(cs2);
                            assert forall|i: int| 0 <= i < cs2.len() implies #[trigger] wf(
                                cs2[i],
                            ) by {
                                if i != k {
                                    assert(cs2[i] == children[i]);
                                }
                            }
                        }
                    } else {
                        lemma_split_wf(children[k], win, dir, new);
                        let cs2 = children.update(k, split_tree(children[k], win, dir, new));
                        lemma_wf_all(cs2);
                        assert forall|i: int| 0 <= i < cs2.len() implies #[trigger] wf(cs2[i]) by {
                            if i != k {
                                assert(cs2[i] == children[i]);
                            }
                        }
                    }
                },
            }
        },
    }
}

/// Law: a split succeeds exactly when the window is present; when it is
/// absent the tree is unchanged.
pub proof fn lemma_split_absent(t: Tree, win: WinId, dir: SplitDir, new: Tree)
    requires
        !ids(t).contains(win),
    ensures
        split_tree(t, win, dir, new) == t,
{
    match t {
        Tree::Leaf { id, .. } => {
            assert(ids(t)[0] == id);
        },
        Tree::Split { children, .. } => {
            lemma_ids_all_contains(children, win);
            lemma_first_holding(children, win, 0);
        },
    }
}


proof fn lemma_views_insert(ns: Seq<Node>, k: int, x: Node)
    requires
        0 <= k <= ns.len(),
    ensures
        views(ns.insert(k, x)) == views(ns).insert(k, view_of(x)),
{
    lemma_views(ns);
    lemma_views(ns.insert(k, x));
    assert(views(ns.insert(k, x)) =~= views(ns).insert(k, view_of(x)));
}

pub proof fn lemma_views_update(ns: Seq<Node>, k: int, x: Node)
    requires
        0 <= k < ns.len(),
    ensures
        views(ns.update(k, x)) == views(ns).update(k, view_of(x)),
{
    lemma_views(ns);
    lemma_views(ns.update(k, x));
    assert(views(ns.update(k, x)) =~= views(ns).update(k, view_of(x)));
}

proof fn lemma_views_remove(ns: Seq<Node>, k: int)
    requires
        0 <= k < ns.len(),
    ensures
        views(ns.remove(k)) == views(ns).remove(k),
{
    lemma_views(ns);
    lemma_views(ns.remove(k));
    assert(views(ns.remove(k)) =~= views(ns).remove(k));
}

/// Index of the first child holding `win`, if any.
pub(crate) fn first_child_holding(children: &Vec<Node>, win: WinId) -> (r: Option<usize>)
    ensures
        r is None <==> first_holding(views(children@), win, 0) is None,
        r matches Some(k) ==> first_holding(views(children@), win, 0) == Some(k as int) && k
            < children@.len(),
{
    proof {
        lemma_views(children@);
        lemma_first_holding(views(children@), win, 0);
    }
    let ghost ts = views(children@);
    let mut i: usize = 0;
    while i < children.len()
        invariant
            i <= children@.len(),
            ts == views(children@),
            ts.len() == children@.len(),
            forall|j: int| 0 <= j < ts.len() ==> #[trigger] ts[j] == view_of(children@[j]),
            first_holding(ts, win, 0) == first_holding(ts, win, i as int),
        decreases children@.len() - i,
    {
        if children[i].contains(win) {
            return Some(i);
        }
        i += 1;
    }
    None
}

fn pair_node(a: Node, b: Node, dir: SplitDir) -> (n: Node)
    ensures
        n@ == pair(a@, b@, dir),
{
    let mut children: Vec<Node> = Vec::new();
    children.push(a);
    children.push(b);
    let mut sizes: Vec<u16> = Vec::new();
    sizes.push(1);
    sizes.push(1);
    proof {
        lemma_views(children@);
        assert(views(children@) =~= seq![a@, b@]);
        assert(sizes@ =~= seq![1u16, 1u16]);
    }
    Node::Split { dir, children, sizes }
}

#[verifier::spinoff_prover]
fn split_owned(node: Node, win: WinId, dir: SplitDir, new: Node) -> (r: (Node, bool))
    requires
        wf(node@),
    ensures
        r.0@ == split_tree(node@, win, dir, new@),
        r.1 == ids(node@).contains(win),
    decreases node,
{
    let ghost g = node;
    match node {
        Node::Leaf { id, state } => {
            assert(ids(g@) == seq![id]);
            assert(seq![id].contains(win) <==> id == win) by {
                if id == win {
                    assert(seq![id][0] == win);
                }
            }
            if id == win {
                (pair_node(Node::Leaf { id, state }, new, dir), true)
            } else {
                (Node::Leaf { id, state }, false)
            }
        },
        Node::Split { dir: d, mut children, mut sizes } => {
            let ghost ts = views(children@);
            proof {
                lemma_views(children@);
                lemma_ids_all_contains(ts, win);
                lemma_first_holding(ts, win, 0);
                lemma_wf_all(ts);
            }
            match first_child_holding(&children, win) {
                None => (Node::Split { dir: d, children, sizes }, false),
                Some(k) => {
                    let is_leaf = match &children[k] {
                        Node::Leaf { id, .. } => *id == win,
                        Node::Split { .. } => false,
                    };
                    assert(is_leaf == leaf_is(ts[k as int], win));
                    if is_leaf {
                        if d == dir {
                            assert(k < sizes.len());
                            let sk = sizes[k];
                            let half: u16 = if sk / 2 >= 1 {
                                sk / 2
                            } else {
                                1
                            };
                            let kept: u16 = if sk - half >= 1 {
                                sk - half
                            } else {
                                1
                            };
                            sizes.set(k, kept);
                            sizes.insert(k + 1, half);
                            let ghost before = children@;
                            children.insert(k + 1, new);
                            proof {
                                lemma_views_insert(before, k + 1, new);
                            }
                        } else {
                            let ghost before = children@;
                            let old = children.remove(k);
                            let pr = pair_node(old, new, dir);
                            children.insert(k, pr);
                            proof {
                                assert(children@ =~= before.update(k as int, pr));
                                lemma_views_update(before, k as int, pr);
                            }
                        }
                    } else {
                        let ghost before = children@;
                        proof {
                            assert(decreases_to!(g => g->children));
                            vstd::std_specs::vec::axiom_vec_index_decreases(g->children, k as int);
                        }
                        let child = children.remove(k);
                        let (sub, _ok) = split_owned(child, win, dir, new);
                        children.insert(k, sub);
                        proof {
                            assert(children@ =~= before.update(k as int, sub));
                            lemma_views_update(before, k as int, sub);
                        }
                    }
                    (Node::Split { dir: d, children, sizes }, true)
                },
            }
        },
    }
}

impl Node {
    /// Splits `win` in `dir`, adding `new` after it (below/right); same-
    /// direction containers gain a sibling instead of nesting. Returns
    /// whether `win` was found.
    pub fn split(&mut self, win: WinId, dir: SplitDir, new: Node) -> (ok: bool)
        requires
            wf(old(self)@),
        ensures
            final(self)@ == split_tree(old(self)@, win, dir, new@),
            ok == ids(old(self)@).contains(win),
    {
        let mut node = Node::Leaf { id: 0, state: None };
        std::mem::swap(&mut node, self);
        let (n, ok) = split_owned(node, win, dir, new);
        *self = n;
        ok
    }
}


/// Number of nodes of a tree.
pub open spec fn size(t: Tree) -> nat
    decreases t,
{
    match t {
        Tree::Leaf { .. } => 1,
        Tree::Split { children, .. } => 1 + size_all(children),
    }
}

/// Number of nodes of a run of trees.
pub open spec fn size_all(ts: Seq<Tree>) -> nat
    decreases ts,
{
    if ts.len() == 0 {
        0
    } else {
        size_all(ts.drop_last()) + size(ts.last())
    }
}

pub proof fn lemma_size_all_concat(a: Seq<Tree>, b: Seq<Tree>)
    ensures
        size_all(a + b) == size_all(a) + size_all(b),
    decreases b.len(),
{
    if b.len() == 0 {
        assert(a + b =~= a);
    } else {
        lemma_size_all_concat(a, b.drop_last());
        assert((a + b).drop_last() =~= a + b.drop_last());
    }
}

pub proof fn lemma_size_all_first(ts: Seq<Tree>)
    requires
        ts.len() > 0,
    ensures
        size_all(ts) == size(ts[0]) + size_all(ts.skip(1)),
{
    assert(ts =~= seq![ts[0]] + ts.skip(1));
    lemma_size_all_concat(seq![ts[0]], ts.skip(1));
    assert(seq![ts[0]].drop_last() =~= Seq::<Tree>::empty());
    assert(size_all(Seq::<Tree>::empty()) == 0);
    assert(seq![ts[0]].last() == ts[0]);
    assert(size_all(seq![ts[0]]) == size(ts[0]));
}

pub proof fn lemma_size_all_take(ts: Seq<Tree>, z: int)
    requires
        0 <= z <= ts.len(),
    ensures
        size_all(ts.take(z)) <= size_all(ts),
{
    assert(ts =~= ts.take(z) + ts.skip(z));
    lemma_size_all_concat(ts.take(z), ts.skip(z));
}

pub proof fn lemma_size_positive(t: Tree)
    ensures
        size(t) >= 1,
{
}

/// Sum of a run of shares.
pub open spec fn share_sum(ss: Seq<u16>) -> int
    decreases ss.len(),
{
    if ss.len() == 0 {
        0
    } else {
        share_sum(ss.drop_last()) + ss.last()
    }
}

/// Shares of merged grandchildren: each sub-share scaled to the merged
/// child's share, at least one.
pub open spec fn scaled_parts(share: u16, subs: Seq<u16>, z: int) -> Seq<u16> {
    let total = if share_sum(subs) >= 1 {
        share_sum(subs)
    } else {
        1
    };
    Seq::new(
        z as nat,
        |j: int|
            if (share * subs[j]) / total >= 1 {
                ((share * subs[j]) / total) as u16
            } else {
                1u16
            },
    )
}

/// Merges child containers of direction `dir` into their parent's run of
/// children, scaling their shares, until none is left.
pub open spec fn merge_runs(dir: SplitDir, cs: Seq<Tree>, ss: Seq<u16>) -> (Seq<Tree>, Seq<u16>)
    decreases size_all(cs),
{
    if cs.len() == 0 {
        (seq![], seq![])
    } else {
        proof {
            lemma_size_all_first(cs);
        }
        match cs[0] {
            Tree::Split { dir: d, children: sub, sizes: subs } => if d == dir {
                let z = if sub.len() < subs.len() {
                    sub.len() as int
                } else {
                    subs.len() as int
                };
                proof {
                    lemma_size_all_take(sub, z);
                    lemma_size_all_concat(sub.take(z), cs.skip(1));
                }
                merge_runs(
                    dir,
                    sub.take(z) + cs.skip(1),
                    scaled_parts(ss[0], subs, z) + ss.skip(1),
                )
            } else {
                let r = merge_runs(dir, cs.skip(1), ss.skip(1));
                (seq![cs[0]] + r.0, seq![ss[0]] + r.1)
            },
            Tree::Leaf { .. } => {
                let r = merge_runs(dir, cs.skip(1), ss.skip(1));
                (seq![cs[0]] + r.0, seq![ss[0]] + r.1)
            },
        }
    }
}

/// A single-child container becomes its child; otherwise same-direction
/// child containers are merged in (keeping frames flat).
pub open spec fn collapse(t: Tree) -> Tree {
    match t {
        Tree::Leaf { .. } => t,
        Tree::Split { dir, children, sizes } => if children.len() == 1 {
            children[0]
        } else {
            let m = merge_runs(dir, children, sizes);
            Tree::Split { dir, children: m.0, sizes: m.1 }
        },
    }
}

/// `a + b`, saturating at `u16::MAX`.
pub open spec fn sat_add(a: u16, b: u16) -> u16 {
    if a + b > u16::MAX {
        u16::MAX
    } else {
        (a + b) as u16
    }
}

/// Index of the first tree at or after `i` that is the leaf of `win`.
pub open spec fn first_leaf(ts: Seq<Tree>, win: WinId, i: int) -> Option<int>
    decreases ts.len() - i,
{
    if i < 0 || i >= ts.len() {
        None
    } else if leaf_is(ts[i], win) {
        Some(i)
    } else {
        first_leaf(ts, win, i + 1)
    }
}

pub proof fn lemma_first_leaf(ts: Seq<Tree>, win: WinId, i: int)
    requires
        0 <= i,
    ensures
        first_leaf(ts, win, i) matches Some(k) ==> i <= k < ts.len() && leaf_is(ts[k], win) && forall|
            j: int,
        | i <= j < k ==> !leaf_is(#[trigger] ts[j], win),
        first_leaf(ts, win, i) is None ==> forall|j: int|
            i <= j < ts.len() ==> !leaf_is(#[trigger] ts[j], win),
    decreases ts.len() - i,
{
    if i < ts.len() && !leaf_is(ts[i], win) {
        lemma_first_leaf(ts, win, i + 1);
    }
}

/// The sizes after removing child `i`: its share goes to the previous
/// sibling, or to the next one when it was first.
pub open spec fn sizes_without(ss: Seq<u16>, i: int) -> Seq<u16> {
    let rest = ss.remove(i);
    if rest.len() > 0 {
        let nb = if i > 0 {
            i - 1
        } else {
            0
        };
        rest.update(nb, sat_add(rest[nb], ss[i]))
    } else {
        rest
    }
}

/// Closing window `win`: its leaf leaves its container, which then
/// collapses; a lone leaf at the root cannot be closed.
pub open spec fn close_tree(t: Tree, win: WinId) -> Tree
    decreases t,
{
    match t {
        Tree::Leaf { .. } => t,
        Tree::Split { dir, children, sizes } => match first_leaf(children, win, 0) {
            Some(i) => if 0 <= i < children.len() {
                collapse(
                    Tree::Split {
                        dir,
                        children: children.remove(i),
                        sizes: sizes_without(sizes, i),
                    },
                )
            } else {
                t
            },
            None => match first_holding(children, win, 0) {
                None => t,
                Some(k) => if 0 <= k < children.len() {
                    collapse(
                        Tree::Split {
                            dir,
                            children: children.update(k, close_tree(children[k], win)),
                            sizes,
                        },
                    )
                } else {
                    t
                },
            },
        },
    }
}


proof fn lemma_share_sum_bound(ss: Seq<u16>)
    ensures
        0 <= share_sum(ss),
        forall|j: int| 0 <= j < ss.len() ==> #[trigger] ss[j] <= share_sum(ss),
    decreases ss.len(),
{
    if ss.len() > 0 {
        lemma_share_sum_bound(ss.drop_last());
        assert forall|j: int| 0 <= j < ss.len() implies #[trigger] ss[j] <= share_sum(ss) by {
            if j < ss.len() - 1 {
                assert(ss.drop_last()[j] == ss[j]);
            }
        }
    }
}

/// All shares at least one.
pub open spec fn shares_positive(ss: Seq<u16>) -> bool {
    forall|i: int| 0 <= i < ss.len() ==> #[trigger] ss[i] >= 1
}

#[verifier::spinoff_prover]
proof fn lemma_merge_runs(dir: SplitDir, cs: Seq<Tree>, ss: Seq<u16>)
    requires
        wf_all(cs),
        ss.len() == cs.len(),
        shares_positive(ss),
    ensures
        ids_all(merge_runs(dir, cs, ss).0) == ids_all(cs),
        wf_all(merge_runs(dir, cs, ss).0),
        merge_runs(dir, cs, ss).0.len() == merge_runs(dir, cs, ss).1.len(),
        merge_runs(dir, cs, ss).0.len() >= cs.len(),
        shares_positive(merge_runs(dir, cs, ss).1),
    decreases size_all(cs),
{
    if cs.len() > 0 {
        lemma_size_all_first(cs);
        lemma_wf_all(cs);
        assert(wf(cs[0]));
        let rest = cs.skip(1);
        lemma_wf_all(rest);
        assert forall|i: int| 0 <= i < rest.len() implies #[trigger] wf(rest[i]) by {
            assert(rest[i] == cs[i + 1]);
        }
        assert(cs =~= seq![cs[0]] + rest);
        lemma_ids_all_concat(seq![cs[0]], rest);
        lemma_ids_all_single(cs[0]);
        match cs[0] {
            Tree::Split { dir: d, children: sub, sizes: subs } => {
                if d == dir {
                    let z = sub.len() as int;
                    assert(sub.take(z) =~= sub);
                    let cs2 = sub + rest;
                    let ss2 = scaled_parts(ss[0], subs, z) + ss.skip(1);
                    lemma_size_all_take(sub, z);
                    lemma_size_all_concat(sub, rest);
                    lemma_wf_all(sub);
                    lemma_wf_all(cs2);
                    assert forall|i: int| 0 <= i < cs2.len() implies #[trigger] wf(cs2[i]) by {
                        if i < sub.len() {
                            assert(cs2[i] == sub[i]);
                        } else {
                            assert(cs2[i] == rest[i - sub.len()]);
                        }
                    }
                    lemma_share_sum_bound(subs);
                    assert forall|i: int| 0 <= i < ss2.len() implies #[trigger] ss2[i] >= 1 by {
                        if i >= z {
                            assert(ss2[i] == ss[i - z + 1]);
                        } else {
                            let share = ss[0];
                            let total = if share_sum(subs) >= 1 {
                                share_sum(subs)
                            } else {
                                1
                            };
                            let x = subs[i];
                            assert(x <= total);
                            assert((share * x) / total <= share) by (nonlinear_arith)
                                requires
                                    0 <= x <= total,
                                    total >= 1,
                                    0 <= share,
                            ;
                        }
                    }
                    lemma_merge_runs(dir, cs2, ss2);
                    lemma_ids_all_concat(sub, rest);
                } else {
                    lemma_merge_runs(dir, rest, ss.skip(1));
                    let r = merge_runs(dir, rest, ss.skip(1));
                    lemma_ids_all_concat(seq![cs[0]], r.0);
                    lemma_wf_all(r.0);
                    lemma_wf_all(seq![cs[0]] + r.0);
                    assert forall|i: int| 0 <= i < (seq![cs[0]] + r.0).len() implies #[trigger] wf(
                        (seq![cs[0]] + r.0)[i],
                    ) by {
                        if i > 0 {
                            assert((seq![cs[0]] + r.0)[i] == r.0[i - 1]);
                        }
                    }
                    assert forall|i: int| 0 <= i < (seq![ss[0]] + r.1).len() implies #[trigger] (
                    seq![ss[0]] + r.1)[i] >= 1 by {
                        if i > 0 {
                            assert((seq![ss[0]] + r.1)[i] == r.1[i - 1]);
                        }
                    }
                }
            },
            Tree::Leaf { .. } => {
                lemma_merge_runs(dir, rest, ss.skip(1));
                let r = merge_runs(dir, rest, ss.skip(1));
                lemma_ids_all_concat(seq![cs[0]], r.0);
                lemma_wf_all(r.0);
                lemma_wf_all(seq![cs[0]] + r.0);
                assert forall|i: int| 0 <= i < (seq![cs[0]] + r.0).len() implies #[trigger] wf(
                    (seq![cs[0]] + r.0)[i],
                ) by {
                    if i > 0 {
                        assert((seq![cs[0]] + r.0)[i] == r.0[i - 1]);
                    }
                }
                assert forall|i: int| 0 <= i < (seq![ss[0]] + r.1).len() implies #[trigger] (seq![
                    ss[0],
                ] + r.1)[i] >= 1 by {
                    if i > 0 {
                        assert((seq![ss[0]] + r.1)[i] == r.1[i - 1]);
                    }
                }
            },
        }
    } else {
        assert(merge_runs(dir, cs, ss).0 =~= Seq::<Tree>::empty());
    }
}

/// A container that is well-formed except that it may hold a single child.
pub open spec fn loose_wf(t: Tree) -> bool {
    match t {
        Tree::Leaf { .. } => true,
        Tree::Split { children, sizes, .. } => {
            &&& children.len() >= 1
            &&& sizes.len() == children.len()
            &&& shares_positive(sizes)
            &&& wf_all(children)
        },
    }
}

/// Collapsing keeps the windows and their order, and yields a well-formed
/// tree.
pub proof fn lemma_collapse(t: Tree)
    requires
        loose_wf(t),
    ensures
        wf(collapse(t)),
        ids(collapse(t)) == ids(t),
{
    match t {
        Tree::Leaf { .. } => {},
        Tree::Split { dir, children, sizes } => {
            if children.len() == 1 {
                lemma_wf_all(children);
                assert(children =~= seq![children[0]]);
                lemma_ids_all_single(children[0]);
            } else {
                lemma_merge_runs(dir, children, sizes);
            }
        },
    }
}

proof fn lemma_first_unique(s: Seq<WinId>, w: WinId, p: int)
    requires
        first_at(s, w, p),
    ensures
        s.index_of_first(w) == Some(p),
{
    s.index_of_first_ensures(w);
    assert(s.contains(w)) by {
        assert(s[p] == w);
    }
    let q = s.index_of_first(w).unwrap();
    if q < p {
        assert(s[q] == w);
    } else if q > p {
        assert(s[p] != w);
    }
}

proof fn lemma_remove_value_mid(a: Seq<WinId>, c: Seq<WinId>, b: Seq<WinId>, w: WinId)
    requires
        !a.contains(w),
        c.contains(w),
    ensures
        (a + c + b).remove_value(w) == a + c.remove_value(w) + b,
{
    c.index_of_first_ensures(w);
    let pc = c.index_of_first(w).unwrap();
    let s = a + c + b;
    assert(first_at(s, w, a.len() + pc)) by {
        assert(s[a.len() + pc] == c[pc]);
        assert forall|q: int| 0 <= q < a.len() + pc implies s[q] != w by {
            if q < a.len() {
                assert(s[q] == a[q]);
            } else {
                assert(s[q] == c[q - a.len()]);
            }
        }
    }
    lemma_first_unique(s, w, a.len() + pc);
    assert(s.remove(a.len() + pc) =~= a + c.remove(pc) + b);
}

/// Law: closing window `win` in a container tree with distinct window ids
/// removes exactly that window, keeps the others in order, and leaves the
/// tree well-formed; a lone leaf at the root is never closed.
#[verifier::spinoff_prover]
#[verifier::rlimit(60)]
pub proof fn lemma_close(t: Tree, win: WinId)
    requires
        wf(t),
        ids(t).no_duplicates(),
    ensures
        wf(close_tree(t, win)),
        t is Split ==> ids(close_tree(t, win)) == ids(t).remove_value(win),
        t is Leaf ==> close_tree(t, win) == t,
    decreases t,
{
    match t {
        Tree::Leaf { .. } => {},
        Tree::Split { dir, children, sizes } => {
            lemma_wf_all(children);
            lemma_first_leaf(children, win, 0);
            lemma_first_holding(children, win, 0);
            lemma_ids_all_contains(children, win);
            match first_leaf(children, win, 0) {
                Some(i) => {
                    let cs2 = children.remove(i);
                    let ss2 = sizes_without(sizes, i);
                    lemma_wf_all(cs2);
                    assert forall|j: int| 0 <= j < cs2.len() implies #[trigger] wf(cs2[j]) by {
                        if j < i {
                            assert(cs2[j] == children[j]);
                        } else {
                            assert(cs2[j] == children[j + 1]);
                        }
                    }
                    assert(shares_positive(ss2)) by {
                        let rest = sizes.remove(i);
                        assert forall|j: int| 0 <= j < rest.len() implies #[trigger] rest[j]
                            >= 1 by {
                            if j < i {
                                assert(rest[j] == sizes[j]);
                            } else {
                                assert(rest[j] == sizes[j + 1]);
                            }
                        }
                    }
                    lemma_collapse(Tree::Split { dir, children: cs2, sizes: ss2 });
                    lemma_ids_all_at(children, i);
                    assert(cs2 =~= children.take(i) + children.skip(i + 1));
                    lemma_ids_all_concat(children.take(i), children.skip(i + 1));
                    let a = ids_all(children.take(i));
                    let b = ids_all(children.skip(i + 1));
                    assert(ids(children[i]) =~= seq![win]);
                    assert(!a.contains(win)) by {
                        if a.contains(win) {
                            let q = choose|q: int| 0 <= q < a.len() && a[q] == win;
                            let s = ids(t);
                            assert(s == a + seq![win] + b);
                            assert(s[q] == s[a.len() as int]);
                        }
                    }
                    assert(seq![win].remove_value(win) =~= Seq::<WinId>::empty()) by {
                        assert(first_at(seq![win], win, 0));
                        lemma_first_unique(seq![win], win, 0);
                    }
                    assert(seq![win].contains(win)) by {
                        assert(seq![win][0] == win);
                    }
                    lemma_remove_value_mid(a, seq![win], b, win);
                    assert(a + Seq::<WinId>::empty() + b =~= a + b);
                },
                None => {
                    match first_holding(children, win, 0) {
                        None => {
                            assert(!ids(t).contains(win));
                            ids(t).index_of_first_ensures(win);
                        },
                        Some(k) => {
                            let ck = children[k];
                            assert(ck is Split) by {
                                if ck is Leaf {
                                    assert(ids(ck)[0] == ck->id);
                                    let q = choose|q: int| 0 <= q < ids(ck).len() && ids(ck)[q]
                                        == win;
                                    assert(leaf_is(ck, win));
                                }
                            }
                            lemma_ids_all_at(children, k);
                            let a = ids_all(children.take(k));
                            let c = ids(ck);
                            let b = ids_all(children.skip(k + 1));
                            assert(c.no_duplicates()) by {
                                let s = ids(t);
                                assert forall|x: int, y: int|
                                    0 <= x < c.len() && 0 <= y < c.len() && x != y implies c[x]
                                    != c[y] by {
                                    assert(s[a.len() + x] == c[x]);
                                    assert(s[a.len() + y] == c[y]);
                                }
                            }
                            lemma_close(ck, win);
                            let ck2 = close_tree(ck, win);
                            let cs2 = children.update(k, ck2);
                            lemma_wf_all(cs2);
                            assert forall|j: int| 0 <= j < cs2.len() implies #[trigger] wf(
                                cs2[j],
                            ) by {
                                if j != k {
                                    assert(cs2[j] == children[j]);
                                }
                            }
                            lemma_collapse(Tree::Split { dir, children: cs2, sizes });
                            assert(cs2.take(k) =~= children.take(k));
                            assert(cs2.skip(k + 1) =~= children.skip(k + 1));
                            lemma_ids_all_at(cs2, k);
                            lemma_none_before(children, win, k);
                            lemma_remove_value_mid(a, c, b, win);
                        },
                    }
                },
            }
        },
    }
}


proof fn lemma_views_skip(ns: Seq<Node>, i: int)
    requires
        0 <= i <= ns.len(),
    ensures
        views(ns.skip(i)) == views(ns).skip(i),
        views(ns.take(i)) == views(ns).take(i),
{
    lemma_views(ns);
    lemma_views(ns.skip(i));
    lemma_views(ns.take(i));
    assert(views(ns.skip(i)) =~= views(ns).skip(i));
    assert(views(ns.take(i)) =~= views(ns).take(i));
}

proof fn lemma_views_concat(a: Seq<Node>, b: Seq<Node>)
    ensures
        views(a + b) == views(a) + views(b),
{
    lemma_views(a);
    lemma_views(b);
    lemma_views(a + b);
    assert(views(a + b) =~= views(a) + views(b));
}

/// Index of the first child that is the leaf of `win`, if any.
fn first_leaf_child(children: &Vec<Node>, win: WinId) -> (r: Option<usize>)
    ensures
        r is None <==> first_leaf(views(children@), win, 0) is None,
        r matches Some(k) ==> first_leaf(views(children@), win, 0) == Some(k as int) && k
            < children@.len(),
{
    proof {
        lemma_views(children@);
        lemma_first_leaf(views(children@), win, 0);
    }
    let ghost ts = views(children@);
    let mut i: usize = 0;
    while i < children.len()
        invariant
            i <= children@.len(),
            ts == views(children@),
            ts.len() == children@.len(),
            forall|j: int| 0 <= j < ts.len() ==> #[trigger] ts[j] == view_of(children@[j]),
            first_leaf(ts, win, 0) == first_leaf(ts, win, i as int),
        decreases children@.len() - i,
    {
        let hit = match &children[i] {
            Node::Leaf { id, .. } => *id == win,
            Node::Split { .. } => false,
        };
        if hit {
            return Some(i);
        }
        i += 1;
    }
    None
}

fn sum_shares(ss: &Vec<u16>) -> (t: u128)
    ensures
        t == share_sum(ss@),
{
    let mut t: u128 = 0;
    let mut k: usize = 0;
    while k < ss.len()
        invariant
            k <= ss@.len(),
            t == share_sum(ss@.take(k as int)),
            t <= k * 65535,
        decreases ss@.len() - k,
    {
        assert(ss@.take(k + 1).drop_last() =~= ss@.take(k as int));
        t = t + ss[k] as u128;
        k += 1;
    }
    assert(ss@.take(ss@.len() as int) =~= ss@);
    t
}

/// Replaces child `i` (a container) by its children, scaling their shares
/// to the share it had.
#[verifier::spinoff_prover]
fn splice_child(children: &mut Vec<Node>, sizes: &mut Vec<u16>, i: usize)
    requires
        i < old(children)@.len(),
        old(sizes)@.len() == old(children)@.len(),
        old(children)@[i as int] is Split,
    ensures
        ({
            let c = old(children)@[i as int];
            let sub = c->children@;
            let subs = c->sizes@;
            let z = if sub.len() < subs.len() {
                sub.len() as int
            } else {
                subs.len() as int
            };
            &&& final(children)@ == old(children)@.take(i as int) + sub.take(z) + old(
                children,
            )@.skip(i + 1)
            &&& final(sizes)@ == old(sizes)@.take(i as int) + scaled_parts(
                old(sizes)@[i as int],
                subs,
                z,
            ) + old(sizes)@.skip(i + 1)
        }),
{
    let ghost before_c = children@;
    let ghost before_s = sizes@;
    let sub_node = children.remove(i);
    let share = sizes.remove(i);
    match sub_node {
        Node::Split { dir: _d, children: mut sub, sizes: sub_sizes } => {
            let total0 = sum_shares(&sub_sizes);
            let total: u128 = if total0 >= 1 {
                total0
            } else {
                1
            };
            let z: usize = if sub.len() < sub_sizes.len() {
                sub.len()
            } else {
                sub_sizes.len()
            };
            sub.truncate(z);
            let ghost parts = scaled_parts(share, sub_sizes@, z as int);
            let ghost rest_c = children@;
            let ghost rest_s = sizes@;
            let ghost sub_all = sub@;
            while sub.len() > 0
                invariant
                    sub@.len() <= z,
                    z <= sub_sizes@.len(),
                    sub_all.len() == z,
                    sub@ == sub_all.take(sub@.len() as int),
                    i <= rest_c.len(),
                    rest_s.len() == rest_c.len(),
                    total == (if share_sum(sub_sizes@) >= 1 {
                        share_sum(sub_sizes@)
                    } else {
                        1
                    }),
                    parts == scaled_parts(share, sub_sizes@, z as int),
                    children@ == rest_c.take(i as int) + sub_all.skip(sub@.len() as int)
                        + rest_c.skip(i as int),
                    sizes@ == rest_s.take(i as int) + parts.skip(sub@.len() as int) + rest_s.skip(
                        i as int,
                    ),
                decreases sub@.len(),
            {
                let node = sub.pop().unwrap();
                let j = sub.len();
                let x = sub_sizes[j];
                let a: u128 = share as u128;
                let b: u128 = x as u128;
                assert(a * b <= 65535 * 65535) by (nonlinear_arith)
                    requires
                        a <= 65535,
                        b <= 65535,
                ;
                let q = (a * b) / total;
                let part: u16 = if q >= 1 {
                    q as u16
                } else {
                    1
                };
                assert(part == parts[j as int]);
                children.insert(i, node);
                sizes.insert(i, part);
                assert(sub_all.skip(j as int) =~= seq![node] + sub_all.skip(j + 1));
                assert(parts.skip(j as int) =~= seq![part] + parts.skip(j + 1));
                assert(children@ =~= rest_c.take(i as int) + sub_all.skip(sub@.len() as int)
                    + rest_c.skip(i as int));
                assert(sizes@ =~= rest_s.take(i as int) + parts.skip(sub@.len() as int)
                    + rest_s.skip(i as int));
            }
            assert(sub_all.skip(0) =~= sub_all);
            assert(parts.skip(0) =~= parts);
            assert(rest_c.take(i as int) =~= before_c.take(i as int));
            assert(rest_c.skip(i as int) =~= before_c.skip(i + 1));
            assert(rest_s.take(i as int) =~= before_s.take(i as int));
            assert(rest_s.skip(i as int) =~= before_s.skip(i + 1));
        },
        Node::Leaf { .. } => {
            assert(false);
        },
    }
}

/// Merges child containers of direction `dir` into the run, in place.
#[verifier::spinoff_prover]
#[verifier::rlimit(40)]
fn merge_in(dir: SplitDir, children: &mut Vec<Node>, sizes: &mut Vec<u16>)
    requires
        old(sizes)@.len() == old(children)@.len(),
    ensures
        (views(final(children)@), final(sizes)@) == merge_runs(
            dir,
            views(old(children)@),
            old(sizes)@,
        ),
{
    let ghost target = merge_runs(dir, views(children@), sizes@);
    let mut i: usize = 0;
    proof {
        lemma_views_skip(children@, 0);
        assert(views(children@).take(0) =~= Seq::<Tree>::empty());
        assert(sizes@.take(0) =~= Seq::<u16>::empty());
        assert(sizes@.skip(0) =~= sizes@);
        assert(views(children@).skip(0) =~= views(children@));
    }
    while i < children.len()
        invariant
            i <= children@.len(),
            sizes@.len() == children@.len(),
            target == ({
                let r = merge_runs(dir, views(children@).skip(i as int), sizes@.skip(i as int));
                (views(children@).take(i as int) + r.0, sizes@.take(i as int) + r.1)
            }),
        decreases size_all(views(children@).skip(i as int)),
    {
        proof {
            lemma_views(children@);
            lemma_views_skip(children@, i as int);
        }
        let ghost ts = views(children@);
        let ghost rr = ts.skip(i as int);
        let ghost sr = sizes@.skip(i as int);
        proof {
            lemma_size_all_first(rr);
            assert(rr[0] == ts[i as int]);
        }
        let merge = match &children[i] {
            Node::Split { dir: d, .. } => *d == dir,
            Node::Leaf { .. } => false,
        };
        if merge {
            let ghost before_c = children@;
            let ghost before_s = sizes@;
            let ghost c = before_c[i as int];
            splice_child(children, sizes, i);
            proof {
                let sub = c->children@;
                let subs = c->sizes@;
                let z = if sub.len() < subs.len() {
                    sub.len() as int
                } else {
                    subs.len() as int
                };
                lemma_views(sub);
                lemma_views_skip(sub, z);
                let subt = rr[0]->children;
                assert(subt == views(sub));
                lemma_views_concat(before_c.take(i as int), sub.take(z));
                lemma_views_concat(before_c.take(i as int) + sub.take(z), before_c.skip(i + 1));
                lemma_views_skip(before_c, i as int);
                lemma_views_skip(before_c, i + 1);
                lemma_views(children@);
                lemma_views_skip(children@, i as int);
                let nv = views(children@);
                assert(nv == views(before_c.take(i as int)) + subt.take(z) + views(
                    before_c.skip(i + 1),
                ));
                assert(nv.take(i as int) =~= ts.take(i as int));
                assert(nv.skip(i as int) =~= subt.take(z) + rr.skip(1));
                assert(sizes@.take(i as int) =~= before_s.take(i as int));
                assert(sizes@.skip(i as int) =~= scaled_parts(sr[0], subs, z) + sr.skip(1));
                assert(merge_runs(dir, rr, sr) == merge_runs(
                    dir,
                    subt.take(z) + rr.skip(1),
                    scaled_parts(sr[0], subs, z) + sr.skip(1),
                ));
                lemma_size_all_take(subt, z);
                lemma_size_all_concat(subt.take(z), rr.skip(1));
            }
        } else {
            proof {
                assert(rr =~= seq![rr[0]] + rr.skip(1));
                assert(rr.skip(1) =~= ts.skip(i + 1));
                assert(sr.skip(1) =~= sizes@.skip(i + 1));
                assert(ts.take(i + 1) =~= ts.take(i as int) + seq![rr[0]]);
                assert(sizes@.take(i + 1) =~= sizes@.take(i as int) + seq![sr[0]]);
                lemma_size_positive(rr[0]);
            }
            i += 1;
        }
    }
    proof {
        lemma_views(children@);
        lemma_views_skip(children@, i as int);
        assert(views(children@).skip(i as int) =~= Seq::<Tree>::empty());
        assert(sizes@.skip(i as int) =~= Seq::<u16>::empty());
        assert(views(children@).take(i as int) =~= views(children@));
        assert(sizes@.take(i as int) =~= sizes@);
    }
}

fn collapse_owned(node: Node) -> (r: Node)
    requires
        node@ is Split ==> node@->sizes.len() == node@->children.len(),
    ensures
        r@ == collapse(node@),
{
    match node {
        Node::Leaf { id, state } => Node::Leaf { id, state },
        Node::Split { dir, mut children, mut sizes } => {
            proof {
                lemma_views(children@);
            }
            if children.len() == 1 {
                children.remove(0)
            } else {
                merge_in(dir, &mut children, &mut sizes);
                Node::Split { dir, children, sizes }
            }
        },
    }
}

#[verifier::spinoff_prover]
fn close_owned(node: Node, win: WinId) -> (r: (Node, bool))
    requires
        wf(node@),
    ensures
        r.0@ == close_tree(node@, win),
        r.1 == (node@ is Split && ids(node@).contains(win)),
    decreases node,
{
    let ghost g = node;
    match node {
        Node::Leaf { id, state } => (Node::Leaf { id, state }, false),
        Node::Split { dir, mut children, mut sizes } => {
            let ghost ts = views(children@);
            proof {
                lemma_views(children@);
                lemma_ids_all_contains(ts, win);
                lemma_first_holding(ts, win, 0);
                lemma_first_leaf(ts, win, 0);
                lemma_wf_all(ts);
            }
            match first_leaf_child(&children, win) {
                Some(i) => {
                    proof {
                        assert(ids(ts[i as int])[0] == win);
                    }
                    let ghost before_c = children@;
                    let ghost before_s = sizes@;
                    let freed = sizes.remove(i);
                    children.remove(i);
                    if sizes.len() > 0 {
                        let nb = if i > 0 {
                            i - 1
                        } else {
                            0
                        };
                        let v = sizes[nb].saturating_add(freed);
                        sizes.set(nb, v);
                    }
                    proof {
                        lemma_views_remove(before_c, i as int);
                        assert(sizes@ =~= sizes_without(before_s, i as int));
                    }
                    (collapse_owned(Node::Split { dir, children, sizes }), true)
                },
                None => match first_child_holding(&children, win) {
                    None => (Node::Split { dir, children, sizes }, false),
                    Some(k) => {
                        let ghost before = children@;
                        proof {
                            assert(decreases_to!(g => g->children));
                            vstd::std_specs::vec::axiom_vec_index_decreases(g->children, k as int);
                        }
                        let child = children.remove(k);
                        let (sub, _ok) = close_owned(child, win);
                        children.insert(k, sub);
                        proof {
                            assert(children@ =~= before.update(k as int, sub));
                            lemma_views_update(before, k as int, sub);
                        }
                        (collapse_owned(Node::Split { dir, children, sizes }), true)
                    },
                },
            }
        },
    }
}

impl Node {
    /// Removes `win`, giving its share to the previous sibling (or the next
    /// when it was first) and collapsing single-child containers. Returns
    /// whether a window was closed.
    pub fn close(&mut self, win: WinId) -> (ok: bool)
        requires
            wf(old(self)@),
        ensures
            final(self)@ == close_tree(old(self)@, win),
            ok == (old(self)@ is Split && ids(old(self)@).contains(win)),
    {
        let mut node = Node::Leaf { id: 0, state: None };
        std::mem::swap(&mut node, self);
        let (n, ok) = close_owned(node, win);
        *self = n;
        ok
    }
}


/// The run rotated right by one: the last tree moves to the front.
pub open spec fn rotate_right(ts: Seq<Tree>) -> Seq<Tree> {
    if ts.len() == 0 {
        ts
    } else {
        seq![ts.last()] + ts.drop_last()
    }
}

/// Rotating the children of the container holding `win` by one position
/// (their shares stay in place).
pub open spec fn rotate_tree(t: Tree, win: WinId) -> Tree
    decreases t,
{
    match t {
        Tree::Leaf { .. } => t,
        Tree::Split { dir, children, sizes } => if first_leaf(children, win, 0) is Some {
            Tree::Split { dir, children: rotate_right(children), sizes }
        } else {
            match first_holding(children, win, 0) {
                Some(k) => if 0 <= k < children.len() {
                    Tree::Split {
                        dir,
                        children: children.update(k, rotate_tree(children[k], win)),
                        sizes,
                    }
                } else {
                    t
                },
                None => t,
            }
        },
    }
}

/// The other split direction.
pub open spec fn flipped(d: SplitDir) -> SplitDir {
    match d {
        SplitDir::Horizontal => SplitDir::Vertical,
        SplitDir::Vertical => SplitDir::Horizontal,
    }
}

/// `n` equal shares.
pub open spec fn ones(n: nat) -> Seq<u16> {
    Seq::new(n, |_i: int| 1u16)
}

/// Flipping the direction of the container holding `win`, with equal
/// shares.
pub open spec fn flip_tree(t: Tree, win: WinId) -> Tree
    decreases t,
{
    match t {
        Tree::Leaf { .. } => t,
        Tree::Split { dir, children, sizes } => if first_leaf(children, win, 0) is Some {
            Tree::Split { dir: flipped(dir), children, sizes: ones(sizes.len()) }
        } else {
            match first_holding(children, win, 0) {
                Some(k) => if 0 <= k < children.len() {
                    Tree::Split {
                        dir,
                        children: children.update(k, flip_tree(children[k], win)),
                        sizes,
                    }
                } else {
                    t
                },
                None => t,
            }
        },
    }
}

/// Equal shares everywhere, for a run of trees.
pub open spec fn equalize_all(ts: Seq<Tree>) -> Seq<Tree>
    decreases ts,
{
    if ts.len() == 0 {
        seq![]
    } else {
        equalize_all(ts.drop_last()).push(equalize_tree(ts.last()))
    }
}

/// Equal shares everywhere.
pub open spec fn equalize_tree(t: Tree) -> Tree
    decreases t,
{
    match t {
        Tree::Leaf { .. } => t,
        Tree::Split { dir, children, sizes } => Tree::Split {
            dir,
            children: equalize_all(children),
            sizes: ones(sizes.len()),
        },
    }
}

proof fn lemma_update_child(ts: Seq<Tree>, k: int, x: Tree)
    requires
        0 <= k < ts.len(),
    ensures
        ids_all(ts.update(k, x)) == ids_all(ts.take(k)) + ids(x) + ids_all(ts.skip(k + 1)),
        wf_all(ts) && wf(x) ==> wf_all(ts.update(k, x)),
{
    let u = ts.update(k, x);
    assert(u.take(k) =~= ts.take(k));
    assert(u.skip(k + 1) =~= ts.skip(k + 1));
    lemma_ids_all_at(u, k);
    lemma_wf_all(ts);
    lemma_wf_all(u);
    if wf_all(ts) && wf(x) {
        assert forall|j: int| 0 <= j < u.len() implies #[trigger] wf(u[j]) by {
            if j != k {
                assert(u[j] == ts[j]);
            }
        }
    }
}

/// Law: rotating keeps the same windows (as a multiset) and a well-formed
/// tree.
pub proof fn lemma_rotate(t: Tree, win: WinId)
    requires
        wf(t),
    ensures
        ids(rotate_tree(t, win)).to_multiset() == ids(t).to_multiset(),
        wf(rotate_tree(t, win)),
    decreases t,
{
    match t {
        Tree::Leaf { .. } => {},
        Tree::Split { dir, children, sizes } => {
            lemma_wf_all(children);
            lemma_first_holding(children, win, 0);
            if first_leaf(children, win, 0) is Some {
                let r = rotate_right(children);
                let init = children.drop_last();
                let last = children.last();
                assert(children =~= init + seq![last]);
                lemma_ids_all_concat(init, seq![last]);
                lemma_ids_all_concat(seq![last], init);
                lemma_ids_all_single(last);
                vstd::seq_lib::lemma_multiset_commutative(ids_all(init), ids(last));
                vstd::seq_lib::lemma_multiset_commutative(ids(last), ids_all(init));
                lemma_wf_all(r);
                assert forall|j: int| 0 <= j < r.len() implies #[trigger] wf(r[j]) by {
                    if j == 0 {
                        assert(r[0] == children[children.len() - 1]);
                    } else {
                        assert(r[j] == children[j - 1]);
                    }
                }
            } else {
                match first_holding(children, win, 0) {
                    Some(k) => {
                        lemma_rotate(children[k], win);
                        lemma_ids_all_at(children, k);
                        lemma_update_child(children, k, rotate_tree(children[k], win));
                        let a = ids_all(children.take(k));
                        let b = ids_all(children.skip(k + 1));
                        let c = ids(children[k]);
                        let c2 = ids(rotate_tree(children[k], win));
                        vstd::seq_lib::lemma_multiset_commutative(a, c);
                        vstd::seq_lib::lemma_multiset_commutative(a + c, b);
                        vstd::seq_lib::lemma_multiset_commutative(a, c2);
                        vstd::seq_lib::lemma_multiset_commutative(a + c2, b);
                    },
                    None => {},
                }
            }
        },
    }
}

/// Law: flipping keeps the windows in order and a well-formed tree.
pub proof fn lemma_flip(t: Tree, win: WinId)
    requires
        wf(t),
    ensures
        ids(flip_tree(t, win)) == ids(t),
        wf(flip_tree(t, win)),
    decreases t,
{
    match t {
        Tree::Leaf { .. } => {},
        Tree::Split { dir, children, sizes } => {
            lemma_wf_all(children);
            lemma_first_holding(children, win, 0);
            if first_leaf(children, win, 0) is Some {
            } else {
                match first_holding(children, win, 0) {
                    Some(k) => {
                        lemma_flip(children[k], win);
                        lemma_ids_all_at(children, k);
                        lemma_update_child(children, k, flip_tree(children[k], win));
                    },
                    None => {},
                }
            }
        },
    }
}

proof fn lemma_equalize_all(ts: Seq<Tree>)
    requires
        wf_all(ts),
    ensures
        equalize_all(ts).len() == ts.len(),
        ids_all(equalize_all(ts)) == ids_all(ts),
        wf_all(equalize_all(ts)),
    decreases ts,
{
    if ts.len() > 0 {
        lemma_equalize_all(ts.drop_last());
        lemma_equalize(ts.last());
        let e = equalize_all(ts);
        assert(e.drop_last() =~= equalize_all(ts.drop_last()));
    }
}

/// Law: equalizing keeps the windows in order and a well-formed tree.
pub proof fn lemma_equalize(t: Tree)
    requires
        wf(t),
    ensures
        ids(equalize_tree(t)) == ids(t),
        wf(equalize_tree(t)),
    decreases t,
{
    match t {
        Tree::Leaf { .. } => {},
        Tree::Split { children, .. } => {
            lemma_equalize_all(children);
        },
    }
}

fn rotate_owned(node: Node, win: WinId) -> (r: Node)
    requires
        wf(node@),
    ensures
        r@ == rotate_tree(node@, win),
    decreases node,
{
    let ghost g = node;
    match node {
        Node::Leaf { id, state } => Node::Leaf { id, state },
        Node::Split { dir, mut children, sizes } => {
            let ghost ts = views(children@);
            proof {
                lemma_views(children@);
            }
            if first_leaf_child(&children, win).is_some() {
                let ghost before = children@;
                let last = children.pop().unwrap();
                children.insert(0, last);
                proof {
                    assert(children@ =~= seq![before.last()] + before.drop_last());
                    lemma_views(children@);
                    assert(views(children@) =~= rotate_right(ts));
                }
                Node::Split { dir, children, sizes }
            } else {
                match first_child_holding(&children, win) {
                    None => Node::Split { dir, children, sizes },
                    Some(k) => {
                        let ghost before = children@;
                        proof {
                            lemma_wf_all(ts);
                            assert(decreases_to!(g => g->children));
                            vstd::std_specs::vec::axiom_vec_index_decreases(g->children, k as int);
                        }
                        let child = children.remove(k);
                        let sub = rotate_owned(child, win);
                        children.insert(k, sub);
                        proof {
                            assert(children@ =~= before.update(k as int, sub));
                            lemma_views_update(before, k as int, sub);
                        }
                        Node::Split { dir, children, sizes }
                    },
                }
            }
        },
    }
}

fn all_ones(sizes: &mut Vec<u16>)
    ensures
        final(sizes)@ == ones(old(sizes)@.len()),
{
    let mut i: usize = 0;
    while i < sizes.len()
        invariant
            i <= sizes@.len(),
            sizes@.len() == old(sizes)@.len(),
            forall|j: int| 0 <= j < i ==> sizes@[j] == 1u16,
        decreases sizes@.len() - i,
    {
        sizes.set(i, 1);
        i += 1;
    }
    assert(sizes@ =~= ones(old(sizes)@.len()));
}

fn flip_owned(node: Node, win: WinId) -> (r: Node)
    requires
        wf(node@),
    ensures
        r@ == flip_tree(node@, win),
    decreases node,
{
    let ghost g = node;
    match node {
        Node::Leaf { id, state } => Node::Leaf { id, state },
        Node::Split { dir, mut children, mut sizes } => {
            let ghost ts = views(children@);
            proof {
                lemma_views(children@);
            }
            if first_leaf_child(&children, win).is_some() {
                let nd = match dir {
                    SplitDir::Horizontal => SplitDir::Vertical,
                    SplitDir::Vertical => SplitDir::Horizontal,
                };
                all_ones(&mut sizes);
                Node::Split { dir: nd, children, sizes }
            } else {
                match first_child_holding(&children, win) {
                    None => Node::Split { dir, children, sizes },
                    Some(k) => {
                        let ghost before = children@;
                        proof {
                            lemma_wf_all(ts);
                            assert(decreases_to!(g => g->children));
                            vstd::std_specs::vec::axiom_vec_index_decreases(g->children, k as int);
                        }
                        let child = children.remove(k);
                        let sub = flip_owned(child, win);
                        children.insert(k, sub);
                        proof {
                            assert(children@ =~= before.update(k as int, sub));
                            lemma_views_update(before, k as int, sub);
                        }
                        Node::Split { dir, children, sizes }
                    },
                }
            }
        },
    }
}

proof fn lemma_equalize_all_index(ts: Seq<Tree>)
    ensures
        equalize_all(ts).len() == ts.len(),
        forall|j: int|
            0 <= j < ts.len() ==> #[trigger] equalize_all(ts)[j] == equalize_tree(ts[j]),
    decreases ts.len(),
{
    if ts.len() > 0 {
        lemma_equalize_all_index(ts.drop_last());
        assert forall|j: int| 0 <= j < ts.len() implies #[trigger] equalize_all(ts)[j]
            == equalize_tree(ts[j]) by {
            if j < ts.len() - 1 {
                assert(ts.drop_last()[j] == ts[j]);
            }
        }
    }
}

fn equalize_owned(node: Node) -> (r: Node)
    ensures
        r@ == equalize_tree(node@),
    decreases node,
{
    let ghost g = node;
    match node {
        Node::Leaf { id, state } => Node::Leaf { id, state },
        Node::Split { dir, mut children, mut sizes } => {
            all_ones(&mut sizes);
            let ghost orig = children@;
            proof {
                lemma_views(orig);
                lemma_equalize_all_index(views(orig));
            }
            let mut i: usize = 0;
            while i < children.len()
                invariant
                    i <= children@.len(),
                    children@.len() == orig.len(),
                    g == node,
                    g == (Node::Split { dir, children: g->children, sizes: g->sizes }),
                    g->children@ == orig,
                    forall|j: int| 0 <= j < i ==> #[trigger] view_of(children@[j])
                        == equalize_tree(view_of(orig[j])),
                    forall|j: int| i <= j < children@.len() ==> #[trigger] children@[j] == orig[j],
                decreases children@.len() - i,
            {
                let ghost before = children@;
                proof {
                    assert(decreases_to!(g => g->children));
                    vstd::std_specs::vec::axiom_vec_index_decreases(g->children, i as int);
                }
                let child = children.remove(i);
                let sub = equalize_owned(child);
                children.insert(i, sub);
                assert(children@ =~= before.update(i as int, sub));
                i += 1;
            }
            proof {
                lemma_views(children@);
                assert(views(children@) =~= equalize_all(views(orig)));
            }
            Node::Split { dir, children, sizes }
        },
    }
}

impl Node {
    /// Rotates the children of the container holding `win` by one position.
    pub fn rotate(&mut self, win: WinId)
        requires
            wf(old(self)@),
        ensures
            final(self)@ == rotate_tree(old(self)@, win),
    {
        let mut node = Node::Leaf { id: 0, state: None };
        std::mem::swap(&mut node, self);
        *self = rotate_owned(node, win);
    }

    /// Flips the direction of the container holding `win` and equalizes it.
    pub fn flip(&mut self, win: WinId)
        requires
            wf(old(self)@),
        ensures
            final(self)@ == flip_tree(old(self)@, win),
    {
        let mut node = Node::Leaf { id: 0, state: None };
        std::mem::swap(&mut node, self);
        *self = flip_owned(node, win);
    }

    /// Equal shares everywhere.
    pub fn equalize(&mut self)
        ensures
            final(self)@ == equalize_tree(old(self)@),
    {
        let mut node = Node::Leaf { id: 0, state: None };
        std::mem::swap(&mut node, self);
        *self = equalize_owned(node);
    }
}


/// First-cut share of a child: proportional to its stored size, at least
/// one cell.
pub open spec fn base_share(s: u16, total: u16, sum: int) -> u16 {
    if (s * total) / sum >= 1 {
        ((s * total) / sum) as u16
    } else {
        1u16
    }
}

/// First-cut shares of all children.
pub open spec fn base_shares(sizes: Seq<u16>, total: u16) -> Seq<u16> {
    let sum = if share_sum(sizes) >= 1 {
        share_sum(sizes)
    } else {
        1
    };
    Seq::new(sizes.len(), |j: int| base_share(sizes[j], total, sum))
}

/// One left-to-right pass handing out single cells from `d`, from index `j`.
pub open spec fn spread_pass(out: Seq<u16>, d: nat, j: int) -> (Seq<u16>, nat)
    decreases out.len() - j,
{
    if j < 0 || j >= out.len() || d == 0 {
        (out, d)
    } else {
        spread_pass(out.update(j, (out[j] + 1) as u16), (d - 1) as nat, j + 1)
    }
}

/// Handing out `d` leftover cells left to right, cycling.
pub open spec fn spread(out: Seq<u16>, d: nat) -> Seq<u16>
    decreases d,
{
    if d == 0 || out.len() == 0 {
        out
    } else {
        let r = spread_pass(out, d, 0);
        if r.1 < d {
            spread(r.0, r.1)
        } else {
            r.0
        }
    }
}

/// One left-to-right pass taking single cells back (`e` in all) from
/// children that have more than one, from index `j`.
pub open spec fn trim_pass(out: Seq<u16>, e: nat, j: int) -> (Seq<u16>, nat)
    decreases out.len() - j,
{
    if j < 0 || j >= out.len() || e == 0 {
        (out, e)
    } else if out[j] > 1 {
        trim_pass(out.update(j, (out[j] - 1) as u16), (e - 1) as nat, j + 1)
    } else {
        trim_pass(out, e, j + 1)
    }
}

/// Taking back `e` overshooting cells, cycling.
pub open spec fn trim(out: Seq<u16>, e: nat) -> Seq<u16>
    decreases e,
{
    if e == 0 {
        out
    } else {
        let r = trim_pass(out, e, 0);
        if r.1 < e {
            trim(r.0, r.1)
        } else {
            r.0
        }
    }
}

/// Stored shares scaled to sum exactly to `total`, each at least one: the
/// proportional first cut, then leftovers handed out (or overshoot taken
/// back) left to right. With fewer cells than children, every child gets
/// one.
pub open spec fn spec_normalized(sizes: Seq<u16>, total: u16) -> Seq<u16> {
    let n = sizes.len();
    if n == 0 {
        seq![]
    } else if total < n {
        ones(n)
    } else {
        let b = base_shares(sizes, total);
        let a = share_sum(b);
        if a <= total {
            spread(b, (total - a) as nat)
        } else {
            trim(b, (a - total) as nat)
        }
    }
}

/// The first cut's cells fit in a `u16`, as the running total requires.
pub open spec fn first_cut_fits(sizes: Seq<u16>, total: u16) -> bool {
    total < sizes.len() || share_sum(base_shares(sizes, total)) <= u16::MAX
}

proof fn lemma_share_sum_update(ss: Seq<u16>, j: int, v: u16)
    requires
        0 <= j < ss.len(),
    ensures
        share_sum(ss.update(j, v)) == share_sum(ss) - ss[j] + v,
    decreases ss.len(),
{
    if j < ss.len() - 1 {
        lemma_share_sum_update(ss.drop_last(), j, v);
        assert(ss.update(j, v).drop_last() =~= ss.drop_last().update(j, v));
    } else {
        assert(ss.update(j, v).drop_last() =~= ss.drop_last());
    }
}

proof fn lemma_spread_pass(out: Seq<u16>, d: nat, j: int)
    requires
        0 <= j <= out.len(),
        share_sum(out) + d <= u16::MAX,
        shares_positive(out),
    ensures
        ({
            let r = spread_pass(out, d, j);
            &&& r.0.len() == out.len()
            &&& share_sum(r.0) + r.1 == share_sum(out) + d
            &&& shares_positive(r.0)
            &&& r.1 <= d
            &&& (d > 0 && j < out.len() ==> r.1 < d)
        }),
    decreases out.len() - j,
{
    if j < out.len() && d > 0 {
        lemma_share_sum_bound(out);
        let o2 = out.update(j, (out[j] + 1) as u16);
        lemma_share_sum_update(out, j, (out[j] + 1) as u16);
        lemma_spread_pass(o2, (d - 1) as nat, j + 1);
    }
}

proof fn lemma_spread(out: Seq<u16>, d: nat)
    requires
        out.len() > 0,
        share_sum(out) + d <= u16::MAX,
        shares_positive(out),
    ensures
        spread(out, d).len() == out.len(),
        share_sum(spread(out, d)) == share_sum(out) + d,
        shares_positive(spread(out, d)),
    decreases d,
{
    if d > 0 {
        lemma_spread_pass(out, d, 0);
        let r = spread_pass(out, d, 0);
        lemma_spread(r.0, r.1);
    }
}

proof fn lemma_trim_pass(out: Seq<u16>, e: nat, j: int)
    requires
        0 <= j <= out.len(),
        shares_positive(out),
    ensures
        ({
            let r = trim_pass(out, e, j);
            &&& r.0.len() == out.len()
            &&& share_sum(r.0) + e == share_sum(out) + r.1
            &&& shares_positive(r.0)
            &&& r.1 <= e
            &&& (e > 0 && r.1 == e ==> r.0 == out && forall|q: int|
                j <= q < out.len() ==> out[q] <= 1)
        }),
    decreases out.len() - j,
{
    if j < out.len() && e > 0 {
        if out[j] > 1 {
            let o2 = out.update(j, (out[j] - 1) as u16);
            lemma_share_sum_update(out, j, (out[j] - 1) as u16);
            lemma_trim_pass(o2, (e - 1) as nat, j + 1);
        } else {
            lemma_trim_pass(out, e, j + 1);
        }
    }
}

proof fn lemma_all_ones_sum(out: Seq<u16>)
    requires
        forall|q: int| 0 <= q < out.len() ==> out[q] <= 1,
        shares_positive(out),
    ensures
        share_sum(out) == out.len(),
    decreases out.len(),
{
    if out.len() > 0 {
        lemma_all_ones_sum(out.drop_last());
    }
}

proof fn lemma_trim(out: Seq<u16>, e: nat)
    requires
        shares_positive(out),
        share_sum(out) >= out.len() + e,
    ensures
        trim(out, e).len() == out.len(),
        share_sum(trim(out, e)) + e == share_sum(out),
        shares_positive(trim(out, e)),
    decreases e,
{
    if e > 0 {
        lemma_trim_pass(out, e, 0);
        let r = trim_pass(out, e, 0);
        if r.1 == e {
            lemma_all_ones_sum(out);
        } else {
            lemma_trim(r.0, r.1);
        }
    }
}

proof fn lemma_base_shares(sizes: Seq<u16>, total: u16)
    ensures
        base_shares(sizes, total).len() == sizes.len(),
        shares_positive(base_shares(sizes, total)),
{
    let sum = if share_sum(sizes) >= 1 {
        share_sum(sizes)
    } else {
        1
    };
    lemma_share_sum_bound(sizes);
    let b = base_shares(sizes, total);
    assert forall|j: int| 0 <= j < b.len() implies #[trigger] b[j] >= 1 by {
        let x = sizes[j];
        assert(x <= sum);
        assert((x * total) / sum <= total) by (nonlinear_arith)
            requires
                0 <= x <= sum,
                sum >= 1,
                0 <= total,
        ;
    }
}

/// Law: normalized shares number one per child, are each at least one
/// cell, and sum exactly to `total` whenever there is a cell per child.
pub proof fn lemma_normalized(sizes: Seq<u16>, total: u16)
    requires
        first_cut_fits(sizes, total),
    ensures
        spec_normalized(sizes, total).len() == sizes.len(),
        shares_positive(spec_normalized(sizes, total)),
        sizes.len() > 0 && total >= sizes.len() ==> share_sum(spec_normalized(sizes, total))
            == total,
{
    let n = sizes.len();
    if n > 0 && total >= n {
        lemma_base_shares(sizes, total);
        let b = base_shares(sizes, total);
        let a = share_sum(b);
        lemma_all_ones_bound(b);
        if a <= total {
            lemma_spread(b, (total - a) as nat);
        } else {
            lemma_trim(b, (a - total) as nat);
        }
    }
}

proof fn lemma_base_prefix(sizes: Seq<u16>, total: u16, k: int)
    requires
        0 <= k <= sizes.len(),
    ensures
        ({
            let sum = if share_sum(sizes) >= 1 {
                share_sum(sizes)
            } else {
                1
            };
            sum * share_sum(base_shares(sizes, total).take(k)) <= total * share_sum(sizes.take(k)) + k
                * sum
        }),
    decreases k,
{
    let sum = if share_sum(sizes) >= 1 {
        share_sum(sizes)
    } else {
        1
    };
    let b = base_shares(sizes, total);
    if k > 0 {
        lemma_base_prefix(sizes, total, k - 1);
        assert(b.take(k).drop_last() =~= b.take(k - 1));
        assert(sizes.take(k).drop_last() =~= sizes.take(k - 1));
        let x = sizes[k - 1];
        let y = b[k - 1];
        assert(y == base_share(x, total, sum));
        lemma_share_sum_bound(sizes);
        assert(x <= sum);
        assert((x * total) / sum <= total) by (nonlinear_arith)
            requires
                0 <= x <= sum,
                sum >= 1,
                0 <= total,
        ;
        assert(sum * y <= x * total + sum) by (nonlinear_arith)
            requires
                sum >= 1,
                y == (if (x * total) / sum >= 1 {
                    (x * total) / sum
                } else {
                    1
                }),
                x >= 0,
                total >= 0,
        ;
        let pb = share_sum(b.take(k - 1));
        let ps = share_sum(sizes.take(k - 1));
        assert(sum * (pb + y) == sum * pb + sum * y) by (nonlinear_arith);
        assert(total * (ps + x) == total * ps + total * x) by (nonlinear_arith);
        assert(k * sum == (k - 1) * sum + sum) by (nonlinear_arith);
    }
}

/// When the total leaves a cell of room per child, the first cut fits: its
/// shares sum to at most the total plus one cell per child.
pub proof fn lemma_first_cut_fits(sizes: Seq<u16>, total: u16)
    requires
        total + sizes.len() <= u16::MAX,
    ensures
        first_cut_fits(sizes, total),
        share_sum(base_shares(sizes, total)) <= total + sizes.len(),
{
    let n = sizes.len() as int;
    let sum = if share_sum(sizes) >= 1 {
        share_sum(sizes)
    } else {
        1
    };
    lemma_base_prefix(sizes, total, n);
    assert(base_shares(sizes, total).take(n) =~= base_shares(sizes, total));
    assert(sizes.take(n) =~= sizes);
    lemma_share_sum_bound(sizes);
    let a = share_sum(base_shares(sizes, total));
    assert(a <= total + n) by (nonlinear_arith)
        requires
            sum >= 1,
            share_sum(sizes) <= sum,
            share_sum(sizes) >= 0,
            total >= 0,
            sum * a <= total * share_sum(sizes) + n * sum,
    ;
}

/// Law: with at least one child, at least a cell per child and room for
/// one more cell per child in a `u16`, normalized shares number one per
/// child, are each at least one cell and sum exactly to the total.
pub proof fn lemma_normalized_law(sizes: Seq<u16>, total: u16)
    requires
        sizes.len() >= 1,
        total >= sizes.len(),
        total + sizes.len() <= u16::MAX,
    ensures
        spec_normalized(sizes, total).len() == sizes.len(),
        shares_positive(spec_normalized(sizes, total)),
        share_sum(spec_normalized(sizes, total)) == total,
{
    lemma_first_cut_fits(sizes, total);
    lemma_normalized(sizes, total);
}

proof fn lemma_all_ones_bound(out: Seq<u16>)
    requires
        shares_positive(out),
    ensures
        share_sum(out) >= out.len(),
    decreases out.len(),
{
    if out.len() > 0 {
        lemma_all_ones_bound(out.drop_last());
    }
}

/// Scales stored shares to sum exactly to `total`, each at least 1.
#[verifier::spinoff_prover]
pub fn normalized(sizes: &[u16], total: u16) -> (out: Vec<u16>)
    requires
        sizes@.len() <= u16::MAX,
        first_cut_fits(sizes@, total),
    ensures
        out@ == spec_normalized(sizes@, total),
{
    let n = sizes.len();
    if n == 0 {
        assert(Seq::<u16>::empty() =~= spec_normalized(sizes@, total));
        return Vec::new();
    }
    if (total as usize) < n {
        let mut v: Vec<u16> = Vec::new();
        while v.len() < n
            invariant
                v@.len() <= n,
                n == sizes@.len(),
                forall|q: int| 0 <= q < v@.len() ==> v@[q] == 1u16,
            decreases n - v@.len(),
        {
            v.push(1);
        }
        assert(v@ =~= ones(n as nat));
        return v;
    }
    let mut sum: u32 = 0;
    let mut k: usize = 0;
    while k < n
        invariant
            k <= n,
            n == sizes@.len(),
            n <= u16::MAX,
            sum == share_sum(sizes@.take(k as int)),
            sum <= k * 65535,
        decreases n - k,
    {
        assert(sizes@.take(k + 1).drop_last() =~= sizes@.take(k as int));
        sum = sum + sizes[k] as u32;
        k += 1;
    }
    assert(sizes@.take(n as int) =~= sizes@);
    let sum: u32 = if sum >= 1 {
        sum
    } else {
        1
    };
    let ghost b = base_shares(sizes@, total);
    proof {
        lemma_share_sum_bound(sizes@);
        lemma_base_shares(sizes@, total);
    }
    let mut out: Vec<u16> = Vec::new();
    let mut assigned: u16 = 0;
    while out.len() < n
        invariant
            out@.len() <= n,
            n == sizes@.len(),
            sum == (if share_sum(sizes@) >= 1 {
                share_sum(sizes@)
            } else {
                1
            }),
            b == base_shares(sizes@, total),
            share_sum(b) <= u16::MAX,
            out@ == b.take(out@.len() as int),
            assigned == share_sum(out@),
        decreases n - out@.len(),
    {
        let j = out.len();
        let x = sizes[j];
        let xa: u32 = x as u32;
        let ta: u32 = total as u32;
        assert(xa * ta <= 65535 * 65535) by (nonlinear_arith)
            requires
                xa <= 65535,
                ta <= 65535,
        ;
        let q = (xa * ta) / sum;
        let v: u16 = if q >= 1 {
            q as u16
        } else {
            1
        };
        assert(v == b[j as int]);
        proof {
            assert(b.take(j + 1).drop_last() =~= b.take(j as int));
            assert(b =~= b.take(j + 1) + b.skip(j + 1));
            lemma_share_sum_concat(b.take(j + 1), b.skip(j + 1));
            lemma_share_sum_bound(b.skip(j + 1));
        }
        out.push(v);
        assigned = assigned + v;
        assert(out@ =~= b.take(out@.len() as int));
    }
    assert(b.take(n as int) =~= b);
    if assigned < total {
        let ghost mut cur = out@;
        let mut d: u16 = total - assigned;
        assert(spread(b, d as nat) == spec_normalized(sizes@, total));
        while d > 0
            invariant
                out@.len() == n,
                n >= 1,
                spread(out@, d as nat) == spec_normalized(sizes@, total),
                share_sum(out@) + d <= u16::MAX,
                shares_positive(out@),
            decreases d,
        {
            let ghost start = out@;
            let ghost start_d = d;
            proof {
                lemma_spread_pass(start, d as nat, 0);
            }
            let mut j: usize = 0;
            while j < n && d > 0
                invariant
                    j <= n,
                    out@.len() == n,
                    spread_pass(start, start_d as nat, 0) == spread_pass(out@, d as nat, j as int),
                    share_sum(out@) + d == share_sum(start) + start_d,
                    share_sum(start) + start_d <= u16::MAX,
                    shares_positive(out@),
                    d <= start_d,
                    j > 0 ==> d < start_d,
                decreases n - j,
            {
                proof {
                    lemma_share_sum_bound(out@);
                    lemma_share_sum_update(out@, j as int, (out@[j as int] + 1) as u16);
                }
                let v = out[j] + 1;
                out.set(j, v);
                d = d - 1;
                j += 1;
            }
            proof {
                if d > 0 {
                    assert(spread_pass(out@, d as nat, j as int) == (out@, d as nat));
                }
            }
        }
        out
    } else {
        let mut e: u16 = assigned - total;
        assert(trim(b, e as nat) == spec_normalized(sizes@, total));
        proof {
            lemma_all_ones_bound(out@);
        }
        while e > 0
            invariant
                out@.len() == n,
                n >= 1,
                trim(out@, e as nat) == spec_normalized(sizes@, total),
                shares_positive(out@),
                share_sum(out@) >= n + e,
            decreases e,
        {
            let ghost start = out@;
            let ghost start_e = e;
            proof {
                lemma_trim_pass(start, e as nat, 0);
            }
            let mut j: usize = 0;
            while j < n && e > 0
                invariant
                    j <= n,
                    out@.len() == n,
                    trim_pass(start, start_e as nat, 0) == trim_pass(out@, e as nat, j as int),
                    share_sum(out@) + start_e == share_sum(start) + e,
                    shares_positive(out@),
                    e <= start_e,
                decreases n - j,
            {
                if out[j] > 1 {
                    proof {
                        lemma_share_sum_update(out@, j as int, (out@[j as int] - 1) as u16);
                    }
                    let v = out[j] - 1;
                    out.set(j, v);
                    e = e - 1;
                }
                j += 1;
            }
            proof {
                assert(trim_pass(out@, e as nat, j as int) == (out@, e as nat));
                if e == start_e {
                    lemma_all_ones_sum(start);
                }
            }
        }
        out
    }
}


proof fn lemma_share_sum_concat(a: Seq<u16>, b: Seq<u16>)
    ensures
        share_sum(a + b) == share_sum(a) + share_sum(b),
    decreases b.len(),
{
    if b.len() == 0 {
        assert(a + b =~= a);
    } else {
        lemma_share_sum_concat(a, b.drop_last());
        assert((a + b).drop_last() =~= a + b.drop_last());
    }
}

} // verus!
