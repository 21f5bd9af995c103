//! The window-tree invariant, and the proof that opening and closing windows
//! keep it.
use vstd::prelude::*;
use crate::ancestry::ids_distinct;
use crate::state::{children_of, first_index, is_live, lemma_first_index, lookup, Treewm, WindowModel};
use crate::tree::{
    after_removal, first_pos, focus_after_removal, FocusChange, lemma_first_pos, lemma_without_absent, new_window_model, reparented,
    spliced, with_child, with_spliced, without,
};

verus! {

/// The windows form a forest, allowing parent links to IDs that no window
/// has (a closed window, or one not opened yet):
/// - window IDs are distinct and were all handed out already;
/// - every listed child is an existing window whose parent is the lister;
/// - every window whose parent exists is listed among that parent's children;
/// - no children list repeats an ID;
/// - a child's ID is larger than its lister's, so following children lists
///   (and so parent links between existing windows) never comes back round.
pub open spec fn forest(ws: Seq<WindowModel>, next: u32) -> bool {
    &&& forall|i: int, j: int|
        0 <= i < ws.len() && 0 <= j < ws.len() && i != j ==> #[trigger] ws[i].id != #[trigger] ws[j].id
    &&& forall|i: int| 0 <= i < ws.len() ==> #[trigger] ws[i].id < next
    &&& forall|i: int, k: int|
        0 <= i < ws.len() && 0 <= k < ws[i].children.len() ==> is_live(ws, #[trigger] ws[i].children[k])
    &&& forall|i: int, j: int, k: int|
        0 <= i < ws.len() && 0 <= j < ws.len() && 0 <= k < ws[i].children.len() && #[trigger] ws[j].id
            == #[trigger] ws[i].children[k] ==> ws[j].parent_id == Some(ws[i].id)
    &&& forall|i: int, j: int|
        0 <= i < ws.len() && 0 <= j < ws.len() && #[trigger] ws[i].parent_id == Some(#[trigger] ws[j].id)
            ==> ws[j].children.contains(ws[i].id)
    &&& forall|i: int| 0 <= i < ws.len() ==> (#[trigger] ws[i].children).no_duplicates()
    &&& forall|i: int, k: int|
        0 <= i < ws.len() && 0 <= k < ws[i].children.len() ==> #[trigger] ws[i].children[k] > ws[i].id
}

/// The window tree is well formed:
/// - window IDs are distinct and were all handed out already;
/// - parent links only name IDs that were handed out;
/// - every listed child is an existing window whose parent is the lister;
/// - every window whose parent exists is listed among that parent's children;
/// - no children list repeats an ID;
/// - a child's ID is larger than its parent's (so the tree has no cycle).
pub open spec fn tree_wf(ws: Seq<WindowModel>, next: u32) -> bool {
    &&& forall|i: int, j: int|
        0 <= i < ws.len() && 0 <= j < ws.len() && i != j ==> #[trigger] ws[i].id != #[trigger] ws[j].id
    &&& forall|i: int| 0 <= i < ws.len() ==> #[trigger] ws[i].id < next
    &&& forall|i: int| 0 <= i < ws.len() && #[trigger] ws[i].parent_id is Some ==> ws[i].parent_id->0 < next
    &&& forall|i: int, k: int|
        0 <= i < ws.len() && 0 <= k < ws[i].children.len() ==> is_live(ws, #[trigger] ws[i].children[k])
    &&& forall|i: int, j: int, k: int|
        0 <= i < ws.len() && 0 <= j < ws.len() && 0 <= k < ws[i].children.len() && #[trigger] ws[j].id
            == #[trigger] ws[i].children[k] ==> ws[j].parent_id == Some(ws[i].id)
    &&& forall|i: int, j: int|
        0 <= i < ws.len() && 0 <= j < ws.len() && #[trigger] ws[i].parent_id == Some(#[trigger] ws[j].id)
            ==> ws[j].children.contains(ws[i].id)
    &&& forall|i: int| 0 <= i < ws.len() ==> (#[trigger] ws[i].children).no_duplicates()
    &&& forall|i: int, k: int|
        0 <= i < ws.len() && 0 <= k < ws[i].children.len() ==> #[trigger] ws[i].children[k] > ws[i].id
}

impl Treewm {
    /// The window tree of this state is well formed.
    pub open spec fn wf(&self) -> bool {
        tree_wf(self.model(), self.next_window_id)
    }

    /// The windows of this state form a forest.
    pub open spec fn forest(&self) -> bool {
        forest(self.model(), self.next_window_id)
    }

    /// Focus is off or on an existing window.
    pub open spec fn focus_on_window(&self) -> bool {
        focus_live(self.model(), self.focused_window_id)
    }
}

/// Focus is off or names an existing window.
pub open spec fn focus_live(ws: Seq<WindowModel>, focused: Option<u32>) -> bool {
    match focused {
        Some(f) => is_live(ws, f),
        None => true,
    }
}

/// The focus once a close's focus change is applied.
pub open spec fn focus_applied(focused: Option<u32>, change: FocusChange) -> Option<u32> {
    match change {
        FocusChange::Keep => focused,
        FocusChange::Focus(f) => Some(f),
        FocusChange::Clear => None,
    }
}

/// A well-formed tree is a forest.
pub proof fn lemma_wf_forest(ws: Seq<WindowModel>, next: u32)
    requires
        tree_wf(ws, next),
    ensures
        forest(ws, next),
{
}

/// In a forest an existing parent has a smaller ID than its child, so parent
/// links between existing windows never come back round.
pub proof fn lemma_forest_parent_smaller(ws: Seq<WindowModel>, next: u32, i: int, j: int)
    requires
        forest(ws, next),
        0 <= i < ws.len(),
        0 <= j < ws.len(),
        ws[i].parent_id == Some(ws[j].id),
    ensures
        ws[j].id < ws[i].id,
{
    assert(ws[j].children.contains(ws[i].id));
    let k = choose|k: int| 0 <= k < ws[j].children.len() && ws[j].children[k] == ws[i].id;
    assert(ws[j].children[k] > ws[j].id);
}

/// Two window lists that agree on IDs, parent links and children lists.
pub open spec fn same_shape(a: Seq<WindowModel>, b: Seq<WindowModel>) -> bool {
    &&& a.len() == b.len()
    &&& forall|i: int|
        #![trigger a[i]]
        0 <= i < a.len() ==> a[i].id == b[i].id && a[i].parent_id == b[i].parent_id && a[i].children
            == b[i].children
}

/// Well-formedness only looks at IDs, parent links and children lists: sizes
/// and fullscreen state do not matter, and more handed-out IDs do no harm.
pub proof fn lemma_wf_same_shape(a: Seq<WindowModel>, b: Seq<WindowModel>, next: u32, next2: u32)
    requires
        tree_wf(a, next),
        same_shape(a, b),
        next <= next2,
    ensures
        tree_wf(b, next2),
{
    lemma_forest_same_shape(a, b, next, next2);
    assert forall|i: int| 0 <= i < b.len() && #[trigger] b[i].parent_id is Some implies b[i].parent_id->0 < next2 by {
        assert(a[i].parent_id == b[i].parent_id);
    }
}

/// Being a forest only looks at IDs, parent links and children lists.
pub proof fn lemma_forest_same_shape(a: Seq<WindowModel>, b: Seq<WindowModel>, next: u32, next2: u32)
    requires
        forest(a, next),
        same_shape(a, b),
        next <= next2,
    ensures
        forest(b, next2),
{
    assert forall|x: u32| is_live(a, x) implies is_live(b, x) by {
        let i = choose|i: int| 0 <= i < a.len() && a[i].id == x;
        assert(b[i].id == x);
    }
    assert forall|i: int, j: int| 0 <= i < b.len() && 0 <= j < b.len() && i != j implies #[trigger] b[i].id
        != #[trigger] b[j].id by {
        assert(a[i].id == b[i].id && a[j].id == b[j].id);
    }
    assert forall|i: int| 0 <= i < b.len() implies #[trigger] b[i].id < next2 by {
        assert(a[i].id == b[i].id);
    }
    assert forall|i: int, k: int| 0 <= i < b.len() && 0 <= k < b[i].children.len() implies is_live(
        b,
        #[trigger] b[i].children[k],
    ) by {
        assert(a[i].children == b[i].children);
        assert(is_live(a, a[i].children[k]));
    }
    assert forall|i: int, j: int, k: int|
        0 <= i < b.len() && 0 <= j < b.len() && 0 <= k < b[i].children.len() && #[trigger] b[j].id
            == #[trigger] b[i].children[k] implies b[j].parent_id == Some(b[i].id) by {
        assert(a[i].children == b[i].children && a[j].id == b[j].id && a[i].id == b[i].id);
        assert(a[j].id == a[i].children[k]);
    }
    assert forall|i: int, j: int|
        0 <= i < b.len() && 0 <= j < b.len() && #[trigger] b[i].parent_id == Some(#[trigger] b[j].id) implies b[j].children.contains(
        b[i].id,
    ) by {
        assert(a[i].parent_id == b[i].parent_id && a[j].id == b[j].id && a[j].children == b[j].children);
        assert(a[i].parent_id == Some(a[j].id));
    }
    assert forall|i: int| 0 <= i < b.len() implies (#[trigger] b[i].children).no_duplicates() by {
        assert(a[i].children == b[i].children);
    }
    assert forall|i: int, k: int| 0 <= i < b.len() && 0 <= k < b[i].children.len() implies #[trigger] b[i].children[k]
        > b[i].id by {
        assert(a[i].children == b[i].children && a[i].id == b[i].id);
        assert(a[i].children[k] > a[i].id);
    }
}

/// With distinct IDs, each window is the first with its ID.
pub proof fn lemma_unique_first_index(ws: Seq<WindowModel>, i: int)
    requires
        ids_distinct(ws),
        0 <= i < ws.len(),
    ensures
        first_index(ws, ws[i].id) == i,
{
    lemma_first_index(ws, ws[i].id);
    let k = first_index(ws, ws[i].id);
    if k != i {
        assert(ws[k].id == ws[i].id);
    }
}

/// Opening a window keeps the tree well formed, provided focus does not name
/// an ID that has not been handed out yet.
pub proof fn lemma_add_window_wf(ws: Seq<WindowModel>, next: u32, focused: Option<u32>)
    requires
        tree_wf(ws, next),
        next < u32::MAX,
        focused matches Some(f) ==> f < next,
    ensures
        tree_wf(with_child(ws, focused, next).push(new_window_model(next, focused)), (next + 1) as u32),
{
    lemma_add_window_forest(ws, next, focused);
    let ws1 = with_child(ws, focused, next);
    let ws2 = ws1.push(new_window_model(next, focused));
    if let Some(f) = focused {
        lemma_first_index(ws, f);
    }
    assert(ws1.len() == ws.len());
    assert forall|i: int| 0 <= i < ws2.len() && #[trigger] ws2[i].parent_id is Some implies ws2[i].parent_id->0
        < next + 1 by {
        if i < ws.len() {
            assert(ws2[i].parent_id == ws[i].parent_id);
        }
    }
}

/// Opening a window keeps the windows a forest, unless the new window's ID
/// is already named as a parent (by an existing window, or by focus, which
/// the new window takes as its parent): that happens only when focus named
/// the ID before it was handed out.
pub proof fn lemma_add_window_forest(ws: Seq<WindowModel>, next: u32, focused: Option<u32>)
    requires
        forest(ws, next),
        next < u32::MAX,
        forall|i: int| 0 <= i < ws.len() ==> #[trigger] ws[i].parent_id != Some(next),
        focused != Some(next),
    ensures
        forest(with_child(ws, focused, next).push(new_window_model(next, focused)), (next + 1) as u32),
{
    let ws1 = with_child(ws, focused, next);
    let n = new_window_model(next, focused);
    let ws2 = ws1.push(n);
    let next2 = (next + 1) as u32;
    let kk: int = match focused {
        Some(f) => first_index(ws, f),
        None => -1,
    };
    if let Some(f) = focused {
        lemma_first_index(ws, f);
    }
    assert(ws1.len() == ws.len());
    assert forall|i: int| 0 <= i < ws.len() implies #[trigger] ws1[i].id == ws[i].id
        && ws1[i].parent_id == ws[i].parent_id
        && ws1[i].children == (if i == kk { ws[i].children.push(next) } else { ws[i].children }) by {}
    assert forall|i: int| 0 <= i < ws.len() implies #[trigger] ws2[i] == ws1[i] by {}
    assert(ws2[ws.len() as int] == n);
    // Liveness carries over.
    assert forall|x: u32| is_live(ws, x) implies is_live(ws2, x) by {
        let i = choose|i: int| 0 <= i < ws.len() && ws[i].id == x;
        assert(ws2[i].id == x);
    }
    assert(is_live(ws2, next)) by {
        assert(ws2[ws.len() as int].id == next);
    }
    assert forall|i: int, j: int|
        0 <= i < ws2.len() && 0 <= j < ws2.len() && i != j implies #[trigger] ws2[i].id != #[trigger] ws2[j].id by {
        if i < ws.len() && j < ws.len() {
            assert(ws[i].id != ws[j].id);
        }
    }
    assert forall|i: int, k: int|
        0 <= i < ws2.len() && 0 <= k < ws2[i].children.len() implies is_live(ws2, #[trigger] ws2[i].children[k]) by {
        if i < ws.len() && !(i == kk && k == ws[i].children.len()) {
            assert(ws2[i].children[k] == ws[i].children[k]);
            assert(is_live(ws, ws[i].children[k]));
        }
    }
    assert forall|i: int, j: int, k: int|
        0 <= i < ws2.len() && 0 <= j < ws2.len() && 0 <= k < ws2[i].children.len() && #[trigger] ws2[j].id
            == #[trigger] ws2[i].children[k] implies ws2[j].parent_id == Some(ws2[i].id) by {
        if i < ws.len() {
            if i == kk && k == ws[i].children.len() {
                if j < ws.len() {
                    assert(ws[j].id < next);
                }
            } else {
                assert(ws2[i].children[k] == ws[i].children[k]);
                if j == ws.len() {
                    assert(is_live(ws, ws[i].children[k]));
                    let jj = choose|jj: int| 0 <= jj < ws.len() && ws[jj].id == ws[i].children[k];
                    assert(ws[jj].id < next);
                }
            }
        }
    }
    assert forall|i: int, j: int|
        0 <= i < ws2.len() && 0 <= j < ws2.len() && #[trigger] ws2[i].parent_id == Some(#[trigger] ws2[j].id)
            implies ws2[j].children.contains(ws2[i].id) by {
        if i == ws.len() {
            if j < ws.len() {
                lemma_unique_first_index(ws, j);
                assert(j == kk);
                assert(ws2[j].children[ws[j].children.len() as int] == next);
            }
        } else if j == ws.len() {
            assert(ws[i].parent_id != Some(next));
        } else {
            assert(ws[j].children.contains(ws[i].id));
            let k = choose|k: int| 0 <= k < ws[j].children.len() && ws[j].children[k] == ws[i].id;
            assert(ws2[j].children[k] == ws[i].id);
        }
    }
    assert forall|i: int| 0 <= i < ws2.len() implies (#[trigger] ws2[i].children).no_duplicates() by {
        if i == kk {
            assert forall|a: int, b: int|
                0 <= a < ws2[i].children.len() && 0 <= b < ws2[i].children.len() && a != b implies ws2[i].children[a]
                != ws2[i].children[b] by {
                let c = ws[i].children;
                if a < c.len() && b < c.len() {
                } else if a < c.len() {
                    assert(is_live(ws, c[a]));
                    let jj = choose|jj: int| 0 <= jj < ws.len() && ws[jj].id == c[a];
                    assert(ws[jj].id < next);
                } else if b < c.len() {
                    assert(is_live(ws, c[b]));
                    let jj = choose|jj: int| 0 <= jj < ws.len() && ws[jj].id == c[b];
                    assert(ws[jj].id < next);
                }
            }
        }
    }
    assert forall|i: int, k: int|
        0 <= i < ws2.len() && 0 <= k < ws2[i].children.len() implies #[trigger] ws2[i].children[k] > ws2[i].id by {
        if i < ws.len() && !(i == kk && k == ws[i].children.len()) {
            assert(ws2[i].children[k] == ws[i].children[k]);
        } else if i < ws.len() {
            assert(ws[i].id < next);
        }
    }
}


/// Source position in the old window list of position `i` after the window at
/// `pos` is removed.
pub open spec fn source_index(pos: int, i: int) -> int {
    if i < pos {
        i
    } else {
        i + 1
    }
}

/// With distinct IDs, closing the window at `pos` re-parents exactly its
/// children and rewrites exactly its parent's children list.
#[verifier::spinoff_prover]
#[verifier::rlimit(40)]
pub proof fn lemma_removal_shape(ws: Seq<WindowModel>, pos: int)
    requires
        ids_distinct(ws),
        0 <= pos < ws.len(),
    ensures
        after_removal(ws, pos).len() == ws.len() - 1,
        forall|i: int|
            0 <= i < ws.len() - 1 ==> {
                let r = #[trigger] after_removal(ws, pos)[i];
                let w = ws[source_index(pos, i)];
                let d = ws[pos];
                &&& r.id == w.id
                &&& r.base_width == w.base_width
                &&& r.base_height == w.base_height
                &&& r.is_fullscreen == w.is_fullscreen
                &&& r.pre_fullscreen_width == w.pre_fullscreen_width
                &&& r.pre_fullscreen_height == w.pre_fullscreen_height
                &&& r.parent_id == (if d.children.contains(w.id) {
                    d.parent_id
                } else {
                    w.parent_id
                })
                &&& r.children == (if d.parent_id == Some(w.id) {
                    spliced(w.children, d.id, d.children)
                } else {
                    w.children
                })
            },
{
    let d = ws[pos];
    let ws1 = reparented(ws, d.children, d.parent_id);
    let ws2 = with_spliced(ws1, d.parent_id, d.id, d.children);
    assert forall|i: int| 0 <= i < ws.len() implies #[trigger] ws1[i] == (if d.children.contains(ws[i].id) {
        WindowModel { parent_id: d.parent_id, ..ws[i] }
    } else {
        ws[i]
    }) by {
        lemma_unique_first_index(ws, i);
    }
    let kk: int = match d.parent_id {
        Some(g) => first_index(ws1, g),
        None => -1,
    };
    if let Some(g) = d.parent_id {
        lemma_first_index(ws1, g);
        lemma_first_index(ws, g);
        assert forall|i: int| 0 <= i < ws.len() implies ws1[i].id == ws[i].id by {}
    }
    assert forall|i: int| 0 <= i < ws.len() implies #[trigger] ws2[i] == (if i == kk {
        WindowModel { children: spliced(ws1[i].children, d.id, d.children), ..ws1[i] }
    } else {
        ws1[i]
    }) by {}
    assert forall|i: int| 0 <= i < ws.len() implies (d.parent_id == Some(ws[i].id)) == (i == kk) by {
        if d.parent_id == Some(ws[i].id) {
            lemma_unique_first_index(ws, i);
            assert(ws1[i].id == ws[i].id);
        }
    }
}

/// The grandparent's new children list, when the dead window was listed in it
/// exactly once.
pub proof fn lemma_spliced_listed(c: Seq<u32>, dead: u32, orphans: Seq<u32>)
    requires
        c.contains(dead),
        c.no_duplicates(),
    ensures
        0 <= first_pos(c, dead) < c.len(),
        c[first_pos(c, dead)] == dead,
        spliced(c, dead, orphans) == c.take(first_pos(c, dead)) + orphans + c.skip(first_pos(c, dead) + 1),
{
    lemma_first_pos(c, dead);
    let q = first_pos(c, dead);
    let tail = c.skip(q + 1);
    assert forall|j: int| 0 <= j < tail.len() implies tail[j] != dead by {
        assert(tail[j] == c[q + 1 + j]);
    }
    lemma_without_absent(tail, dead);
}

/// Membership in a list where position `q` is replaced by another list.
pub proof fn lemma_splice_contains(c: Seq<u32>, q: int, o: Seq<u32>, x: u32)
    requires
        0 <= q < c.len(),
        c.no_duplicates(),
    ensures
        (c.take(q) + o + c.skip(q + 1)).contains(x) == ((c.contains(x) && x != c[q]) || o.contains(x)),
{
    let r = c.take(q) + o + c.skip(q + 1);
    if r.contains(x) {
        let i = choose|i: int| 0 <= i < r.len() && r[i] == x;
        if i < q {
            assert(c[i] == x);
        } else if i >= q + o.len() {
            assert(c[i - o.len() + 1] == x);
        } else {
            assert(o[i - q] == x);
        }
    }
    if c.contains(x) && x != c[q] {
        let i = choose|i: int| 0 <= i < c.len() && c[i] == x;
        if i < q {
            assert(r[i] == x);
        } else {
            assert(r[i + o.len() - 1] == x);
        }
    }
    if o.contains(x) {
        let i = choose|i: int| 0 <= i < o.len() && o[i] == x;
        assert(r[q + i] == x);
    }
}

/// Replacing one entry of a duplicate-free list by a duplicate-free list of
/// new values keeps it duplicate-free.
pub proof fn lemma_splice_no_duplicates(c: Seq<u32>, q: int, o: Seq<u32>)
    requires
        0 <= q < c.len(),
        c.no_duplicates(),
        o.no_duplicates(),
        forall|x: u32| o.contains(x) ==> !c.contains(x),
    ensures
        (c.take(q) + o + c.skip(q + 1)).no_duplicates(),
{
    let r = c.take(q) + o + c.skip(q + 1);
    assert forall|a: int, b: int| 0 <= a < r.len() && 0 <= b < r.len() && a != b implies r[a] != r[b] by {
        let sa: int = if a < q {
            a
        } else if a >= q + o.len() {
            a - o.len() + 1
        } else {
            -1
        };
        let sb: int = if b < q {
            b
        } else if b >= q + o.len() {
            b - o.len() + 1
        } else {
            -1
        };
        if sa >= 0 && sb >= 0 {
            assert(r[a] == c[sa] && r[b] == c[sb]);
        } else if sa >= 0 {
            assert(r[a] == c[sa]);
            assert(r[b] == o[b - q]);
            assert(o.contains(r[b]));
        } else if sb >= 0 {
            assert(r[b] == c[sb]);
            assert(r[a] == o[a - q]);
            assert(o.contains(r[a]));
        } else {
            assert(r[a] == o[a - q] && r[b] == o[b - q]);
        }
    }
}

/// Closing a window keeps the tree well formed.
pub proof fn lemma_remove_window_wf(ws: Seq<WindowModel>, next: u32, pos: int)
    requires
        tree_wf(ws, next),
        0 <= pos < ws.len(),
    ensures
        tree_wf(after_removal(ws, pos), next),
{
    lemma_remove_window_forest(ws, next, pos);
    lemma_removal_shape(ws, pos);
    let r = after_removal(ws, pos);
    let o = ws[pos].children;
    assert forall|i: int| 0 <= i < r.len() && #[trigger] r[i].parent_id is Some implies r[i].parent_id->0 < next by {
        let w = ws[source_index(pos, i)];
        if o.contains(w.id) {
            assert(ws[pos].parent_id is Some);
        } else {
            assert(w.parent_id is Some);
        }
    }
}

/// The windows form a forest whose children lists are ranked by `rank`:
/// window IDs are distinct; every listed child is an existing window whose
/// parent is the lister; every window whose parent exists is listed by it;
/// no children list repeats an ID; and a child ranks above its lister.
pub open spec fn ranked_forest(ws: Seq<WindowModel>, rank: spec_fn(u32) -> nat) -> bool {
    &&& ids_distinct(ws)
    &&& forall|i: int, k: int|
        0 <= i < ws.len() && 0 <= k < ws[i].children.len() ==> is_live(ws, #[trigger] ws[i].children[k])
    &&& forall|i: int, j: int, k: int|
        0 <= i < ws.len() && 0 <= j < ws.len() && 0 <= k < ws[i].children.len() && #[trigger] ws[j].id
            == #[trigger] ws[i].children[k] ==> ws[j].parent_id == Some(ws[i].id)
    &&& forall|i: int, j: int|
        0 <= i < ws.len() && 0 <= j < ws.len() && #[trigger] ws[i].parent_id == Some(#[trigger] ws[j].id)
            ==> ws[j].children.contains(ws[i].id)
    &&& forall|i: int| 0 <= i < ws.len() ==> (#[trigger] ws[i].children).no_duplicates()
    &&& forall|i: int, k: int|
        0 <= i < ws.len() && 0 <= k < ws[i].children.len() ==> rank(#[trigger] ws[i].children[k]) > rank(ws[i].id)
}

/// The windows form an acyclic forest: IDs are distinct, parent links and
/// children lists agree wherever the parent exists, no children list repeats
/// an ID (so each window is listed at most once, by its parent), and there
/// is no cycle. For finitely many windows "no cycle" is the same as having a
/// rank that grows from lister to child (a window's depth is one), so the
/// definition asks for such a rank.
pub open spec fn acyclic_forest(ws: Seq<WindowModel>) -> bool {
    exists|rank: spec_fn(u32) -> nat| ranked_forest(ws, rank)
}

/// Ranking windows by their IDs.
pub open spec fn id_rank() -> spec_fn(u32) -> nat {
    |x: u32| x as nat
}

/// A forest in the sense of `forest` is ranked by IDs, so it is acyclic.
pub proof fn lemma_forest_ranked(ws: Seq<WindowModel>, next: u32)
    requires
        forest(ws, next),
    ensures
        ranked_forest(ws, id_rank()),
        acyclic_forest(ws),
{
    assert forall|i: int, k: int| 0 <= i < ws.len() && 0 <= k < ws[i].children.len() implies id_rank()(
        #[trigger] ws[i].children[k],
    ) > id_rank()(ws[i].id) by {
        assert(ws[i].children[k] > ws[i].id);
    }
}

/// In a ranked forest an existing parent ranks below its child, so parent
/// links between existing windows never come back round.
pub proof fn lemma_ranked_parent_below(ws: Seq<WindowModel>, rank: spec_fn(u32) -> nat, i: int, j: int)
    requires
        ranked_forest(ws, rank),
        0 <= i < ws.len(),
        0 <= j < ws.len(),
        ws[i].parent_id == Some(ws[j].id),
    ensures
        rank(ws[j].id) < rank(ws[i].id),
{
    assert(ws[j].children.contains(ws[i].id));
    let k = choose|k: int| 0 <= k < ws[j].children.len() && ws[j].children[k] == ws[i].id;
    assert(rank(ws[j].children[k]) > rank(ws[j].id));
}

/// Closing a window keeps the windows a forest.
pub proof fn lemma_remove_window_forest(ws: Seq<WindowModel>, next: u32, pos: int)
    requires
        forest(ws, next),
        0 <= pos < ws.len(),
    ensures
        forest(after_removal(ws, pos), next),
{
    lemma_forest_ranked(ws, next);
    lemma_remove_window_ranked(ws, id_rank(), pos);
    lemma_removal_shape(ws, pos);
    let r = after_removal(ws, pos);
    assert forall|i: int| 0 <= i < r.len() implies #[trigger] r[i].id < next by {
        assert(ws[source_index(pos, i)].id < next);
    }
    assert forall|i: int, k: int| 0 <= i < r.len() && 0 <= k < r[i].children.len() implies #[trigger] r[i].children[k]
        > r[i].id by {
        assert(id_rank()(r[i].children[k]) > id_rank()(r[i].id));
    }
}

/// Closing a window of an acyclic forest leaves an acyclic forest; and when
/// focus was off or on an existing window, it still is once the close's
/// focus change is applied.
pub proof fn lemma_close_keeps_acyclic_forest(ws: Seq<WindowModel>, pos: int, focused: Option<u32>)
    requires
        acyclic_forest(ws),
        0 <= pos < ws.len(),
    ensures
        acyclic_forest(after_removal(ws, pos)),
        focus_live(ws, focused) ==> focus_live(
            after_removal(ws, pos),
            focus_applied(focused, focus_after_removal(focused, ws[pos].id, ws[pos].parent_id, after_removal(ws, pos))),
        ),
{
    let rank = choose|rank: spec_fn(u32) -> nat| ranked_forest(ws, rank);
    lemma_remove_window_ranked(ws, rank, pos);
    lemma_removal_shape(ws, pos);
    let r = after_removal(ws, pos);
    if r.len() > 0 {
        assert(r[r.len() - 1].id == r.last().id);
    }
    if let Some(f) = focused {
        if f != ws[pos].id && is_live(ws, f) {
            let t = choose|t: int| 0 <= t < ws.len() && ws[t].id == f;
            assert(t != pos);
            let i = if t < pos { t } else { t - 1 };
            assert(source_index(pos, i) == t);
            assert(r[i].id == f);
        }
    }
}

/// Closing a window keeps the windows a forest ranked by `rank`.
pub proof fn lemma_remove_window_ranked(ws: Seq<WindowModel>, rank: spec_fn(u32) -> nat, pos: int)
    requires
        ranked_forest(ws, rank),
        0 <= pos < ws.len(),
    ensures
        ranked_forest(after_removal(ws, pos), rank),
{
    lemma_removal_shape(ws, pos);
    let r = after_removal(ws, pos);
    let d = ws[pos];
    let o = d.children;
    let g: int = match d.parent_id {
        Some(p) => first_index(ws, p),
        None => -1,
    };
    if let Some(p) = d.parent_id {
        lemma_first_index(ws, p);
    }
    assert forall|t: int| 0 <= t < ws.len() implies (d.parent_id == Some(ws[t].id)) == (t == g) by {
        if d.parent_id == Some(ws[t].id) {
            lemma_unique_first_index(ws, t);
        }
    }
    if g >= 0 {
        assert(ws[pos].parent_id == Some(ws[g].id));
        assert(ws[g].children.contains(d.id));
        if g == pos {
            let k = choose|k: int| 0 <= k < ws[g].children.len() && ws[g].children[k] == d.id;
            assert(rank(ws[g].children[k]) > rank(ws[g].id));
        }
        lemma_spliced_listed(ws[g].children, d.id, o);
    }
    // Only the grandparent lists the closed window.
    assert forall|t: int, k: int|
        0 <= t < ws.len() && 0 <= k < ws[t].children.len() && ws[t].children[k] == d.id implies t == g by {
        assert(ws[pos].id == ws[t].children[k]);
        assert(ws[pos].parent_id == Some(ws[t].id));
    }
    // Orphans are existing windows whose parent was the closed window.
    assert forall|k: int, t: int| 0 <= k < o.len() && 0 <= t < ws.len() && ws[t].id == o[k] implies ws[t].parent_id
        == Some(d.id) && t != pos && rank(o[k]) > rank(d.id) by {
        assert(ws[t].id == ws[pos].children[k]);
        assert(rank(ws[pos].children[k]) > rank(ws[pos].id));
    }
    // Windows other than the closed one stay alive.
    assert forall|x: u32| is_live(ws, x) && x != d.id implies is_live(r, x) by {
        let t = choose|t: int| 0 <= t < ws.len() && ws[t].id == x;
        let i = if t < pos {
            t
        } else {
            t - 1
        };
        assert(source_index(pos, i) == t);
        assert(r[i].id == x);
    }
    // The grandparent's list and the orphans are disjoint.
    if g >= 0 {
        assert forall|x: u32| o.contains(x) implies !ws[g].children.contains(x) by {
            let k = choose|k: int| 0 <= k < o.len() && o[k] == x;
            assert(is_live(ws, ws[pos].children[k]));
            let t = choose|t: int| 0 <= t < ws.len() && ws[t].id == x;
            if ws[g].children.contains(x) {
                let k2 = choose|k2: int| 0 <= k2 < ws[g].children.len() && ws[g].children[k2] == x;
                assert(ws[t].id == ws[g].children[k2]);
                assert(ws[t].parent_id == Some(ws[g].id));
                assert(ws[t].parent_id == Some(d.id));
                assert(ws[g].id != ws[pos].id);
            }
        }
    }
    let n = r.len();
    // Distinct IDs.
    assert forall|i: int, j: int| 0 <= i < n && 0 <= j < n && i != j implies #[trigger] r[i].id != #[trigger] r[j].id by {
        assert(ws[source_index(pos, i)].id != ws[source_index(pos, j)].id);
    }
    // Listed children exist.
    assert forall|i: int, k: int| 0 <= i < n && 0 <= k < r[i].children.len() implies is_live(
        r,
        #[trigger] r[i].children[k],
    ) by {
        let t = source_index(pos, i);
        let w = ws[t];
        let x = r[i].children[k];
        if t == g {
            let c = w.children;
            let q = first_pos(c, d.id);
            lemma_splice_contains(c, q, o, x);
            assert((c.take(q) + o + c.skip(q + 1)).contains(x)) by {
                assert((c.take(q) + o + c.skip(q + 1))[k] == x);
            }
            if o.contains(x) {
                let k2 = choose|k2: int| 0 <= k2 < o.len() && o[k2] == x;
                assert(is_live(ws, ws[pos].children[k2]));
                let t2 = choose|t2: int| 0 <= t2 < ws.len() && ws[t2].id == x;
            } else {
                let k2 = choose|k2: int| 0 <= k2 < c.len() && c[k2] == x;
                assert(is_live(ws, ws[t].children[k2]));
            }
        } else {
            assert(x == ws[t].children[k]);
            assert(is_live(ws, ws[t].children[k]));
            if x == d.id {
                assert(t == g);
            }
        }
    }
    // Listed children point back.
    assert forall|i: int, j: int, k: int|
        0 <= i < n && 0 <= j < n && 0 <= k < r[i].children.len() && #[trigger] r[j].id
            == #[trigger] r[i].children[k] implies r[j].parent_id == Some(r[i].id) by {
        let ti = source_index(pos, i);
        let tj = source_index(pos, j);
        let wi = ws[ti];
        let wj = ws[tj];
        let x = r[i].children[k];
        if ti == g {
            let c = wi.children;
            let q = first_pos(c, d.id);
            lemma_splice_contains(c, q, o, x);
            assert((c.take(q) + o + c.skip(q + 1)).contains(x)) by {
                assert((c.take(q) + o + c.skip(q + 1))[k] == x);
            }
            if !o.contains(x) {
                let k2 = choose|k2: int| 0 <= k2 < c.len() && c[k2] == x;
                assert(ws[tj].id == ws[ti].children[k2]);
            }
        } else {
            assert(x == ws[ti].children[k]);
            assert(ws[tj].id == ws[ti].children[k]);
            assert(wj.parent_id == Some(wi.id));
            if o.contains(wj.id) {
                let k2 = choose|k2: int| 0 <= k2 < o.len() && o[k2] == wj.id;
                assert(ws[tj].parent_id == Some(d.id));
            }
        }
    }
    // Windows with an existing parent are listed by it.
    assert forall|i: int, j: int|
        0 <= i < n && 0 <= j < n && #[trigger] r[i].parent_id == Some(#[trigger] r[j].id) implies r[j].children.contains(
        r[i].id,
    ) by {
        let ti = source_index(pos, i);
        let tj = source_index(pos, j);
        let wi = ws[ti];
        let wj = ws[tj];
        if o.contains(wi.id) {
            assert(tj == g);
            let c = wj.children;
            let q = first_pos(c, d.id);
            lemma_splice_contains(c, q, o, wi.id);
        } else {
            assert(wi.parent_id == Some(wj.id));
            assert(ws[ti].parent_id == Some(ws[tj].id));
            assert(wj.children.contains(wi.id));
            if tj == g {
                let c = wj.children;
                let q = first_pos(c, d.id);
                lemma_splice_contains(c, q, o, wi.id);
                assert(wi.id != d.id);
            }
        }
    }
    // No list repeats an ID.
    assert forall|i: int| 0 <= i < n implies (#[trigger] r[i].children).no_duplicates() by {
        let t = source_index(pos, i);
        if t == g {
            let c = ws[t].children;
            let q = first_pos(c, d.id);
            assert(ws[pos].children.no_duplicates());
            lemma_splice_no_duplicates(c, q, o);
        } else {
            assert(ws[t].children.no_duplicates());
        }
    }
    // Children rank above their parent.
    assert forall|i: int, k: int| 0 <= i < n && 0 <= k < r[i].children.len() implies rank(#[trigger] r[i].children[k])
        > rank(r[i].id) by {
        let t = source_index(pos, i);
        let x = r[i].children[k];
        if t == g {
            let c = ws[t].children;
            let q = first_pos(c, d.id);
            lemma_splice_contains(c, q, o, x);
            assert((c.take(q) + o + c.skip(q + 1)).contains(x)) by {
                assert((c.take(q) + o + c.skip(q + 1))[k] == x);
            }
            assert(c[q] == d.id);
            assert(rank(ws[t].children[q]) > rank(ws[t].id));
            if o.contains(x) {
                let k2 = choose|k2: int| 0 <= k2 < o.len() && o[k2] == x;
                assert(rank(ws[pos].children[k2]) > rank(ws[pos].id));
            } else {
                let k2 = choose|k2: int| 0 <= k2 < c.len() && c[k2] == x;
                assert(rank(ws[t].children[k2]) > rank(ws[t].id));
            }
        } else {
            assert(x == ws[t].children[k]);
        }
    }
}

/// What closing the window at `pos` does to a forest: it is gone,
/// every other window stays, its children now have its parent, and in its
/// parent's children list its children take its place.
pub proof fn lemma_remove_window_effects(ws: Seq<WindowModel>, next: u32, pos: int)
    requires
        forest(ws, next),
        0 <= pos < ws.len(),
    ensures
        !is_live(after_removal(ws, pos), ws[pos].id),
        forall|x: u32| #[trigger]
            is_live(after_removal(ws, pos), x) <==> (is_live(ws, x) && x != ws[pos].id),
        forall|k: int|
            0 <= k < ws[pos].children.len() ==> ((#[trigger] lookup(after_removal(ws, pos), ws[pos].children[k])) matches Some(
                w,
            ) && w.parent_id == ws[pos].parent_id),
        (ws[pos].parent_id is Some && is_live(ws, ws[pos].parent_id->0)) ==> {
            let g = ws[pos].parent_id->0;
            let c = children_of(ws, g);
            let q = first_pos(c, ws[pos].id);
            &&& 0 <= q < c.len()
            &&& children_of(after_removal(ws, pos), g) == c.take(q) + ws[pos].children + c.skip(q + 1)
        },
{
    lemma_removal_shape(ws, pos);
    lemma_remove_window_forest(ws, next, pos);
    let r = after_removal(ws, pos);
    let d = ws[pos];
    assert forall|x: u32| #[trigger] is_live(r, x) <==> (is_live(ws, x) && x != d.id) by {
        if is_live(r, x) {
            let i = choose|i: int| 0 <= i < r.len() && r[i].id == x;
            let t = source_index(pos, i);
            assert(ws[t].id == x);
            assert(ws[t].id != ws[pos].id);
        }
        if is_live(ws, x) && x != d.id {
            let t = choose|t: int| 0 <= t < ws.len() && ws[t].id == x;
            let i = if t < pos {
                t
            } else {
                t - 1
            };
            assert(source_index(pos, i) == t);
            assert(r[i].id == x);
        }
    }
    assert forall|k: int| 0 <= k < d.children.len() implies ((#[trigger] lookup(r, d.children[k])) matches Some(w)
        && w.parent_id == d.parent_id) by {
        let x = d.children[k];
        assert(is_live(ws, ws[pos].children[k]));
        assert(ws[pos].children[k] > ws[pos].id);
        assert(is_live(r, x));
        let i = choose|i: int| 0 <= i < r.len() && r[i].id == x;
        lemma_unique_first_index(r, i);
        assert(d.children.contains(x)) by {
            assert(d.children[k] == x);
        }
    }
    if let Some(g) = d.parent_id {
        if is_live(ws, g) {
            let t = choose|t: int| 0 <= t < ws.len() && ws[t].id == g;
            lemma_unique_first_index(ws, t);
            assert(ws[pos].parent_id == Some(ws[t].id));
            assert(ws[t].children.contains(d.id));
            lemma_spliced_listed(ws[t].children, d.id, d.children);
            if t == pos {
                let k = choose|k: int| 0 <= k < ws[t].children.len() && ws[t].children[k] == d.id;
                assert(ws[t].children[k] > ws[t].id);
            }
            let i = if t < pos {
                t
            } else {
                t - 1
            };
            assert(source_index(pos, i) == t);
            lemma_unique_first_index(r, i);
        }
    }
}

/// Closing a window of a forest leaves a forest, and when focus was off or
/// on an existing window, it is still so once the close's focus change is
/// applied: a focus move only ever goes to a window that still exists.
pub proof fn lemma_focus_after_removal_live(ws: Seq<WindowModel>, next: u32, pos: int, focused: Option<u32>)
    requires
        forest(ws, next),
        0 <= pos < ws.len(),
    ensures
        forest(after_removal(ws, pos), next),
        focus_after_removal(focused, ws[pos].id, ws[pos].parent_id, after_removal(ws, pos)) matches FocusChange::Focus(f)
            ==> is_live(after_removal(ws, pos), f),
        focus_live(ws, focused) ==> focus_live(
            after_removal(ws, pos),
            focus_applied(focused, focus_after_removal(focused, ws[pos].id, ws[pos].parent_id, after_removal(ws, pos))),
        ),
{
    lemma_remove_window_forest(ws, next, pos);
    lemma_removal_shape(ws, pos);
    let r = after_removal(ws, pos);
    if r.len() > 0 {
        assert(r[r.len() - 1].id == r.last().id);
    }
    if let Some(f) = focused {
        if f != ws[pos].id && is_live(ws, f) {
            let t = choose|t: int| 0 <= t < ws.len() && ws[t].id == f;
            assert(t != pos);
            let i = if t < pos { t } else { t - 1 };
            assert(source_index(pos, i) == t);
            assert(r[i].id == f);
        }
    }
}

/// Closing the window that was just opened gives back the window list as it
/// was before; and when that window got focus, focus returns to the window
/// that held it before (when there was one).
pub proof fn lemma_close_undoes_open(ws: Seq<WindowModel>, next: u32, focused: Option<u32>)
    requires
        forest(ws, next),
    ensures
        after_removal(with_child(ws, focused, next).push(new_window_model(next, focused)), ws.len() as int)
            == ws,
        focused is Some && is_live(ws, focused->0) ==> focus_after_removal(Some(next), next, focused, ws)
            == FocusChange::Focus(focused->0),
{
    let ws1 = with_child(ws, focused, next);
    let n = new_window_model(next, focused);
    let ws2 = ws1.push(n);
    let pos = ws.len() as int;
    let kk: int = match focused {
        Some(f) => first_index(ws, f),
        None => -1,
    };
    if let Some(f) = focused {
        lemma_first_index(ws, f);
        lemma_first_index(ws2, f);
    }
    assert(ws1.len() == ws.len());
    assert(ws2[pos] == n);
    let r = reparented(ws2, n.children, n.parent_id);
    assert(r =~= ws2);
    assert forall|i: int| 0 <= i < ws.len() implies #[trigger] ws2[i].id == ws[i].id by {}
    let sp = with_spliced(ws2, focused, next, n.children);
    if kk >= 0 {
        let f = focused->0;
        // The focused window keeps its place in front of the new one.
        assert(first_index(ws2, f) == kk) by {
            assert(ws2[kk].id == f);
            assert forall|j: int| 0 <= j < kk implies ws2[j].id != f by {
                assert(ws2[j].id == ws[j].id);
            }
            crate::state::lemma_first_index_at(ws2, f, kk);
        }
        let c = ws[kk].children;
        // Every listed child was handed out already, so the new ID is not among them.
        assert forall|j: int| 0 <= j < c.len() implies c[j] != next by {
            assert(is_live(ws, c[j]));
            let i = choose|i: int| 0 <= i < ws.len() && ws[i].id == c[j];
            assert(ws[i].id < next);
        }
        let cp = c.push(next);
        lemma_first_pos(cp, next);
        assert(first_pos(cp, next) == c.len()) by {
            if first_pos(cp, next) < c.len() {
                assert(cp[first_pos(cp, next)] == c[first_pos(cp, next)]);
            }
        }
        assert(cp.skip(c.len() as int + 1) =~= Seq::<u32>::empty());
        assert(without(Seq::<u32>::empty(), next) =~= Seq::<u32>::empty());
        assert(spliced(cp, next, Seq::empty()) =~= c) by {
            assert(cp.take(c.len() as int) =~= c);
        }
        assert(ws2[kk].children == cp);
        assert(sp.remove(pos) =~= ws);
    } else {
        assert(ws1 == ws);
        match focused {
            Some(f) => {
                if f == next {
                    assert(first_index(ws2, f) == pos) by {
                        assert forall|j: int| 0 <= j < pos implies ws2[j].id != f by {
                            assert(ws2[j].id == ws[j].id);
                        }
                        crate::state::lemma_first_index_at(ws2, f, pos);
                    }
                    lemma_first_pos(Seq::<u32>::empty(), next);
                    assert(spliced(Seq::<u32>::empty(), next, Seq::empty()) =~= Seq::<u32>::empty());
                    assert(sp.remove(pos) =~= ws);
                } else {
                    assert(first_index(ws2, f) < 0) by {
                        assert forall|j: int| 0 <= j < ws2.len() implies ws2[j].id != f by {
                            if j < pos {
                                assert(ws2[j].id == ws[j].id);
                            }
                        }
                    }
                    assert(sp.remove(pos) =~= ws);
                }
            },
            None => {
                assert(sp.remove(pos) =~= ws);
            },
        }
    }
}

} // verus!
