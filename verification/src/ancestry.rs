//! Ancestry in the window tree: following parent links upwards.
use vstd::prelude::*;
use crate::state::{children_of, first_index, is_live, lemma_first_index, lookup, root_ids, WindowModel};
use crate::tree_wf::{lemma_unique_first_index, forest};

verus! {

/// The parent link of the window with this ID (`None` for a root or an
/// unknown ID).
pub open spec fn parent_of(ws: Seq<WindowModel>, x: u32) -> Option<u32> {
    match lookup(ws, x) {
        Some(w) => w.parent_id,
        None => None,
    }
}

/// `x` is `r` or lies below it: following parent links from `x`, each to a
/// smaller ID, reaches `r`.
pub open spec fn descends(ws: Seq<WindowModel>, x: u32, r: u32) -> bool
    decreases x,
{
    if x == r {
        true
    } else {
        match parent_of(ws, x) {
            Some(p) => if p < x {
                descends(ws, p, r)
            } else {
                false
            },
            None => false,
        }
    }
}

/// The window on the way up from `x` whose parent is `p` (`x` itself when
/// the way up never meets `p`).
pub open spec fn branch(ws: Seq<WindowModel>, x: u32, p: u32) -> u32
    decreases x,
{
    match parent_of(ws, x) {
        Some(q) => if q == p {
            x
        } else if q < x {
            branch(ws, q, p)
        } else {
            x
        },
        None => x,
    }
}

/// IDs only get smaller on the way up.
pub proof fn lemma_descends_le(ws: Seq<WindowModel>, x: u32, r: u32)
    requires
        descends(ws, x, r),
    ensures
        r <= x,
    decreases x,
{
    if x != r {
        let p = parent_of(ws, x)->0;
        lemma_descends_le(ws, p, r);
    }
}

/// In a forest a listed child links back to its lister, which has
/// the smaller ID.
pub proof fn lemma_child_link(ws: Seq<WindowModel>, next: u32, p: u32, i: int)
    requires
        forest(ws, next),
        0 <= i < children_of(ws, p).len(),
    ensures
        parent_of(ws, children_of(ws, p)[i]) == Some(p),
        p < children_of(ws, p)[i],
{
    lemma_first_index(ws, p);
    let k = first_index(ws, p);
    let c = ws[k].children[i];
    assert(is_live(ws, c));
    let j = choose|j: int| 0 <= j < ws.len() && ws[j].id == c;
    lemma_unique_first_index(ws, j);
    assert(ws[j].parent_id == Some(ws[k].id));
}

/// What lies below a child lies below its parent.
pub proof fn lemma_descends_through(ws: Seq<WindowModel>, x: u32, c: u32, p: u32)
    requires
        descends(ws, x, c),
        parent_of(ws, c) == Some(p),
        p < c,
    ensures
        descends(ws, x, p),
    decreases x,
{
    if x == c {
        assert(descends(ws, p, p));
    } else if x != p {
        let q = parent_of(ws, x)->0;
        lemma_descends_through(ws, q, c, p);
    }
}

/// Below a child `c` of `p`, the way up meets `p` right after `c`.
pub proof fn lemma_branch(ws: Seq<WindowModel>, x: u32, c: u32, p: u32)
    requires
        descends(ws, x, c),
        parent_of(ws, c) == Some(p),
        p < c,
    ensures
        branch(ws, x, p) == c,
    decreases x,
{
    if x != c {
        let q = parent_of(ws, x)->0;
        if q == p {
            lemma_descends_le(ws, q, c);
        } else {
            lemma_branch(ws, q, c, p);
        }
    }
}

/// A window that some lookup finds exists.
pub proof fn lemma_lookup_live(ws: Seq<WindowModel>, x: u32)
    requires
        lookup(ws, x) is Some,
    ensures
        is_live(ws, x),
{
    lemma_first_index(ws, x);
    assert(ws[first_index(ws, x)].id == x);
}

/// Below `p` but not `p` itself, the way up passes through a child of `p`:
/// `branch` is that child, and it exists unless it is `x` itself.
pub proof fn lemma_branch_below(ws: Seq<WindowModel>, x: u32, p: u32)
    requires
        descends(ws, x, p),
        x != p,
    ensures
        parent_of(ws, branch(ws, x, p)) == Some(p),
        descends(ws, x, branch(ws, x, p)),
        branch(ws, x, p) == x || is_live(ws, branch(ws, x, p)),
    decreases x,
{
    let q = parent_of(ws, x)->0;
    if q != p {
        lemma_branch_below(ws, q, p);
        let b = branch(ws, q, p);
        assert(branch(ws, x, p) == b);
        if x != b {
            assert(descends(ws, x, b));
        }
        if b == q {
            lemma_lookup_live(ws, q);
        }
    }
}

/// In a forest an existing window is listed by its parent when the
/// parent exists.
pub proof fn lemma_listed_by_parent(ws: Seq<WindowModel>, next: u32, c: u32, p: u32)
    requires
        forest(ws, next),
        is_live(ws, c),
        is_live(ws, p),
        parent_of(ws, c) == Some(p),
    ensures
        children_of(ws, p).contains(c),
{
    lemma_first_index(ws, c);
    lemma_first_index(ws, p);
    let jc = first_index(ws, c);
    let kp = first_index(ws, p);
    assert(ws[jc].parent_id == Some(ws[kp].id));
}

/// The window at the top of the way up from `x`.
pub open spec fn top(ws: Seq<WindowModel>, x: u32) -> u32
    decreases x,
{
    match parent_of(ws, x) {
        Some(q) => if q < x {
            top(ws, q)
        } else {
            x
        },
        None => x,
    }
}

/// The window on the way up from `x` just below `p`; with no `p`, the top.
pub open spec fn head(ws: Seq<WindowModel>, x: u32, p: Option<u32>) -> u32 {
    match p {
        Some(q) => branch(ws, x, q),
        None => top(ws, x),
    }
}

/// Below a window without a parent, the way up ends at that window.
pub proof fn lemma_top(ws: Seq<WindowModel>, x: u32, c: u32)
    requires
        descends(ws, x, c),
        parent_of(ws, c) is None,
    ensures
        top(ws, x) == c,
    decreases x,
{
    if x != c {
        let q = parent_of(ws, x)->0;
        lemma_top(ws, q, c);
    }
}

/// Below a window `c` whose parent link is `p` (to a smaller ID), the way up
/// meets `c` just below `p`.
pub proof fn lemma_head(ws: Seq<WindowModel>, x: u32, c: u32, p: Option<u32>)
    requires
        descends(ws, x, c),
        parent_of(ws, c) == p,
        p matches Some(q) ==> q < c,
    ensures
        head(ws, x, p) == c,
{
    match p {
        Some(q) => lemma_branch(ws, x, c, q),
        None => lemma_top(ws, x, c),
    }
}

/// No two windows share an ID.
pub open spec fn ids_distinct(ws: Seq<WindowModel>) -> bool {
    forall|i: int, j: int| 0 <= i < ws.len() && 0 <= j < ws.len() && i != j ==> #[trigger] ws[i].id != #[trigger] ws[j].id
}

/// Every listed root is the ID of a window without a parent.
pub proof fn lemma_root_ids_from(ws: Seq<WindowModel>)
    ensures
        forall|i: int|
            0 <= i < root_ids(ws).len() ==> exists|j: int|
                0 <= j < ws.len() && ws[j].id == #[trigger] root_ids(ws)[i] && ws[j].parent_id is None,
    decreases ws.len(),
{
    if ws.len() > 0 {
        let d = ws.drop_last();
        lemma_root_ids_from(d);
        assert forall|i: int| 0 <= i < root_ids(ws).len() implies exists|j: int|
            0 <= j < ws.len() && ws[j].id == #[trigger] root_ids(ws)[i] && ws[j].parent_id is None by {
            if i < root_ids(d).len() {
                assert(root_ids(ws)[i] == root_ids(d)[i]);
                let j = choose|j: int| 0 <= j < d.len() && d[j].id == root_ids(d)[i] && d[j].parent_id is None;
                assert(ws[j] == d[j]);
            } else {
                assert(ws[ws.len() - 1] == ws.last());
            }
        }
    }
}

/// With distinct IDs the roots are listed once each.
pub proof fn lemma_root_ids_no_duplicates(ws: Seq<WindowModel>)
    requires
        ids_distinct(ws),
    ensures
        root_ids(ws).no_duplicates(),
    decreases ws.len(),
{
    if ws.len() > 0 {
        let d = ws.drop_last();
        assert(ids_distinct(d)) by {
            assert forall|i: int, j: int| 0 <= i < d.len() && 0 <= j < d.len() && i != j implies #[trigger] d[i].id
                != #[trigger] d[j].id by {
                assert(d[i] == ws[i] && d[j] == ws[j]);
            }
        }
        lemma_root_ids_no_duplicates(d);
        lemma_root_ids_from(d);
        if ws.last().parent_id is None {
            let r = root_ids(d);
            assert forall|i: int| 0 <= i < r.len() implies r[i] != ws.last().id by {
                let j = choose|j: int| 0 <= j < d.len() && d[j].id == #[trigger] r[i] && d[j].parent_id is None;
                assert(d[j] == ws[j]);
                assert(ws[ws.len() - 1] == ws.last());
            }
            assert forall|i: int, j: int| 0 <= i < r.push(ws.last().id).len() && 0 <= j < r.push(ws.last().id).len()
                && i != j implies r.push(ws.last().id)[i] != r.push(ws.last().id)[j] by {
                if i < r.len() && j < r.len() {
                } else if i < r.len() {
                    assert(r[i] != ws.last().id);
                } else if j < r.len() {
                    assert(r[j] != ws.last().id);
                }
            }
        }
    }
}

/// Every window without a parent is listed among the roots.
pub proof fn lemma_root_ids_complete(ws: Seq<WindowModel>, j: int)
    requires
        0 <= j < ws.len(),
        ws[j].parent_id is None,
    ensures
        root_ids(ws).contains(ws[j].id),
    decreases ws.len(),
{
    let d = ws.drop_last();
    if j == ws.len() - 1 {
        assert(ws.last() == ws[j]);
        let r = root_ids(d).push(ws.last().id);
        assert(r[r.len() - 1] == ws[j].id);
    } else {
        assert(d[j] == ws[j]);
        lemma_root_ids_complete(d, j);
        let i = choose|i: int| 0 <= i < root_ids(d).len() && root_ids(d)[i] == ws[j].id;
        if ws.last().parent_id is None {
            assert(root_ids(d).push(ws.last().id)[i] == ws[j].id);
        }
    }
}

} // verus!
