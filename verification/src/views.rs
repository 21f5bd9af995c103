//! Read-only views of the window tree: the printed outline, the drawing order
//! and the parent-child connector lines.
use vstd::prelude::*;
use crate::state::{
    first_index, is_live, lemma_first_index, lemma_models_index, lookup, root_ids, Treewm, ViewMode, WindowModel,
};
use crate::tree_wf::{lemma_unique_first_index, forest};
use crate::ancestry::{
    branch, descends, head, ids_distinct, lemma_branch_below, lemma_child_link, lemma_descends_le,
    lemma_descends_through, lemma_head, lemma_listed_by_parent, lemma_root_ids_complete, lemma_root_ids_from,
    lemma_root_ids_no_duplicates, parent_of, top,
};

verus! {

/// One line of the window-tree outline.
#[derive(Clone, Copy, PartialEq, Eq, Structural, Debug)]
pub struct OutlineEntry {
    /// Nesting depth; roots are at depth 0.
    pub depth: u64,
    pub id: u32,
    /// `None` for a root.
    pub parent_id: Option<u32>,
    pub focused: bool,
}

/// The outline of the subtree of `id` at `depth`: the window itself, then its
/// children's outlines in order. Unknown windows print nothing. `None` when
/// the tree is deeper than `fuel`.
pub open spec fn outline_node(ws: Seq<WindowModel>, focused: Option<u32>, id: u32, depth: nat, fuel: nat) -> Option<Seq<OutlineEntry>>
    decreases fuel, 0nat, 0nat,
{
    if fuel == 0 {
        None
    } else {
        match lookup(ws, id) {
            None => Some(Seq::empty()),
            Some(w) => match outline_list(ws, focused, w.children, depth + 1, (fuel - 1) as nat) {
                Some(rest) => Some(
                    seq![OutlineEntry { depth: depth as u64, id, parent_id: w.parent_id, focused: focused == Some(id) }]
                        + rest,
                ),
                None => None,
            },
        }
    }
}

/// The outlines of the subtrees of `ids`, one after the other.
pub open spec fn outline_list(ws: Seq<WindowModel>, focused: Option<u32>, ids: Seq<u32>, depth: nat, fuel: nat) -> Option<Seq<OutlineEntry>>
    decreases fuel, 1nat, ids.len(),
{
    if ids.len() == 0 {
        Some(Seq::empty())
    } else {
        match (outline_list(ws, focused, ids.drop_last(), depth, fuel), outline_node(ws, focused, ids.last(), depth, fuel)) {
            (Some(a), Some(b)) => Some(a + b),
            _ => None,
        }
    }
}

impl Treewm {
    /// Append the outline of the subtree of `id` at `depth` to `out`.
    /// Returns false when the tree is deeper than `fuel`.
    pub fn print_subtree(&self, id: u32, depth: u64, fuel: u64, out: &mut Vec<OutlineEntry>) -> (ok: bool)
        requires
            depth + fuel <= u64::MAX,
        ensures
            match outline_node(self.model(), self.focused_window_id, id, depth as nat, fuel as nat) {
                Some(r) => ok && final(out)@ == old(out)@ + r,
                None => !ok,
            },
        decreases fuel, 0nat, 0nat,
    {
        if fuel == 0 {
            return false;
        }
        proof {
            lemma_models_index(self.windows@);
            lemma_first_index(self.model(), id);
        }
        let k = match self.find_index(id) {
            Some(k) => k,
            None => {
                assert(out@ =~= old(out)@ + Seq::<OutlineEntry>::empty());
                return true;
            },
        };
        let focused = match self.focused_window_id {
            Some(f) => f == id,
            None => false,
        };
        out.push(OutlineEntry { depth, id, parent_id: self.windows[k].parent_id, focused });
        proof {
            lemma_models_index(self.windows@);
        }
        let ghost head = out@;
        let children = &self.windows[k].children;
        let ghost cs = children@;
        let mut i: usize = 0;
        proof {
            assert(cs.take(0) =~= Seq::<u32>::empty());
            assert(out@ =~= head + Seq::<OutlineEntry>::empty());
        }
        while i < children.len()
            invariant
                0 <= i <= children.len(),
                cs == children@,
                k < self.windows.len(),
                lookup(self.model(), id) == Some(self.model()[k as int]),
                cs == self.model()[k as int].children,
                head == old(out)@.push(
                    OutlineEntry { depth, id, parent_id: self.model()[k as int].parent_id, focused: self.focused_window_id == Some(id) },
                ),
                depth + fuel <= u64::MAX,
                fuel > 0,
                out@.len() >= head.len(),
                outline_list(self.model(), self.focused_window_id, cs.take(i as int), depth as nat + 1, (fuel - 1) as nat) matches Some(r)
                    && out@ == head + r,
            decreases children.len() - i,
        {
            let ghost prev = out@;
            let ok = self.print_subtree(children[i], depth + 1, fuel - 1, out);
            proof {
                let t = cs.take(i as int + 1);
                assert(t.drop_last() =~= cs.take(i as int));
                assert(t.last() == cs[i as int]);
            }
            if !ok {
                proof {
                    lemma_outline_prefix_none(self.model(), self.focused_window_id, cs, i as int + 1, depth as nat + 1, (fuel - 1) as nat);
                }
                return false;
            }
            proof {
                let r0 = outline_list(self.model(), self.focused_window_id, cs.take(i as int), depth as nat + 1, (fuel - 1) as nat)->0;
                let r1 = outline_node(self.model(), self.focused_window_id, cs[i as int], depth as nat + 1, (fuel - 1) as nat)->0;
                assert(out@ =~= head + (r0 + r1));
            }
            i += 1;
        }
        proof {
            assert(cs.take(i as int) =~= cs);
        }
        true
    }

    /// The outline of the whole window tree: each root's subtree in window
    /// order. `None` when the tree is deeper than there are window IDs.
    pub fn print_tree(&self) -> (res: Option<Vec<OutlineEntry>>)
        ensures
            match outline_list(self.model(), self.focused_window_id, root_ids(self.model()), 0, self.next_window_id as nat + 1) {
                Some(r) => res matches Some(v) && v@ == r,
                None => res is None,
            },
    {
        let roots = self.root_ids();
        let ghost rs = roots@;
        let fuel = self.next_window_id as u64 + 1;
        let mut out: Vec<OutlineEntry> = Vec::new();
        let mut i: usize = 0;
        proof {
            assert(rs.take(0) =~= Seq::<u32>::empty());
        }
        while i < roots.len()
            invariant
                0 <= i <= roots.len(),
                rs == roots@,
                rs == root_ids(self.model()),
                fuel == self.next_window_id as u64 + 1,
                outline_list(self.model(), self.focused_window_id, rs.take(i as int), 0, fuel as nat) matches Some(r) && out@ == r,
            decreases roots.len() - i,
        {
            let ok = self.print_subtree(roots[i], 0, fuel, &mut out);
            proof {
                let t = rs.take(i as int + 1);
                assert(t.drop_last() =~= rs.take(i as int));
                assert(t.last() == rs[i as int]);
            }
            if !ok {
                proof {
                    lemma_outline_prefix_none(self.model(), self.focused_window_id, rs, i as int + 1, 0, fuel as nat);
                    assert(outline_list(self.model(), self.focused_window_id, rs, 0, fuel as nat) is None);
                    assert(rs == root_ids(self.model()));
                    assert(fuel as nat == self.next_window_id as nat + 1);
                }
                return None;
            }
            i += 1;
        }
        proof {
            assert(rs.take(i as int) =~= rs);
        }
        Some(out)
    }
}

/// Depth the outline of window `id` needs in a forest.
pub open spec fn outline_budget(id: u32, next: u32) -> nat {
    if id < next {
        (next - id + 1) as nat
    } else {
        1
    }
}

/// In a forest the outline of a subtree never runs out of depth.
pub proof fn lemma_outline_node_some(ws: Seq<WindowModel>, next: u32, focused: Option<u32>, id: u32, depth: nat, fuel: nat)
    requires
        forest(ws, next),
        fuel >= outline_budget(id, next),
    ensures
        outline_node(ws, focused, id, depth, fuel) is Some,
    decreases fuel, 0nat, 0nat,
{
    lemma_first_index(ws, id);
    if let Some(w) = lookup(ws, id) {
        let k = first_index(ws, id);
        assert(ws[k].id < next);
        assert forall|i: int| 0 <= i < w.children.len() implies (fuel - 1) as nat >= outline_budget(
            #[trigger] w.children[i],
            next,
        ) by {
            assert(crate::state::is_live(ws, ws[k].children[i]));
            let j = choose|j: int| 0 <= j < ws.len() && ws[j].id == w.children[i];
            assert(ws[j].id < next);
            assert(ws[k].children[i] > ws[k].id);
        }
        lemma_outline_list_some(ws, next, focused, w.children, depth + 1, (fuel - 1) as nat);
    }
}

/// In a forest the outlines of a run of windows never run out of
/// depth when each window's budget is met.
pub proof fn lemma_outline_list_some(ws: Seq<WindowModel>, next: u32, focused: Option<u32>, ids: Seq<u32>, depth: nat, fuel: nat)
    requires
        forest(ws, next),
        forall|i: int| 0 <= i < ids.len() ==> fuel >= outline_budget(#[trigger] ids[i], next),
    ensures
        outline_list(ws, focused, ids, depth, fuel) is Some,
    decreases fuel, 1nat, ids.len(),
{
    if ids.len() > 0 {
        assert forall|i: int| 0 <= i < ids.drop_last().len() implies fuel >= outline_budget(#[trigger] ids.drop_last()[i], next) by {
            assert(ids.drop_last()[i] == ids[i]);
        }
        lemma_outline_list_some(ws, next, focused, ids.drop_last(), depth, fuel);
        assert(ids.last() == ids[ids.len() - 1]);
        lemma_outline_node_some(ws, next, focused, ids.last(), depth, fuel);
    }
}

/// In a forest the outline of the whole tree is always printed.
pub proof fn lemma_print_tree_some(ws: Seq<WindowModel>, next: u32, focused: Option<u32>)
    requires
        forest(ws, next),
    ensures
        outline_list(ws, focused, root_ids(ws), 0, next as nat + 1) is Some,
{
    lemma_outline_list_some(ws, next, focused, root_ids(ws), 0, next as nat + 1);
}


/// No window is listed twice.
pub open spec fn outline_distinct(r: Seq<OutlineEntry>) -> bool {
    forall|i: int, j: int| 0 <= i < r.len() && 0 <= j < r.len() && i != j ==> #[trigger] r[i].id != #[trigger] r[j].id
}

/// The window `x` is listed.
pub open spec fn in_outline(r: Seq<OutlineEntry>, x: u32) -> bool {
    exists|i: int| 0 <= i < r.len() && #[trigger] r[i].id == x
}

/// In a forest the outline of a subtree lists only windows below
/// its top, each once.
pub proof fn lemma_outline_node_unique(ws: Seq<WindowModel>, next: u32, focused: Option<u32>, id: u32, depth: nat, fuel: nat)
    requires
        forest(ws, next),
    ensures
        outline_node(ws, focused, id, depth, fuel) matches Some(r) ==> {
            &&& forall|i: int| 0 <= i < r.len() ==> descends(ws, #[trigger] r[i].id, id)
            &&& outline_distinct(r)
        },
    decreases fuel, 0nat, 0nat,
{
    if fuel > 0 {
        lemma_first_index(ws, id);
        if let Some(w) = lookup(ws, id) {
            let children = w.children;
            assert(children == crate::state::children_of(ws, id));
            assert forall|i: int| 0 <= i < children.len() implies parent_of(ws, #[trigger] children[i]) == Some(id)
                && id < children[i] by {
                lemma_child_link(ws, next, id, i);
            }
            assert(children.no_duplicates()) by {
                let k = first_index(ws, id);
                assert(ws[k].children == children);
            }
            lemma_outline_list_unique(ws, next, focused, children, Some(id), depth + 1, (fuel - 1) as nat);
            if let Some(rest) = outline_list(ws, focused, children, depth + 1, (fuel - 1) as nat) {
                let e = OutlineEntry { depth: depth as u64, id, parent_id: w.parent_id, focused: focused == Some(id) };
                let r = seq![e] + rest;
                assert forall|i: int| 0 <= i < r.len() implies descends(ws, #[trigger] r[i].id, id) by {
                    if i > 0 {
                        let x = rest[i - 1].id;
                        assert(r[i] == rest[i - 1]);
                        let b = head(ws, x, Some(id));
                        let m = choose|m: int| 0 <= m < children.len() && children[m] == b;
                        assert(parent_of(ws, children[m]) == Some(id) && id < children[m]);
                        lemma_descends_through(ws, x, b, id);
                    }
                }
                assert forall|i: int, j: int| 0 <= i < r.len() && 0 <= j < r.len() && i != j implies #[trigger] r[i].id
                    != #[trigger] r[j].id by {
                    if i > 0 && j > 0 {
                        assert(r[i] == rest[i - 1] && r[j] == rest[j - 1]);
                    } else {
                        let t = if i == 0 { j } else { i };
                        let x = rest[t - 1].id;
                        assert(r[t] == rest[t - 1]);
                        let b = head(ws, x, Some(id));
                        let m = choose|m: int| 0 <= m < children.len() && children[m] == b;
                        assert(parent_of(ws, children[m]) == Some(id) && id < children[m]);
                        if x == id {
                            lemma_descends_le(ws, x, b);
                        }
                    }
                }
            }
        }
    }
}

/// In a forest the outlines of distinct windows sharing the parent
/// link `p` list only windows below one of them (reached through it), each
/// once.
pub proof fn lemma_outline_list_unique(
    ws: Seq<WindowModel>,
    next: u32,
    focused: Option<u32>,
    ids: Seq<u32>,
    p: Option<u32>,
    depth: nat,
    fuel: nat,
)
    requires
        forest(ws, next),
        ids.no_duplicates(),
        forall|i: int| 0 <= i < ids.len() ==> parent_of(ws, #[trigger] ids[i]) == p && (p is Some ==> p->0 < ids[i]),
    ensures
        outline_list(ws, focused, ids, depth, fuel) matches Some(r) ==> {
            &&& forall|i: int|
                0 <= i < r.len() ==> ids.contains(head(ws, #[trigger] r[i].id, p)) && descends(
                    ws,
                    r[i].id,
                    head(ws, r[i].id, p),
                )
            &&& outline_distinct(r)
        },
    decreases fuel, 1nat, ids.len(),
{
    if ids.len() > 0 {
        let d = ids.drop_last();
        let last = ids.last();
        assert(last == ids[ids.len() - 1]);
        assert forall|i: int| 0 <= i < d.len() implies parent_of(ws, #[trigger] d[i]) == p && (p is Some ==> p->0
            < d[i]) by {
            assert(d[i] == ids[i]);
        }
        assert(d.no_duplicates()) by {
            assert forall|i: int, j: int| 0 <= i < d.len() && 0 <= j < d.len() && i != j implies d[i] != d[j] by {
                assert(d[i] == ids[i] && d[j] == ids[j]);
            }
        }
        assert(!d.contains(last)) by {
            if d.contains(last) {
                let i = choose|i: int| 0 <= i < d.len() && d[i] == last;
                assert(ids[i] == ids[ids.len() - 1]);
            }
        }
        lemma_outline_list_unique(ws, next, focused, d, p, depth, fuel);
        lemma_outline_node_unique(ws, next, focused, last, depth, fuel);
        if let (Some(a), Some(b)) = (outline_list(ws, focused, d, depth, fuel), outline_node(ws, focused, last, depth, fuel)) {
            let r = a + b;
            assert(parent_of(ws, ids[ids.len() - 1]) == p);
            assert forall|i: int| 0 <= i < b.len() implies head(ws, #[trigger] b[i].id, p) == last by {
                lemma_head(ws, b[i].id, last, p);
            }
            assert forall|i: int| 0 <= i < r.len() implies ids.contains(head(ws, #[trigger] r[i].id, p)) && descends(
                ws,
                r[i].id,
                head(ws, r[i].id, p),
            ) by {
                if i < a.len() {
                    assert(r[i] == a[i]);
                    let m = choose|m: int| 0 <= m < d.len() && d[m] == head(ws, a[i].id, p);
                    assert(ids[m] == d[m]);
                } else {
                    assert(r[i] == b[i - a.len()]);
                    assert(head(ws, b[i - a.len()].id, p) == last);
                }
            }
            assert forall|i: int, j: int| 0 <= i < r.len() && 0 <= j < r.len() && i != j implies #[trigger] r[i].id
                != #[trigger] r[j].id by {
                if i < a.len() && j < a.len() {
                    assert(r[i] == a[i] && r[j] == a[j]);
                } else if i >= a.len() && j >= a.len() {
                    assert(r[i] == b[i - a.len()] && r[j] == b[j - a.len()]);
                } else {
                    let (ia, jb) = if i < a.len() { (i, j - a.len()) } else { (j, i - a.len()) };
                    assert(r[if i < a.len() { i } else { j }] == a[ia]);
                    assert(r[if i < a.len() { j } else { i }] == b[jb]);
                    assert(head(ws, b[jb].id, p) == last);
                }
            }
        }
    }
}

/// In a forest the outline of an existing window lists every
/// existing window below it.
pub proof fn lemma_outline_node_complete(
    ws: Seq<WindowModel>,
    next: u32,
    focused: Option<u32>,
    id: u32,
    depth: nat,
    fuel: nat,
    x: u32,
)
    requires
        forest(ws, next),
        crate::state::is_live(ws, x),
        crate::state::is_live(ws, id),
        descends(ws, x, id),
    ensures
        outline_node(ws, focused, id, depth, fuel) matches Some(r) ==> in_outline(r, x),
    decreases fuel, 0nat, 0nat,
{
    if fuel > 0 {
        lemma_first_index(ws, id);
        let w = lookup(ws, id)->0;
        if let Some(rest) = outline_list(ws, focused, w.children, depth + 1, (fuel - 1) as nat) {
            let e = OutlineEntry { depth: depth as u64, id, parent_id: w.parent_id, focused: focused == Some(id) };
            let r = seq![e] + rest;
            if x == id {
                assert(r[0].id == x);
            } else {
                lemma_branch_below(ws, x, id);
                let b = branch(ws, x, id);
                lemma_listed_by_parent(ws, next, b, id);
                assert(w.children == crate::state::children_of(ws, id));
                let m = choose|m: int| 0 <= m < w.children.len() && w.children[m] == b;
                lemma_outline_list_complete(ws, next, focused, w.children, depth + 1, (fuel - 1) as nat, m, x);
                let i = choose|i: int| 0 <= i < rest.len() && #[trigger] rest[i].id == x;
                assert(r[i + 1] == rest[i]);
            }
        }
    }
}

/// In a forest the outlines of a run of windows list every existing
/// window below an existing one of them.
pub proof fn lemma_outline_list_complete(
    ws: Seq<WindowModel>,
    next: u32,
    focused: Option<u32>,
    ids: Seq<u32>,
    depth: nat,
    fuel: nat,
    m: int,
    x: u32,
)
    requires
        forest(ws, next),
        0 <= m < ids.len(),
        crate::state::is_live(ws, x),
        crate::state::is_live(ws, ids[m]),
        descends(ws, x, ids[m]),
    ensures
        outline_list(ws, focused, ids, depth, fuel) matches Some(r) ==> in_outline(r, x),
    decreases fuel, 1nat, ids.len(),
{
    let d = ids.drop_last();
    if let (Some(a), Some(b)) = (outline_list(ws, focused, d, depth, fuel), outline_node(ws, focused, ids.last(), depth, fuel)) {
        let r = a + b;
        if m == ids.len() - 1 {
            assert(ids.last() == ids[m]);
            lemma_outline_node_complete(ws, next, focused, ids.last(), depth, fuel, x);
            let i = choose|i: int| 0 <= i < b.len() && #[trigger] b[i].id == x;
            assert(r[a.len() + i] == b[i]);
        } else {
            assert(d[m] == ids[m]);
            lemma_outline_list_complete(ws, next, focused, d, depth, fuel, m, x);
            let i = choose|i: int| 0 <= i < a.len() && #[trigger] a[i].id == x;
            assert(r[i] == a[i]);
        }
    }
}

/// In a forest the printed outline lists each window at most once,
/// each under its root, and every existing window below an existing root.
pub proof fn lemma_print_tree_lists_each_window_once(ws: Seq<WindowModel>, next: u32, focused: Option<u32>)
    requires
        forest(ws, next),
    ensures
        outline_list(ws, focused, root_ids(ws), 0, next as nat + 1) matches Some(r) && {
            &&& outline_distinct(r)
            &&& forall|i: int|
                0 <= i < r.len() ==> root_ids(ws).contains(top(ws, #[trigger] r[i].id)) && descends(
                    ws,
                    r[i].id,
                    top(ws, r[i].id),
                )
            &&& forall|x: u32, root: u32|
                crate::state::is_live(ws, x) && crate::state::is_live(ws, root) && parent_of(ws, root) is None
                    && #[trigger] descends(ws, x, root) ==> in_outline(r, x)
        },
{
    let roots = root_ids(ws);
    lemma_print_tree_some(ws, next, focused);
    assert(ids_distinct(ws));
    lemma_root_ids_no_duplicates(ws);
    lemma_root_ids_from(ws);
    assert forall|i: int| 0 <= i < roots.len() implies parent_of(ws, #[trigger] roots[i]) is None by {
        let j = choose|j: int| 0 <= j < ws.len() && ws[j].id == roots[i] && ws[j].parent_id is None;
        lemma_unique_first_index(ws, j);
    }
    lemma_outline_list_unique(ws, next, focused, roots, None, 0, next as nat + 1);
    let r = outline_list(ws, focused, roots, 0, next as nat + 1)->0;
    assert forall|x: u32, root: u32|
        crate::state::is_live(ws, x) && crate::state::is_live(ws, root) && parent_of(ws, root) is None
            && #[trigger] descends(ws, x, root) implies in_outline(r, x) by {
        lemma_first_index(ws, root);
        let j = first_index(ws, root);
        lemma_root_ids_complete(ws, j);
        let m = choose|m: int| 0 <= m < roots.len() && roots[m] == root;
        lemma_outline_list_complete(ws, next, focused, roots, 0, next as nat + 1, m, x);
    }
}

/// When the outline of a prefix fails, so does the outline of the whole run.
pub proof fn lemma_outline_prefix_none(ws: Seq<WindowModel>, focused: Option<u32>, ids: Seq<u32>, j: int, depth: nat, fuel: nat)
    requires
        0 <= j <= ids.len(),
        outline_list(ws, focused, ids.take(j), depth, fuel) is None,
    ensures
        outline_list(ws, focused, ids, depth, fuel) is None,
    decreases ids.len(),
{
    if j == ids.len() {
        assert(ids.take(j) =~= ids);
    } else {
        assert(ids.drop_last().take(j) =~= ids.take(j));
        lemma_outline_prefix_none(ws, focused, ids.drop_last(), j, depth, fuel);
    }
}

/// Whether a window is drawn: in tiling mode only the windows that got a slot.
pub open spec fn drawn(w: WindowModel, mode: ViewMode, visible: Seq<u32>) -> bool {
    mode != ViewMode::Tiling || visible.contains(w.id)
}

/// Indices among the first `n` windows that are drawn and are (or, with
/// `focused_pass` false, are not) the focused window, in window order.
pub open spec fn draw_pass(
    ws: Seq<WindowModel>,
    n: int,
    focused_pass: bool,
    focused: Option<u32>,
    mode: ViewMode,
    visible: Seq<u32>,
) -> Seq<int>
    decreases n,
{
    if n <= 0 {
        Seq::empty()
    } else {
        let rest = draw_pass(ws, n - 1, focused_pass, focused, mode, visible);
        let w = ws[n - 1];
        if (focused == Some(w.id)) == focused_pass && drawn(w, mode, visible) {
            rest.push(n - 1)
        } else {
            rest
        }
    }
}

/// The order windows are drawn in: the focused window first, then the others
/// in window order, leaving out windows without a slot in tiling mode.
pub open spec fn draw_order(ws: Seq<WindowModel>, focused: Option<u32>, mode: ViewMode, visible: Seq<u32>) -> Seq<int> {
    draw_pass(ws, ws.len() as int, true, focused, mode, visible) + draw_pass(ws, ws.len() as int, false, focused, mode, visible)
}

/// Parent-child connector lines among the first `n` windows: (child index,
/// parent index) for each window that is not fullscreen and whose parent
/// exists, in window order.
pub open spec fn connectors_upto(ws: Seq<WindowModel>, n: int) -> Seq<(int, int)>
    decreases n,
{
    if n <= 0 {
        Seq::empty()
    } else {
        let rest = connectors_upto(ws, n - 1);
        let w = ws[n - 1];
        if !w.is_fullscreen && w.parent_id is Some && first_index(ws, w.parent_id->0) >= 0 {
            rest.push((n - 1, first_index(ws, w.parent_id->0)))
        } else {
            rest
        }
    }
}

/// Whether a list of IDs holds `id`.
pub fn contains_id(v: &Vec<u32>, id: u32) -> (res: bool)
    ensures
        res == v@.contains(id),
{
    let mut i: usize = 0;
    while i < v.len()
        invariant
            0 <= i <= v.len(),
            forall|j: int| 0 <= j < i ==> v@[j] != id,
        decreases v.len() - i,
    {
        if v[i] == id {
            assert(v@[i as int] == id);
            return true;
        }
        i += 1;
    }
    false
}

impl Treewm {
    /// One pass of the drawing order: the focused window, or all the others.
    fn draw_pass(&self, focused_pass: bool, visible: &Vec<u32>, out: &mut Vec<usize>)
        ensures
            final(out)@.map_values(|i: usize| i as int) == old(out)@.map_values(|i: usize| i as int) + draw_pass(
                self.model(),
                self.windows.len() as int,
                focused_pass,
                self.focused_window_id,
                self.view_mode,
                visible@,
            ),
    {
        proof {
            lemma_models_index(self.windows@);
        }
        let ghost base = old(out)@.map_values(|i: usize| i as int);
        let mut i: usize = 0;
        assert(out@.map_values(|i: usize| i as int) =~= base + Seq::<int>::empty());
        while i < self.windows.len()
            invariant
                0 <= i <= self.windows.len(),
                self.model().len() == self.windows.len(),
                base == old(out)@.map_values(|i: usize| i as int),
                out@.map_values(|i: usize| i as int) == base + draw_pass(
                    self.model(),
                    i as int,
                    focused_pass,
                    self.focused_window_id,
                    self.view_mode,
                    visible@,
                ),
            decreases self.windows.len() - i,
        {
            let id = self.windows[i].id;
            let is_focused = match self.focused_window_id {
                Some(f) => f == id,
                None => false,
            };
            let shown = match self.view_mode {
                ViewMode::Tiling => contains_id(visible, id),
                ViewMode::TreeView => true,
            };
            proof {
                lemma_models_index(self.windows@);
            }
            let ghost before = out@;
            if is_focused == focused_pass && shown {
                out.push(i);
                proof {
                    assert(out@.map_values(|i: usize| i as int) =~= before.map_values(|i: usize| i as int).push(i as int));
                }
            }
            i += 1;
            proof {
                let prev = draw_pass(self.model(), i - 1, focused_pass, self.focused_window_id, self.view_mode, visible@);
                if is_focused == focused_pass && shown {
                    assert(out@.map_values(|i: usize| i as int) =~= base + prev.push(i - 1));
                }
            }
        }
    }

    /// Window indices in drawing order: the focused window first, then the
    /// others in window order; in tiling mode only windows listed in
    /// `tiling_visible_ids` are drawn.
    pub fn render_order(&self, tiling_visible_ids: &Vec<u32>) -> (res: Vec<usize>)
        ensures
            res@.map_values(|i: usize| i as int) == draw_order(
                self.model(),
                self.focused_window_id,
                self.view_mode,
                tiling_visible_ids@,
            ),
    {
        let mut out: Vec<usize> = Vec::new();
        proof {
            lemma_models_index(self.windows@);
        }
        self.draw_pass(true, tiling_visible_ids, &mut out);
        self.draw_pass(false, tiling_visible_ids, &mut out);
        proof {
            assert(Seq::<usize>::empty().map_values(|i: usize| i as int) =~= Seq::<int>::empty());
            assert(Seq::<int>::empty() + draw_pass(self.model(), self.windows.len() as int, true, self.focused_window_id, self.view_mode, tiling_visible_ids@)
                =~= draw_pass(self.model(), self.windows.len() as int, true, self.focused_window_id, self.view_mode, tiling_visible_ids@));
        }
        out
    }

    /// Connector lines of the tree view: (child index, parent index) for each
    /// window that is not fullscreen and whose parent exists, in window order.
    pub fn connector_pairs(&self) -> (res: Vec<(usize, usize)>)
        ensures
            res@.map_values(|p: (usize, usize)| (p.0 as int, p.1 as int)) == connectors_upto(
                self.model(),
                self.windows.len() as int,
            ),
    {
        proof {
            lemma_models_index(self.windows@);
        }
        let mut out: Vec<(usize, usize)> = Vec::new();
        let mut i: usize = 0;
        assert(out@.map_values(|p: (usize, usize)| (p.0 as int, p.1 as int)) =~= Seq::<(int, int)>::empty());
        while i < self.windows.len()
            invariant
                0 <= i <= self.windows.len(),
                self.model().len() == self.windows.len(),
                out@.map_values(|p: (usize, usize)| (p.0 as int, p.1 as int)) == connectors_upto(self.model(), i as int),
            decreases self.windows.len() - i,
        {
            proof {
                lemma_models_index(self.windows@);
            }
            let ghost before = out@;
            if !self.windows[i].is_fullscreen {
                if let Some(pid) = self.windows[i].parent_id {
                    proof {
                        lemma_first_index(self.model(), pid);
                    }
                    if let Some(p) = self.find_index(pid) {
                        out.push((i, p));
                        proof {
                            assert(out@.map_values(|p: (usize, usize)| (p.0 as int, p.1 as int)) =~= before.map_values(
                                |p: (usize, usize)| (p.0 as int, p.1 as int),
                            ).push((i as int, p as int)));
                        }
                    }
                }
            }
            i += 1;
        }
        out
    }
}

/// Every connector of a forest joins a window to a parent that
/// lists it among its children.
pub proof fn lemma_connectors_follow_tree(ws: Seq<WindowModel>, next: u32, n: int)
    requires
        forest(ws, next),
        0 <= n <= ws.len(),
    ensures
        forall|k: int| 0 <= k < connectors_upto(ws, n).len() ==> {
            let (c, p) = #[trigger] connectors_upto(ws, n)[k];
            &&& 0 <= c < n
            &&& 0 <= p < ws.len()
            &&& ws[c].parent_id == Some(ws[p].id)
            &&& ws[p].children.contains(ws[c].id)
        },
    decreases n,
{
    if n > 0 {
        lemma_connectors_follow_tree(ws, next, n - 1);
        let w = ws[n - 1];
        if let Some(pid) = w.parent_id {
            lemma_first_index(ws, pid);
        }
        let r = connectors_upto(ws, n);
        let rest = connectors_upto(ws, n - 1);
        assert forall|k: int| 0 <= k < r.len() implies {
            let (c, p) = #[trigger] r[k];
            &&& 0 <= c < n
            &&& 0 <= p < ws.len()
            &&& ws[c].parent_id == Some(ws[p].id)
            &&& ws[p].children.contains(ws[c].id)
        } by {
            if k < rest.len() {
                assert(r[k] == rest[k]);
            } else {
                let p = first_index(ws, w.parent_id->0);
                assert(ws[n - 1].parent_id == Some(ws[p].id));
            }
        }
    }
}
/// Every window among the first `n` that is not fullscreen and whose parent
/// exists has a connector to that parent, whether or not the parent is
/// fullscreen; and no fullscreen window has one.
pub proof fn lemma_connectors_complete(ws: Seq<WindowModel>, n: int)
    requires
        0 <= n <= ws.len(),
    ensures
        forall|c: int|
            0 <= c < n && !ws[c].is_fullscreen && ws[c].parent_id is Some && is_live(ws, ws[c].parent_id->0)
                ==> exists|p: int|
                0 <= p < ws.len() && ws[p].id == ws[c].parent_id->0 && #[trigger] connectors_upto(ws, n).contains(
                    (c, p),
                ),
        forall|k: int| 0 <= k < connectors_upto(ws, n).len() ==> !ws[(#[trigger] connectors_upto(ws, n)[k]).0].is_fullscreen,
    decreases n,
{
    if n > 0 {
        lemma_connectors_complete(ws, n - 1);
        let r = connectors_upto(ws, n);
        let rest = connectors_upto(ws, n - 1);
        let w = ws[n - 1];
        if let Some(pid) = w.parent_id {
            lemma_first_index(ws, pid);
        }
        assert forall|c: int|
            0 <= c < n && !ws[c].is_fullscreen && ws[c].parent_id is Some && is_live(ws, ws[c].parent_id->0)
                implies exists|p: int|
                0 <= p < ws.len() && ws[p].id == ws[c].parent_id->0 && #[trigger] r.contains((c, p)) by {
            if c == n - 1 {
                let p = first_index(ws, w.parent_id->0);
                assert(r == rest.push((c, p)));
                assert(r[rest.len() as int] == (c, p));
                assert(r.contains((c, p)));
            } else {
                let p = choose|p: int| 0 <= p < ws.len() && ws[p].id == ws[c].parent_id->0 && #[trigger] rest.contains((c, p));
                let k = choose|k: int| 0 <= k < rest.len() && rest[k] == (c, p);
                if !w.is_fullscreen && w.parent_id is Some && first_index(ws, w.parent_id->0) >= 0 {
                    assert(r[k] == rest[k]);
                } else {
                    assert(r == rest);
                }
                assert(r.contains((c, p)));
            }
        }
        assert forall|k: int| 0 <= k < r.len() implies !ws[(#[trigger] r[k]).0].is_fullscreen by {
            if k < rest.len() {
                if !w.is_fullscreen && w.parent_id is Some && first_index(ws, w.parent_id->0) >= 0 {
                    assert(r[k] == rest[k]);
                }
            }
        }
    }
}

/// Each entry of an outline is either at the outline's own level, with the
/// given parent link, or one level below an earlier entry for its parent.
pub open spec fn depths_follow_parents(r: Seq<OutlineEntry>, p: Option<u32>, depth: nat) -> bool {
    forall|i: int|
        0 <= i < r.len() ==> (#[trigger] r[i].depth == depth && r[i].parent_id == p) || (r[i].parent_id is Some
            && exists|j: int| 0 <= j < i && r[j].id == r[i].parent_id->0 && r[j].depth + 1 == #[trigger] r[i].depth)
}

/// In a forest the outline of a window starts with the window itself at the
/// given depth, and every later entry is one level below an earlier entry
/// for its parent.
pub proof fn lemma_outline_node_depths(ws: Seq<WindowModel>, next: u32, focused: Option<u32>, id: u32, depth: nat, fuel: nat)
    requires
        forest(ws, next),
        depth + fuel <= u64::MAX,
    ensures
        outline_node(ws, focused, id, depth, fuel) matches Some(r) ==> {
            &&& r.len() > 0 ==> r[0].id == id && r[0].depth == depth
            &&& depths_follow_parents(r, parent_of(ws, id), depth)
        },
    decreases fuel, 0nat, 0nat,
{
    if fuel > 0 {
        lemma_first_index(ws, id);
        if let Some(w) = lookup(ws, id) {
            let children = w.children;
            assert(children == crate::state::children_of(ws, id));
            assert forall|i: int| 0 <= i < children.len() implies parent_of(ws, #[trigger] children[i]) == Some(id) by {
                lemma_child_link(ws, next, id, i);
            }
            lemma_outline_list_depths(ws, next, focused, children, Some(id), depth + 1, (fuel - 1) as nat);
            if let Some(rest) = outline_list(ws, focused, children, depth + 1, (fuel - 1) as nat) {
                let e = OutlineEntry { depth: depth as u64, id, parent_id: w.parent_id, focused: focused == Some(id) };
                let r = seq![e] + rest;
                assert forall|i: int| 0 <= i < r.len() implies (#[trigger] r[i].depth == depth && r[i].parent_id
                    == parent_of(ws, id)) || (r[i].parent_id is Some && exists|j: int|
                    0 <= j < i && r[j].id == r[i].parent_id->0 && r[j].depth + 1 == #[trigger] r[i].depth) by {
                    if i > 0 {
                        assert(r[i] == rest[i - 1]);
                        if rest[i - 1].depth == depth + 1 && rest[i - 1].parent_id == Some(id) {
                            assert(r[0].id == id && r[0].depth + 1 == r[i].depth);
                        } else {
                            let j = choose|j: int|
                                0 <= j < i - 1 && rest[j].id == rest[i - 1].parent_id->0 && rest[j].depth + 1
                                    == #[trigger] rest[i - 1].depth;
                            assert(r[j + 1] == rest[j]);
                        }
                    }
                }
            }
        }
    }
}

/// In a forest the outlines of windows whose parent link is `p` list each
/// window at the given depth with parent `p`, or one level below an earlier
/// entry for its parent.
pub proof fn lemma_outline_list_depths(
    ws: Seq<WindowModel>,
    next: u32,
    focused: Option<u32>,
    ids: Seq<u32>,
    p: Option<u32>,
    depth: nat,
    fuel: nat,
)
    requires
        forest(ws, next),
        depth + fuel <= u64::MAX,
        forall|i: int| 0 <= i < ids.len() ==> parent_of(ws, #[trigger] ids[i]) == p,
    ensures
        outline_list(ws, focused, ids, depth, fuel) matches Some(r) ==> depths_follow_parents(r, p, depth),
    decreases fuel, 1nat, ids.len(),
{
    if ids.len() > 0 {
        let d = ids.drop_last();
        assert forall|i: int| 0 <= i < d.len() implies parent_of(ws, #[trigger] d[i]) == p by {
            assert(d[i] == ids[i]);
        }
        assert(parent_of(ws, ids[ids.len() - 1]) == p);
        lemma_outline_list_depths(ws, next, focused, d, p, depth, fuel);
        lemma_outline_node_depths(ws, next, focused, ids.last(), depth, fuel);
        if let (Some(a), Some(b)) = (outline_list(ws, focused, d, depth, fuel), outline_node(ws, focused, ids.last(), depth, fuel)) {
            let r = a + b;
            assert forall|i: int| 0 <= i < r.len() implies (#[trigger] r[i].depth == depth && r[i].parent_id == p)
                || (r[i].parent_id is Some && exists|j: int|
                0 <= j < i && r[j].id == r[i].parent_id->0 && r[j].depth + 1 == #[trigger] r[i].depth) by {
                if i < a.len() {
                    assert(r[i] == a[i]);
                    if !(a[i].depth == depth && a[i].parent_id == p) {
                        let j = choose|j: int|
                            0 <= j < i && a[j].id == a[i].parent_id->0 && a[j].depth + 1 == #[trigger] a[i].depth;
                        assert(r[j] == a[j]);
                    }
                } else {
                    let t = i - a.len();
                    assert(r[i] == b[t]);
                    if !(b[t].depth == depth && b[t].parent_id == p) {
                        let j = choose|j: int|
                            0 <= j < t && b[j].id == b[t].parent_id->0 && b[j].depth + 1 == #[trigger] b[t].depth;
                        assert(r[a.len() + j] == b[j]);
                    }
                }
            }
            assert(depths_follow_parents(r, p, depth));
            assert(outline_list(ws, focused, ids, depth, fuel) == Some(r));
        }
    }
}

/// In a forest every entry of the printed outline is either a root at depth
/// 0 or one level deeper than an earlier entry for its parent, so an entry's
/// depth is the number of windows above it.
pub proof fn lemma_print_tree_depths(ws: Seq<WindowModel>, next: u32, focused: Option<u32>)
    requires
        forest(ws, next),
    ensures
        outline_list(ws, focused, root_ids(ws), 0, next as nat + 1) is Some,
        depths_follow_parents(outline_list(ws, focused, root_ids(ws), 0, next as nat + 1)->0, None, 0),
{
    let roots = root_ids(ws);
    lemma_print_tree_some(ws, next, focused);
    lemma_root_ids_from(ws);
    assert forall|i: int| 0 <= i < roots.len() implies parent_of(ws, #[trigger] roots[i]) == None::<u32> by {
        let j = choose|j: int| 0 <= j < ws.len() && ws[j].id == roots[i] && ws[j].parent_id is None;
        lemma_unique_first_index(ws, j);
    }
    lemma_outline_list_depths(ws, next, focused, roots, None, 0, next as nat + 1);
    let r = outline_list(ws, focused, roots, 0, next as nat + 1)->0;
    assert(depths_follow_parents(r, None, 0));
}

/// One drawing pass lists, in increasing order, exactly the drawn windows
/// among the first `n` that are (or are not) the focused one.
pub proof fn lemma_draw_pass(
    ws: Seq<WindowModel>,
    n: int,
    focused_pass: bool,
    focused: Option<u32>,
    mode: ViewMode,
    visible: Seq<u32>,
)
    requires
        0 <= n <= ws.len(),
    ensures
        forall|i: int|
            #[trigger] draw_pass(ws, n, focused_pass, focused, mode, visible).contains(i) <==> (0 <= i < n && (focused
                == Some(ws[i].id)) == focused_pass && drawn(ws[i], mode, visible)),
        forall|a: int, b: int|
            0 <= a < b < draw_pass(ws, n, focused_pass, focused, mode, visible).len() ==> #[trigger] draw_pass(
                ws,
                n,
                focused_pass,
                focused,
                mode,
                visible,
            )[a] < #[trigger] draw_pass(ws, n, focused_pass, focused, mode, visible)[b],
    decreases n,
{
    if n > 0 {
        lemma_draw_pass(ws, n - 1, focused_pass, focused, mode, visible);
        let rest = draw_pass(ws, n - 1, focused_pass, focused, mode, visible);
        let r = draw_pass(ws, n, focused_pass, focused, mode, visible);
        assert forall|i: int| #[trigger] r.contains(i) <==> (0 <= i < n && (focused == Some(ws[i].id)) == focused_pass
            && drawn(ws[i], mode, visible)) by {
            if r.contains(i) {
                let k = choose|k: int| 0 <= k < r.len() && r[k] == i;
                if k < rest.len() {
                    assert(r[k] == rest[k]);
                    assert(rest.contains(i));
                }
            }
            if 0 <= i < n - 1 && (focused == Some(ws[i].id)) == focused_pass && drawn(ws[i], mode, visible) {
                assert(rest.contains(i));
                let k = choose|k: int| 0 <= k < rest.len() && rest[k] == i;
                assert(r[k] == rest[k]);
            }
            if i == n - 1 && (focused == Some(ws[i].id)) == focused_pass && drawn(ws[i], mode, visible) {
                assert(r[rest.len() as int] == i);
            }
        }
        assert forall|a: int, b: int| 0 <= a < b < r.len() implies #[trigger] r[a] < #[trigger] r[b] by {
            if b < rest.len() {
                assert(r[a] == rest[a] && r[b] == rest[b]);
            } else {
                assert(r[a] == rest[a]);
                assert(rest.contains(rest[a]));
            }
        }
    }
}

/// The drawing order draws every drawn window exactly once (in tiling mode
/// the windows with a slot, in tree view all), the focused window before all
/// others, and the others in window order.
pub proof fn lemma_draw_order(ws: Seq<WindowModel>, focused: Option<u32>, mode: ViewMode, visible: Seq<u32>)
    ensures
        forall|i: int| #[trigger] draw_order(ws, focused, mode, visible).contains(i) <==> (0 <= i < ws.len() && drawn(ws[i], mode, visible)),
        forall|a: int, b: int|
            0 <= a < b < draw_order(ws, focused, mode, visible).len() ==> {
                let x = #[trigger] draw_order(ws, focused, mode, visible)[a];
                let y = #[trigger] draw_order(ws, focused, mode, visible)[b];
                &&& x != y
                &&& focused == Some(ws[x].id) || (focused != Some(ws[y].id) && x < y)
            },
{
    let n = ws.len() as int;
    lemma_draw_pass(ws, n, true, focused, mode, visible);
    lemma_draw_pass(ws, n, false, focused, mode, visible);
    let f = draw_pass(ws, n, true, focused, mode, visible);
    let o = draw_pass(ws, n, false, focused, mode, visible);
    let r = f + o;
    assert forall|i: int| #[trigger] r.contains(i) <==> (0 <= i < n && drawn(ws[i], mode, visible)) by {
        if r.contains(i) {
            let k = choose|k: int| 0 <= k < r.len() && r[k] == i;
            if k < f.len() {
                assert(f.contains(i));
            } else {
                assert(o[k - f.len()] == i);
                assert(o.contains(i));
            }
        }
        if 0 <= i < n && drawn(ws[i], mode, visible) {
            if focused == Some(ws[i].id) {
                assert(f.contains(i));
                let k = choose|k: int| 0 <= k < f.len() && f[k] == i;
                assert(r[k] == i);
            } else {
                assert(o.contains(i));
                let k = choose|k: int| 0 <= k < o.len() && o[k] == i;
                assert(r[f.len() + k] == i);
            }
        }
    }
    assert forall|a: int, b: int| 0 <= a < b < r.len() implies {
        let x = #[trigger] r[a];
        let y = #[trigger] r[b];
        &&& x != y
        &&& focused == Some(ws[x].id) || (focused != Some(ws[y].id) && x < y)
    } by {
        if b < f.len() {
            assert(r[a] == f[a] && r[b] == f[b]);
            assert(f.contains(f[a]));
        } else if a >= f.len() {
            assert(r[a] == o[a - f.len()] && r[b] == o[b - f.len()]);
            assert(o.contains(o[a - f.len()]) && o.contains(o[b - f.len()]));
        } else {
            assert(r[a] == f[a] && r[b] == o[b - f.len()]);
            assert(f.contains(f[a]) && o.contains(o[b - f.len()]));
        }
    }
}

} // verus!
