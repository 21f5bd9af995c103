//! Tiling layout: binary space partitioning of the screen along the window tree.
//!
//! A slot is described by the sequence of halvings that carve it out of the
//! whole screen, so the layout itself needs no arithmetic on coordinates.
use vstd::prelude::*;
use crate::state::{children_of, is_live, lemma_first_index, lemma_models_index, Treewm, WindowModel};
use crate::tree_wf::forest;
use crate::ancestry::{
    branch, descends, lemma_branch, lemma_branch_below, lemma_child_link, lemma_descends_le, lemma_descends_through,
    lemma_listed_by_parent, parent_of,
};

verus! {

/// One halving of a rectangle: keep the left, right, top or bottom half.
#[derive(Clone, Copy, PartialEq, Eq, Structural, Debug)]
pub enum Split {
    Left,
    Right,
    Top,
    Bottom,
}

/// The screen rectangle of one window: the halvings that carve it out of the
/// whole output, outermost first.
pub struct Slot {
    pub id: u32,
    pub path: Vec<Split>,
}

/// Slots as (window ID, halvings) pairs.
pub open spec fn slots_model(v: Seq<Slot>) -> Seq<(u32, Seq<Split>)> {
    v.map_values(|s: Slot| (s.id, s.path@))
}

/// The slots that laying out the window `id` in the rectangle `path` assigns:
/// a window without children gets the whole rectangle; otherwise it takes the
/// left half and its children share the right half. `None` when the tree is
/// deeper than `fuel`.
pub open spec fn bsp_node(ws: Seq<WindowModel>, id: u32, path: Seq<Split>, fuel: nat) -> Option<Seq<(u32, Seq<Split>)>>
    decreases fuel, 0nat, 0nat,
{
    if fuel == 0 {
        None
    } else {
        let children = children_of(ws, id);
        if children.len() == 0 {
            Some(seq![(id, path)])
        } else {
            match bsp_siblings(ws, children, path.push(Split::Right), (fuel - 1) as nat) {
                Some(rest) => Some(seq![(id, path.push(Split::Left))] + rest),
                None => None,
            }
        }
    }
}

/// The slots for a run of siblings sharing the rectangle `path`: a single
/// sibling gets it whole; otherwise the first half of the run (rounded down)
/// shares the top half and the rest the bottom half.
pub open spec fn bsp_siblings(ws: Seq<WindowModel>, sibs: Seq<u32>, path: Seq<Split>, fuel: nat) -> Option<Seq<(u32, Seq<Split>)>>
    decreases fuel, 1nat, sibs.len(),
{
    if sibs.len() == 0 {
        Some(Seq::empty())
    } else if sibs.len() == 1 {
        bsp_node(ws, sibs[0], path, fuel)
    } else {
        let mid = sibs.len() / 2;
        match (
            bsp_siblings(ws, sibs.take(mid as int), path.push(Split::Top), fuel),
            bsp_siblings(ws, sibs.skip(mid as int), path.push(Split::Bottom), fuel),
        ) {
            (Some(a), Some(b)) => Some(a + b),
            _ => None,
        }
    }
}

/// A copy of a path with one more halving.
pub fn extend_path(path: &Vec<Split>, s: Split) -> (res: Vec<Split>)
    ensures
        res@ == path@.push(s),
{
    let mut res: Vec<Split> = Vec::new();
    let mut i: usize = 0;
    while i < path.len()
        invariant
            0 <= i <= path.len(),
            res@ == path@.take(i as int),
        decreases path.len() - i,
    {
        res.push(path[i]);
        i += 1;
        assert(res@ =~= path@.take(i as int));
    }
    res.push(s);
    assert(res@ =~= path@.push(s));
    res
}

/// How the tiling layout came out.
pub enum TilingLayout {
    /// Neither a tiling root nor a focused window: nothing to lay out.
    NoRoot,
    /// The children links reach deeper than there are window IDs, which only
    /// a cycle in the tree can do.
    TooDeep,
    /// One slot per window of the root's subtree, in layout order.
    Slots(Vec<Slot>),
}

impl Treewm {
    /// Lay out the window `node_id` in the rectangle `path`, appending its
    /// slots to `out`. Returns false when the tree is deeper than `fuel`.
    pub fn layout_node_bsp(&self, node_id: u32, path: &Vec<Split>, fuel: u64, out: &mut Vec<Slot>) -> (ok: bool)
        ensures
            match bsp_node(self.model(), node_id, path@, fuel as nat) {
                Some(r) => ok && slots_model(final(out)@) == slots_model(old(out)@) + r,
                None => !ok,
            },
        decreases fuel, 0nat, 0nat,
    {
        if fuel == 0 {
            return false;
        }
        let children = self.children_of(node_id);
        if children.len() == 0 {
            let p = copy_path(path);
            out.push(Slot { id: node_id, path: p });
            proof {
                assert(slots_model(out@) =~= slots_model(old(out)@) + seq![(node_id, path@)]);
            }
            true
        } else {
            let left = extend_path(path, Split::Left);
            out.push(Slot { id: node_id, path: left });
            let ghost mid_out = out@;
            proof {
                assert(slots_model(mid_out) =~= slots_model(old(out)@) + seq![(node_id, path@.push(Split::Left))]);
            }
            let right = extend_path(path, Split::Right);
            let ok = self.layout_siblings_bsp(&children, 0, children.len(), &right, fuel - 1, out);
            proof {
                if let Some(rest) = bsp_siblings(self.model(), children@, path@.push(Split::Right), (fuel - 1) as nat) {
                    assert(children@.subrange(0, children@.len() as int) =~= children@);
                    assert(slots_model(out@) =~= slots_model(old(out)@) + (seq![(node_id, path@.push(Split::Left))] + rest));
                }
                assert(children@.subrange(0, children@.len() as int) =~= children@);
            }
            ok
        }
    }

    /// Lay out the siblings `sibs[lo..hi]` in the rectangle `path`, appending
    /// their slots to `out`. Returns false when the tree is deeper than `fuel`.
    pub fn layout_siblings_bsp(
        &self,
        sibs: &Vec<u32>,
        lo: usize,
        hi: usize,
        path: &Vec<Split>,
        fuel: u64,
        out: &mut Vec<Slot>,
    ) -> (ok: bool)
        requires
            lo <= hi <= sibs.len(),
        ensures
            match bsp_siblings(self.model(), sibs@.subrange(lo as int, hi as int), path@, fuel as nat) {
                Some(r) => ok && slots_model(final(out)@) == slots_model(old(out)@) + r,
                None => !ok,
            },
        decreases fuel, 1nat, hi - lo,
    {
        let ghost run = sibs@.subrange(lo as int, hi as int);
        if hi == lo {
            assert(slots_model(out@) =~= slots_model(old(out)@) + Seq::<(u32, Seq<Split>)>::empty());
            return true;
        }
        if hi - lo == 1 {
            assert(run[0] == sibs@[lo as int]);
            return self.layout_node_bsp(sibs[lo], path, fuel, out);
        }
        let mid = (hi - lo) / 2;
        let top = extend_path(path, Split::Top);
        let bottom = extend_path(path, Split::Bottom);
        assert(sibs@.subrange(lo as int, (lo + mid) as int) =~= run.take(mid as int));
        assert(sibs@.subrange((lo + mid) as int, hi as int) =~= run.skip(mid as int));
        let ok1 = self.layout_siblings_bsp(sibs, lo, lo + mid, &top, fuel, out);
        if !ok1 {
            return false;
        }
        let ghost mid_out = out@;
        let ok2 = self.layout_siblings_bsp(sibs, lo + mid, hi, &bottom, fuel, out);
        proof {
            if let (Some(a), Some(b)) = (
                bsp_siblings(self.model(), run.take(mid as int), path@.push(Split::Top), fuel as nat),
                bsp_siblings(self.model(), run.skip(mid as int), path@.push(Split::Bottom), fuel as nat),
            ) {
                assert(slots_model(out@) =~= slots_model(old(out)@) + (a + b));
            }
        }
        ok2
    }

    /// The tiling layout: the tiling root (or else the focused window) gets
    /// the whole output and its subtree is partitioned as `bsp_node` says.
    pub fn tiling_layout(&self) -> (res: TilingLayout)
        ensures
            match tiling_root(self.tiling_root_id, self.focused_window_id) {
                None => res is NoRoot,
                Some(root) => match bsp_node(self.model(), root, Seq::empty(), self.next_window_id as nat + 1) {
                    Some(r) => res matches TilingLayout::Slots(v) && slots_model(v@) == r,
                    None => res is TooDeep,
                },
            },
    {
        let root = match self.tiling_root_id {
            Some(r) => r,
            None => match self.focused_window_id {
                Some(f) => f,
                None => return TilingLayout::NoRoot,
            },
        };
        let mut out: Vec<Slot> = Vec::new();
        let path: Vec<Split> = Vec::new();
        assert(path@ =~= Seq::<Split>::empty());
        let ok = self.layout_node_bsp(root, &path, self.next_window_id as u64 + 1, &mut out);
        proof {
            assert(slots_model(Seq::<Slot>::empty()) =~= Seq::<(u32, Seq<Split>)>::empty());
            if let Some(r) = bsp_node(self.model(), root, Seq::empty(), self.next_window_id as nat + 1) {
                assert(Seq::<(u32, Seq<Split>)>::empty() + r =~= r);
            }
        }
        if ok {
            TilingLayout::Slots(out)
        } else {
            TilingLayout::TooDeep
        }
    }
}

/// The window the tiling layout starts from.
pub open spec fn tiling_root(tiling_root_id: Option<u32>, focused: Option<u32>) -> Option<u32> {
    match tiling_root_id {
        Some(r) => Some(r),
        None => focused,
    }
}

/// A copy of a path.
pub fn copy_path(path: &Vec<Split>) -> (res: Vec<Split>)
    ensures
        res@ == path@,
{
    let mut res: Vec<Split> = Vec::new();
    let mut i: usize = 0;
    while i < path.len()
        invariant
            0 <= i <= path.len(),
            res@ == path@.take(i as int),
        decreases path.len() - i,
    {
        res.push(path[i]);
        i += 1;
        assert(res@ =~= path@.take(i as int));
    }
    assert(res@ =~= path@);
    res
}


/// `a` is a prefix of `b`: the rectangle of `b` lies inside that of `a`.
pub open spec fn is_prefix(a: Seq<Split>, b: Seq<Split>) -> bool {
    a.len() <= b.len() && b.take(a.len() as int) == a
}

/// Every slot lies inside the rectangle `path`.
pub open spec fn all_within(r: Seq<(u32, Seq<Split>)>, path: Seq<Split>) -> bool {
    forall|i: int| 0 <= i < r.len() ==> is_prefix(path, #[trigger] r[i].1)
}

/// No slot lies inside another one: since each path halves its rectangle in a
/// fixed way, two slots whose paths are not prefixes of each other part at
/// some halving and so do not overlap.
pub open spec fn non_overlapping(r: Seq<(u32, Seq<Split>)>) -> bool {
    forall|i: int, j: int| 0 <= i < r.len() && 0 <= j < r.len() && i != j ==> !is_prefix(#[trigger] r[i].1, #[trigger] r[j].1)
}

/// Fuel that laying out window `id` needs in a forest.
pub open spec fn depth_budget(id: u32, next: u32) -> nat {
    if id < next {
        (next - id + 1) as nat
    } else {
        1
    }
}

/// Paths that part at one halving are not prefixes of each other.
pub proof fn lemma_prefix_diverge(x: Seq<Split>, y: Seq<Split>, p: Seq<Split>, s1: Split, s2: Split)
    requires
        is_prefix(p.push(s1), x),
        is_prefix(p.push(s2), y),
        s1 != s2,
    ensures
        !is_prefix(x, y),
        !is_prefix(y, x),
{
    assert(x[p.len() as int] == p.push(s1)[p.len() as int]);
    assert(y[p.len() as int] == p.push(s2)[p.len() as int]);
    if is_prefix(x, y) {
        assert(y.take(x.len() as int)[p.len() as int] == y[p.len() as int]);
    }
    if is_prefix(y, x) {
        assert(x.take(y.len() as int)[p.len() as int] == x[p.len() as int]);
    }
}

/// A rectangle inside a half of `p` lies inside `p`.
pub proof fn lemma_prefix_push(p: Seq<Split>, s: Split, x: Seq<Split>)
    requires
        is_prefix(p.push(s), x),
    ensures
        is_prefix(p, x),
{
    assert(x.take(p.len() as int) =~= x.take(p.len() as int + 1).take(p.len() as int));
    assert(p.push(s).take(p.len() as int) =~= p);
}

/// In a forest the layout never runs out of fuel.
pub proof fn lemma_bsp_node_some(ws: Seq<WindowModel>, next: u32, id: u32, path: Seq<Split>, fuel: nat)
    requires
        forest(ws, next),
        fuel >= depth_budget(id, next),
    ensures
        bsp_node(ws, id, path, fuel) is Some,
    decreases fuel, 0nat, 0nat,
{
    let children = children_of(ws, id);
    lemma_first_index(ws, id);
    if children.len() > 0 {
        let k = crate::state::first_index(ws, id);
        assert(ws[k].id < next);
        assert forall|i: int| 0 <= i < children.len() implies (fuel - 1) as nat >= depth_budget(#[trigger] children[i], next) by {
            assert(is_live(ws, ws[k].children[i]));
            let j = choose|j: int| 0 <= j < ws.len() && ws[j].id == children[i];
            assert(ws[j].id < next);
            assert(ws[k].children[i] > ws[k].id);
        }
        lemma_bsp_siblings_some(ws, next, children, path.push(Split::Right), (fuel - 1) as nat);
    }
}

/// In a forest the layout of a run of siblings never runs out of
/// fuel when each sibling's budget is met.
pub proof fn lemma_bsp_siblings_some(ws: Seq<WindowModel>, next: u32, sibs: Seq<u32>, path: Seq<Split>, fuel: nat)
    requires
        forest(ws, next),
        forall|i: int| 0 <= i < sibs.len() ==> fuel >= depth_budget(#[trigger] sibs[i], next),
    ensures
        bsp_siblings(ws, sibs, path, fuel) is Some,
    decreases fuel, 1nat, sibs.len(),
{
    if sibs.len() == 1 {
        lemma_bsp_node_some(ws, next, sibs[0], path, fuel);
    } else if sibs.len() > 1 {
        let mid = sibs.len() / 2;
        let a = sibs.take(mid as int);
        let b = sibs.skip(mid as int);
        assert forall|i: int| 0 <= i < a.len() implies fuel >= depth_budget(#[trigger] a[i], next) by {
            assert(a[i] == sibs[i]);
        }
        assert forall|i: int| 0 <= i < b.len() implies fuel >= depth_budget(#[trigger] b[i], next) by {
            assert(b[i] == sibs[mid + i]);
        }
        lemma_bsp_siblings_some(ws, next, a, path.push(Split::Top), fuel);
        lemma_bsp_siblings_some(ws, next, b, path.push(Split::Bottom), fuel);
    }
}

/// The slots of a window's layout lie inside its rectangle and do not overlap.
pub proof fn lemma_bsp_node_non_overlapping(ws: Seq<WindowModel>, id: u32, path: Seq<Split>, fuel: nat)
    ensures
        bsp_node(ws, id, path, fuel) matches Some(r) ==> all_within(r, path) && non_overlapping(r),
    decreases fuel, 0nat, 0nat,
{
    if fuel > 0 {
        let children = children_of(ws, id);
        if children.len() == 0 {
            assert(path.take(path.len() as int) =~= path);
        } else {
            let pr = path.push(Split::Right);
            let pl = path.push(Split::Left);
            lemma_bsp_siblings_non_overlapping(ws, children, pr, (fuel - 1) as nat);
            if let Some(rest) = bsp_siblings(ws, children, pr, (fuel - 1) as nat) {
                let r = seq![(id, pl)] + rest;
                assert(pl.take(pl.len() as int) =~= pl);
                assert(is_prefix(pl, r[0].1));
                assert forall|i: int| 0 <= i < r.len() implies is_prefix(path, #[trigger] r[i].1) by {
                    if i == 0 {
                        lemma_prefix_push(path, Split::Left, r[0].1);
                    } else {
                        assert(r[i] == rest[i - 1]);
                        lemma_prefix_push(path, Split::Right, r[i].1);
                    }
                }
                assert forall|i: int, j: int| 0 <= i < r.len() && 0 <= j < r.len() && i != j implies !is_prefix(
                    #[trigger] r[i].1,
                    #[trigger] r[j].1,
                ) by {
                    if i == 0 {
                        assert(r[j] == rest[j - 1]);
                        lemma_prefix_diverge(r[i].1, r[j].1, path, Split::Left, Split::Right);
                    } else if j == 0 {
                        assert(r[i] == rest[i - 1]);
                        lemma_prefix_diverge(r[j].1, r[i].1, path, Split::Left, Split::Right);
                    } else {
                        assert(r[i] == rest[i - 1]);
                        assert(r[j] == rest[j - 1]);
                    }
                }
            }
        }
    }
}

/// The slots of a run of siblings lie inside their rectangle and do not overlap.
pub proof fn lemma_bsp_siblings_non_overlapping(ws: Seq<WindowModel>, sibs: Seq<u32>, path: Seq<Split>, fuel: nat)
    ensures
        bsp_siblings(ws, sibs, path, fuel) matches Some(r) ==> all_within(r, path) && non_overlapping(r),
    decreases fuel, 1nat, sibs.len(),
{
    if sibs.len() == 1 {
        lemma_bsp_node_non_overlapping(ws, sibs[0], path, fuel);
    } else if sibs.len() > 1 {
        let mid = sibs.len() / 2;
        let pt = path.push(Split::Top);
        let pb = path.push(Split::Bottom);
        lemma_bsp_siblings_non_overlapping(ws, sibs.take(mid as int), pt, fuel);
        lemma_bsp_siblings_non_overlapping(ws, sibs.skip(mid as int), pb, fuel);
        if let (Some(a), Some(b)) = (
            bsp_siblings(ws, sibs.take(mid as int), pt, fuel),
            bsp_siblings(ws, sibs.skip(mid as int), pb, fuel),
        ) {
            let r = a + b;
            assert forall|i: int| 0 <= i < r.len() implies is_prefix(path, #[trigger] r[i].1) by {
                if i < a.len() {
                    assert(r[i] == a[i]);
                    lemma_prefix_push(path, Split::Top, r[i].1);
                } else {
                    assert(r[i] == b[i - a.len()]);
                    lemma_prefix_push(path, Split::Bottom, r[i].1);
                }
            }
            assert forall|i: int, j: int| 0 <= i < r.len() && 0 <= j < r.len() && i != j implies !is_prefix(
                #[trigger] r[i].1,
                #[trigger] r[j].1,
            ) by {
                if i < a.len() && j < a.len() {
                    assert(r[i] == a[i] && r[j] == a[j]);
                } else if i >= a.len() && j >= a.len() {
                    assert(r[i] == b[i - a.len()] && r[j] == b[j - a.len()]);
                } else if i < a.len() {
                    assert(r[i] == a[i] && r[j] == b[j - a.len()]);
                    lemma_prefix_diverge(r[i].1, r[j].1, path, Split::Top, Split::Bottom);
                } else {
                    assert(r[j] == a[j] && r[i] == b[i - a.len()]);
                    lemma_prefix_diverge(r[j].1, r[i].1, path, Split::Top, Split::Bottom);
                }
            }
        }
    }
}

/// No window has two slots.
pub open spec fn distinct_ids(r: Seq<(u32, Seq<Split>)>) -> bool {
    forall|i: int, j: int| 0 <= i < r.len() && 0 <= j < r.len() && i != j ==> #[trigger] r[i].0 != #[trigger] r[j].0
}

/// In a list without repeats, no value is in both parts of a split.
pub proof fn lemma_take_skip_disjoint(s: Seq<u32>, m: int, v: u32)
    requires
        s.no_duplicates(),
        0 <= m <= s.len(),
    ensures
        !(s.take(m).contains(v) && s.skip(m).contains(v)),
{
    if s.take(m).contains(v) && s.skip(m).contains(v) {
        let i = choose|i: int| 0 <= i < s.take(m).len() && s.take(m)[i] == v;
        let j = choose|j: int| 0 <= j < s.skip(m).len() && s.skip(m)[j] == v;
        assert(s[i] == v && s[m + j] == v);
    }
}

/// In a forest, laying out a window gives slots only to windows
/// below it, and to each of them at most one.
pub proof fn lemma_bsp_node_unique(ws: Seq<WindowModel>, next: u32, id: u32, path: Seq<Split>, fuel: nat)
    requires
        forest(ws, next),
    ensures
        bsp_node(ws, id, path, fuel) matches Some(r) ==> {
            &&& forall|i: int| 0 <= i < r.len() ==> descends(ws, #[trigger] r[i].0, id)
            &&& distinct_ids(r)
        },
    decreases fuel, 0nat, 0nat,
{
    if fuel > 0 {
        let children = children_of(ws, id);
        if children.len() > 0 {
            let pr = path.push(Split::Right);
            lemma_first_index(ws, id);
            let k = crate::state::first_index(ws, id);
            assert(children == ws[k].children);
            assert forall|i: int| 0 <= i < children.len() implies parent_of(ws, #[trigger] children[i]) == Some(id)
                && id < children[i] by {
                lemma_child_link(ws, next, id, i);
            }
            lemma_bsp_siblings_unique(ws, next, children, id, pr, (fuel - 1) as nat);
            if let Some(rest) = bsp_siblings(ws, children, pr, (fuel - 1) as nat) {
                let r = seq![(id, path.push(Split::Left))] + rest;
                assert forall|i: int| 0 <= i < r.len() implies descends(ws, #[trigger] r[i].0, id) by {
                    if i > 0 {
                        let x = rest[i - 1].0;
                        assert(r[i] == rest[i - 1]);
                        let b = branch(ws, x, id);
                        let m = choose|m: int| 0 <= m < children.len() && children[m] == b;
                        assert(parent_of(ws, children[m]) == Some(id) && id < children[m]);
                        lemma_descends_through(ws, x, b, id);
                    }
                }
                assert forall|i: int, j: int| 0 <= i < r.len() && 0 <= j < r.len() && i != j implies #[trigger] r[i].0
                    != #[trigger] r[j].0 by {
                    if i > 0 && j > 0 {
                        assert(r[i] == rest[i - 1] && r[j] == rest[j - 1]);
                    } else {
                        let t = if i == 0 { j } else { i };
                        let x = rest[t - 1].0;
                        assert(r[t] == rest[t - 1]);
                        let b = branch(ws, x, id);
                        let m = choose|m: int| 0 <= m < children.len() && children[m] == b;
                        assert(parent_of(ws, children[m]) == Some(id) && id < children[m]);
                        if x == id {
                            lemma_descends_le(ws, x, b);
                        }
                    }
                }
            }
        }
    }
}

/// In a forest, laying out distinct children of `p` gives slots
/// only to windows below one of them (reached through it), and to each at
/// most one.
pub proof fn lemma_bsp_siblings_unique(
    ws: Seq<WindowModel>,
    next: u32,
    sibs: Seq<u32>,
    p: u32,
    path: Seq<Split>,
    fuel: nat,
)
    requires
        forest(ws, next),
        sibs.no_duplicates(),
        forall|i: int| 0 <= i < sibs.len() ==> parent_of(ws, #[trigger] sibs[i]) == Some(p) && p < sibs[i],
    ensures
        bsp_siblings(ws, sibs, path, fuel) matches Some(r) ==> {
            &&& forall|i: int|
                0 <= i < r.len() ==> sibs.contains(branch(ws, #[trigger] r[i].0, p)) && descends(
                    ws,
                    r[i].0,
                    branch(ws, r[i].0, p),
                )
            &&& distinct_ids(r)
        },
    decreases fuel, 1nat, sibs.len(),
{
    if sibs.len() == 1 {
        lemma_bsp_node_unique(ws, next, sibs[0], path, fuel);
        if let Some(r) = bsp_node(ws, sibs[0], path, fuel) {
            assert forall|i: int| 0 <= i < r.len() implies sibs.contains(branch(ws, #[trigger] r[i].0, p))
                && descends(ws, r[i].0, branch(ws, r[i].0, p)) by {
                assert(parent_of(ws, sibs[0]) == Some(p) && p < sibs[0]);
                lemma_branch(ws, r[i].0, sibs[0], p);
            }
        }
    } else if sibs.len() > 1 {
        let mid = sibs.len() / 2;
        let a_s = sibs.take(mid as int);
        let b_s = sibs.skip(mid as int);
        let pt = path.push(Split::Top);
        let pb = path.push(Split::Bottom);
        assert forall|i: int| 0 <= i < a_s.len() implies parent_of(ws, #[trigger] a_s[i]) == Some(p) && p < a_s[i] by {
            assert(a_s[i] == sibs[i]);
        }
        assert forall|i: int| 0 <= i < b_s.len() implies parent_of(ws, #[trigger] b_s[i]) == Some(p) && p < b_s[i] by {
            assert(b_s[i] == sibs[mid + i]);
        }
        assert(a_s.no_duplicates()) by {
            assert forall|i: int, j: int| 0 <= i < a_s.len() && 0 <= j < a_s.len() && i != j implies a_s[i]
                != a_s[j] by {
                assert(a_s[i] == sibs[i] && a_s[j] == sibs[j]);
            }
        }
        assert(b_s.no_duplicates()) by {
            assert forall|i: int, j: int| 0 <= i < b_s.len() && 0 <= j < b_s.len() && i != j implies b_s[i]
                != b_s[j] by {
                assert(b_s[i] == sibs[mid + i] && b_s[j] == sibs[mid + j]);
            }
        }
        lemma_bsp_siblings_unique(ws, next, a_s, p, pt, fuel);
        lemma_bsp_siblings_unique(ws, next, b_s, p, pb, fuel);
        if let (Some(a), Some(b)) = (bsp_siblings(ws, a_s, pt, fuel), bsp_siblings(ws, b_s, pb, fuel)) {
            let r = a + b;
            assert forall|i: int| 0 <= i < r.len() implies sibs.contains(branch(ws, #[trigger] r[i].0, p))
                && descends(ws, r[i].0, branch(ws, r[i].0, p)) by {
                let v = branch(ws, r[i].0, p);
                if i < a.len() {
                    assert(r[i] == a[i]);
                    let m = choose|m: int| 0 <= m < a_s.len() && a_s[m] == v;
                    assert(sibs[m] == v);
                } else {
                    assert(r[i] == b[i - a.len()]);
                    let m = choose|m: int| 0 <= m < b_s.len() && b_s[m] == v;
                    assert(sibs[mid + m] == v);
                }
            }
            assert forall|i: int, j: int| 0 <= i < r.len() && 0 <= j < r.len() && i != j implies #[trigger] r[i].0
                != #[trigger] r[j].0 by {
                if i < a.len() && j < a.len() {
                    assert(r[i] == a[i] && r[j] == a[j]);
                } else if i >= a.len() && j >= a.len() {
                    assert(r[i] == b[i - a.len()] && r[j] == b[j - a.len()]);
                } else {
                    let (ia, jb) = if i < a.len() { (i, j - a.len()) } else { (j, i - a.len()) };
                    assert(r[if i < a.len() { i } else { j }] == a[ia]);
                    assert(r[if i < a.len() { j } else { i }] == b[jb]);
                    if a[ia].0 == b[jb].0 {
                        lemma_take_skip_disjoint(sibs, mid as int, branch(ws, a[ia].0, p));
                    }
                }
            }
        }
    }
}

/// The window `x` has a slot.
pub open spec fn has_slot(r: Seq<(u32, Seq<Split>)>, x: u32) -> bool {
    exists|i: int| 0 <= i < r.len() && #[trigger] r[i].0 == x
}

/// In a forest, laying out an existing window gives a slot to
/// every existing window below it.
pub proof fn lemma_bsp_node_complete(ws: Seq<WindowModel>, next: u32, id: u32, path: Seq<Split>, fuel: nat, x: u32)
    requires
        forest(ws, next),
        is_live(ws, x),
        descends(ws, x, id),
        x == id || is_live(ws, id),
    ensures
        bsp_node(ws, id, path, fuel) matches Some(r) ==> has_slot(r, x),
    decreases fuel, 0nat, 0nat,
{
    if fuel > 0 {
        let children = children_of(ws, id);
        if children.len() == 0 {
            if x != id {
                lemma_branch_below(ws, x, id);
                let b = branch(ws, x, id);
                lemma_listed_by_parent(ws, next, b, id);
            }
            if let Some(r) = bsp_node(ws, id, path, fuel) {
                assert(r[0].0 == id);
            }
        } else {
            let pr = path.push(Split::Right);
            if let Some(rest) = bsp_siblings(ws, children, pr, (fuel - 1) as nat) {
                let r = seq![(id, path.push(Split::Left))] + rest;
                if x == id {
                    assert(r[0].0 == x);
                } else {
                    lemma_branch_below(ws, x, id);
                    let b = branch(ws, x, id);
                    lemma_listed_by_parent(ws, next, b, id);
                    let m = choose|m: int| 0 <= m < children.len() && children[m] == b;
                    lemma_bsp_siblings_complete(ws, next, children, pr, (fuel - 1) as nat, m, x);
                    let i = choose|i: int| 0 <= i < rest.len() && #[trigger] rest[i].0 == x;
                    assert(r[i + 1] == rest[i]);
                }
            }
        }
    }
}

/// In a forest, laying out a run of siblings gives a slot to every
/// existing window below an existing one of them.
pub proof fn lemma_bsp_siblings_complete(
    ws: Seq<WindowModel>,
    next: u32,
    sibs: Seq<u32>,
    path: Seq<Split>,
    fuel: nat,
    m: int,
    x: u32,
)
    requires
        forest(ws, next),
        0 <= m < sibs.len(),
        is_live(ws, x),
        descends(ws, x, sibs[m]),
        x == sibs[m] || is_live(ws, sibs[m]),
    ensures
        bsp_siblings(ws, sibs, path, fuel) matches Some(r) ==> has_slot(r, x),
    decreases fuel, 1nat, sibs.len(),
{
    if sibs.len() == 1 {
        lemma_bsp_node_complete(ws, next, sibs[0], path, fuel, x);
    } else {
        let mid = sibs.len() / 2;
        let a_s = sibs.take(mid as int);
        let b_s = sibs.skip(mid as int);
        let pt = path.push(Split::Top);
        let pb = path.push(Split::Bottom);
        if let (Some(a), Some(b)) = (bsp_siblings(ws, a_s, pt, fuel), bsp_siblings(ws, b_s, pb, fuel)) {
            let r = a + b;
            if m < mid {
                assert(a_s[m] == sibs[m]);
                lemma_bsp_siblings_complete(ws, next, a_s, pt, fuel, m, x);
                let i = choose|i: int| 0 <= i < a.len() && #[trigger] a[i].0 == x;
                assert(r[i] == a[i]);
            } else {
                assert(b_s[m - mid] == sibs[m]);
                lemma_bsp_siblings_complete(ws, next, b_s, pb, fuel, m - mid, x);
                let i = choose|i: int| 0 <= i < b.len() && #[trigger] b[i].0 == x;
                assert(r[a.len() + i] == b[i]);
            }
        }
    }
}

/// In a forest the tiling layout always produces slots; no two of
/// them overlap, each belongs to a window of the root's subtree, no window
/// has two, and (when the root exists) every existing window of the subtree
/// has one.
pub proof fn lemma_tiling_layout_well_formed(ws: Seq<WindowModel>, next: u32, root: u32)
    requires
        forest(ws, next),
    ensures
        bsp_node(ws, root, Seq::empty(), next as nat + 1) is Some,
        non_overlapping(bsp_node(ws, root, Seq::empty(), next as nat + 1)->0),
        distinct_ids(bsp_node(ws, root, Seq::empty(), next as nat + 1)->0),
        forall|i: int|
            0 <= i < bsp_node(ws, root, Seq::empty(), next as nat + 1)->0.len() ==> descends(
                ws,
                #[trigger] bsp_node(ws, root, Seq::empty(), next as nat + 1)->0[i].0,
                root,
            ),
        is_live(ws, root) ==> forall|x: u32|
            is_live(ws, x) && #[trigger] descends(ws, x, root) ==> has_slot(
                bsp_node(ws, root, Seq::empty(), next as nat + 1)->0,
                x,
            ),
{
    lemma_bsp_node_some(ws, next, root, Seq::empty(), next as nat + 1);
    lemma_bsp_node_non_overlapping(ws, root, Seq::empty(), next as nat + 1);
    lemma_bsp_node_unique(ws, next, root, Seq::empty(), next as nat + 1);
    if is_live(ws, root) {
        assert forall|x: u32| is_live(ws, x) && #[trigger] descends(ws, x, root) implies has_slot(
            bsp_node(ws, root, Seq::empty(), next as nat + 1)->0,
            x,
        ) by {
            lemma_bsp_node_complete(ws, next, root, Seq::empty(), next as nat + 1, x);
        }
    }
}
/// A window with children keeps the left half of its rectangle for itself
/// and hands the right half to its children; a window without children (or
/// one that does not exist) gets the whole rectangle.
pub proof fn lemma_bsp_node_halves(ws: Seq<WindowModel>, id: u32, path: Seq<Split>, fuel: nat)
    ensures
        bsp_node(ws, id, path, fuel) matches Some(r) ==> {
            &&& children_of(ws, id).len() == 0 ==> r == seq![(id, path)]
            &&& children_of(ws, id).len() > 0 ==> {
                &&& r.len() > 0
                &&& r[0] == (id, path.push(Split::Left))
                &&& forall|j: int| 1 <= j < r.len() ==> is_prefix(path.push(Split::Right), #[trigger] r[j].1)
            }
        },
{
    if fuel > 0 && children_of(ws, id).len() > 0 {
        let pr = path.push(Split::Right);
        lemma_bsp_siblings_non_overlapping(ws, children_of(ws, id), pr, (fuel - 1) as nat);
        if let Some(rest) = bsp_siblings(ws, children_of(ws, id), pr, (fuel - 1) as nat) {
            let r = seq![(id, path.push(Split::Left))] + rest;
            assert forall|j: int| 1 <= j < r.len() implies is_prefix(pr, #[trigger] r[j].1) by {
                assert(r[j] == rest[j - 1]);
            }
        }
    }
}

/// A run of two or more distinct children of `p` sharing the rectangle
/// `path` is split after its first half, rounded down: each of the first
/// `len / 2` siblings gets a slot inside the top half, and each of the rest a
/// slot inside the bottom half.
pub proof fn lemma_bsp_siblings_split(
    ws: Seq<WindowModel>,
    next: u32,
    sibs: Seq<u32>,
    p: u32,
    path: Seq<Split>,
    fuel: nat,
)
    requires
        forest(ws, next),
        sibs.no_duplicates(),
        forall|i: int| 0 <= i < sibs.len() ==> parent_of(ws, #[trigger] sibs[i]) == Some(p) && p < sibs[i],
        sibs.len() >= 2,
    ensures
        bsp_siblings(ws, sibs, path, fuel) matches Some(r) ==> forall|i: int, j: int|
            0 <= i < sibs.len() && 0 <= j < r.len() && #[trigger] r[j].0 == #[trigger] sibs[i] ==> {
                &&& r[j].1.len() > path.len()
                &&& r[j].1[path.len() as int] == (if i < sibs.len() / 2 {
                    Split::Top
                } else {
                    Split::Bottom
                })
            },
{
    let mid = sibs.len() / 2;
    let a_s = sibs.take(mid as int);
    let b_s = sibs.skip(mid as int);
    let pt = path.push(Split::Top);
    let pb = path.push(Split::Bottom);
    assert forall|i: int| 0 <= i < a_s.len() implies parent_of(ws, #[trigger] a_s[i]) == Some(p) && p < a_s[i] by {
        assert(a_s[i] == sibs[i]);
    }
    assert forall|i: int| 0 <= i < b_s.len() implies parent_of(ws, #[trigger] b_s[i]) == Some(p) && p < b_s[i] by {
        assert(b_s[i] == sibs[mid + i]);
    }
    assert(a_s.no_duplicates()) by {
        assert forall|i: int, j: int| 0 <= i < a_s.len() && 0 <= j < a_s.len() && i != j implies a_s[i] != a_s[j] by {
            assert(a_s[i] == sibs[i] && a_s[j] == sibs[j]);
        }
    }
    assert(b_s.no_duplicates()) by {
        assert forall|i: int, j: int| 0 <= i < b_s.len() && 0 <= j < b_s.len() && i != j implies b_s[i] != b_s[j] by {
            assert(b_s[i] == sibs[mid + i] && b_s[j] == sibs[mid + j]);
        }
    }
    lemma_bsp_siblings_unique(ws, next, a_s, p, pt, fuel);
    lemma_bsp_siblings_unique(ws, next, b_s, p, pb, fuel);
    lemma_bsp_siblings_non_overlapping(ws, a_s, pt, fuel);
    lemma_bsp_siblings_non_overlapping(ws, b_s, pb, fuel);
    if let (Some(a), Some(b)) = (bsp_siblings(ws, a_s, pt, fuel), bsp_siblings(ws, b_s, pb, fuel)) {
        let r = a + b;
        assert forall|i: int, j: int|
            0 <= i < sibs.len() && 0 <= j < r.len() && #[trigger] r[j].0 == #[trigger] sibs[i] implies {
                &&& r[j].1.len() > path.len()
                &&& r[j].1[path.len() as int] == (if i < mid {
                    Split::Top
                } else {
                    Split::Bottom
                })
            } by {
            // The sibling's own slot: the way up from it meets `p` at once.
            assert(branch(ws, sibs[i], p) == sibs[i]);
            if j < a.len() {
                assert(r[j] == a[j]);
                assert(is_prefix(pt, a[j].1));
                assert(a[j].1.take(pt.len() as int)[path.len() as int] == pt[path.len() as int]);
                let m = choose|m: int| 0 <= m < a_s.len() && a_s[m] == branch(ws, a[j].0, p);
                assert(sibs[m] == sibs[i]);
            } else {
                let t = j - a.len();
                assert(r[j] == b[t]);
                assert(is_prefix(pb, b[t].1));
                assert(b[t].1.take(pb.len() as int)[path.len() as int] == pb[path.len() as int]);
                let m = choose|m: int| 0 <= m < b_s.len() && b_s[m] == branch(ws, b[t].0, p);
                assert(sibs[mid + m] == sibs[i]);
            }
        }
    }
}

} // verus!
