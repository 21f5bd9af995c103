//! Window-tree surgery: opening and closing windows, and the tree invariant.
use vstd::prelude::*;
use crate::state::{
    copy_ids, first_index, is_live, lemma_first_index, lemma_models_index, CanvasWindow, Treewm,
    WindowModel,
};

use crate::tree_wf::{
    acyclic_forest, lemma_close_keeps_acyclic_forest, focus_applied, focus_live, lemma_add_window_forest, lemma_add_window_wf, lemma_focus_after_removal_live,
    lemma_remove_window_wf,
};

verus! {

/// Default size of a newly opened window.
pub const NEW_WINDOW_WIDTH: i32 = 800;
pub const NEW_WINDOW_HEIGHT: i32 = 600;

/// The model of a freshly opened window.
pub open spec fn new_window_model(id: u32, parent_id: Option<u32>) -> WindowModel {
    WindowModel {
        id,
        parent_id,
        children: Seq::empty(),
        base_width: NEW_WINDOW_WIDTH,
        base_height: NEW_WINDOW_HEIGHT,
        is_fullscreen: false,
        pre_fullscreen_width: NEW_WINDOW_WIDTH,
        pre_fullscreen_height: NEW_WINDOW_HEIGHT,
    }
}

/// The window list after `id` is appended to the children of the first
/// window with ID `pid` (unchanged when there is none).
pub open spec fn with_child(ws: Seq<WindowModel>, pid: Option<u32>, id: u32) -> Seq<WindowModel> {
    match pid {
        Some(p) => {
            let k = first_index(ws, p);
            if k >= 0 {
                ws.update(k, WindowModel { children: ws[k].children.push(id), ..ws[k] })
            } else {
                ws
            }
        },
        None => ws,
    }
}

impl Treewm {
    /// Register a newly opened window as a child of the focused window (or
    /// as a new tree root when nothing is focused) and return its ID.
    pub fn add_window(&mut self) -> (id: u32)
        requires
            old(self).next_window_id < u32::MAX,
        ensures
            id == old(self).next_window_id,
            final(self).next_window_id == old(self).next_window_id + 1,
            final(self).model() == with_child(old(self).model(), old(self).focused_window_id, id).push(
                new_window_model(id, old(self).focused_window_id),
            ),
            old(self).wf() && (old(self).focused_window_id matches Some(f) ==> f < old(self).next_window_id)
                ==> final(self).wf(),
            old(self).forest() && old(self).focused_window_id != Some(old(self).next_window_id) && (forall|i: int|
                0 <= i < old(self).windows.len() ==> #[trigger] old(self).windows[i].parent_id != Some(
                    old(self).next_window_id,
                )) ==> final(self).forest(),
            final(self).focused_window_id == old(self).focused_window_id,
            final(self).tiling_root_id == old(self).tiling_root_id,
            final(self).view_mode == old(self).view_mode,
            final(self).main_modifier == old(self).main_modifier,
    {
        let id = self.alloc_id();
        let parent_id = self.focused_window_id;
        proof {
            lemma_models_index(self.windows@);
        }
        if let Some(pid) = parent_id {
            if let Some(k) = self.find_index(pid) {
                proof {
                    lemma_first_index(self.model(), pid);
                }
                self.windows[k].children.push(id);
            }
        }
        self.windows.push(
            CanvasWindow {
                id,
                parent_id,
                children: Vec::new(),
                base_width: NEW_WINDOW_WIDTH,
                base_height: NEW_WINDOW_HEIGHT,
                is_fullscreen: false,
                pre_fullscreen_width: NEW_WINDOW_WIDTH,
                pre_fullscreen_height: NEW_WINDOW_HEIGHT,
            },
        );
        proof {
            lemma_models_index(self.windows@);
            assert(self.model() =~= with_child(old(self).model(), old(self).focused_window_id, id).push(
                new_window_model(id, old(self).focused_window_id),
            ));
            if old(self).wf() && (old(self).focused_window_id matches Some(f) ==> f < old(self).next_window_id) {
                lemma_add_window_wf(old(self).model(), old(self).next_window_id, old(self).focused_window_id);
            }
            if old(self).forest() && old(self).focused_window_id != Some(old(self).next_window_id) && (forall|i: int|
                0 <= i < old(self).windows.len() ==> #[trigger] old(self).windows[i].parent_id != Some(
                    old(self).next_window_id,
                )) {
                lemma_models_index(old(self).windows@);
                assert forall|i: int| 0 <= i < old(self).model().len() implies #[trigger] old(self).model()[i].parent_id
                    != Some(old(self).next_window_id) by {
                    assert(old(self).model()[i] == old(self).windows@[i]@);
                }
                lemma_add_window_forest(old(self).model(), old(self).next_window_id, old(self).focused_window_id);
            }
        }
        id
    }
}


/// Position of the first occurrence of `x` in `s`, or -1.
pub open spec fn first_pos(s: Seq<u32>, x: u32) -> int
    decreases s.len(),
{
    if s.len() == 0 {
        -1
    } else if s[0] == x {
        0
    } else {
        let k = first_pos(s.drop_first(), x);
        if k < 0 {
            -1
        } else {
            k + 1
        }
    }
}

/// `s` with every occurrence of `x` removed.
pub open spec fn without(s: Seq<u32>, x: u32) -> Seq<u32>
    decreases s.len(),
{
    if s.len() == 0 {
        s
    } else if s.last() == x {
        without(s.drop_last(), x)
    } else {
        without(s.drop_last(), x).push(s.last())
    }
}

/// The children list of a grandparent once the dead child `dead` is replaced
/// by its orphans: in its place when it was listed, at the end otherwise.
pub open spec fn spliced(old: Seq<u32>, dead: u32, orphans: Seq<u32>) -> Seq<u32> {
    let p = first_pos(old, dead);
    if p >= 0 {
        old.take(p) + orphans + without(old.skip(p + 1), dead)
    } else {
        without(old, dead) + orphans
    }
}

/// The window list after each orphan (its first window) gets `new_parent`.
pub open spec fn reparented(ws: Seq<WindowModel>, orphans: Seq<u32>, new_parent: Option<u32>) -> Seq<WindowModel> {
    Seq::new(
        ws.len(),
        |i: int|
            if orphans.contains(ws[i].id) && first_index(ws, ws[i].id) == i {
                WindowModel { parent_id: new_parent, ..ws[i] }
            } else {
                ws[i]
            },
    )
}

/// The window list after the orphans of `dead` are spliced into the children
/// of the first window with ID `pid`.
pub open spec fn with_spliced(ws: Seq<WindowModel>, pid: Option<u32>, dead: u32, orphans: Seq<u32>) -> Seq<WindowModel> {
    match pid {
        Some(p) => {
            let k = first_index(ws, p);
            if k >= 0 {
                ws.update(k, WindowModel { children: spliced(ws[k].children, dead, orphans), ..ws[k] })
            } else {
                ws
            }
        },
        None => ws,
    }
}

/// The window list after the window at `pos` is closed.
pub open spec fn after_removal(ws: Seq<WindowModel>, pos: int) -> Seq<WindowModel> {
    let dead = ws[pos];
    with_spliced(reparented(ws, dead.children, dead.parent_id), dead.parent_id, dead.id, dead.children).remove(pos)
}

/// What keyboard focus does after a window closes.
#[derive(Clone, Copy, PartialEq, Eq, Structural, Debug)]
pub enum FocusChange {
    /// The closed window was not focused.
    Keep,
    /// Focus moves to this window.
    Focus(u32),
    /// No window is left to focus.
    Clear,
}

/// Focus after the focused window `dead` closes: its parent when that still
/// exists, otherwise the most recently listed window, otherwise nothing.
pub open spec fn focus_after_removal(
    focused: Option<u32>,
    dead: u32,
    dead_parent: Option<u32>,
    rest: Seq<WindowModel>,
) -> FocusChange {
    if focused != Some(dead) {
        FocusChange::Keep
    } else if dead_parent is Some && is_live(rest, dead_parent->0) {
        FocusChange::Focus(dead_parent->0)
    } else if rest.len() > 0 {
        FocusChange::Focus(rest.last().id)
    } else {
        FocusChange::Clear
    }
}

/// `first_index` only looks at IDs.
pub proof fn lemma_first_index_same_ids(a: Seq<WindowModel>, b: Seq<WindowModel>, id: u32)
    requires
        a.len() == b.len(),
        forall|i: int| 0 <= i < a.len() ==> a[i].id == b[i].id,
    ensures
        first_index(a, id) == first_index(b, id),
{
    lemma_first_index(a, id);
    lemma_first_index(b, id);
}

/// `first_pos` is the first position holding the value.
pub proof fn lemma_first_pos(s: Seq<u32>, x: u32)
    ensures
        first_pos(s, x) >= 0 ==> {
            &&& first_pos(s, x) < s.len()
            &&& s[first_pos(s, x)] == x
            &&& forall|j: int| 0 <= j < first_pos(s, x) ==> s[j] != x
        },
        first_pos(s, x) < 0 ==> first_pos(s, x) == -1 && !s.contains(x),
    decreases s.len(),
{
    if s.len() > 0 && s[0] != x {
        lemma_first_pos(s.drop_first(), x);
        assert forall|j: int| 1 <= j < s.len() implies s[j] == s.drop_first()[j - 1] by {}
        if first_pos(s, x) < 0 {
            assert forall|j: int| 0 <= j < s.len() implies s[j] != x by {
                if j > 0 {
                    assert(s[j] == s.drop_first()[j - 1]);
                }
            }
        }
    }
}

/// Removing the occurrences of a value that does not occur changes nothing.
pub proof fn lemma_without_absent(s: Seq<u32>, x: u32)
    requires
        forall|j: int| 0 <= j < s.len() ==> s[j] != x,
    ensures
        without(s, x) == s,
    decreases s.len(),
{
    if s.len() > 0 {
        lemma_without_absent(s.drop_last(), x);
        assert(s.drop_last().push(s.last()) =~= s);
    }
}

/// Membership after a push.
pub proof fn lemma_contains_push(s: Seq<u32>, v: u32, x: u32)
    ensures
        s.push(v).contains(x) == (s.contains(x) || x == v),
{
    if s.contains(x) {
        let i = choose|i: int| 0 <= i < s.len() && s[i] == x;
        assert(s.push(v)[i] == x);
    }
    if x == v {
        assert(s.push(v)[s.len() as int] == x);
    }
    if s.push(v).contains(x) {
        let i = choose|i: int| 0 <= i < s.push(v).len() && s.push(v)[i] == x;
        if i < s.len() {
            assert(s[i] == x);
        }
    }
}

/// Position of the first occurrence of a value in a list of IDs.
pub fn position_of(v: &Vec<u32>, x: u32) -> (res: Option<usize>)
    ensures
        match res {
            Some(p) => p as int == first_pos(v@, x),
            None => first_pos(v@, x) < 0,
        },
{
    proof {
        lemma_first_pos(v@, x);
    }
    let mut i: usize = 0;
    while i < v.len()
        invariant
            0 <= i <= v.len(),
            forall|j: int| 0 <= j < i ==> v@[j] != x,
        decreases v.len() - i,
    {
        if v[i] == x {
            proof {
                lemma_first_pos(v@, x);
                if first_pos(v@, x) >= 0 && first_pos(v@, x) != i {
                    assert(v@[first_pos(v@, x)] == x);
                }
            }
            return Some(i);
        }
        i += 1;
    }
    None
}

/// The children of a grandparent with `dead` replaced by `orphans`.
pub fn splice_children(old: &Vec<u32>, dead: u32, orphans: &Vec<u32>) -> (res: Vec<u32>)
    ensures
        res@ == spliced(old@, dead, orphans@),
{
    let insert_pos = position_of(old, dead);
    let mut res: Vec<u32> = Vec::new();
    proof {
        lemma_first_pos(old@, dead);
    }
    match insert_pos {
        Some(p) => {
            let mut i: usize = 0;
            while i < p
                invariant
                    0 <= i <= p < old.len(),
                    res@ == old@.take(i as int),
                decreases p - i,
            {
                res.push(old[i]);
                i += 1;
                assert(res@ =~= old@.take(i as int));
            }
            let mut j: usize = 0;
            while j < orphans.len()
                invariant
                    0 <= j <= orphans.len(),
                    res@ == old@.take(p as int) + orphans@.take(j as int),
                decreases orphans.len() - j,
            {
                res.push(orphans[j]);
                j += 1;
                assert(res@ =~= old@.take(p as int) + orphans@.take(j as int));
            }
            let ghost head = old@.take(p as int) + orphans@;
            assert(orphans@.take(j as int) =~= orphans@);
            let ghost tail = old@.skip(p as int + 1);
            let mut k: usize = p + 1;
            assert(tail.take(0) =~= Seq::<u32>::empty());
            assert(head + without(tail.take(0), dead) =~= head);
            while k < old.len()
                invariant
                    p + 1 <= k <= old.len(),
                    tail == old@.skip(p as int + 1),
                    res@ == head + without(tail.take(k - p - 1), dead),
                decreases old.len() - k,
            {
                let ghost t = tail.take(k - p);
                assert(t.drop_last() =~= tail.take(k - p - 1));
                assert(t.last() == old@[k as int]);
                if old[k] != dead {
                    res.push(old[k]);
                }
                k += 1;
                assert(res@ =~= head + without(tail.take(k - p - 1), dead));
            }
            assert(tail.take(k - p - 1) =~= tail);
        },
        None => {
            let mut i: usize = 0;
            assert(old@.take(0) =~= Seq::<u32>::empty());
            while i < old.len()
                invariant
                    0 <= i <= old.len(),
                    res@ == without(old@.take(i as int), dead),
                decreases old.len() - i,
            {
                let ghost t = old@.take(i as int + 1);
                assert(t.drop_last() =~= old@.take(i as int));
                assert(t.last() == old@[i as int]);
                if old[i] != dead {
                    res.push(old[i]);
                }
                i += 1;
            }
            assert(old@.take(i as int) =~= old@);
            let ghost filtered = res@;
            let mut j: usize = 0;
            while j < orphans.len()
                invariant
                    0 <= j <= orphans.len(),
                    res@ == filtered + orphans@.take(j as int),
                decreases orphans.len() - j,
            {
                res.push(orphans[j]);
                j += 1;
                assert(res@ =~= filtered + orphans@.take(j as int));
            }
            assert(orphans@.take(j as int) =~= orphans@);
        },
    }
    res
}

impl Treewm {
    /// Close the window at `pos`: its children inherit its parent (or become
    /// roots), taking its place in the grandparent's children list. Returns
    /// the closed window's ID and what keyboard focus must do.
    pub fn remove_window(&mut self, pos: usize) -> (res: (u32, FocusChange))
        requires
            pos < old(self).windows.len(),
        ensures
            res.0 == old(self).model()[pos as int].id,
            final(self).model() == after_removal(old(self).model(), pos as int),
            old(self).wf() ==> final(self).wf(),
            old(self).forest() ==> final(self).forest(),
            old(self).forest() && old(self).focus_on_window() ==> focus_live(
                final(self).model(),
                focus_applied(old(self).focused_window_id, res.1),
            ),
            acyclic_forest(old(self).model()) ==> acyclic_forest(final(self).model()),
            acyclic_forest(old(self).model()) && old(self).focus_on_window() ==> focus_live(
                final(self).model(),
                focus_applied(old(self).focused_window_id, res.1),
            ),
            res.1 == focus_after_removal(
                old(self).focused_window_id,
                res.0,
                old(self).model()[pos as int].parent_id,
                final(self).model(),
            ),
            final(self).next_window_id == old(self).next_window_id,
            final(self).focused_window_id == old(self).focused_window_id,
            final(self).tiling_root_id == old(self).tiling_root_id,
            final(self).view_mode == old(self).view_mode,
            final(self).main_modifier == old(self).main_modifier,
    {
        proof {
            lemma_models_index(self.windows@);
        }
        let ghost m0 = self.model();
        let dead_id = self.windows[pos].id;
        let dead_parent_id = self.windows[pos].parent_id;
        let orphans = copy_ids(&self.windows[pos].children);

        // Re-parent orphans: they inherit the dead window's parent (or become roots).
        let mut j: usize = 0;
        assert(reparented(m0, orphans@.take(0), dead_parent_id) =~= m0);
        while j < orphans.len()
            invariant
                0 <= j <= orphans.len(),
                m0.len() == self.windows.len(),
                self.model() == reparented(m0, orphans@.take(j as int), dead_parent_id),
                self.next_window_id == old(self).next_window_id,
                self.focused_window_id == old(self).focused_window_id,
                self.tiling_root_id == old(self).tiling_root_id,
                self.view_mode == old(self).view_mode,
                self.main_modifier == old(self).main_modifier,
            decreases orphans.len() - j,
        {
            let child_id = orphans[j];
            proof {
                lemma_models_index(self.windows@);
                lemma_first_index_same_ids(self.model(), m0, child_id);
                lemma_first_index(m0, child_id);
                assert(orphans@.take(j as int + 1) =~= orphans@.take(j as int).push(child_id));
            }
            let ghost before = self.model();
            match self.find_index(child_id) {
                Some(k) => {
                    self.windows[k].parent_id = dead_parent_id;
                    proof {
                        lemma_models_index(self.windows@);
                        assert forall|i: int| 0 <= i < m0.len() implies #[trigger] self.model()[i]
                            == reparented(m0, orphans@.take(j as int + 1), dead_parent_id)[i] by {
                            lemma_contains_push(orphans@.take(j as int), child_id, m0[i].id);
                            assert(k as int == first_index(m0, child_id));
                            assert(before[i] == reparented(m0, orphans@.take(j as int), dead_parent_id)[i]);
                            if i != k {
                                assert(self.model()[i] == before[i]);
                            } else {
                                assert(m0[i].id == child_id);
                                assert(self.model()[i] == WindowModel { parent_id: dead_parent_id, ..before[i] });
                            }
                        }
                        assert(self.model() =~= reparented(m0, orphans@.take(j as int + 1), dead_parent_id));
                    }
                },
                None => {
                    proof {
                        assert(self.model() =~= reparented(m0, orphans@.take(j as int + 1), dead_parent_id));
                    }
                },
            }
            j += 1;
        }
        assert(orphans@.take(j as int) =~= orphans@);
        let ghost m1 = self.model();

        // Update grandparent's children list: swap dead for its orphans.
        proof {
            lemma_models_index(self.windows@);
        }
        if let Some(pid) = dead_parent_id {
            match self.find_index(pid) {
                Some(k) => {
                    proof {
                        lemma_first_index(m1, pid);
                    }
                    let new_children = splice_children(&self.windows[k].children, dead_id, &orphans);
                    self.windows[k].children = new_children;
                    proof {
                        lemma_models_index(self.windows@);
                        assert(self.model() =~= with_spliced(m1, dead_parent_id, dead_id, orphans@));
                    }
                },
                None => {},
            }
        }
        let ghost m2 = self.model();
        proof {
            lemma_models_index(self.windows@);
        }
        self.windows.remove(pos);
        proof {
            lemma_models_index(self.windows@);
            assert(self.model() =~= m2.remove(pos as int));
            if old(self).wf() {
                lemma_remove_window_wf(m0, self.next_window_id, pos as int);
            }
            if old(self).forest() {
                lemma_focus_after_removal_live(m0, self.next_window_id, pos as int, self.focused_window_id);
            }
            if acyclic_forest(m0) {
                lemma_close_keeps_acyclic_forest(m0, pos as int, self.focused_window_id);
            }
        }

        // Decide where focus goes.
        let mut is_focused = false;
        if let Some(f) = self.focused_window_id {
            is_focused = f == dead_id;
        }
        let focus = if !is_focused {
            FocusChange::Keep
        } else {
            let mut parent_alive = false;
            if let Some(pid) = dead_parent_id {
                proof {
                    lemma_first_index(self.model(), pid);
                }
                parent_alive = self.find_index(pid).is_some();
            }
            if parent_alive {
                match dead_parent_id {
                    Some(pid) => FocusChange::Focus(pid),
                    None => FocusChange::Clear,
                }
            } else if self.windows.len() > 0 {
                FocusChange::Focus(self.windows[self.windows.len() - 1].id)
            } else {
                FocusChange::Clear
            }
        };
        (dead_id, focus)
    }

    /// A closed window that was the tiling root hands that role to the window
    /// focused now.
    pub fn retarget_tiling_root(&mut self, dead_id: u32)
        ensures
            final(self).tiling_root_id == (if old(self).tiling_root_id == Some(dead_id) {
                old(self).focused_window_id
            } else {
                old(self).tiling_root_id
            }),
            final(self).windows@ == old(self).windows@,
            final(self).next_window_id == old(self).next_window_id,
            final(self).focused_window_id == old(self).focused_window_id,
            final(self).view_mode == old(self).view_mode,
            final(self).main_modifier == old(self).main_modifier,
    {
        if let Some(r) = self.tiling_root_id {
            if r == dead_id {
                self.tiling_root_id = self.focused_window_id;
            }
        }
    }
}
} // verus!
