//! Focus, tree navigation, fullscreen and view-mode switching.
use vstd::prelude::*;
use crate::state::{
    first_index, is_live, lemma_first_index, lemma_models_index, lookup, root_ids, siblings,
    ModifierKey, Treewm, ViewMode, WindowModel,
};
use crate::tree::{first_pos, lemma_first_pos, position_of};
use crate::tree_wf::{lemma_unique_first_index, lemma_forest_same_shape, lemma_wf_same_shape, forest};
use crate::ancestry::{ids_distinct, lemma_root_ids_no_duplicates};

verus! {

/// The window that holds focus, if focus names an existing window.
pub open spec fn focused_window(ws: Seq<WindowModel>, focused: Option<u32>) -> Option<WindowModel> {
    match focused {
        Some(f) => lookup(ws, f),
        None => None,
    }
}

/// Target of "focus parent": the focused window's parent link.
pub open spec fn parent_target(ws: Seq<WindowModel>, focused: Option<u32>) -> Option<u32> {
    match focused_window(ws, focused) {
        Some(w) => w.parent_id,
        None => None,
    }
}

/// Target of "focus first child".
pub open spec fn first_child_target(ws: Seq<WindowModel>, focused: Option<u32>) -> Option<u32> {
    match focused_window(ws, focused) {
        Some(w) => if w.children.len() > 0 {
            Some(w.children[0])
        } else {
            None
        },
        None => None,
    }
}

/// Target of "focus next sibling": the sibling after the focused window,
/// wrapping around; none when that is the focused window itself.
pub open spec fn next_sibling_target(ws: Seq<WindowModel>, focused: Option<u32>) -> Option<u32> {
    match focused {
        Some(f) => {
            let sib = siblings(ws, f);
            let p = first_pos(sib, f);
            if p >= 0 {
                let next = sib[(p + 1) % (sib.len() as int)];
                if next != f {
                    Some(next)
                } else {
                    None
                }
            } else {
                None
            }
        },
        None => None,
    }
}

/// A window's model after fullscreen is toggled on a screen of the given size.
pub open spec fn toggled_fullscreen(w: WindowModel, screen_w: i32, screen_h: i32) -> WindowModel {
    if !w.is_fullscreen {
        WindowModel {
            pre_fullscreen_width: w.base_width,
            pre_fullscreen_height: w.base_height,
            base_width: screen_w,
            base_height: screen_h,
            is_fullscreen: true,
            ..w
        }
    } else {
        WindowModel {
            base_width: w.pre_fullscreen_width,
            base_height: w.pre_fullscreen_height,
            is_fullscreen: false,
            ..w
        }
    }
}

/// The other view mode.
pub open spec fn other_mode(m: ViewMode) -> ViewMode {
    match m {
        ViewMode::Tiling => ViewMode::TreeView,
        ViewMode::TreeView => ViewMode::Tiling,
    }
}

/// A fullscreen toggle that took effect.
#[derive(Clone, Copy, PartialEq, Eq, Structural, Debug)]
pub struct FullscreenChange {
    pub id: u32,
    /// Whether the window entered fullscreen (otherwise it left it).
    pub entered: bool,
    /// The window's size from now on.
    pub width: i32,
    pub height: i32,
}

impl Treewm {
    /// Set keyboard focus to the window with this ID. Returns whether the
    /// focused ID changed.
    pub fn focus_by_id(&mut self, id: u32) -> (changed: bool)
        ensures
            final(self).focused_window_id == Some(id),
            changed == (old(self).focused_window_id != Some(id)),
            final(self).windows@ == old(self).windows@,
            final(self).next_window_id == old(self).next_window_id,
            final(self).tiling_root_id == old(self).tiling_root_id,
            final(self).view_mode == old(self).view_mode,
            final(self).main_modifier == old(self).main_modifier,
    {
        let changed = match self.focused_window_id {
            Some(f) => f != id,
            None => true,
        };
        self.focused_window_id = Some(id);
        changed
    }

    /// Clear keyboard focus. Returns whether something was focused.
    pub fn focus_clear(&mut self) -> (changed: bool)
        ensures
            final(self).focused_window_id == None::<u32>,
            changed == (old(self).focused_window_id is Some),
            final(self).windows@ == old(self).windows@,
            final(self).next_window_id == old(self).next_window_id,
            final(self).tiling_root_id == old(self).tiling_root_id,
            final(self).view_mode == old(self).view_mode,
            final(self).main_modifier == old(self).main_modifier,
    {
        let changed = self.focused_window_id.is_some();
        self.focused_window_id = None;
        changed
    }

    /// Position of the focused window.
    pub fn focused_index(&self) -> (res: Option<usize>)
        ensures
            match res {
                Some(k) => self.focused_window_id matches Some(f) && k as int == first_index(self.model(), f),
                None => focused_window(self.model(), self.focused_window_id) is None,
            },
    {
        match self.focused_window_id {
            Some(f) => {
                proof {
                    lemma_first_index(self.model(), f);
                }
                self.find_index(f)
            },
            None => None,
        }
    }

    /// The focused window's parent (Ctrl+P).
    pub fn parent_target(&self) -> (res: Option<u32>)
        ensures
            res == parent_target(self.model(), self.focused_window_id),
    {
        proof {
            lemma_models_index(self.windows@);
        }
        match self.focused_index() {
            Some(k) => {
                proof {
                    lemma_first_index(self.model(), self.focused_window_id->0);
                }
                self.windows[k].parent_id
            },
            None => None,
        }
    }

    /// The focused window's first child (Ctrl+C).
    pub fn first_child_target(&self) -> (res: Option<u32>)
        ensures
            res == first_child_target(self.model(), self.focused_window_id),
    {
        proof {
            lemma_models_index(self.windows@);
        }
        match self.focused_index() {
            Some(k) => {
                proof {
                    lemma_first_index(self.model(), self.focused_window_id->0);
                }
                if self.windows[k].children.len() > 0 {
                    Some(self.windows[k].children[0])
                } else {
                    None
                }
            },
            None => None,
        }
    }

    /// The focused window's next sibling, wrapping around (Ctrl+N).
    pub fn next_sibling_target(&self) -> (res: Option<u32>)
        ensures
            res == next_sibling_target(self.model(), self.focused_window_id),
    {
        match self.focused_window_id {
            Some(fid) => {
                let sib = self.siblings_of(fid);
                proof {
                    lemma_first_pos(sib@, fid);
                }
                match position_of(&sib, fid) {
                    Some(pos) => {
                        let next = sib[(pos + 1) % sib.len()];
                        if next != fid {
                            Some(next)
                        } else {
                            None
                        }
                    },
                    None => None,
                }
            },
            None => None,
        }
    }

    /// Give the window with this ID a new size. Returns whether there is one.
    pub fn set_window_size(&mut self, id: u32, width: i32, height: i32) -> (found: bool)
        ensures
            found == (first_index(old(self).model(), id) >= 0),
            found ==> final(self).model() == old(self).model().update(
                first_index(old(self).model(), id),
                WindowModel {
                    base_width: width,
                    base_height: height,
                    ..old(self).model()[first_index(old(self).model(), id)]
                },
            ),
            !found ==> final(self).model() == old(self).model(),
            old(self).wf() ==> final(self).wf(),
            old(self).forest() ==> final(self).forest(),
            final(self).next_window_id == old(self).next_window_id,
            final(self).focused_window_id == old(self).focused_window_id,
            final(self).tiling_root_id == old(self).tiling_root_id,
            final(self).view_mode == old(self).view_mode,
            final(self).main_modifier == old(self).main_modifier,
    {
        proof {
            lemma_models_index(self.windows@);
            lemma_first_index(self.model(), id);
        }
        match self.find_index(id) {
            Some(k) => {
                self.windows[k].base_width = width;
                self.windows[k].base_height = height;
                proof {
                    lemma_models_index(self.windows@);
                    assert(self.model() =~= old(self).model().update(
                        k as int,
                        WindowModel { base_width: width, base_height: height, ..old(self).model()[k as int] },
                    ));
                    if old(self).wf() {
                        lemma_wf_same_shape(old(self).model(), self.model(), self.next_window_id, self.next_window_id);
                    }
                    if old(self).forest() {
                        lemma_forest_same_shape(old(self).model(), self.model(), self.next_window_id, self.next_window_id);
                    }
                }
                true
            },
            None => false,
        }
    }

    /// Toggle fullscreen on the focused window for a screen of the given size.
    pub fn toggle_fullscreen(&mut self, screen_w: i32, screen_h: i32) -> (res: Option<FullscreenChange>)
        ensures
            match focused_window(old(self).model(), old(self).focused_window_id) {
                Some(w) => {
                    let k = first_index(old(self).model(), w.id);
                    let t = toggled_fullscreen(w, screen_w, screen_h);
                    &&& final(self).model() == old(self).model().update(k, t)
                    &&& res == Some(
                        FullscreenChange {
                            id: w.id,
                            entered: t.is_fullscreen,
                            width: t.base_width,
                            height: t.base_height,
                        },
                    )
                },
                None => final(self).model() == old(self).model() && res is None,
            },
            old(self).wf() ==> final(self).wf(),
            old(self).forest() ==> final(self).forest(),
            final(self).next_window_id == old(self).next_window_id,
            final(self).focused_window_id == old(self).focused_window_id,
            final(self).tiling_root_id == old(self).tiling_root_id,
            final(self).view_mode == old(self).view_mode,
            final(self).main_modifier == old(self).main_modifier,
    {
        proof {
            lemma_models_index(self.windows@);
        }
        match self.focused_index() {
            Some(k) => {
                proof {
                    lemma_first_index(self.model(), self.focused_window_id->0);
                }
                if !self.windows[k].is_fullscreen {
                    let w = self.windows[k].base_width;
                    let h = self.windows[k].base_height;
                    self.windows[k].pre_fullscreen_width = w;
                    self.windows[k].pre_fullscreen_height = h;
                    self.windows[k].base_width = screen_w;
                    self.windows[k].base_height = screen_h;
                    self.windows[k].is_fullscreen = true;
                } else {
                    let w = self.windows[k].pre_fullscreen_width;
                    let h = self.windows[k].pre_fullscreen_height;
                    self.windows[k].base_width = w;
                    self.windows[k].base_height = h;
                    self.windows[k].is_fullscreen = false;
                }
                proof {
                    lemma_models_index(self.windows@);
                    assert(self.model() =~= old(self).model().update(
                        k as int,
                        toggled_fullscreen(old(self).model()[k as int], screen_w, screen_h),
                    ));
                    if old(self).wf() {
                        lemma_wf_same_shape(old(self).model(), self.model(), self.next_window_id, self.next_window_id);
                    }
                    if old(self).forest() {
                        lemma_forest_same_shape(old(self).model(), self.model(), self.next_window_id, self.next_window_id);
                    }
                }
                Some(
                    FullscreenChange {
                        id: self.windows[k].id,
                        entered: self.windows[k].is_fullscreen,
                        width: self.windows[k].base_width,
                        height: self.windows[k].base_height,
                    },
                )
            },
            None => None,
        }
    }

    /// Switch between tiling and tree view; returning to tiling makes the
    /// focused window the tiling root. Returns the new mode.
    pub fn toggle_view_mode(&mut self) -> (m: ViewMode)
        ensures
            m == other_mode(old(self).view_mode),
            final(self).view_mode == m,
            final(self).tiling_root_id == (if m == ViewMode::Tiling {
                old(self).focused_window_id
            } else {
                old(self).tiling_root_id
            }),
            final(self).windows@ == old(self).windows@,
            final(self).next_window_id == old(self).next_window_id,
            final(self).focused_window_id == old(self).focused_window_id,
            final(self).main_modifier == old(self).main_modifier,
    {
        let m = match self.view_mode {
            ViewMode::Tiling => ViewMode::TreeView,
            ViewMode::TreeView => ViewMode::Tiling,
        };
        self.view_mode = m;
        if m == ViewMode::Tiling {
            self.tiling_root_id = self.focused_window_id;
        }
        m
    }

    /// Switch to the given view mode; entering tiling makes the focused window
    /// the tiling root. Returns whether the mode changed.
    pub fn set_view_mode(&mut self, m: ViewMode) -> (changed: bool)
        ensures
            changed == (old(self).view_mode != m),
            final(self).view_mode == m,
            final(self).tiling_root_id == (if changed && m == ViewMode::Tiling {
                old(self).focused_window_id
            } else {
                old(self).tiling_root_id
            }),
            final(self).windows@ == old(self).windows@,
            final(self).next_window_id == old(self).next_window_id,
            final(self).focused_window_id == old(self).focused_window_id,
            final(self).main_modifier == old(self).main_modifier,
    {
        if self.view_mode == m {
            return false;
        }
        self.view_mode = m;
        if m == ViewMode::Tiling {
            self.tiling_root_id = self.focused_window_id;
        }
        true
    }
}

/// Every listed root is an existing window without a parent.
pub proof fn lemma_root_ids_contains(ws: Seq<WindowModel>, x: u32)
    requires
        root_ids(ws).contains(x),
    ensures
        exists|i: int| 0 <= i < ws.len() && ws[i].id == x && ws[i].parent_id is None,
    decreases ws.len(),
{
    let rest = root_ids(ws.drop_last());
    if ws.last().parent_id is None && x == ws.last().id {
        assert(ws[ws.len() - 1].id == x);
    } else {
        if ws.last().parent_id is None {
            let i = choose|i: int| 0 <= i < root_ids(ws).len() && root_ids(ws)[i] == x;
            assert(rest.push(ws.last().id)[i] == x);
            assert(rest[i] == x);
        }
        lemma_root_ids_contains(ws.drop_last(), x);
        let i = choose|i: int| 0 <= i < ws.drop_last().len() && ws.drop_last()[i].id == x && ws.drop_last()[i].parent_id is None;
        assert(ws[i] == ws.drop_last()[i]);
    }
}

/// "Focus first child" then "focus parent" comes back to the same window.
pub proof fn lemma_child_then_parent(ws: Seq<WindowModel>, next: u32, f: u32)
    requires
        forest(ws, next),
        first_child_target(ws, Some(f)) is Some,
    ensures
        parent_target(ws, first_child_target(ws, Some(f))) == Some(f),
{
    lemma_first_index(ws, f);
    let k = first_index(ws, f);
    let c = ws[k].children[0];
    assert(is_live(ws, ws[k].children[0]));
    let j = choose|j: int| 0 <= j < ws.len() && ws[j].id == c;
    assert(ws[j].parent_id == Some(ws[k].id));
    lemma_unique_first_index(ws, j);
}

/// "Focus next sibling" stays among the same siblings.
pub proof fn lemma_next_sibling_same_siblings(ws: Seq<WindowModel>, next: u32, f: u32)
    requires
        forest(ws, next),
        next_sibling_target(ws, Some(f)) is Some,
    ensures
        siblings(ws, next_sibling_target(ws, Some(f))->0) == siblings(ws, f),
{
    let sib = siblings(ws, f);
    lemma_first_pos(sib, f);
    let p = first_pos(sib, f);
    let q = (p + 1) % (sib.len() as int);
    let x = sib[q];
    assert(sib.contains(x));
    lemma_first_index(ws, f);
    let parent = match lookup(ws, f) {
        Some(w) => w.parent_id,
        None => None,
    };
    match parent {
        Some(pid) => {
            lemma_first_index(ws, pid);
            let k = first_index(ws, pid);
            assert(k >= 0);
            assert(is_live(ws, ws[k].children[q]));
            let j = choose|j: int| 0 <= j < ws.len() && ws[j].id == x;
            assert(ws[j].parent_id == Some(ws[k].id));
            lemma_unique_first_index(ws, j);
        },
        None => {
            lemma_root_ids_contains(ws, x);
            let j = choose|j: int| 0 <= j < ws.len() && ws[j].id == x && ws[j].parent_id is None;
            lemma_unique_first_index(ws, j);
        },
    }
}

/// Every member of a sibling group has that same group as its siblings, and
/// the group lists nobody twice.
pub proof fn lemma_siblings_closed(ws: Seq<WindowModel>, next: u32, f: u32, q: int)
    requires
        forest(ws, next),
        0 <= q < siblings(ws, f).len(),
    ensures
        siblings(ws, siblings(ws, f)[q]) == siblings(ws, f),
        siblings(ws, f).no_duplicates(),
{
    let sib = siblings(ws, f);
    let x = sib[q];
    lemma_first_index(ws, f);
    let parent = match lookup(ws, f) {
        Some(w) => w.parent_id,
        None => None,
    };
    match parent {
        Some(pid) => {
            lemma_first_index(ws, pid);
            let k = first_index(ws, pid);
            assert(k >= 0);
            assert(sib == ws[k].children);
            assert(is_live(ws, ws[k].children[q]));
            let j = choose|j: int| 0 <= j < ws.len() && ws[j].id == x;
            assert(ws[j].parent_id == Some(ws[k].id));
            lemma_unique_first_index(ws, j);
        },
        None => {
            assert(sib.contains(x));
            lemma_root_ids_contains(ws, x);
            let j = choose|j: int| 0 <= j < ws.len() && ws[j].id == x && ws[j].parent_id is None;
            lemma_unique_first_index(ws, j);
            assert(ids_distinct(ws));
            lemma_root_ids_no_duplicates(ws);
        },
    }
}

/// Where pressing "focus next sibling" `k` times from `f` leads (`None` once
/// a press finds no target).
pub open spec fn sibling_walk(ws: Seq<WindowModel>, f: u32, k: nat) -> Option<u32>
    decreases k,
{
    if k == 0 {
        Some(f)
    } else {
        match sibling_walk(ws, f, (k - 1) as nat) {
            Some(g) => next_sibling_target(ws, Some(g)),
            None => None,
        }
    }
}

/// "Focus next sibling" goes round the siblings in order: after `k` presses
/// focus is `k` places further along (wrapping around), so it visits every
/// sibling and is back where it started after as many presses as there are
/// siblings.
pub proof fn lemma_next_sibling_cycle(ws: Seq<WindowModel>, next: u32, f: u32)
    requires
        forest(ws, next),
        siblings(ws, f).contains(f),
        siblings(ws, f).len() >= 2,
    ensures
        forall|k: nat|
            k <= siblings(ws, f).len() ==> #[trigger] sibling_walk(ws, f, k) == Some(
                siblings(ws, f)[(first_pos(siblings(ws, f), f) + k) % (siblings(ws, f).len() as int)],
            ),
        sibling_walk(ws, f, siblings(ws, f).len()) == Some(f),
        forall|j: int|
            #![trigger siblings(ws, f)[j]]
            0 <= j < siblings(ws, f).len() ==> exists|k: nat|
                k < siblings(ws, f).len() && #[trigger] sibling_walk(ws, f, k) == Some(siblings(ws, f)[j]),
{
    let sib = siblings(ws, f);
    let n = sib.len() as int;
    lemma_first_pos(sib, f);
    let p = first_pos(sib, f);
    lemma_siblings_closed(ws, next, f, 0);
    assert forall|k: nat| k <= n implies #[trigger] sibling_walk(ws, f, k) == Some(sib[(p + k) % n]) by {
        lemma_walk_step(ws, next, f, k);
    }
    assert(sibling_walk(ws, f, n as nat) == Some(sib[(p + n) % n]));
    vstd::arithmetic::div_mod::lemma_mod_add_multiples_vanish(p, n);
    vstd::arithmetic::div_mod::lemma_small_mod(p as nat, n as nat);
    assert forall|j: int| #![trigger sib[j]] 0 <= j < n implies exists|k: nat| k < n && #[trigger] sibling_walk(ws, f, k) == Some(sib[j]) by {
        let k: nat = if j >= p { (j - p) as nat } else { (j - p + n) as nat };
        assert(sibling_walk(ws, f, k) == Some(sib[(p + k) % n]));
        vstd::arithmetic::div_mod::lemma_small_mod(j as nat, n as nat);
        if j < p {
            vstd::arithmetic::div_mod::lemma_mod_add_multiples_vanish(j, n);
            assert(p + k == n + j);
        }
    }
}

/// One step of the walk: `k` presses lead `k` places along.
proof fn lemma_walk_step(ws: Seq<WindowModel>, next: u32, f: u32, k: nat)
    requires
        forest(ws, next),
        siblings(ws, f).contains(f),
        siblings(ws, f).len() >= 2,
    ensures
        sibling_walk(ws, f, k) == Some(
            siblings(ws, f)[(first_pos(siblings(ws, f), f) + k) % (siblings(ws, f).len() as int)],
        ),
    decreases k,
{
    let sib = siblings(ws, f);
    let n = sib.len() as int;
    lemma_first_pos(sib, f);
    let p = first_pos(sib, f);
    if k == 0 {
        vstd::arithmetic::div_mod::lemma_small_mod(p as nat, n as nat);
    } else {
        lemma_walk_step(ws, next, f, (k - 1) as nat);
        let i = (p + k - 1) % n;
        vstd::arithmetic::div_mod::lemma_mod_bound(p + k - 1, n);
        let g = sib[i];
        lemma_siblings_closed(ws, next, f, i);
        // `g` is listed once, at `i`.
        lemma_first_pos(sib, g);
        assert(first_pos(sib, g) == i) by {
            assert(sib.contains(g));
        }
        vstd::arithmetic::div_mod::lemma_add_mod_noop(p + k - 1, 1, n);
        vstd::arithmetic::div_mod::lemma_small_mod(1, n as nat);
        let i2 = (i + 1) % n;
        assert(i2 == (p + k) % n);
        vstd::arithmetic::div_mod::lemma_mod_bound(i + 1, n);
        assert(sib[i2] != g) by {
            if i + 1 < n {
                vstd::arithmetic::div_mod::lemma_small_mod((i + 1) as nat, n as nat);
            } else {
                vstd::arithmetic::div_mod::lemma_mod_self_0(n);
            }
        }
    }
}

/// Entering fullscreen makes the window exactly the screen's size and
/// remembers its size before; leaving it gives back the remembered size.
/// Nothing but size and fullscreen state changes.
pub proof fn lemma_fullscreen_sizes(w: WindowModel, sw: i32, sh: i32)
    ensures
        ({
            let t = toggled_fullscreen(w, sw, sh);
            &&& t.is_fullscreen == !w.is_fullscreen
            &&& t.id == w.id && t.parent_id == w.parent_id && t.children == w.children
            &&& !w.is_fullscreen ==> t.base_width == sw && t.base_height == sh && t.pre_fullscreen_width
                == w.base_width && t.pre_fullscreen_height == w.base_height
            &&& w.is_fullscreen ==> t.base_width == w.pre_fullscreen_width && t.base_height
                == w.pre_fullscreen_height
        }),
{
}

/// Toggling fullscreen twice restores the window's size and mode.
pub proof fn lemma_fullscreen_round_trip(w: WindowModel, sw1: i32, sh1: i32, sw2: i32, sh2: i32)
    requires
        !w.is_fullscreen,
    ensures
        toggled_fullscreen(toggled_fullscreen(w, sw1, sh1), sw2, sh2).base_width == w.base_width,
        toggled_fullscreen(toggled_fullscreen(w, sw1, sh1), sw2, sh2).base_height == w.base_height,
        toggled_fullscreen(toggled_fullscreen(w, sw1, sh1), sw2, sh2).is_fullscreen == w.is_fullscreen,
        toggled_fullscreen(toggled_fullscreen(w, sw1, sh1), sw2, sh2).id == w.id,
        toggled_fullscreen(toggled_fullscreen(w, sw1, sh1), sw2, sh2).parent_id == w.parent_id,
        toggled_fullscreen(toggled_fullscreen(w, sw1, sh1), sw2, sh2).children == w.children,
{
}

/// Switching view mode twice comes back to the same mode.
pub proof fn lemma_view_mode_round_trip(m: ViewMode)
    ensures
        other_mode(other_mode(m)) == m,
{
}


impl Treewm {
    /// A compositor with no windows yet.
    pub fn new(main_modifier: ModifierKey) -> (s: Treewm)
        ensures
            s.windows@.len() == 0,
            s.next_window_id == 0,
            s.focused_window_id is None,
            s.tiling_root_id is None,
            s.view_mode == ViewMode::Tiling,
            s.main_modifier == main_modifier,
            s.wf(),
    {
        let s = Treewm {
            windows: Vec::new(),
            next_window_id: 0,
            focused_window_id: None,
            tiling_root_id: None,
            view_mode: ViewMode::Tiling,
            main_modifier,
        };
        assert(s.model() =~= Seq::<WindowModel>::empty());
        s
    }

    /// Move focus to a window picked by tree navigation, which also becomes
    /// the tiling root. Returns whether the focused ID changed.
    pub fn focus_tree_target(&mut self, id: u32) -> (changed: bool)
        ensures
            final(self).focused_window_id == Some(id),
            final(self).tiling_root_id == Some(id),
            changed == (old(self).focused_window_id != Some(id)),
            final(self).windows@ == old(self).windows@,
            final(self).next_window_id == old(self).next_window_id,
            final(self).view_mode == old(self).view_mode,
            final(self).main_modifier == old(self).main_modifier,
    {
        let changed = self.focus_by_id(id);
        self.tiling_root_id = Some(id);
        changed
    }
}

/// Where the tree-view zoom animation stands.
#[derive(Clone, Copy, PartialEq, Eq, Structural, Debug)]
pub struct ZoomPhase {
    /// The zoom is on its way back to 1.
    pub returning: bool,
    /// A zoom animation is running.
    pub animating: bool,
}

/// What the zoom animation does at the end of a frame: whether it starts the
/// return to zoom 1 (a fresh animation), and its phase afterwards.
#[derive(Clone, Copy, PartialEq, Eq, Structural, Debug)]
pub struct ZoomStep {
    pub start_return: bool,
    pub phase: ZoomPhase,
}

/// The zoom-animation step once the current animation is (or is not yet)
/// done, by two rules: a running zoom-out that is done, and not returning
/// yet, starts the return (and is returning from then on); a return that is
/// done stops the animation.
pub open spec fn zoom_step_spec(done: bool, p: ZoomPhase) -> ZoomStep {
    let start_return = done && p.animating && !p.returning;
    let return_done = done && p.returning;
    ZoomStep {
        start_return,
        phase: ZoomPhase { returning: p.returning || start_return, animating: p.animating && !return_done },
    }
}

/// Advance the zoom animation's phase at the end of a frame.
pub fn zoom_step(done: bool, p: ZoomPhase) -> (res: ZoomStep)
    ensures
        res == zoom_step_spec(done, p),
{
    if done && !p.returning && p.animating {
        ZoomStep { start_return: true, phase: ZoomPhase { returning: true, animating: p.animating } }
    } else if p.returning && done {
        ZoomStep { start_return: false, phase: ZoomPhase { returning: p.returning, animating: false } }
    } else {
        ZoomStep { start_return: false, phase: p }
    }
}

/// A zoom animation that has finished and returned stops; the return is
/// started at most once, since the phase never leaves "returning".
pub proof fn lemma_zoom_return_once(done1: bool, done2: bool, p: ZoomPhase)
    ensures
        zoom_step_spec(done1, p).start_return ==> !zoom_step_spec(done2, zoom_step_spec(done1, p).phase).start_return,
        p.returning ==> zoom_step_spec(done1, p).phase.returning,
{
}
} // verus!
