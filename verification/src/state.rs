//! Compositor state: view modes, modifier keys, windows and the window tree.
use vstd::prelude::*;

verus! {

/// How windows are arranged on the canvas.
#[derive(Clone, Copy, PartialEq, Eq, Structural, Debug)]
pub enum ViewMode {
    Tiling,
    TreeView,
}

impl Default for ViewMode {
    fn default() -> (m: ViewMode)
        ensures
            m == ViewMode::Tiling,
    {
        ViewMode::Tiling
    }
}

/// The modifier that starts every compositor key binding.
#[derive(Clone, Copy, PartialEq, Eq, Structural, Debug)]
pub enum ModifierKey {
    Ctrl,
    Alt,
    Super,
    Shift,
}

} // verus!

verus! {

/// What the compositor knows about one window, apart from its surface and its
/// floating-point canvas position: its place in the window tree and its size.
pub struct CanvasWindow {
    pub id: u32,
    /// `None` means this window is a tree root.
    pub parent_id: Option<u32>,
    /// IDs of direct children, in open order.
    pub children: Vec<u32>,
    pub base_width: i32,
    pub base_height: i32,
    pub is_fullscreen: bool,
    pub pre_fullscreen_width: i32,
    pub pre_fullscreen_height: i32,
}

/// The plain-value part of a window, as the contracts speak of it.
pub struct WindowModel {
    pub id: u32,
    pub parent_id: Option<u32>,
    pub children: Seq<u32>,
    pub base_width: i32,
    pub base_height: i32,
    pub is_fullscreen: bool,
    pub pre_fullscreen_width: i32,
    pub pre_fullscreen_height: i32,
}

impl View for CanvasWindow {
    type V = WindowModel;

    open spec fn view(&self) -> WindowModel {
        WindowModel {
            id: self.id,
            parent_id: self.parent_id,
            children: self.children@,
            base_width: self.base_width,
            base_height: self.base_height,
            is_fullscreen: self.is_fullscreen,
            pre_fullscreen_width: self.pre_fullscreen_width,
            pre_fullscreen_height: self.pre_fullscreen_height,
        }
    }
}

/// The compositor's window tree and the state that the tree operations read.
pub struct Treewm {
    pub windows: Vec<CanvasWindow>,
    pub next_window_id: u32,
    /// The ID of the window that currently holds keyboard focus.
    pub focused_window_id: Option<u32>,
    pub tiling_root_id: Option<u32>,
    pub view_mode: ViewMode,
    pub main_modifier: ModifierKey,
}

/// The windows of a state as a sequence of models.
pub open spec fn models(ws: Seq<CanvasWindow>) -> Seq<WindowModel> {
    ws.map_values(|w: CanvasWindow| w@)
}

/// Index of the first window with this ID, or -1.
pub open spec fn first_index(ws: Seq<WindowModel>, id: u32) -> int
    decreases ws.len(),
{
    if ws.len() == 0 {
        -1
    } else if ws[0].id == id {
        0
    } else {
        let k = first_index(ws.drop_first(), id);
        if k < 0 {
            -1
        } else {
            k + 1
        }
    }
}

/// The first window with this ID, as the compositor's lookups find it.
pub open spec fn lookup(ws: Seq<WindowModel>, id: u32) -> Option<WindowModel> {
    let k = first_index(ws, id);
    if k < 0 {
        None
    } else {
        Some(ws[k])
    }
}

/// Whether a window with this ID exists.
pub open spec fn is_live(ws: Seq<WindowModel>, id: u32) -> bool {
    exists|i: int| 0 <= i < ws.len() && ws[i].id == id
}

/// Children of the window with this ID; empty when there is none.
pub open spec fn children_of(ws: Seq<WindowModel>, id: u32) -> Seq<u32> {
    match lookup(ws, id) {
        Some(w) => w.children,
        None => Seq::empty(),
    }
}

/// IDs of the windows without a parent, in window order.
pub open spec fn root_ids(ws: Seq<WindowModel>) -> Seq<u32>
    decreases ws.len(),
{
    if ws.len() == 0 {
        Seq::empty()
    } else {
        let rest = root_ids(ws.drop_last());
        if ws.last().parent_id is None {
            rest.push(ws.last().id)
        } else {
            rest
        }
    }
}

/// Siblings of `id` in tree order, itself included; for a root (or an unknown
/// ID) all roots.
pub open spec fn siblings(ws: Seq<WindowModel>, id: u32) -> Seq<u32> {
    let parent = match lookup(ws, id) {
        Some(w) => w.parent_id,
        None => None,
    };
    match parent {
        Some(pid) => children_of(ws, pid),
        None => root_ids(ws),
    }
}

/// `first_index` is the first position holding the ID.
pub proof fn lemma_first_index(ws: Seq<WindowModel>, id: u32)
    ensures
        first_index(ws, id) >= 0 ==> {
            &&& first_index(ws, id) < ws.len()
            &&& ws[first_index(ws, id)].id == id
            &&& forall|j: int| 0 <= j < first_index(ws, id) ==> ws[j].id != id
        },
        first_index(ws, id) < 0 ==> first_index(ws, id) == -1 && forall|j: int|
            0 <= j < ws.len() ==> ws[j].id != id,
    decreases ws.len(),
{
    if ws.len() > 0 && ws[0].id != id {
        lemma_first_index(ws.drop_first(), id);
        assert forall|j: int| 1 <= j < ws.len() implies ws[j] == ws.drop_first()[j - 1] by {}
    }
}

/// A position whose ID differs from all earlier ones is the first index.
pub proof fn lemma_first_index_at(ws: Seq<WindowModel>, id: u32, i: int)
    requires
        0 <= i < ws.len(),
        ws[i].id == id,
        forall|j: int| 0 <= j < i ==> ws[j].id != id,
    ensures
        first_index(ws, id) == i,
{
    lemma_first_index(ws, id);
}

/// Models of a window sequence, one position at a time.
pub proof fn lemma_models_index(ws: Seq<CanvasWindow>)
    ensures
        models(ws).len() == ws.len(),
        forall|i: int| 0 <= i < ws.len() ==> #[trigger] models(ws)[i] == ws[i]@,
{
}

impl Treewm {
    /// The model of the window list.
    pub open spec fn model(&self) -> Seq<WindowModel> {
        models(self.windows@)
    }

    /// Position of the first window with this ID.
    pub fn find_index(&self, id: u32) -> (res: Option<usize>)
        ensures
            match res {
                Some(k) => k as int == first_index(self.model(), id),
                None => first_index(self.model(), id) < 0,
            },
    {
        proof {
            lemma_models_index(self.windows@);
            lemma_first_index(self.model(), id);
        }
        let mut i: usize = 0;
        while i < self.windows.len()
            invariant
                0 <= i <= self.windows.len(),
                self.model().len() == self.windows.len(),
                forall|j: int| 0 <= j < i ==> self.model()[j].id != id,
            decreases self.windows.len() - i,
        {
            if self.windows[i].id == id {
                proof {
                    lemma_first_index_at(self.model(), id, i as int);
                }
                return Some(i);
            }
            i += 1;
        }
        None
    }

    /// Hand out a fresh window ID.
    pub fn alloc_id(&mut self) -> (id: u32)
        requires
            old(self).next_window_id < u32::MAX,
        ensures
            id == old(self).next_window_id,
            final(self).next_window_id == old(self).next_window_id + 1,
            final(self).windows@ == old(self).windows@,
            final(self).focused_window_id == old(self).focused_window_id,
            final(self).tiling_root_id == old(self).tiling_root_id,
            final(self).view_mode == old(self).view_mode,
            final(self).main_modifier == old(self).main_modifier,
    {
        let id = self.next_window_id;
        self.next_window_id = self.next_window_id + 1;
        id
    }
}


/// A copy of a list of window IDs.
pub fn copy_ids(v: &Vec<u32>) -> (res: Vec<u32>)
    ensures
        res@ == v@,
{
    let res = v.clone();
    assert(res@ =~= v@);
    res
}

impl Treewm {
    /// IDs of the windows without a parent, in window order.
    pub fn root_ids(&self) -> (res: Vec<u32>)
        ensures
            res@ == root_ids(self.model()),
    {
        let mut res: Vec<u32> = Vec::new();
        let mut i: usize = 0;
        proof {
            lemma_models_index(self.windows@);
            assert(self.model().take(0) =~= Seq::<WindowModel>::empty());
        }
        while i < self.windows.len()
            invariant
                0 <= i <= self.windows.len(),
                self.model().len() == self.windows.len(),
                res@ == root_ids(self.model().take(i as int)),
            decreases self.windows.len() - i,
        {
            proof {
                let t = self.model().take(i as int + 1);
                assert(t.drop_last() =~= self.model().take(i as int));
                assert(t.last() == self.windows@[i as int]@);
            }
            if self.windows[i].parent_id.is_none() {
                res.push(self.windows[i].id);
            }
            i += 1;
        }
        proof {
            assert(self.model().take(i as int) =~= self.model());
        }
        res
    }

    /// Children of the window with this ID; empty when there is none.
    pub fn children_of(&self, id: u32) -> (res: Vec<u32>)
        ensures
            res@ == children_of(self.model(), id),
    {
        proof {
            lemma_models_index(self.windows@);
            lemma_first_index(self.model(), id);
        }
        match self.find_index(id) {
            Some(k) => copy_ids(&self.windows[k].children),
            None => Vec::new(),
        }
    }

    /// Siblings of `id` in tree order (includes `id` itself).
    /// For roots the siblings are all other roots.
    pub fn siblings_of(&self, id: u32) -> (res: Vec<u32>)
        ensures
            res@ == siblings(self.model(), id),
    {
        proof {
            lemma_models_index(self.windows@);
            lemma_first_index(self.model(), id);
        }
        let parent_id = match self.find_index(id) {
            Some(k) => self.windows[k].parent_id,
            None => None,
        };
        match parent_id {
            Some(pid) => self.children_of(pid),
            None => self.root_ids(),
        }
    }
}
} // verus!
