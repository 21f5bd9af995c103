//! Input decisions: key bindings, window borders and interactive resizing.
use vstd::prelude::*;
use crate::state::{first_index, lemma_first_index, lemma_models_index, ModifierKey, Treewm, ViewMode, WindowModel};
use crate::nav::focused_window;
use crate::tree_wf::{lemma_forest_same_shape, lemma_wf_same_shape};

verus! {

/// Keys that the compositor's bindings look at.
#[derive(Clone, Copy, PartialEq, Eq, Structural, Debug)]
pub enum Key {
    Left,
    Right,
    Up,
    Down,
    Home,
    BackSpace,
    Space,
    Q,
    P,
    N,
    C,
    Z,
    F,
    Other,
}

/// Modifier keys held during a key press.
#[derive(Clone, Copy, PartialEq, Eq, Structural, Debug)]
pub struct Modifiers {
    pub ctrl: bool,
    pub alt: bool,
    pub shift: bool,
    pub logo: bool,
}

/// What a key press asks the compositor to do.
#[derive(Clone, Copy, PartialEq, Eq, Structural, Debug)]
pub enum KeyAction {
    /// Hand the key to the focused client.
    Forward,
    /// Grow or shrink the focused window with this arrow key, then lay out.
    ResizeFocused(Key),
    /// Pan the viewport by this many pixels.
    Pan { dx: i32, dy: i32 },
    /// Put the viewport back at the origin (tiling mode).
    ResetViewport,
    /// Frame all root windows (tree view).
    SnapToRoots,
    /// Leave the compositor.
    Quit,
    ToggleViewMode,
    /// Ask the focused window to close.
    CloseFocused,
    FocusParent,
    FocusNextSibling,
    FocusFirstChild,
    FocusZoom,
    ToggleFullscreen,
}

/// Distance in pixels that arrow-key panning moves the viewport.
pub const PAN_STEP: i32 = 100;
/// Pixels that one arrow-key resize step adds or removes.
pub const RESIZE_STEP: i32 = 32;
/// Smallest window side that resizing produces.
pub const MIN_WINDOW_SIDE: i32 = 128;
/// Width of the grab band around a window's border, in pixels.
pub const BORDER_GRAB: i32 = 8;

/// Whether the configured main modifier is held.
pub open spec fn main_held(main: ModifierKey, mods: Modifiers) -> bool {
    match main {
        ModifierKey::Ctrl => mods.ctrl,
        ModifierKey::Alt => mods.alt,
        ModifierKey::Shift => mods.shift,
        ModifierKey::Super => mods.logo,
    }
}

/// The key bindings, checked in order:
/// main+Shift+key with a focused window resizes it (any key is taken);
/// main+arrow pans; main+Home resets (tiling) or frames the roots (tree);
/// main+Alt+BackSpace quits; main+Space switches view mode;
/// main+Q/P/N/C close the focused window or move focus to its parent, next
/// sibling or first child; main+Z zooms on focus; main+F toggles fullscreen.
pub open spec fn key_binding(
    key: Key,
    mods: Modifiers,
    main: ModifierKey,
    pressed: bool,
    has_focused_window: bool,
    mode: ViewMode,
) -> KeyAction {
    let m = main_held(main, mods);
    if !pressed {
        KeyAction::Forward
    } else if m && mods.shift && has_focused_window {
        KeyAction::ResizeFocused(key)
    } else if m && !mods.shift && key == Key::Left {
        KeyAction::Pan { dx: (-PAN_STEP) as i32, dy: 0 }
    } else if m && !mods.shift && key == Key::Right {
        KeyAction::Pan { dx: PAN_STEP, dy: 0 }
    } else if m && !mods.shift && key == Key::Up {
        KeyAction::Pan { dx: 0, dy: (-PAN_STEP) as i32 }
    } else if m && !mods.shift && key == Key::Down {
        KeyAction::Pan { dx: 0, dy: PAN_STEP }
    } else if m && !mods.shift && key == Key::Home {
        if mode == ViewMode::Tiling {
            KeyAction::ResetViewport
        } else {
            KeyAction::SnapToRoots
        }
    } else if m && mods.alt && key == Key::BackSpace {
        KeyAction::Quit
    } else if m && key == Key::Space {
        KeyAction::ToggleViewMode
    } else if m && key == Key::Q {
        KeyAction::CloseFocused
    } else if m && key == Key::P {
        KeyAction::FocusParent
    } else if m && key == Key::N {
        KeyAction::FocusNextSibling
    } else if m && key == Key::C {
        KeyAction::FocusFirstChild
    } else if m && key == Key::Z {
        KeyAction::FocusZoom
    } else if m && key == Key::F {
        KeyAction::ToggleFullscreen
    } else {
        KeyAction::Forward
    }
}

/// Only main+Home looks at the view mode: every other key binding acts the
/// same in both modes.
pub proof fn lemma_bindings_ignore_mode(
    key: Key,
    mods: Modifiers,
    main: ModifierKey,
    pressed: bool,
    has_focused_window: bool,
    mode: ViewMode,
)
    requires
        key != Key::Home,
    ensures
        key_binding(key, mods, main, pressed, has_focused_window, mode) == key_binding(
            key,
            mods,
            main,
            pressed,
            has_focused_window,
            ViewMode::Tiling,
        ),
{
}

/// With the main modifier held on a press (and no resize taking the key),
/// each letter and Space has its own action whatever else is held: Q closes
/// the focused window, P, N and C focus the parent, next sibling and first
/// child, Z zooms on focus, F toggles fullscreen and Space switches mode.
/// Without Shift, the arrows pan one step in their own direction, Home resets
/// (tiling) or frames the roots (tree view), and Alt+BackSpace quits. With
/// Shift and a focused window every key is a resize with that key. Without
/// the main modifier, or on a release, the key goes to the client.
pub proof fn lemma_binding_table(
    mods: Modifiers,
    main: ModifierKey,
    pressed: bool,
    has_focused_window: bool,
    mode: ViewMode,
    key: Key,
)
    ensures
        pressed && main_held(main, mods) && !(mods.shift && has_focused_window) ==> {
            let a = key_binding(key, mods, main, pressed, has_focused_window, mode);
            &&& key == Key::Q ==> a == KeyAction::CloseFocused
            &&& key == Key::P ==> a == KeyAction::FocusParent
            &&& key == Key::N ==> a == KeyAction::FocusNextSibling
            &&& key == Key::C ==> a == KeyAction::FocusFirstChild
            &&& key == Key::Z ==> a == KeyAction::FocusZoom
            &&& key == Key::F ==> a == KeyAction::ToggleFullscreen
            &&& key == Key::Space ==> a == KeyAction::ToggleViewMode
        },
        pressed && main_held(main, mods) && !mods.shift ==> {
            let a = key_binding(key, mods, main, pressed, has_focused_window, mode);
            &&& key == Key::Left ==> a == KeyAction::Pan { dx: (-PAN_STEP) as i32, dy: 0 }
            &&& key == Key::Right ==> a == KeyAction::Pan { dx: PAN_STEP, dy: 0 }
            &&& key == Key::Up ==> a == KeyAction::Pan { dx: 0, dy: (-PAN_STEP) as i32 }
            &&& key == Key::Down ==> a == KeyAction::Pan { dx: 0, dy: PAN_STEP }
            &&& key == Key::Home ==> a == (if mode == ViewMode::Tiling {
                KeyAction::ResetViewport
            } else {
                KeyAction::SnapToRoots
            })
            &&& key == Key::BackSpace && mods.alt ==> a == KeyAction::Quit
        },
        pressed && main_held(main, mods) && mods.shift && has_focused_window ==> key_binding(
            key,
            mods,
            main,
            pressed,
            has_focused_window,
            mode,
        ) == KeyAction::ResizeFocused(key),
        !pressed || !main_held(main, mods) ==> key_binding(key, mods, main, pressed, has_focused_window, mode)
            == KeyAction::Forward,
{
}

/// Decide what a key event does.
pub fn key_action(
    key: Key,
    mods: Modifiers,
    main: ModifierKey,
    pressed: bool,
    has_focused_window: bool,
    mode: ViewMode,
) -> (res: KeyAction)
    ensures
        res == key_binding(key, mods, main, pressed, has_focused_window, mode),
{
    if !pressed {
        return KeyAction::Forward;
    }
    let m = match main {
        ModifierKey::Ctrl => mods.ctrl,
        ModifierKey::Alt => mods.alt,
        ModifierKey::Shift => mods.shift,
        ModifierKey::Super => mods.logo,
    };
    if m && mods.shift && has_focused_window {
        return KeyAction::ResizeFocused(key);
    }
    if m && !mods.shift {
        match key {
            Key::Left => return KeyAction::Pan { dx: -PAN_STEP, dy: 0 },
            Key::Right => return KeyAction::Pan { dx: PAN_STEP, dy: 0 },
            Key::Up => return KeyAction::Pan { dx: 0, dy: -PAN_STEP },
            Key::Down => return KeyAction::Pan { dx: 0, dy: PAN_STEP },
            Key::Home => {
                return match mode {
                    ViewMode::Tiling => KeyAction::ResetViewport,
                    ViewMode::TreeView => KeyAction::SnapToRoots,
                };
            },
            _ => {},
        }
    }
    if m && mods.alt && key == Key::BackSpace {
        return KeyAction::Quit;
    }
    if !m {
        return KeyAction::Forward;
    }
    match key {
        Key::Space => KeyAction::ToggleViewMode,
        Key::Q => KeyAction::CloseFocused,
        Key::P => KeyAction::FocusParent,
        Key::N => KeyAction::FocusNextSibling,
        Key::C => KeyAction::FocusFirstChild,
        Key::Z => KeyAction::FocusZoom,
        Key::F => KeyAction::ToggleFullscreen,
        _ => KeyAction::Forward,
    }
}

/// A side after one keyboard shrink step, never below the minimum.
pub open spec fn shrunk(v: i32) -> int {
    if v - RESIZE_STEP > MIN_WINDOW_SIDE {
        v - RESIZE_STEP
    } else {
        MIN_WINDOW_SIDE as int
    }
}

/// A window's model after a keyboard resize step with this key.
pub open spec fn keyboard_resized(w: WindowModel, key: Key) -> WindowModel {
    match key {
        Key::Left => WindowModel { base_width: shrunk(w.base_width) as i32, ..w },
        Key::Right => WindowModel { base_width: (w.base_width + RESIZE_STEP) as i32, ..w },
        Key::Up => WindowModel { base_height: shrunk(w.base_height) as i32, ..w },
        Key::Down => WindowModel { base_height: (w.base_height + RESIZE_STEP) as i32, ..w },
        _ => w,
    }
}

/// A keyboard resize step touches only the size along the key's axis: Right
/// and Down add one step to the width or height; Left and Up take one step
/// off, but never go below the minimum side (a window already at or under it
/// is set to it); any other key changes nothing.
pub proof fn lemma_keyboard_resize_steps(w: WindowModel, key: Key)
    requires
        keyboard_resize_in_range(w, key),
    ensures
        ({
            let r = keyboard_resized(w, key);
            &&& r.id == w.id && r.parent_id == w.parent_id && r.children == w.children
            &&& r.is_fullscreen == w.is_fullscreen
            &&& r.pre_fullscreen_width == w.pre_fullscreen_width && r.pre_fullscreen_height == w.pre_fullscreen_height
            &&& key == Key::Right ==> r.base_width == w.base_width + RESIZE_STEP && r.base_height == w.base_height
            &&& key == Key::Down ==> r.base_height == w.base_height + RESIZE_STEP && r.base_width == w.base_width
            &&& key == Key::Left ==> r.base_height == w.base_height && r.base_width >= MIN_WINDOW_SIDE
                && (w.base_width - RESIZE_STEP >= MIN_WINDOW_SIDE ==> r.base_width == w.base_width - RESIZE_STEP)
                && (w.base_width - RESIZE_STEP < MIN_WINDOW_SIDE ==> r.base_width == MIN_WINDOW_SIDE)
            &&& key == Key::Up ==> r.base_width == w.base_width && r.base_height >= MIN_WINDOW_SIDE
                && (w.base_height - RESIZE_STEP >= MIN_WINDOW_SIDE ==> r.base_height == w.base_height - RESIZE_STEP)
                && (w.base_height - RESIZE_STEP < MIN_WINDOW_SIDE ==> r.base_height == MIN_WINDOW_SIDE)
            &&& key != Key::Left && key != Key::Right && key != Key::Up && key != Key::Down ==> r == w
        }),
{
}

/// The keyboard resize step does not leave the `i32` range.
pub open spec fn keyboard_resize_in_range(w: WindowModel, key: Key) -> bool {
    match key {
        Key::Left => w.base_width - RESIZE_STEP >= i32::MIN,
        Key::Right => w.base_width + RESIZE_STEP <= i32::MAX,
        Key::Up => w.base_height - RESIZE_STEP >= i32::MIN,
        Key::Down => w.base_height + RESIZE_STEP <= i32::MAX,
        _ => true,
    }
}

impl Treewm {
    /// Grow (Right/Down) or shrink (Left/Up) the focused window by one step;
    /// shrinking stops at the minimum side. Other keys change nothing.
    pub fn resize_focused(&mut self, key: Key)
        requires
            focused_window(old(self).model(), old(self).focused_window_id) matches Some(w)
                ==> keyboard_resize_in_range(w, key),
        ensures
            match focused_window(old(self).model(), old(self).focused_window_id) {
                Some(w) => final(self).model() == old(self).model().update(
                    first_index(old(self).model(), w.id),
                    keyboard_resized(w, key),
                ),
                None => final(self).model() == old(self).model(),
            },
            old(self).wf() ==> final(self).wf(),
            old(self).forest() ==> final(self).forest(),
            final(self).next_window_id == old(self).next_window_id,
            final(self).focused_window_id == old(self).focused_window_id,
            final(self).tiling_root_id == old(self).tiling_root_id,
            final(self).view_mode == old(self).view_mode,
            final(self).main_modifier == old(self).main_modifier,
    {
        proof {
            lemma_models_index(self.windows@);
        }
        if let Some(k) = self.focused_index() {
            proof {
                lemma_first_index(self.model(), self.focused_window_id->0);
            }
            let w = self.windows[k].base_width;
            let h = self.windows[k].base_height;
            match key {
                Key::Left => {
                    self.windows[k].base_width = if w - RESIZE_STEP > MIN_WINDOW_SIDE {
                        w - RESIZE_STEP
                    } else {
                        MIN_WINDOW_SIDE
                    };
                },
                Key::Right => {
                    self.windows[k].base_width = w + RESIZE_STEP;
                },
                Key::Up => {
                    self.windows[k].base_height = if h - RESIZE_STEP > MIN_WINDOW_SIDE {
                        h - RESIZE_STEP
                    } else {
                        MIN_WINDOW_SIDE
                    };
                },
                Key::Down => {
                    self.windows[k].base_height = h + RESIZE_STEP;
                },
                _ => {},
            }
            proof {
                lemma_models_index(self.windows@);
                assert(self.model() =~= old(self).model().update(
                    k as int,
                    keyboard_resized(old(self).model()[k as int], key),
                ));
                if old(self).wf() {
                    lemma_wf_same_shape(old(self).model(), self.model(), self.next_window_id, self.next_window_id);
                }
                if old(self).forest() {
                    lemma_forest_same_shape(old(self).model(), self.model(), self.next_window_id, self.next_window_id);
                }
            }
        }
    }
}

/// Growing a window by one step and shrinking it again gives back its size,
/// as long as it was at least the minimum size.
pub proof fn lemma_keyboard_resize_round_trip(w: WindowModel)
    requires
        w.base_width >= MIN_WINDOW_SIDE,
        w.base_height >= MIN_WINDOW_SIDE,
        w.base_width + RESIZE_STEP <= i32::MAX,
        w.base_height + RESIZE_STEP <= i32::MAX,
    ensures
        keyboard_resized(keyboard_resized(w, Key::Right), Key::Left) == w,
        keyboard_resized(keyboard_resized(w, Key::Down), Key::Up) == w,
{
}

/// A window edge (or corner) that the pointer can grab.
#[derive(Clone, Copy, PartialEq, Eq, Structural, Debug)]
pub enum Edge {
    Interior,
    Top,
    Bottom,
    Left,
    Right,
    TopLeft,
    TopRight,
    BottomLeft,
    BottomRight,
}

/// The edge of the window at (`wx`, `wy`) of size `ww` x `wh` that a pointer
/// at (`px`, `py`) is near: corners first, then sides.
pub open spec fn edge_near(px: int, py: int, wx: int, wy: int, ww: int, wh: int) -> Edge {
    let right = px > wx + ww - BORDER_GRAB;
    let left = px < wx + BORDER_GRAB;
    let bottom = py > wy + wh - BORDER_GRAB;
    let top = py < wy + BORDER_GRAB;
    if right && bottom {
        Edge::BottomRight
    } else if right && top {
        Edge::TopRight
    } else if left && top {
        Edge::TopLeft
    } else if left && bottom {
        Edge::BottomLeft
    } else if right {
        Edge::Right
    } else if left {
        Edge::Left
    } else if bottom {
        Edge::Bottom
    } else if top {
        Edge::Top
    } else {
        Edge::Interior
    }
}

/// The window-border arithmetic stays within `i32`.
pub open spec fn border_in_range(wx: i32, wy: i32, ww: i32, wh: i32) -> bool {
    &&& wx - BORDER_GRAB >= i32::MIN
    &&& wy - BORDER_GRAB >= i32::MIN
    &&& wx + ww + BORDER_GRAB <= i32::MAX
    &&& wy + wh + BORDER_GRAB <= i32::MAX
    &&& wx + ww - BORDER_GRAB >= i32::MIN
    &&& wy + wh - BORDER_GRAB >= i32::MIN
    &&& wx + BORDER_GRAB <= i32::MAX
    &&& wy + BORDER_GRAB <= i32::MAX
    &&& wx + ww >= i32::MIN
    &&& wy + wh >= i32::MIN
    &&& wx + ww <= i32::MAX
    &&& wy + wh <= i32::MAX
}

/// Which edge of a window the pointer is near (selects the cursor shape and
/// the edge a resize grab moves).
pub fn edge_at(px: i32, py: i32, wx: i32, wy: i32, ww: i32, wh: i32) -> (res: Edge)
    requires
        border_in_range(wx, wy, ww, wh),
    ensures
        res == edge_near(px as int, py as int, wx as int, wy as int, ww as int, wh as int),
{
    let right = px > wx + ww - BORDER_GRAB;
    let left = px < wx + BORDER_GRAB;
    let bottom = py > wy + wh - BORDER_GRAB;
    let top = py < wy + BORDER_GRAB;
    if right && bottom {
        Edge::BottomRight
    } else if right && top {
        Edge::TopRight
    } else if left && top {
        Edge::TopLeft
    } else if left && bottom {
        Edge::BottomLeft
    } else if right {
        Edge::Right
    } else if left {
        Edge::Left
    } else if bottom {
        Edge::Bottom
    } else if top {
        Edge::Top
    } else {
        Edge::Interior
    }
}

/// The horizontal side an edge moves: -1 for the left, 1 for the right, 0
/// for neither.
pub open spec fn edge_dx(e: Edge) -> int {
    match e {
        Edge::Left | Edge::TopLeft | Edge::BottomLeft => -1,
        Edge::Right | Edge::TopRight | Edge::BottomRight => 1,
        _ => 0,
    }
}

/// The vertical side an edge moves: -1 for the top, 1 for the bottom, 0 for
/// neither.
pub open spec fn edge_dy(e: Edge) -> int {
    match e {
        Edge::Top | Edge::TopLeft | Edge::TopRight => -1,
        Edge::Bottom | Edge::BottomLeft | Edge::BottomRight => 1,
        _ => 0,
    }
}

/// For a window at least two grab bands wide and high, the edge a pointer
/// is near is made of the side it is within `BORDER_GRAB` pixels of, along
/// each axis independently: right or left, bottom or top, or neither
/// (the interior when neither axis has one).
pub proof fn lemma_edge_sides(px: int, py: int, wx: int, wy: int, ww: int, wh: int)
    requires
        ww >= 2 * BORDER_GRAB,
        wh >= 2 * BORDER_GRAB,
    ensures
        edge_dx(edge_near(px, py, wx, wy, ww, wh)) == (if px > wx + ww - BORDER_GRAB {
            1int
        } else if px < wx + BORDER_GRAB {
            -1int
        } else {
            0int
        }),
        edge_dy(edge_near(px, py, wx, wy, ww, wh)) == (if py > wy + wh - BORDER_GRAB {
            1int
        } else if py < wy + BORDER_GRAB {
            -1int
        } else {
            0int
        }),
        (edge_near(px, py, wx, wy, ww, wh) == Edge::Interior) == (edge_dx(edge_near(px, py, wx, wy, ww, wh)) == 0
            && edge_dy(edge_near(px, py, wx, wy, ww, wh)) == 0),
{
}

/// The pointer is outside the window but within the grab band around it.
pub open spec fn in_border_band(px: int, py: int, wx: int, wy: int, ww: int, wh: int) -> bool {
    let inside = wx <= px < wx + ww && wy <= py < wy + wh;
    let near = wx - BORDER_GRAB <= px < wx + ww + BORDER_GRAB && wy - BORDER_GRAB <= py < wy + wh
        + BORDER_GRAB;
    !inside && near
}

/// Whether a left-button press at (`px`, `py`) grabs the border of the window.
pub fn in_resize_border(px: i32, py: i32, wx: i32, wy: i32, ww: i32, wh: i32) -> (res: bool)
    requires
        border_in_range(wx, wy, ww, wh),
    ensures
        res == in_border_band(px as int, py as int, wx as int, wy as int, ww as int, wh as int),
{
    let inside = wx <= px && px < wx + ww && wy <= py && py < wy + wh;
    let near = wx - BORDER_GRAB <= px && px < wx + ww + BORDER_GRAB && wy - BORDER_GRAB <= py && py < wy
        + wh + BORDER_GRAB;
    !inside && near
}

/// The first window, in stacking order, whose grab band holds the point.
pub open spec fn first_band_hit(px: int, py: int, rects: Seq<(i32, i32, i32, i32)>, i: int) -> bool {
    &&& 0 <= i < rects.len()
    &&& in_border_band(px, py, rects[i].0 as int, rects[i].1 as int, rects[i].2 as int, rects[i].3 as int)
    &&& forall|k: int|
        0 <= k < i ==> !in_border_band(
            px,
            py,
            #[trigger] rects[k].0 as int,
            rects[k].1 as int,
            rects[k].2 as int,
            rects[k].3 as int,
        )
}

/// For a window of non-negative size, the grab band is equally wide on all
/// four sides: points inside the window
/// are not in it; every point just outside a side (within `BORDER_GRAB`
/// pixels, along the side) is; nothing farther away is; and swapping the
/// axes of point and window does not change membership.
pub proof fn lemma_border_band_sides(wx: int, wy: int, ww: int, wh: int)
    requires
        ww >= 0,
        wh >= 0,
    ensures
        forall|px: int, py: int|
            wx <= px < wx + ww && wy <= py < wy + wh ==> !#[trigger] in_border_band(px, py, wx, wy, ww, wh),
        forall|px: int, d: int|
            wx <= px < wx + ww && 1 <= d <= BORDER_GRAB ==> #[trigger] in_border_band(px, wy - d, wx, wy, ww, wh)
                && #[trigger] in_border_band(px, wy + wh - 1 + d, wx, wy, ww, wh),
        forall|py: int, d: int|
            wy <= py < wy + wh && 1 <= d <= BORDER_GRAB ==> #[trigger] in_border_band(wx - d, py, wx, wy, ww, wh)
                && #[trigger] in_border_band(wx + ww - 1 + d, py, wx, wy, ww, wh),
        forall|px: int, py: int|
            px < wx - BORDER_GRAB || px >= wx + ww + BORDER_GRAB || py < wy - BORDER_GRAB || py >= wy + wh
                + BORDER_GRAB ==> !#[trigger] in_border_band(px, py, wx, wy, ww, wh),
        forall|px: int, py: int|
            #[trigger] in_border_band(px, py, wx, wy, ww, wh) == in_border_band(py, px, wy, wx, wh, ww),
{
}

/// No window before position `i` has the point in its grab band, so a scan
/// in order reaches the window at `i`.
pub open spec fn scanned(px: int, py: int, rects: Seq<(i32, i32, i32, i32)>, i: int) -> bool {
    forall|k: int|
        0 <= k < i ==> !in_border_band(
            px,
            py,
            #[trigger] rects[k].0 as int,
            rects[k].1 as int,
            rects[k].2 as int,
            rects[k].3 as int,
        )
}

/// Which window a left-button press at (`px`, `py`) starts resizing: the
/// first of the screen rectangles `rects` (x, y, width, height) whose border
/// band holds the pointer, if any.
pub fn resize_hit(px: i32, py: i32, rects: &Vec<(i32, i32, i32, i32)>) -> (res: Option<usize>)
    requires
        forall|i: int|
            0 <= i < rects.len() && scanned(px as int, py as int, rects@, i) ==> border_in_range(
                #[trigger] rects[i].0,
                rects[i].1,
                rects[i].2,
                rects[i].3,
            ),
    ensures
        match res {
            Some(i) => first_band_hit(px as int, py as int, rects@, i as int),
            None => forall|k: int|
                0 <= k < rects.len() ==> !in_border_band(
                    px as int,
                    py as int,
                    #[trigger] rects[k].0 as int,
                    rects[k].1 as int,
                    rects[k].2 as int,
                    rects[k].3 as int,
                ),
        },
{
    let mut i: usize = 0;
    while i < rects.len()
        invariant
            i <= rects.len(),
            forall|j: int|
                0 <= j < rects.len() && scanned(px as int, py as int, rects@, j) ==> border_in_range(
                    #[trigger] rects[j].0,
                    rects[j].1,
                    rects[j].2,
                    rects[j].3,
                ),
            forall|k: int|
                0 <= k < i ==> !in_border_band(
                    px as int,
                    py as int,
                    #[trigger] rects[k].0 as int,
                    rects[k].1 as int,
                    rects[k].2 as int,
                    rects[k].3 as int,
                ),
        decreases rects.len() - i,
    {
        let (wx, wy, ww, wh) = rects[i];
        if in_resize_border(px, py, wx, wy, ww, wh) {
            return Some(i);
        }
        i += 1;
    }
    None
}

/// Dragging this edge moves the window's left side (its canvas x).
pub open spec fn moves_left_side(edge: Edge) -> bool {
    edge == Edge::Left || edge == Edge::TopLeft || edge == Edge::BottomLeft
}

/// Dragging this edge moves the window's top side (its canvas y).
pub open spec fn moves_top_side(edge: Edge) -> bool {
    edge == Edge::Top || edge == Edge::TopLeft || edge == Edge::TopRight
}

/// Whether resizing by this edge keeps the right side fixed, so the window's
/// x position follows its width.
pub fn edge_moves_left(edge: Edge) -> (res: bool)
    ensures
        res == moves_left_side(edge),
{
    match edge {
        Edge::Left | Edge::TopLeft | Edge::BottomLeft => true,
        _ => false,
    }
}

/// Whether resizing by this edge keeps the bottom side fixed, so the window's
/// y position follows its height.
pub fn edge_moves_top(edge: Edge) -> (res: bool)
    ensures
        res == moves_top_side(edge),
{
    match edge {
        Edge::Top | Edge::TopLeft | Edge::TopRight => true,
        _ => false,
    }
}

/// The size a pointer resize produces, and which sides of the window move.
#[derive(Clone, Copy, PartialEq, Eq, Structural, Debug)]
pub struct ResizeOutcome {
    pub width: i32,
    pub height: i32,
    /// The window's x position becomes the initial x plus the pointer's x travel.
    pub moves_x: bool,
    /// The window's y position becomes the initial y plus the pointer's y travel.
    pub moves_y: bool,
}

/// `v` but at least the minimum window side.
pub open spec fn at_least_min(v: int) -> int {
    if v > MIN_WINDOW_SIDE {
        v
    } else {
        MIN_WINDOW_SIDE as int
    }
}

/// Width after dragging by `dx`: left edges shrink as the pointer moves right.
pub open spec fn dragged_width(edge: Edge, w0: int, dx: int) -> int {
    if moves_left_side(edge) {
        at_least_min(w0 - dx)
    } else if edge == Edge::Right || edge == Edge::TopRight || edge == Edge::BottomRight {
        at_least_min(w0 + dx)
    } else {
        w0
    }
}

/// Height after dragging by `dy`: top edges shrink as the pointer moves down.
pub open spec fn dragged_height(edge: Edge, h0: int, dy: int) -> int {
    if moves_top_side(edge) {
        at_least_min(h0 - dy)
    } else if edge == Edge::Bottom || edge == Edge::BottomLeft || edge == Edge::BottomRight {
        at_least_min(h0 + dy)
    } else {
        h0
    }
}

/// Dragging an edge moves the sides it names with the pointer and leaves the
/// others in place: a side on the right or bottom grows the window by the
/// pointer's travel, one on the left or top shrinks it by it, down to the
/// minimum size; an axis the edge does not touch keeps its size; and the
/// window's position moves exactly when its left (or top) side is dragged.
pub proof fn lemma_drag_follows_pointer(edge: Edge, w0: int, h0: int, dx: int, dy: int)
    ensures
        edge_dx(edge) == 0 ==> dragged_width(edge, w0, dx) == w0,
        edge_dx(edge) != 0 ==> dragged_width(edge, w0, dx) == at_least_min(w0 + edge_dx(edge) * dx),
        edge_dy(edge) == 0 ==> dragged_height(edge, h0, dy) == h0,
        edge_dy(edge) != 0 ==> dragged_height(edge, h0, dy) == at_least_min(h0 + edge_dy(edge) * dy),
        moves_left_side(edge) == (edge_dx(edge) == -1),
        moves_top_side(edge) == (edge_dy(edge) == -1),
{
}

/// The resize arithmetic for this edge stays within `i32`.
pub open spec fn drag_in_range(edge: Edge, w0: i32, h0: i32, dx: i32, dy: i32) -> bool {
    &&& moves_left_side(edge) ==> w0 - dx >= i32::MIN && w0 - dx <= i32::MAX
    &&& (edge == Edge::Right || edge == Edge::TopRight || edge == Edge::BottomRight) ==> w0 + dx
        >= i32::MIN && w0 + dx <= i32::MAX
    &&& moves_top_side(edge) ==> h0 - dy >= i32::MIN && h0 - dy <= i32::MAX
    &&& (edge == Edge::Bottom || edge == Edge::BottomLeft || edge == Edge::BottomRight) ==> h0 + dy
        >= i32::MIN && h0 + dy <= i32::MAX
}

/// Size of a window being resized by `edge` after the pointer travelled
/// (`dx`, `dy`) from where the grab started; `w0` x `h0` is the size then.
pub fn resize_from_edge(edge: Edge, w0: i32, h0: i32, dx: i32, dy: i32) -> (res: ResizeOutcome)
    requires
        drag_in_range(edge, w0, h0, dx, dy),
    ensures
        res.width == dragged_width(edge, w0 as int, dx as int),
        res.height == dragged_height(edge, h0 as int, dy as int),
        res.moves_x == moves_left_side(edge),
        res.moves_y == moves_top_side(edge),
{
    let shrink_w = match edge {
        Edge::Left | Edge::TopLeft | Edge::BottomLeft => true,
        _ => false,
    };
    let grow_w = match edge {
        Edge::Right | Edge::TopRight | Edge::BottomRight => true,
        _ => false,
    };
    let shrink_h = match edge {
        Edge::Top | Edge::TopLeft | Edge::TopRight => true,
        _ => false,
    };
    let grow_h = match edge {
        Edge::Bottom | Edge::BottomLeft | Edge::BottomRight => true,
        _ => false,
    };
    let width = if shrink_w {
        clamp_min_side(w0 - dx)
    } else if grow_w {
        clamp_min_side(w0 + dx)
    } else {
        w0
    };
    let height = if shrink_h {
        clamp_min_side(h0 - dy)
    } else if grow_h {
        clamp_min_side(h0 + dy)
    } else {
        h0
    };
    ResizeOutcome { width, height, moves_x: shrink_w, moves_y: shrink_h }
}

/// `v` but at least the minimum window side.
pub fn clamp_min_side(v: i32) -> (res: i32)
    ensures
        res == at_least_min(v as int),
{
    if v > MIN_WINDOW_SIDE {
        v
    } else {
        MIN_WINDOW_SIDE
    }
}

/// A pointer resize never makes a window side smaller than the minimum
/// unless that side is not being dragged.
pub proof fn lemma_resize_respects_minimum(edge: Edge, w0: int, h0: int, dx: int, dy: int)
    ensures
        dragged_width(edge, w0, dx) >= MIN_WINDOW_SIDE || dragged_width(edge, w0, dx) == w0,
        dragged_height(edge, h0, dy) >= MIN_WINDOW_SIDE || dragged_height(edge, h0, dy) == h0,
        edge == Edge::Interior ==> dragged_width(edge, w0, dx) == w0 && dragged_height(edge, h0, dy) == h0,
{
}


impl Treewm {
    /// Whether a keyboard resize of the focused window with this key stays
    /// within `i32` (the condition `resize_focused` needs).
    pub fn keyboard_resize_fits(&self, key: Key) -> (res: bool)
        ensures
            res == (focused_window(self.model(), self.focused_window_id) matches Some(w) ==> keyboard_resize_in_range(
                w,
                key,
            )),
    {
        proof {
            lemma_models_index(self.windows@);
        }
        match self.focused_index() {
            Some(k) => {
                proof {
                    lemma_first_index(self.model(), self.focused_window_id->0);
                }
                let w = self.windows[k].base_width;
                let h = self.windows[k].base_height;
                match key {
                    Key::Left => w >= i32::MIN + RESIZE_STEP,
                    Key::Right => w <= i32::MAX - RESIZE_STEP,
                    Key::Up => h >= i32::MIN + RESIZE_STEP,
                    Key::Down => h <= i32::MAX - RESIZE_STEP,
                    _ => true,
                }
            },
            None => true,
        }
    }
}

/// Whether the border arithmetic for this window stays within `i32` (the
/// condition `edge_at` and `in_resize_border` need).
pub fn border_fits(wx: i32, wy: i32, ww: i32, wh: i32) -> (res: bool)
    ensures
        res == border_in_range(wx, wy, ww, wh),
{
    let (x, y, w, h) = (wx as i64, wy as i64, ww as i64, wh as i64);
    let lo = i32::MIN as i64;
    let hi = i32::MAX as i64;
    let g = BORDER_GRAB as i64;
    x - g >= lo && y - g >= lo && x + w + g <= hi && y + h + g <= hi && x + w - g >= lo && y + h - g >= lo && x + g
        <= hi && y + g <= hi && x + w >= lo && y + h >= lo && x + w <= hi && y + h <= hi
}

/// Whether the border arithmetic fits `i32` for every window that a scan for
/// a press at (`px`, `py`) reaches (the condition `resize_hit` needs).
pub fn resize_hit_fits(px: i32, py: i32, rects: &Vec<(i32, i32, i32, i32)>) -> (res: bool)
    ensures
        res == (forall|i: int|
            0 <= i < rects.len() && scanned(px as int, py as int, rects@, i) ==> border_in_range(
                #[trigger] rects[i].0,
                rects[i].1,
                rects[i].2,
                rects[i].3,
            )),
{
    let mut i: usize = 0;
    while i < rects.len()
        invariant
            i <= rects.len(),
            scanned(px as int, py as int, rects@, i as int),
            forall|j: int|
                0 <= j < i && scanned(px as int, py as int, rects@, j) ==> border_in_range(
                    #[trigger] rects[j].0,
                    rects[j].1,
                    rects[j].2,
                    rects[j].3,
                ),
        decreases rects.len() - i,
    {
        let (wx, wy, ww, wh) = rects[i];
        if !border_fits(wx, wy, ww, wh) {
            return false;
        }
        if in_resize_border(px, py, wx, wy, ww, wh) {
            proof {
                assert forall|j: int|
                    0 <= j < rects.len() && scanned(px as int, py as int, rects@, j) implies border_in_range(
                    #[trigger] rects[j].0,
                    rects[j].1,
                    rects[j].2,
                    rects[j].3,
                ) by {
                    if j > i {
                        assert(in_border_band(
                            px as int,
                            py as int,
                            rects@[i as int].0 as int,
                            rects@[i as int].1 as int,
                            rects@[i as int].2 as int,
                            rects@[i as int].3 as int,
                        ));
                    }
                }
            }
            return true;
        }
        i += 1;
    }
    true
}

/// Whether the resize arithmetic for this edge stays within `i32` (the
/// condition `resize_from_edge` needs).
pub fn drag_fits(edge: Edge, w0: i32, h0: i32, dx: i32, dy: i32) -> (res: bool)
    ensures
        res == drag_in_range(edge, w0, h0, dx, dy),
{
    let (w, h, x, y) = (w0 as i64, h0 as i64, dx as i64, dy as i64);
    let lo = i32::MIN as i64;
    let hi = i32::MAX as i64;
    let left = edge_moves_left(edge);
    let top = edge_moves_top(edge);
    let right = match edge {
        Edge::Right | Edge::TopRight | Edge::BottomRight => true,
        _ => false,
    };
    let bottom = match edge {
        Edge::Bottom | Edge::BottomLeft | Edge::BottomRight => true,
        _ => false,
    };
    (!left || (w - x >= lo && w - x <= hi)) && (!right || (w + x >= lo && w + x <= hi)) && (!top || (h - y >= lo
        && h - y <= hi)) && (!bottom || (h + y >= lo && h + y <= hi))
}
} // verus!
