use treewm::input::{
    border_fits, drag_fits, edge_at, edge_moves_left, edge_moves_top, in_resize_border, key_action,
    resize_from_edge, resize_hit, resize_hit_fits, Edge, Key, KeyAction, Modifiers, ResizeOutcome,
};
use treewm::state::{ModifierKey, Treewm, ViewMode};

const NONE: Modifiers = Modifiers { ctrl: false, alt: false, shift: false, logo: false };
const CTRL: Modifiers = Modifiers { ctrl: true, alt: false, shift: false, logo: false };
const CTRL_SHIFT: Modifiers = Modifiers { ctrl: true, alt: false, shift: true, logo: false };
const CTRL_ALT: Modifiers = Modifiers { ctrl: true, alt: true, shift: false, logo: false };
const LOGO: Modifiers = Modifiers { ctrl: false, alt: false, shift: false, logo: true };

fn act(key: Key, mods: Modifiers) -> KeyAction {
    key_action(key, mods, ModifierKey::Ctrl, true, true, ViewMode::Tiling)
}

#[test]
fn releases_and_plain_keys_go_to_the_client() {
    assert_eq!(key_action(Key::Q, CTRL, ModifierKey::Ctrl, false, true, ViewMode::Tiling), KeyAction::Forward);
    assert_eq!(act(Key::Q, NONE), KeyAction::Forward);
    assert_eq!(act(Key::Other, CTRL), KeyAction::Forward);
}

#[test]
fn arrows_pan_and_home_resets() {
    assert_eq!(act(Key::Left, CTRL), KeyAction::Pan { dx: -100, dy: 0 });
    assert_eq!(act(Key::Right, CTRL), KeyAction::Pan { dx: 100, dy: 0 });
    assert_eq!(act(Key::Up, CTRL), KeyAction::Pan { dx: 0, dy: -100 });
    assert_eq!(act(Key::Down, CTRL), KeyAction::Pan { dx: 0, dy: 100 });
    assert_eq!(act(Key::Home, CTRL), KeyAction::ResetViewport);
    assert_eq!(
        key_action(Key::Home, CTRL, ModifierKey::Ctrl, true, true, ViewMode::TreeView),
        KeyAction::SnapToRoots
    );
}

#[test]
fn shift_resizes_only_with_a_focused_window() {
    assert_eq!(act(Key::Left, CTRL_SHIFT), KeyAction::ResizeFocused(Key::Left));
    // Any key is taken while resizing.
    assert_eq!(act(Key::Space, CTRL_SHIFT), KeyAction::ResizeFocused(Key::Space));
    // Without a focused window the other bindings apply.
    assert_eq!(
        key_action(Key::Space, CTRL_SHIFT, ModifierKey::Ctrl, true, false, ViewMode::Tiling),
        KeyAction::ToggleViewMode
    );
    assert_eq!(
        key_action(Key::Left, CTRL_SHIFT, ModifierKey::Ctrl, true, false, ViewMode::Tiling),
        KeyAction::Forward
    );
}

#[test]
fn other_bindings() {
    assert_eq!(act(Key::BackSpace, CTRL_ALT), KeyAction::Quit);
    assert_eq!(act(Key::BackSpace, CTRL), KeyAction::Forward);
    assert_eq!(act(Key::Space, CTRL), KeyAction::ToggleViewMode);
    assert_eq!(act(Key::Q, CTRL), KeyAction::CloseFocused);
    assert_eq!(act(Key::P, CTRL), KeyAction::FocusParent);
    assert_eq!(act(Key::N, CTRL), KeyAction::FocusNextSibling);
    assert_eq!(act(Key::C, CTRL), KeyAction::FocusFirstChild);
    assert_eq!(act(Key::Z, CTRL), KeyAction::FocusZoom);
    assert_eq!(act(Key::F, CTRL), KeyAction::ToggleFullscreen);
}

#[test]
fn main_modifier_selects_the_held_key() {
    assert_eq!(key_action(Key::F, LOGO, ModifierKey::Super, true, true, ViewMode::Tiling), KeyAction::ToggleFullscreen);
    assert_eq!(key_action(Key::F, CTRL, ModifierKey::Super, true, true, ViewMode::Tiling), KeyAction::Forward);
    let alt = Modifiers { ctrl: false, alt: true, shift: false, logo: false };
    assert_eq!(key_action(Key::P, alt, ModifierKey::Alt, true, true, ViewMode::Tiling), KeyAction::FocusParent);
    // With Shift as the main modifier every binding also counts as "shift held".
    let shift = Modifiers { ctrl: false, alt: false, shift: true, logo: false };
    assert_eq!(key_action(Key::P, shift, ModifierKey::Shift, true, true, ViewMode::Tiling), KeyAction::ResizeFocused(Key::P));
    assert_eq!(key_action(Key::P, shift, ModifierKey::Shift, true, false, ViewMode::Tiling), KeyAction::FocusParent);
}

#[test]
fn keyboard_resize_steps_and_minimum() {
    let mut t = Treewm::new(ModifierKey::Ctrl);
    let id = t.add_window();
    t.focus_by_id(id);
    t.resize_focused(Key::Right);
    assert_eq!(t.windows[0].base_width, 832);
    t.resize_focused(Key::Left);
    assert_eq!(t.windows[0].base_width, 800);
    t.resize_focused(Key::Down);
    assert_eq!(t.windows[0].base_height, 632);
    t.resize_focused(Key::Up);
    assert_eq!(t.windows[0].base_height, 600);
    t.windows[0].base_width = 150;
    t.resize_focused(Key::Left);
    assert_eq!(t.windows[0].base_width, 128);
    t.resize_focused(Key::Left);
    assert_eq!(t.windows[0].base_width, 128);
    t.resize_focused(Key::Other);
    assert_eq!(t.windows[0].base_width, 128);
    assert!(t.keyboard_resize_fits(Key::Right));
    t.windows[0].base_width = i32::MAX - 10;
    assert!(!t.keyboard_resize_fits(Key::Right));
    assert!(t.keyboard_resize_fits(Key::Left));
}

#[test]
fn edges_near_a_window() {
    // Window at (100, 100), 200 x 100.
    let e = |px, py| edge_at(px, py, 100, 100, 200, 100);
    assert_eq!(e(299, 199), Edge::BottomRight);
    assert_eq!(e(299, 101), Edge::TopRight);
    assert_eq!(e(101, 101), Edge::TopLeft);
    assert_eq!(e(101, 199), Edge::BottomLeft);
    assert_eq!(e(299, 150), Edge::Right);
    assert_eq!(e(101, 150), Edge::Left);
    assert_eq!(e(200, 199), Edge::Bottom);
    assert_eq!(e(200, 101), Edge::Top);
    assert_eq!(e(200, 150), Edge::Interior);
    // Exactly 8 pixels in is no longer an edge.
    assert_eq!(e(108, 150), Edge::Interior);
    assert_eq!(e(107, 150), Edge::Left);
}

#[test]
fn border_band_is_outside_but_close() {
    let b = |px, py| in_resize_border(px, py, 100, 100, 200, 100);
    assert!(!b(150, 150)); // inside
    assert!(b(95, 150)); // left band
    assert!(b(305, 150)); // right band
    assert!(b(150, 92)); // top band
    assert!(!b(91, 150)); // too far left
    assert!(!b(308, 150)); // too far right
    assert!(b(300, 150)); // right border pixel is outside the window
    assert!(border_fits(100, 100, 200, 100));
    assert!(!border_fits(i32::MAX - 5, 0, 10, 10));
    assert!(!border_fits(i32::MIN + 3, 0, 10, 10));
}

#[test]
fn pointer_resize_by_edge() {
    assert_eq!(
        resize_from_edge(Edge::Right, 400, 300, 50, 20),
        ResizeOutcome { width: 450, height: 300, moves_x: false, moves_y: false }
    );
    assert_eq!(
        resize_from_edge(Edge::Left, 400, 300, 50, 20),
        ResizeOutcome { width: 350, height: 300, moves_x: true, moves_y: false }
    );
    assert_eq!(
        resize_from_edge(Edge::TopLeft, 400, 300, 50, 20),
        ResizeOutcome { width: 350, height: 280, moves_x: true, moves_y: true }
    );
    assert_eq!(
        resize_from_edge(Edge::BottomRight, 400, 300, -500, -500),
        ResizeOutcome { width: 128, height: 128, moves_x: false, moves_y: false }
    );
    assert_eq!(
        resize_from_edge(Edge::TopRight, 400, 300, 10, -10),
        ResizeOutcome { width: 410, height: 310, moves_x: false, moves_y: true }
    );
    assert_eq!(
        resize_from_edge(Edge::BottomLeft, 400, 300, 10, -10),
        ResizeOutcome { width: 390, height: 290, moves_x: true, moves_y: false }
    );
    assert_eq!(
        resize_from_edge(Edge::Top, 400, 300, 10, 100),
        ResizeOutcome { width: 400, height: 200, moves_x: false, moves_y: true }
    );
    assert_eq!(
        resize_from_edge(Edge::Bottom, 400, 300, 10, 100),
        ResizeOutcome { width: 400, height: 400, moves_x: false, moves_y: false }
    );
    assert_eq!(
        resize_from_edge(Edge::Interior, 400, 300, 10, 100),
        ResizeOutcome { width: 400, height: 300, moves_x: false, moves_y: false }
    );
    assert!(drag_fits(Edge::Left, 400, 300, 10, 10));
    assert!(!drag_fits(Edge::Left, 400, 300, i32::MIN, 10));
    assert!(drag_fits(Edge::Right, 400, 300, i32::MIN, 10));
}

#[test]
fn anchored_sides_match_resize() {
    for edge in [
        Edge::Interior, Edge::Top, Edge::Bottom, Edge::Left, Edge::Right,
        Edge::TopLeft, Edge::TopRight, Edge::BottomLeft, Edge::BottomRight,
    ] {
        let r = resize_from_edge(edge, 400, 300, 1, 1);
        assert_eq!(r.moves_x, edge_moves_left(edge));
        assert_eq!(r.moves_y, edge_moves_top(edge));
    }
}

#[test]
fn press_resizes_the_first_window_whose_band_holds_it() {
    let rects = vec![(0, 0, 200, 100), (300, 0, 200, 100), (196, 0, 200, 100)];
    // Just right of the first window, and also just left of the third.
    assert_eq!(resize_hit(203, 50, &rects), Some(0));
    // Left of the second window only.
    assert_eq!(resize_hit(295, 50, &rects), Some(1));
    // Inside the first window, and inside the third's band? 150 is left of 196-8.
    assert_eq!(resize_hit(150, 50, &rects), None);
    // Far away from every window.
    assert_eq!(resize_hit(1000, 1000, &rects), None);
    assert_eq!(resize_hit(0, 0, &Vec::new()), None);
}

#[test]
fn only_scanned_windows_need_border_arithmetic_to_fit() {
    let far = (i32::MAX - 4, 0, 4, 100);
    // The first window is hit, so the overflowing second one is never reached.
    let rects = vec![(0, 0, 200, 100), far];
    assert!(resize_hit_fits(203, 50, &rects));
    assert_eq!(resize_hit(203, 50, &rects), Some(0));
    // A miss on the first window reaches the second.
    assert!(!resize_hit_fits(1000, 50, &rects));
    assert!(resize_hit_fits(1000, 50, &vec![(0, 0, 200, 100)]));
}
