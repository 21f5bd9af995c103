use treewm::nav::FullscreenChange;
use treewm::state::{CanvasWindow, ModifierKey, Treewm, ViewMode};
use treewm::tree::FocusChange;

fn ids(t: &Treewm) -> Vec<u32> {
    t.windows.iter().map(|w| w.id).collect()
}

fn window<'a>(t: &'a Treewm, id: u32) -> &'a CanvasWindow {
    t.windows.iter().find(|w| w.id == id).unwrap()
}

/// Opens a window the way the compositor does: register it, then focus it.
fn open(t: &mut Treewm) -> u32 {
    let id = t.add_window();
    t.focus_by_id(id);
    id
}

#[test]
fn new_state_is_empty() {
    let t = Treewm::new(ModifierKey::Super);
    assert!(t.windows.is_empty());
    assert_eq!(t.next_window_id, 0);
    assert_eq!(t.focused_window_id, None);
    assert_eq!(t.tiling_root_id, None);
    assert_eq!(t.view_mode, ViewMode::Tiling);
    assert_eq!(t.main_modifier, ModifierKey::Super);
    assert_eq!(ViewMode::default(), ViewMode::Tiling);
}

#[test]
fn alloc_id_counts_up() {
    let mut t = Treewm::new(ModifierKey::Ctrl);
    assert_eq!(t.alloc_id(), 0);
    assert_eq!(t.alloc_id(), 1);
    assert_eq!(t.next_window_id, 2);
}

#[test]
fn new_window_becomes_child_of_focused() {
    let mut t = Treewm::new(ModifierKey::Ctrl);
    let a = open(&mut t);
    let b = open(&mut t);
    let c = open(&mut t);
    assert_eq!((a, b, c), (0, 1, 2));
    assert_eq!(window(&t, a).parent_id, None);
    assert_eq!(window(&t, b).parent_id, Some(a));
    assert_eq!(window(&t, c).parent_id, Some(b));
    assert_eq!(window(&t, a).children, vec![b]);
    assert_eq!(window(&t, b).children, vec![c]);
    assert_eq!(window(&t, c).base_width, 800);
    assert_eq!(window(&t, c).base_height, 600);
    assert!(!window(&t, c).is_fullscreen);
}

#[test]
fn window_with_nothing_focused_is_a_root() {
    let mut t = Treewm::new(ModifierKey::Ctrl);
    open(&mut t);
    t.focus_clear();
    let b = t.add_window();
    assert_eq!(window(&t, b).parent_id, None);
    assert_eq!(t.root_ids(), vec![0, 1]);
}

#[test]
fn window_under_unknown_focus_keeps_dangling_parent() {
    let mut t = Treewm::new(ModifierKey::Ctrl);
    open(&mut t);
    t.focus_by_id(77);
    let b = t.add_window();
    assert_eq!(window(&t, b).parent_id, Some(77));
    assert_eq!(window(&t, 0).children, Vec::<u32>::new());
    // Its parent does not exist, so it has no siblings at all.
    assert_eq!(t.siblings_of(b), Vec::<u32>::new());
}

#[test]
fn siblings_of_child_and_root() {
    let mut t = Treewm::new(ModifierKey::Ctrl);
    let root = open(&mut t);
    let x = t.add_window();
    let y = t.add_window();
    t.focus_clear();
    let other_root = t.add_window();
    assert_eq!(t.siblings_of(x), vec![x, y]);
    assert_eq!(t.siblings_of(root), vec![root, other_root]);
    // An unknown ID is treated like a root.
    assert_eq!(t.siblings_of(999), vec![root, other_root]);
    assert_eq!(t.children_of(root), vec![x, y]);
    assert_eq!(t.children_of(999), Vec::<u32>::new());
}

#[test]
fn focus_reports_changes() {
    let mut t = Treewm::new(ModifierKey::Ctrl);
    assert!(t.focus_by_id(3));
    assert!(!t.focus_by_id(3));
    assert!(t.focus_by_id(4));
    assert!(t.focus_clear());
    assert!(!t.focus_clear());
}

#[test]
fn closing_a_window_splices_its_children_in_place() {
    let mut t = Treewm::new(ModifierKey::Ctrl);
    let root = open(&mut t); // 0
    let a = t.add_window(); // 1, child of root
    let b = t.add_window(); // 2, child of root
    let c = t.add_window(); // 3, child of root
    t.focus_by_id(b);
    let b1 = t.add_window(); // 4, child of b
    let b2 = t.add_window(); // 5, child of b
    assert_eq!(window(&t, root).children, vec![a, b, c]);
    let pos = t.find_index(b).unwrap();
    let (dead, focus) = t.remove_window(pos);
    assert_eq!(dead, b);
    // b was focused: focus goes to its parent.
    assert_eq!(focus, FocusChange::Focus(root));
    assert_eq!(window(&t, root).children, vec![a, b1, b2, c]);
    assert_eq!(window(&t, b1).parent_id, Some(root));
    assert_eq!(window(&t, b2).parent_id, Some(root));
    assert_eq!(ids(&t), vec![root, a, c, b1, b2]);
}

#[test]
fn closing_a_root_makes_its_children_roots() {
    let mut t = Treewm::new(ModifierKey::Ctrl);
    let root = open(&mut t);
    let x = t.add_window();
    let y = t.add_window();
    t.focus_by_id(x);
    let (dead, focus) = t.remove_window(0);
    assert_eq!(dead, root);
    // The closed window was not focused.
    assert_eq!(focus, FocusChange::Keep);
    assert_eq!(window(&t, x).parent_id, None);
    assert_eq!(window(&t, y).parent_id, None);
    assert_eq!(t.root_ids(), vec![x, y]);
}

#[test]
fn closing_focused_root_focuses_last_window() {
    let mut t = Treewm::new(ModifierKey::Ctrl);
    let root = open(&mut t);
    let _x = t.add_window();
    let y = t.add_window();
    t.focus_by_id(root);
    let (_, focus) = t.remove_window(0);
    assert_eq!(focus, FocusChange::Focus(y));
}

#[test]
fn closing_the_last_window_clears_focus() {
    let mut t = Treewm::new(ModifierKey::Ctrl);
    open(&mut t);
    let (dead, focus) = t.remove_window(0);
    assert_eq!(dead, 0);
    assert_eq!(focus, FocusChange::Clear);
    assert!(t.windows.is_empty());
}

#[test]
fn closing_unlisted_child_appends_orphans() {
    // A window whose parent exists but does not list it: its children are
    // appended to that parent's list.
    let mut t = Treewm::new(ModifierKey::Ctrl);
    let p = open(&mut t); // 0
    t.focus_clear();
    let d = open(&mut t); // 1, a root for now
    let o = t.add_window(); // 2, child of 1
    t.windows[1].parent_id = Some(p);
    let (_, _) = t.remove_window(1);
    assert_eq!(window(&t, p).children, vec![o]);
    assert_eq!(window(&t, o).parent_id, Some(p));
    let _ = d;
}

#[test]
fn tiling_root_follows_focus_when_closed() {
    let mut t = Treewm::new(ModifierKey::Ctrl);
    t.tiling_root_id = Some(5);
    t.focused_window_id = Some(2);
    t.retarget_tiling_root(4);
    assert_eq!(t.tiling_root_id, Some(5));
    t.retarget_tiling_root(5);
    assert_eq!(t.tiling_root_id, Some(2));
}

#[test]
fn navigation_parent_child_and_siblings() {
    let mut t = Treewm::new(ModifierKey::Ctrl);
    let root = open(&mut t);
    let a = t.add_window();
    let b = t.add_window();
    let c = t.add_window();
    t.focus_by_id(root);
    assert_eq!(t.parent_target(), None);
    assert_eq!(t.first_child_target(), Some(a));
    t.focus_by_id(a);
    assert_eq!(t.parent_target(), Some(root));
    assert_eq!(t.next_sibling_target(), Some(b));
    t.focus_by_id(c);
    // Wraps around to the first sibling.
    assert_eq!(t.next_sibling_target(), Some(a));
    assert_eq!(t.first_child_target(), None);
    // A lone root has no next sibling.
    t.focus_by_id(root);
    assert_eq!(t.next_sibling_target(), None);
    t.focus_clear();
    assert_eq!(t.parent_target(), None);
    assert_eq!(t.next_sibling_target(), None);
}

#[test]
fn child_then_parent_returns() {
    let mut t = Treewm::new(ModifierKey::Ctrl);
    let root = open(&mut t);
    let _ = open(&mut t);
    t.focus_by_id(root);
    let child = t.first_child_target().unwrap();
    t.focus_tree_target(child);
    assert_eq!(t.tiling_root_id, Some(child));
    assert_eq!(t.parent_target(), Some(root));
}

#[test]
fn fullscreen_toggle_round_trip() {
    let mut t = Treewm::new(ModifierKey::Ctrl);
    let a = open(&mut t);
    let first = t.toggle_fullscreen(1920, 1080).unwrap();
    assert_eq!(first, FullscreenChange { id: a, entered: true, width: 1920, height: 1080 });
    assert!(window(&t, a).is_fullscreen);
    assert_eq!(window(&t, a).pre_fullscreen_width, 800);
    let second = t.toggle_fullscreen(1280, 720).unwrap();
    assert_eq!(second, FullscreenChange { id: a, entered: false, width: 800, height: 600 });
    assert_eq!(window(&t, a).base_width, 800);
    assert_eq!(window(&t, a).base_height, 600);
    assert!(!window(&t, a).is_fullscreen);
    t.focus_clear();
    assert_eq!(t.toggle_fullscreen(1, 1), None);
}

#[test]
fn view_mode_switching() {
    let mut t = Treewm::new(ModifierKey::Ctrl);
    t.focused_window_id = Some(3);
    assert_eq!(t.toggle_view_mode(), ViewMode::TreeView);
    assert_eq!(t.tiling_root_id, None);
    assert_eq!(t.toggle_view_mode(), ViewMode::Tiling);
    assert_eq!(t.tiling_root_id, Some(3));
    t.tiling_root_id = Some(9);
    assert!(!t.set_view_mode(ViewMode::Tiling));
    assert_eq!(t.tiling_root_id, Some(9));
    assert!(t.set_view_mode(ViewMode::TreeView));
    assert_eq!(t.view_mode, ViewMode::TreeView);
    assert!(t.set_view_mode(ViewMode::Tiling));
    assert_eq!(t.tiling_root_id, Some(3));
}

#[test]
fn closing_the_window_just_opened_restores_the_tree() {
    let mut t = Treewm::new(ModifierKey::Ctrl);
    let a = open(&mut t);
    let b = open(&mut t);
    open(&mut t);
    t.focus_by_id(b);
    let before: Vec<(u32, Option<u32>, Vec<u32>)> =
        t.windows.iter().map(|w| (w.id, w.parent_id, w.children.clone())).collect();
    let d = open(&mut t);
    assert_eq!(window(&t, b).children.last(), Some(&d));
    let pos = t.windows.len() - 1;
    let (dead, focus) = t.remove_window(pos);
    assert_eq!(dead, d);
    assert_eq!(focus, FocusChange::Focus(b));
    let after: Vec<(u32, Option<u32>, Vec<u32>)> =
        t.windows.iter().map(|w| (w.id, w.parent_id, w.children.clone())).collect();
    assert_eq!(after, before);
    assert_eq!(window(&t, a).children, vec![b]);
}

#[test]
fn next_sibling_goes_round_all_siblings() {
    let mut t = Treewm::new(ModifierKey::Ctrl);
    let p = open(&mut t);
    let mut kids = Vec::new();
    for _ in 0..4 {
        t.focus_by_id(p);
        kids.push(open(&mut t));
    }
    t.focus_by_id(kids[2]);
    let mut seen = Vec::new();
    for _ in 0..kids.len() {
        let next = t.next_sibling_target().unwrap();
        seen.push(next);
        t.focus_tree_target(next);
    }
    assert_eq!(seen, vec![kids[3], kids[0], kids[1], kids[2]]);
    assert_eq!(t.focused_window_id, Some(kids[2]));
}

#[test]
fn windows_under_a_closed_parent_stay_a_forest() {
    let mut t = Treewm::new(ModifierKey::Ctrl);
    let a = open(&mut t);
    let b = open(&mut t);
    let pos_b = t.windows.iter().position(|w| w.id == b).unwrap();
    let (_, focus) = t.remove_window(pos_b);
    assert_eq!(focus, FocusChange::Focus(a));
    t.focus_by_id(a);
    // Focus names the closed window, as an IPC request can make it do.
    t.focus_by_id(b);
    let c = open(&mut t);
    assert_eq!(window(&t, c).parent_id, Some(b));
    assert_eq!(window(&t, a).children, Vec::<u32>::new());
    // Closing the root leaves the dangling window alone, and focus moves to it.
    let (dead, focus) = t.remove_window(0);
    assert_eq!(dead, a);
    assert_eq!(focus, FocusChange::Keep);
    assert_eq!(ids(&t), vec![c]);
    let (_, focus) = t.remove_window(0);
    assert_eq!(focus, FocusChange::Clear);
}

#[test]
fn focus_on_an_unissued_id_names_a_parent_before_it_exists() {
    let mut t = Treewm::new(ModifierKey::Ctrl);
    t.focus_by_id(2);
    let a = open(&mut t);
    assert_eq!(window(&t, a).parent_id, Some(2));
    let b = open(&mut t);
    let c = open(&mut t);
    assert_eq!(c, 2);
    // Window 2 now exists but does not list window 0, which names it as parent.
    assert_eq!(window(&t, c).children, Vec::<u32>::new());
    assert_eq!(window(&t, b).children, vec![c]);
}

#[test]
fn set_window_size_changes_only_that_window() {
    let mut t = Treewm::new(ModifierKey::Ctrl);
    let a = open(&mut t);
    let b = open(&mut t);
    assert!(t.set_window_size(b, 640, 480));
    assert_eq!((window(&t, b).base_width, window(&t, b).base_height), (640, 480));
    assert_eq!((window(&t, a).base_width, window(&t, a).base_height), (800, 600));
    assert!(!t.set_window_size(42, 1, 1));
    assert_eq!(window(&t, a).children, vec![b]);
}
