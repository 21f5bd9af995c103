use treewm::nav::{zoom_step, ZoomPhase, ZoomStep};
use treewm::state::{ModifierKey, Treewm, ViewMode};
use treewm::views::OutlineEntry;

fn sample() -> Treewm {
    let mut t = Treewm::new(ModifierKey::Ctrl);
    let root = t.add_window(); // 0
    t.focus_by_id(root);
    let a = t.add_window(); // 1
    t.focus_by_id(a);
    let _a1 = t.add_window(); // 2
    t.focus_clear();
    let _r2 = t.add_window(); // 3
    t.focus_by_id(a);
    t
}

#[test]
fn outline_is_preorder_from_the_roots() {
    let t = sample();
    let out = t.print_tree().unwrap();
    assert_eq!(
        out,
        vec![
            OutlineEntry { depth: 0, id: 0, parent_id: None, focused: false },
            OutlineEntry { depth: 1, id: 1, parent_id: Some(0), focused: true },
            OutlineEntry { depth: 2, id: 2, parent_id: Some(1), focused: false },
            OutlineEntry { depth: 0, id: 3, parent_id: None, focused: false },
        ]
    );
    assert_eq!(Treewm::new(ModifierKey::Ctrl).print_tree().unwrap(), vec![]);
}

#[test]
fn draw_order_puts_focus_first() {
    let mut t = sample();
    t.view_mode = ViewMode::TreeView;
    assert_eq!(t.render_order(&vec![]), vec![1, 0, 2, 3]);
    t.view_mode = ViewMode::Tiling;
    // Only windows with a tiling slot are drawn.
    assert_eq!(t.render_order(&vec![0, 2]), vec![0, 2]);
    assert_eq!(t.render_order(&vec![1, 3]), vec![1, 3]);
}

#[test]
fn connectors_skip_roots_and_fullscreen() {
    let mut t = sample();
    assert_eq!(t.connector_pairs(), vec![(1, 0), (2, 1)]);
    t.windows[2].is_fullscreen = true;
    assert_eq!(t.connector_pairs(), vec![(1, 0)]);
    // A parent that does not exist draws no line.
    t.windows[1].parent_id = Some(50);
    assert_eq!(t.connector_pairs(), vec![]);
}

#[test]
fn zoom_animation_phases() {
    let out = ZoomPhase { returning: false, animating: true };
    assert_eq!(zoom_step(false, out), ZoomStep { start_return: false, phase: out });
    let s = zoom_step(true, out);
    assert_eq!(s, ZoomStep { start_return: true, phase: ZoomPhase { returning: true, animating: true } });
    let s2 = zoom_step(true, s.phase);
    assert_eq!(s2, ZoomStep { start_return: false, phase: ZoomPhase { returning: true, animating: false } });
    let idle = ZoomPhase { returning: false, animating: false };
    assert_eq!(zoom_step(true, idle), ZoomStep { start_return: false, phase: idle });
}

#[test]
fn outline_lists_each_window_under_a_root_once() {
    let mut t = sample();
    // A window under a parent that does not exist belongs to no root.
    t.focus_by_id(77);
    let stray = t.add_window();
    t.focus_by_id(2);
    let deep = t.add_window();
    let mut ids: Vec<u32> = t.print_tree().unwrap().iter().map(|e| e.id).collect();
    ids.sort();
    assert_eq!(ids, vec![0, 1, 2, 3, deep]);
    assert!(!ids.contains(&stray));
}
