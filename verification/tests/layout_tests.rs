use std::collections::HashMap;
use treewm::layout::Split::{Bottom, Left, Right, Top};
use treewm::layout::{Split, TilingLayout};
use treewm::state::{CanvasWindow, ModifierKey, Treewm};
use treewm::widths::{TREE_GAP, TREE_WINDOW_WIDTH};

fn slots(t: &Treewm) -> Vec<(u32, Vec<Split>)> {
    match t.tiling_layout() {
        TilingLayout::Slots(v) => v.into_iter().map(|s| (s.id, s.path)).collect(),
        TilingLayout::NoRoot => panic!("no root"),
        TilingLayout::TooDeep => panic!("too deep"),
    }
}

fn bare(id: u32, parent_id: Option<u32>, children: Vec<u32>) -> CanvasWindow {
    CanvasWindow {
        id,
        parent_id,
        children,
        base_width: 800,
        base_height: 600,
        is_fullscreen: false,
        pre_fullscreen_width: 800,
        pre_fullscreen_height: 600,
    }
}

#[test]
fn no_root_means_no_layout() {
    let t = Treewm::new(ModifierKey::Ctrl);
    assert!(matches!(t.tiling_layout(), TilingLayout::NoRoot));
}

#[test]
fn lone_window_fills_the_screen() {
    let mut t = Treewm::new(ModifierKey::Ctrl);
    let a = t.add_window();
    t.focus_by_id(a);
    assert_eq!(slots(&t), vec![(a, vec![])]);
}

#[test]
fn parent_left_children_stacked_right() {
    let mut t = Treewm::new(ModifierKey::Ctrl);
    let root = t.add_window();
    t.focus_by_id(root);
    let a = t.add_window();
    let b = t.add_window();
    let c = t.add_window();
    assert_eq!(
        slots(&t),
        vec![
            (root, vec![Left]),
            // Three siblings: the first one on top, the other two below.
            (a, vec![Right, Top]),
            (b, vec![Right, Bottom, Top]),
            (c, vec![Right, Bottom, Bottom]),
        ]
    );
}

#[test]
fn grandchildren_split_their_parents_slot() {
    let mut t = Treewm::new(ModifierKey::Ctrl);
    let root = t.add_window();
    t.focus_by_id(root);
    let a = t.add_window();
    let b = t.add_window();
    t.focus_by_id(a);
    let a1 = t.add_window();
    // The tiling root decides where the layout starts.
    t.tiling_root_id = Some(root);
    assert_eq!(
        slots(&t),
        vec![
            (root, vec![Left]),
            (a, vec![Right, Top, Left]),
            (a1, vec![Right, Top, Right]),
            (b, vec![Right, Bottom]),
        ]
    );
    t.tiling_root_id = Some(a);
    assert_eq!(slots(&t), vec![(a, vec![Left]), (a1, vec![Right])]);
}

#[test]
fn unknown_root_gets_the_screen() {
    let mut t = Treewm::new(ModifierKey::Ctrl);
    t.add_window();
    t.tiling_root_id = Some(42);
    assert_eq!(slots(&t), vec![(42, vec![])]);
}

#[test]
fn cycle_is_reported() {
    let mut t = Treewm::new(ModifierKey::Ctrl);
    t.windows.push(bare(0, Some(1), vec![1]));
    t.windows.push(bare(1, Some(0), vec![0]));
    t.next_window_id = 2;
    t.tiling_root_id = Some(0);
    assert!(matches!(t.tiling_layout(), TilingLayout::TooDeep));
}

fn width_of(w: &HashMap<u32, u64>, id: u32) -> u64 {
    *w.get(&id).unwrap()
}

#[test]
fn subtree_widths() {
    let mut t = Treewm::new(ModifierKey::Ctrl);
    let root = t.add_window();
    t.focus_by_id(root);
    let a = t.add_window();
    let b = t.add_window();
    let c = t.add_window();
    t.focus_by_id(a);
    let a1 = t.add_window();
    let a2 = t.add_window();
    let w = t.compute_subtree_widths();
    assert_eq!(w.len(), 6);
    assert_eq!(width_of(&w, a1), TREE_WINDOW_WIDTH);
    assert_eq!(width_of(&w, a2), TREE_WINDOW_WIDTH);
    assert_eq!(width_of(&w, a), 800 + 80 + 800);
    assert_eq!(width_of(&w, b), 800);
    assert_eq!(width_of(&w, c), 800);
    assert_eq!(width_of(&w, root), 1680 + 800 + 800 + 2 * TREE_GAP);
}

#[test]
fn single_child_is_not_narrower_than_a_window() {
    let mut t = Treewm::new(ModifierKey::Ctrl);
    let root = t.add_window();
    t.focus_by_id(root);
    let a = t.add_window();
    let w = t.compute_subtree_widths();
    assert_eq!(width_of(&w, root), 800);
    assert_eq!(width_of(&w, a), 800);
}

#[test]
fn unmeasurable_subtrees_are_one_window_wide() {
    let mut t = Treewm::new(ModifierKey::Ctrl);
    // 0 lists a missing child 9 next to 1; 2 and 3 form a cycle.
    t.windows.push(bare(0, None, vec![1, 9]));
    t.windows.push(bare(1, Some(0), vec![]));
    t.windows.push(bare(2, Some(3), vec![3, 1]));
    t.windows.push(bare(3, Some(2), vec![2]));
    t.next_window_id = 10;
    let w = t.compute_subtree_widths();
    assert_eq!(w.len(), 4);
    assert_eq!(width_of(&w, 0), 800);
    assert_eq!(width_of(&w, 1), 800);
    assert_eq!(width_of(&w, 2), 800);
    assert_eq!(width_of(&w, 3), 800);
}

#[test]
fn widths_do_not_depend_on_window_order() {
    let mut t = Treewm::new(ModifierKey::Ctrl);
    // Children listed before their parents.
    t.windows.push(bare(3, Some(1), vec![]));
    t.windows.push(bare(2, Some(1), vec![]));
    t.windows.push(bare(1, Some(0), vec![2, 3]));
    t.windows.push(bare(0, None, vec![1]));
    t.next_window_id = 4;
    let w = t.compute_subtree_widths();
    assert_eq!(width_of(&w, 1), 1680);
    assert_eq!(width_of(&w, 0), 1680);
}

#[test]
fn every_window_of_the_root_subtree_gets_exactly_one_slot() {
    let mut t = Treewm::new(ModifierKey::Ctrl);
    let a = t.add_window();
    t.focus_by_id(a);
    let b = t.add_window();
    let c = t.add_window();
    t.focus_by_id(b);
    let d = t.add_window();
    let e = t.add_window();
    t.focus_by_id(e);
    let f = t.add_window();
    // A second tree that the layout rooted at `b` must leave out.
    t.focus_clear();
    let other = t.add_window();
    t.tiling_root_id = Some(b);
    let mut got: Vec<u32> = slots(&t).into_iter().map(|(id, _)| id).collect();
    got.sort();
    assert_eq!(got, vec![b, d, e, f]);
    assert!(!got.contains(&a) && !got.contains(&c) && !got.contains(&other));
    t.tiling_root_id = Some(a);
    let mut all: Vec<u32> = slots(&t).into_iter().map(|(id, _)| id).collect();
    all.sort();
    assert_eq!(all, vec![a, b, c, d, e, f]);
}
