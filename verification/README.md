# treewm

A Wayland compositor that keeps its windows in a tree: every new window
opens as a child of the focused one. Windows are shown either tiled (the
tiling root's subtree partitions the screen) or as a tree laid out on an
infinite canvas.

## Layout

- `src/` — the verified library (Verus):
  - `state.rs`: the window list, its model and lookups;
  - `tree.rs`, `tree_wf.rs`: opening and closing windows, the invariants
    (acyclic forest in general, the ID-ordered forest that the compositor
    keeps, and the stronger tree invariant), the proofs that both operations keep them and
    keep focus on an existing window, and that closing the window just
    opened undoes the opening;
  - `ancestry.rs`: parent chains;
  - `nav.rs`: focus, tree navigation, fullscreen, view modes, zoom phases;
  - `input.rs`: key bindings, keyboard and pointer resizing, border hits;
  - `layout.rs`: the tiling layout as halvings of the screen, with the proof
    that every window of the tiling root's subtree gets exactly one slot and
    that no two slots overlap;
  - `widths.rs`: subtree widths for the tree view;
  - `views.rs`: the printed outline, drawing order and connector lines;
  - `names.rs`: mode, modifier and window-ID names.
- `tests/` — tests of the library on concrete values.
- `app/` — the compositor around the library: Wayland protocol handlers,
  rendering, the winit backend, IPC over a Unix socket, configuration and
  the floating-point canvas geometry.
