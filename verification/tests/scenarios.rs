use tile_dock::events::{EventQueue, UIEvent};
use tile_dock::floating::FloatingPanelState;
use tile_dock::panel::{MockPanel, Rect};
use tile_dock::session::{DockState, LayoutError};
use tile_dock::tiles::{Container, Tile, TileId};
use tile_dock::tree::SimplificationOptions;

fn conservative_options() -> SimplificationOptions {
    SimplificationOptions {
        prune_empty_tabs: true,
        prune_empty_containers: true,
        prune_single_child_tabs: false,
        prune_single_child_containers: false,
        all_panes_must_have_tabs: false,
    }
}

fn tabs_of(s: &DockState, id: TileId) -> (Vec<TileId>, Option<TileId>) {
    match s.tree.tiles.get(id) {
        Some(Tile::Container(Container::Tabs(t))) => (t.children.clone(), t.active),
        _ => panic!("expected a tabs container"),
    }
}

/// Tabs container T holds panes A and B (active A); undocking A leaves T
/// with only B (B active), and registers A as a visible floating panel that
/// remembers T.  Docking A again re-appends it to T and activates it.
#[test]
fn undock_then_dock_restores_into_same_tabs() {
    let mut s = DockState::new(conservative_options());
    let a = s.tree.tiles.insert_pane(MockPanel::new(10, "A", false));
    let b = s.tree.tiles.insert_pane(MockPanel::new(11, "B", false));
    let t = s.tree.tiles.insert_tab_tile(vec![a, b]);
    s.tree.root = Some(t);
    assert!(s.validate_invariants());

    let r = s.handle_undock_panel(a);
    assert_eq!(r, Ok(()));
    let (children, active) = tabs_of(&s, t);
    assert_eq!(children, vec![b]);
    assert_eq!(active, Some(b));
    let fs = s.floating_panels.get(10).expect("A must be floating");
    assert!(fs.is_open);
    assert_eq!(fs.panel.id, 10);
    assert_eq!(fs.panel.title, "A");
    assert_eq!(fs.last_parent_id, Some(t));
    assert!(s.validate_invariants());

    let r2 = s.handle_dock_panel(10);
    assert_eq!(r2, Ok(()));
    assert!(s.floating_panels.get(10).is_none());
    let (children, active) = tabs_of(&s, t);
    assert_eq!(children.len(), 2);
    assert_eq!(children[0], b);
    let new_pane = children[1];
    assert_eq!(active, Some(new_pane));
    match s.tree.tiles.get(new_pane) {
        Some(Tile::Pane(p)) => {
            assert_eq!(p.id, 10);
            assert_eq!(p.title, "A");
            assert!(!p.is_permanent);
        },
        _ => panic!("expected the re-docked pane"),
    }
    assert!(s.validate_invariants());
}

/// Docking into an empty tree synthesizes a brand-new tabs root holding
/// only the docked pane.
#[test]
fn dock_into_empty_tree_synthesizes_tabs_root() {
    let mut s = DockState::new(conservative_options());
    s.floating_panels.insert(
        7,
        FloatingPanelState::new(MockPanel::new(7, "X", false), true, None, None),
    );
    let r = s.handle_dock_panel(7);
    assert_eq!(r, Ok(()));
    let root = s.tree.root.expect("a root must have been synthesized");
    let (children, active) = tabs_of(&s, root);
    assert_eq!(children.len(), 1);
    assert_eq!(active, Some(children[0]));
    match s.tree.tiles.get(children[0]) {
        Some(Tile::Pane(p)) => assert_eq!(p.id, 7),
        _ => panic!("expected the docked pane"),
    }
    assert!(s.floating_panels.get(7).is_none());
    assert!(s.validate_invariants());
}

/// A dock whose resolved target vanished fails, and the panel ends up as a
/// visible floating record with its pre-failure geometry retained.
#[test]
fn failed_dock_recovers_panel_with_geometry() {
    let mut s = DockState::new(conservative_options());
    let rect = Rect { x: 4, y: 8, w: 15, h: 16 };
    s.floating_panels.insert(
        7,
        FloatingPanelState::new(MockPanel::new(7, "X", false), false, Some(rect), None),
    );
    let tiles_before = s.tree.tiles.entries.len();
    let r = s.dock_panel_at(7, TileId(999_999));
    assert_eq!(r, Err(LayoutError::StructuralError));
    assert_eq!(s.tree.tiles.entries.len(), tiles_before);
    let fs = s.floating_panels.get(7).expect("the panel must not be lost");
    assert!(fs.is_open);
    assert_eq!(fs.rect, Some(rect));
    assert_eq!(fs.panel.id, 7);
    assert_eq!(fs.panel.title, "X");
    assert!(s.validate_invariants());
}

/// Undock and close on a pinned docked panel fail with a permission error
/// and leave the tree unchanged.
#[test]
fn pinned_panel_cannot_be_undocked_or_closed() {
    let mut s = DockState::new(conservative_options());
    let a = s.tree.tiles.insert_pane(MockPanel::new(20, "Pinned", true));
    let b = s.tree.tiles.insert_pane(MockPanel::new(21, "Other", false));
    let t = s.tree.tiles.insert_tab_tile(vec![a, b]);
    s.tree.root = Some(t);
    let before_children = tabs_of(&s, t);
    let before_len = s.tree.tiles.entries.len();

    assert_eq!(s.handle_undock_panel(a), Err(LayoutError::PermissionError));
    assert_eq!(tabs_of(&s, t), before_children);
    assert_eq!(s.tree.tiles.entries.len(), before_len);
    assert!(s.floating_panels.get(20).is_none());

    assert_eq!(s.handle_close_from_tree(a), Err(LayoutError::PermissionError));
    assert_eq!(tabs_of(&s, t), before_children);
    assert_eq!(s.tree.tiles.entries.len(), before_len);
    assert!(s.floating_panels.get(20).is_none());
    assert!(s.validate_invariants());
}

/// Closing a pinned floating panel also fails with a permission error.
#[test]
fn pinned_floating_panel_cannot_be_closed() {
    let mut s = DockState::new(conservative_options());
    s.floating_panels.insert(
        9,
        FloatingPanelState::new(MockPanel::new(9, "Pinned", true), true, None, None),
    );
    assert_eq!(s.handle_close_floating(9), Err(LayoutError::PermissionError));
    assert!(s.floating_panels.get(9).unwrap().is_open);
}

/// Closing an already-hidden panel and reopening an already-open panel are
/// no-ops that report success.
#[test]
fn close_and_reopen_are_idempotent() {
    let mut s = DockState::new(conservative_options());
    let rect = Rect { x: 1, y: 2, w: 3, h: 4 };
    s.floating_panels.insert(
        5,
        FloatingPanelState::new(MockPanel::new(5, "Y", false), false, Some(rect), None),
    );
    assert_eq!(s.handle_close_floating(5), Ok(()));
    let fs = s.floating_panels.get(5).unwrap();
    assert!(!fs.is_open);
    assert_eq!(fs.rect, Some(rect));

    s.floating_panels.insert(
        6,
        FloatingPanelState::new(MockPanel::new(6, "Z", false), true, Some(rect), None),
    );
    assert_eq!(s.handle_reopen_panel(6), Ok(()));
    let fs = s.floating_panels.get(6).unwrap();
    assert!(fs.is_open);
    assert_eq!(fs.rect, Some(rect));
    assert_eq!(fs.last_parent_id, None);
}

/// Closing a docked pane hides it: the record is not visible, has no
/// geometry yet, and remembers the parent for later redocking.
#[test]
fn close_from_tree_hides_panel_and_remembers_parent() {
    let mut s = DockState::new(conservative_options());
    let a = s.tree.tiles.insert_pane(MockPanel::new(30, "A", false));
    let b = s.tree.tiles.insert_pane(MockPanel::new(31, "B", false));
    let t = s.tree.tiles.insert_tab_tile(vec![a, b]);
    s.tree.root = Some(t);

    assert_eq!(s.handle_close_from_tree(a), Ok(()));
    let fs = s.floating_panels.get(30).expect("A must have a record");
    assert!(!fs.is_open);
    assert_eq!(fs.rect, None);
    assert_eq!(fs.last_parent_id, Some(t));
    let (children, _) = tabs_of(&s, t);
    assert_eq!(children, vec![b]);
    assert!(s.validate_invariants());
}

/// Reopening a hidden panel whose remembered parent is still a valid tabs
/// container redocks it there and activates it.
#[test]
fn reopen_redocks_into_remembered_parent() {
    let mut s = DockState::new(conservative_options());
    let a = s.tree.tiles.insert_pane(MockPanel::new(40, "A", false));
    let b = s.tree.tiles.insert_pane(MockPanel::new(41, "B", false));
    let t = s.tree.tiles.insert_tab_tile(vec![a, b]);
    s.tree.root = Some(t);
    assert_eq!(s.handle_close_from_tree(a), Ok(()));

    assert_eq!(s.handle_reopen_panel(40), Ok(()));
    assert!(s.floating_panels.get(40).is_none());
    let (children, active) = tabs_of(&s, t);
    assert_eq!(children.len(), 2);
    assert_eq!(active, Some(children[1]));
    match s.tree.tiles.get(children[1]) {
        Some(Tile::Pane(p)) => assert_eq!(p.id, 40),
        _ => panic!("expected the reopened pane"),
    }
    assert!(s.validate_invariants());
}

/// Reopening a hidden panel whose remembered parent is gone makes it a
/// visible floating window with a default geometry and no stale parent.
#[test]
fn reopen_falls_back_to_floating_when_parent_gone() {
    let mut s = DockState::new(conservative_options());
    s.floating_panels.insert(
        50,
        FloatingPanelState::new(
            MockPanel::new(50, "Settings", false),
            false,
            None,
            Some(TileId(424_242)),
        ),
    );
    assert_eq!(s.handle_reopen_panel(50), Ok(()));
    let fs = s.floating_panels.get(50).unwrap();
    assert!(fs.is_open);
    assert_eq!(fs.rect, Some(Rect { x: 750, y: 50, w: 250, h: 300 }));
    assert_eq!(fs.last_parent_id, None);
}

/// Undocking the last pane of a tabs container cascades: the emptied tabs
/// container is pruned from its parent, and an emptied parent is pruned in
/// turn.
#[test]
fn empty_containers_are_pruned_upward() {
    let mut s = DockState::new(conservative_options());
    let a = s.tree.tiles.insert_pane(MockPanel::new(60, "A", false));
    let other = s.tree.tiles.insert_pane(MockPanel::new(61, "Other", false));
    let t = s.tree.tiles.insert_tab_tile(vec![a]);
    let v = s.tree.tiles.insert_vertical_tile(vec![t]);
    let other_tabs = s.tree.tiles.insert_tab_tile(vec![other]);
    let h = s.tree.tiles.insert_horizontal_tile(vec![v, other_tabs]);
    s.tree.root = Some(h);

    assert_eq!(s.handle_undock_panel(a), Ok(()));
    assert!(s.tree.tiles.get(t).is_none());
    assert!(s.tree.tiles.get(v).is_none());
    match s.tree.tiles.get(h) {
        Some(Tile::Container(c)) => assert_eq!(c.children(), &vec![other_tabs]),
        _ => panic!("expected the root container to survive"),
    }
    assert_eq!(s.tree.root, Some(h));
    assert!(s.validate_invariants());
}

/// With single-child pruning enabled, a tabs container left with one child
/// collapses and its child takes its place under the parent.
#[test]
fn single_child_tabs_collapse_under_default_policy() {
    let mut s = DockState::new(SimplificationOptions::default());
    let a = s.tree.tiles.insert_pane(MockPanel::new(70, "A", false));
    let b = s.tree.tiles.insert_pane(MockPanel::new(71, "B", false));
    let c = s.tree.tiles.insert_pane(MockPanel::new(72, "C", false));
    let t = s.tree.tiles.insert_tab_tile(vec![a, b]);
    let ct = s.tree.tiles.insert_tab_tile(vec![c]);
    let h = s.tree.tiles.insert_horizontal_tile(vec![t, ct]);
    s.tree.root = Some(h);

    assert_eq!(s.handle_undock_panel(a), Ok(()));
    // The tabs container around B collapsed; B sits directly under the root.
    assert!(s.tree.tiles.get(t).is_none());
    match s.tree.tiles.get(h) {
        Some(Tile::Container(c)) => assert_eq!(c.children(), &vec![b, ct]),
        _ => panic!("expected the root container to survive"),
    }
    assert!(s.validate_invariants());
}

/// With `all_panes_must_have_tabs`, a tabs container keeps a lone pane
/// child instead of collapsing.
#[test]
fn lone_pane_keeps_its_tab_bar_when_required() {
    let mut opts = SimplificationOptions::default();
    opts.all_panes_must_have_tabs = true;
    let mut s = DockState::new(opts);
    let a = s.tree.tiles.insert_pane(MockPanel::new(80, "A", false));
    let b = s.tree.tiles.insert_pane(MockPanel::new(81, "B", false));
    let t = s.tree.tiles.insert_tab_tile(vec![a, b]);
    let ct = s.tree.tiles.insert_tab_tile(vec![]);
    let h = s.tree.tiles.insert_horizontal_tile(vec![t, ct]);
    s.tree.root = Some(h);

    assert_eq!(s.handle_undock_panel(a), Ok(()));
    let (children, active) = tabs_of(&s, t);
    assert_eq!(children, vec![b]);
    assert_eq!(active, Some(b));
    assert!(s.validate_invariants());
}

/// Events are drained once per tick, strictly in enqueue order; a failing
/// event never aborts the rest of the queue.
#[test]
fn queue_is_drained_in_order_and_failures_do_not_abort() {
    let mut s = DockState::new(conservative_options());
    let a = s.tree.tiles.insert_pane(MockPanel::new(90, "A", false));
    let b = s.tree.tiles.insert_pane(MockPanel::new(91, "B", false));
    let t = s.tree.tiles.insert_tab_tile(vec![a, b]);
    s.tree.root = Some(t);

    let mut q = EventQueue::new();
    q.push(UIEvent::UndockPanel { tile_id: a });
    // This one fails (no such panel); the dock after it must still run.
    q.push(UIEvent::DockPanel { panel_id: 12345 });
    q.push(UIEvent::DockPanel { panel_id: 90 });
    s.process_events(&mut q);

    assert_eq!(q.len(), 0);
    assert!(s.floating_panels.get(90).is_none());
    let (children, active) = tabs_of(&s, t);
    assert_eq!(children.len(), 2);
    assert_eq!(active, Some(children[1]));
    assert!(s.validate_invariants());
}

/// Round trip when the remembered parent has vanished: the panel still
/// redocks, into another tabs container, with its content untouched.
#[test]
fn round_trip_survives_a_vanished_parent() {
    let mut s = DockState::new(conservative_options());
    let a = s.tree.tiles.insert_pane(MockPanel::new(100, "A", false));
    let other = s.tree.tiles.insert_pane(MockPanel::new(101, "Other", false));
    let t = s.tree.tiles.insert_tab_tile(vec![a]);
    let other_tabs = s.tree.tiles.insert_tab_tile(vec![other]);
    let h = s.tree.tiles.insert_horizontal_tile(vec![t, other_tabs]);
    s.tree.root = Some(h);

    assert_eq!(s.handle_undock_panel(a), Ok(()));
    // The emptied tabs container was pruned, so the remembered parent is gone.
    assert!(s.tree.tiles.get(t).is_none());
    assert_eq!(s.floating_panels.get(100).unwrap().last_parent_id, Some(t));

    assert_eq!(s.handle_dock_panel(100), Ok(()));
    let (children, active) = tabs_of(&s, other_tabs);
    assert_eq!(children.len(), 2);
    assert_eq!(active, Some(children[1]));
    match s.tree.tiles.get(children[1]) {
        Some(Tile::Pane(p)) => {
            assert_eq!(p.id, 100);
            assert_eq!(p.title, "A");
        },
        _ => panic!("expected the re-docked pane"),
    }
    assert!(s.validate_invariants());
}

/// The unified close entry dispatches on the presence of a tile handle.
#[test]
fn close_panel_dispatches_on_tile_handle() {
    let mut s = DockState::new(conservative_options());
    let a = s.tree.tiles.insert_pane(MockPanel::new(110, "A", false));
    let b = s.tree.tiles.insert_pane(MockPanel::new(111, "B", false));
    let t = s.tree.tiles.insert_tab_tile(vec![a, b]);
    s.tree.root = Some(t);
    s.floating_panels.insert(
        112,
        FloatingPanelState::new(MockPanel::new(112, "C", false), true, None, None),
    );

    assert_eq!(s.handle_close_panel(110, Some(a)), Ok(()));
    assert!(!s.floating_panels.get(110).unwrap().is_open);
    assert_eq!(s.handle_close_panel(112, None), Ok(()));
    assert!(!s.floating_panels.get(112).unwrap().is_open);
    assert!(s.validate_invariants());
}

/// The shape diagnostic reports a container naming a handle that does not
/// resolve.
#[test]
fn validate_invariants_reports_dangling_children() {
    let mut s = DockState::new(conservative_options());
    let a = s.tree.tiles.insert_pane(MockPanel::new(120, "A", false));
    let t = s.tree.tiles.insert_tab_tile(vec![a]);
    s.tree.root = Some(t);
    assert!(s.validate_invariants());
    // Corrupt the state on purpose: a child handle with no arena entry.
    for e in &mut s.tree.tiles.entries {
        if let Tile::Container(Container::Tabs(tabs)) = &mut e.tile {
            tabs.children.push(TileId(31_337));
        }
    }
    assert!(!s.validate_invariants());
}

/// The exclusivity diagnostic reports a panel that is both docked and
/// registered as floating.
#[test]
fn validate_invariants_reports_double_residence() {
    let mut s = DockState::new(conservative_options());
    let a = s.tree.tiles.insert_pane(MockPanel::new(95, "A", false));
    let t = s.tree.tiles.insert_tab_tile(vec![a]);
    s.tree.root = Some(t);
    assert!(s.validate_invariants());
    // Corrupt the state on purpose: the same identity in both places.
    s.floating_panels.insert(
        95,
        FloatingPanelState::new(MockPanel::new(95, "A", false), true, None, None),
    );
    assert!(!s.validate_invariants());
}
