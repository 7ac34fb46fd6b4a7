use tile_dock::events::{EventQueue, UIEvent};
use tile_dock::floating::FloatingPanelState;
use tile_dock::panel::{MockPanel, PanelId, Pos, Rect};
use tile_dock::session::{DockState, LayoutError};
use tile_dock::tiles::{Container, ContainerKind, Tile, TileId};
use tile_dock::tree::SimplificationOptions;

fn plain_options() -> SimplificationOptions {
    SimplificationOptions {
        prune_empty_tabs: true,
        prune_empty_containers: true,
        prune_single_child_tabs: false,
        prune_single_child_containers: false,
        all_panes_must_have_tabs: false,
    }
}

#[test]
fn mock_panel_new_records_its_fields() {
    let p = MockPanel::new(3, "Stats", true);
    assert_eq!(p.id, 3);
    assert_eq!(p.title, "Stats");
    assert!(p.is_permanent);
}

#[test]
fn panel_ids_have_distinct_keys_and_titles() {
    let all = [
        PanelId::Scene,
        PanelId::Settings,
        PanelId::Presets,
        PanelId::Stats,
        PanelId::Dataset,
    ];
    for (i, a) in all.iter().enumerate() {
        for b in all.iter().skip(i + 1) {
            assert_ne!(a.key(), b.key());
            assert_ne!(a.title(), b.title());
        }
    }
    assert_eq!(PanelId::Scene.title(), "Scene");
    assert_eq!(PanelId::Settings.key(), 2);
}

#[test]
fn default_rects_depend_on_the_title() {
    let s = DockState::new(plain_options());
    assert_eq!(
        s.get_default_rect("Settings"),
        Rect { x: 750, y: 50, w: 250, h: 300 },
    );
    assert_eq!(
        s.get_default_rect("Properties"),
        Rect { x: 750, y: 400, w: 250, h: 300 },
    );
    assert_eq!(
        s.get_default_rect("Scene"),
        Rect { x: 100, y: 100, w: 200, h: 200 },
    );
}

#[test]
fn initial_layout_docks_all_five_panels() {
    let s = DockState::initial_layout(plain_options());
    assert!(s.tree.root.is_some());
    assert!(s.validate_invariants());
    let mut docked: Vec<u32> = Vec::new();
    for e in &s.tree.tiles.entries {
        if let Tile::Pane(p) = &e.tile {
            docked.push(p.id);
        }
    }
    docked.sort();
    assert_eq!(docked, vec![1, 2, 3, 4, 5]);
    assert!(s.floating_panels.entries.is_empty());
    // The root is a horizontal split over three columns.
    match s.tree.tiles.get(s.tree.root.unwrap()) {
        Some(Tile::Container(c)) => {
            assert_eq!(c.kind(), ContainerKind::Horizontal);
            assert_eq!(c.children().len(), 3);
        },
        _ => panic!("expected a horizontal root"),
    }
}

#[test]
fn find_dock_target_returns_first_tabs_in_arena_order() {
    let mut s = DockState::new(plain_options());
    let a = s.tree.tiles.insert_pane(MockPanel::new(1, "A", false));
    let b = s.tree.tiles.insert_pane(MockPanel::new(2, "B", false));
    let t1 = s.tree.tiles.insert_tab_tile(vec![a]);
    let t2 = s.tree.tiles.insert_tab_tile(vec![b]);
    let h = s.tree.tiles.insert_horizontal_tile(vec![t1, t2]);
    s.tree.root = Some(h);
    assert_eq!(s.find_dock_target(), Ok(t1));
    assert_eq!(s.find_main_tabs_container_id(), Some(t1));
    assert_eq!(s.find_all_tabs_containers(), vec![t1, t2]);
}

#[test]
fn find_dock_target_fails_without_any_tabs() {
    let s = DockState::new(plain_options());
    assert_eq!(s.find_dock_target(), Err(LayoutError::StructuralError));
    assert_eq!(s.find_main_tabs_container_id(), None);
    assert!(s.find_all_tabs_containers().is_empty());
}

#[test]
fn nearest_tabs_prefers_a_container_with_children() {
    let mut s = DockState::new(plain_options());
    let empty_tabs = s.tree.tiles.insert_tab_tile(vec![]);
    let a = s.tree.tiles.insert_pane(MockPanel::new(1, "A", false));
    let full_tabs = s.tree.tiles.insert_tab_tile(vec![a]);
    let h = s.tree.tiles.insert_horizontal_tile(vec![empty_tabs, full_tabs]);
    s.tree.root = Some(h);
    let pos = Pos { x: 10, y: 20 };
    assert_eq!(s.find_nearest_tabs_container(pos), Some(full_tabs));
}

#[test]
fn activate_tab_switches_the_active_child() {
    let mut s = DockState::new(plain_options());
    let a = s.tree.tiles.insert_pane(MockPanel::new(1, "A", false));
    let b = s.tree.tiles.insert_pane(MockPanel::new(2, "B", false));
    let t = s.tree.tiles.insert_tab_tile(vec![a, b]);
    s.tree.root = Some(t);
    assert_eq!(s.handle_request_activate_tab(b), Ok(()));
    match s.tree.tiles.get(t) {
        Some(Tile::Container(Container::Tabs(tabs))) => assert_eq!(tabs.active, Some(b)),
        _ => panic!("expected tabs"),
    }
    assert_eq!(s.handle_request_activate_tab(a), Ok(()));
    match s.tree.tiles.get(t) {
        Some(Tile::Container(Container::Tabs(tabs))) => assert_eq!(tabs.active, Some(a)),
        _ => panic!("expected tabs"),
    }
}

#[test]
fn activate_tab_rejects_roots_and_non_tabs_parents() {
    let mut s = DockState::new(plain_options());
    let a = s.tree.tiles.insert_pane(MockPanel::new(1, "A", false));
    let b = s.tree.tiles.insert_pane(MockPanel::new(2, "B", false));
    let t = s.tree.tiles.insert_tab_tile(vec![a]);
    let v = s.tree.tiles.insert_vertical_tile(vec![t, b]);
    s.tree.root = Some(v);
    // The root has no parent.
    assert_eq!(
        s.handle_request_activate_tab(v),
        Err(LayoutError::StructuralError),
    );
    // B's parent is a vertical split, not a tabs container.
    assert_eq!(
        s.handle_request_activate_tab(b),
        Err(LayoutError::StructuralError),
    );
}

#[test]
fn structural_errors_on_unknown_subjects() {
    let mut s = DockState::new(plain_options());
    assert_eq!(
        s.handle_undock_panel(TileId(999)),
        Err(LayoutError::StructuralError),
    );
    assert_eq!(
        s.handle_close_from_tree(TileId(999)),
        Err(LayoutError::StructuralError),
    );
    assert_eq!(s.handle_close_floating(999), Err(LayoutError::StructuralError));
    assert_eq!(s.handle_reopen_panel(999), Err(LayoutError::StructuralError));
    assert_eq!(s.handle_dock_panel(999), Err(LayoutError::StructuralError));
    assert_eq!(
        s.handle_dock_panel_to_target(999, None, None),
        Err(LayoutError::StructuralError),
    );
}

#[test]
fn undocking_the_root_pane_is_refused() {
    let mut s = DockState::new(plain_options());
    let a = s.tree.tiles.insert_pane(MockPanel::new(1, "A", false));
    s.tree.root = Some(a);
    assert_eq!(s.handle_undock_panel(a), Err(LayoutError::StructuralError));
    assert_eq!(s.tree.root, Some(a));
}

#[test]
fn dock_to_target_uses_a_valid_hint() {
    let mut s = DockState::new(plain_options());
    let a = s.tree.tiles.insert_pane(MockPanel::new(1, "A", false));
    let b = s.tree.tiles.insert_pane(MockPanel::new(2, "B", false));
    let t1 = s.tree.tiles.insert_tab_tile(vec![a]);
    let t2 = s.tree.tiles.insert_tab_tile(vec![b]);
    let h = s.tree.tiles.insert_horizontal_tile(vec![t1, t2]);
    s.tree.root = Some(h);
    s.floating_panels.insert(
        7,
        FloatingPanelState::new(MockPanel::new(7, "X", false), true, None, None),
    );
    let pos = Pos { x: 0, y: 0 };
    assert_eq!(s.handle_dock_panel_to_target(7, Some(t2), Some(pos)), Ok(()));
    match s.tree.tiles.get(t2) {
        Some(Tile::Container(Container::Tabs(tabs))) => {
            assert_eq!(tabs.children.len(), 2);
            assert_eq!(tabs.active, Some(tabs.children[1]));
        },
        _ => panic!("expected tabs"),
    }
}

#[test]
fn dock_to_target_falls_back_on_a_bogus_hint() {
    let mut s = DockState::new(plain_options());
    let a = s.tree.tiles.insert_pane(MockPanel::new(1, "A", false));
    let t1 = s.tree.tiles.insert_tab_tile(vec![a]);
    s.tree.root = Some(t1);
    s.floating_panels.insert(
        7,
        FloatingPanelState::new(MockPanel::new(7, "X", false), true, None, None),
    );
    assert_eq!(
        s.handle_dock_panel_to_target(7, Some(TileId(5555)), None),
        Ok(()),
    );
    match s.tree.tiles.get(t1) {
        Some(Tile::Container(Container::Tabs(tabs))) => assert_eq!(tabs.children.len(), 2),
        _ => panic!("expected tabs"),
    }
}

#[test]
fn dock_to_target_without_any_tabs_fails_cleanly() {
    let mut s = DockState::new(plain_options());
    s.floating_panels.insert(
        7,
        FloatingPanelState::new(MockPanel::new(7, "X", false), true, None, None),
    );
    assert_eq!(
        s.handle_dock_panel_to_target(7, None, None),
        Err(LayoutError::StructuralError),
    );
    // Unlike a plain dock, no root is synthesized; the panel stays floating.
    assert!(s.tree.root.is_none());
    assert!(s.floating_panels.get(7).unwrap().is_open);
}

#[test]
fn dock_prefers_the_remembered_parent() {
    let mut s = DockState::new(plain_options());
    let a = s.tree.tiles.insert_pane(MockPanel::new(1, "A", false));
    let b = s.tree.tiles.insert_pane(MockPanel::new(2, "B", false));
    let t1 = s.tree.tiles.insert_tab_tile(vec![a]);
    let t2 = s.tree.tiles.insert_tab_tile(vec![b]);
    let h = s.tree.tiles.insert_horizontal_tile(vec![t1, t2]);
    s.tree.root = Some(h);
    // The remembered parent is the second tabs container, not the first.
    s.floating_panels.insert(
        7,
        FloatingPanelState::new(MockPanel::new(7, "X", false), true, None, Some(t2)),
    );
    assert_eq!(s.handle_dock_panel(7), Ok(()));
    match s.tree.tiles.get(t2) {
        Some(Tile::Container(Container::Tabs(tabs))) => assert_eq!(tabs.children.len(), 2),
        _ => panic!("expected tabs"),
    }
    match s.tree.tiles.get(t1) {
        Some(Tile::Container(Container::Tabs(tabs))) => assert_eq!(tabs.children.len(), 1),
        _ => panic!("expected tabs"),
    }
}

#[test]
fn shares_follow_their_children() {
    let mut s = DockState::new(plain_options());
    let a = s.tree.tiles.insert_pane(MockPanel::new(1, "A", false));
    let b = s.tree.tiles.insert_pane(MockPanel::new(2, "B", false));
    let t1 = s.tree.tiles.insert_tab_tile(vec![a]);
    let t2 = s.tree.tiles.insert_tab_tile(vec![b]);
    let h = s.tree.tiles.insert_horizontal_tile(vec![t1, t2]);
    s.tree.tiles.set_share(h, t1, 30);
    s.tree.tiles.set_share(h, t2, 70);
    s.tree.root = Some(h);
    match s.tree.tiles.get(h) {
        Some(Tile::Container(Container::Linear(l))) => {
            assert_eq!(l.children, vec![t1, t2]);
            assert_eq!(l.shares, vec![30, 70]);
        },
        _ => panic!("expected a linear split"),
    }
}

#[test]
fn event_queue_preserves_order() {
    let mut q = EventQueue::new();
    assert!(q.is_empty());
    q.push(UIEvent::ReopenPanel { panel_id: 1 });
    q.push(UIEvent::ClosePanelFloating { panel_id: 2 });
    assert_eq!(q.len(), 2);
    assert_eq!(q.events[0], UIEvent::ReopenPanel { panel_id: 1 });
    assert_eq!(q.events[1], UIEvent::ClosePanelFloating { panel_id: 2 });
}
